//! A whole TIFF file: its chain of directories and the raster of the first.
use vstd::prelude::*;
use crate::bytes::ByteOrder;
use crate::reader::{
    IFD, IFDModel, EntryModel, TiffError, header_spec, chain_spec, parse_header, read_chain, ifd_spec,
    entry_spec, record_pos, value_at, lemma_chain_ifds_at_offsets, lemma_ifd_entries_from_records,
};
use crate::bytes::uint_at;
use crate::lowlevel::tag_width;
use crate::image::{image_error, grid_matches, grid_view, layout_spec, assemble_image};

verus! {

/// A decoded TIFF file: its byte order, its directories in chain order and
/// the samples of the first directory's raster, indexed `[row][column][sample]`.
#[derive(Debug)]
pub struct TIFF {
    pub byte_order: ByteOrder,
    pub ifds: Vec<IFD>,
    pub image_data: Vec<Vec<Vec<usize>>>,
}

pub open spec fn ifds_view(ifds: Vec<IFD>) -> Seq<IFDModel> {
    ifds@.map_values(|i: IFD| i@)
}

/// The error that decoding the file `d` gives, if any: of the header, of the
/// chain of directories, or of the raster of the first directory.
pub open spec fn open_error(d: Seq<u8>) -> Option<TiffError> {
    match header_spec(d) {
        Err(e) => Some(e),
        Ok((o, first)) => match chain_spec(d, o, first, Seq::empty()) {
            Err(e) => Some(e),
            Ok(ifds) => image_error(d, ifds[0].entries),
        },
    }
}

proof fn lemma_chain_nonempty(d: Seq<u8>, o: ByteOrder, off: u32, visited: Seq<u32>)
    requires
        chain_spec(d, o, off, visited) is Ok,
    ensures
        chain_spec(d, o, off, visited).unwrap().len() >= 1,
{
}

impl TIFF {
    /// Decodes the TIFF file whose bytes are `data`. On success the byte
    /// order and first offset are the header's, the directories are the chain
    /// from that offset, and the raster is the one the first directory gives.
    pub fn open(data: &[u8]) -> (r: Result<TIFF, TiffError>)
        ensures
            match r {
                Ok(t) => open_error(data@) is None && header_spec(data@) is Ok && {
                    let (o, first) = header_spec(data@).unwrap();
                    &&& t.byte_order == o
                    &&& chain_spec(data@, o, first, Seq::empty()) == Ok::<
                        Seq<IFDModel>,
                        TiffError,
                    >(ifds_view(t.ifds))
                    &&& t.ifds@.len() >= 1
                    &&& grid_matches(
                        data@,
                        o,
                        layout_spec(t.ifds@[0]@.entries).unwrap(),
                        grid_view(t.image_data),
                    )
                },
                Err(e) => open_error(data@) == Some(e),
            },
    {
        let (o, first) = match parse_header(data) {
            Ok(h) => h,
            Err(e) => return Err(e),
        };
        let ifds = match read_chain(data, o, first) {
            Ok(v) => v,
            Err(e) => return Err(e),
        };
        proof {
            lemma_chain_nonempty(data@, o, first, Seq::empty());
        }
        assert(ifds_view(ifds)[0] == ifds@[0]@);
        let image_data = match assemble_image(data, o, &ifds[0]) {
            Ok(g) => g,
            Err(e) => return Err(e),
        };
        Ok(TIFF { byte_order: o, ifds, image_data })
    }

    /// The first sample of the pixel at row `lon`, column `lat`.
    pub fn get_value_at(&self, lon: usize, lat: usize) -> (r: usize)
        requires
            lon < self.image_data@.len(),
            lat < self.image_data@[lon as int]@.len(),
            self.image_data@[lon as int]@[lat as int]@.len() > 0,
        ensures
            r == self.image_data@[lon as int]@[lat as int]@[0],
    {
        self.image_data[lon][lat][0]
    }
}

/// The values of `e`, decoded from the record at `p`: from the record's own
/// 4-byte slot when `count * width <= 4`, else `count` values one after
/// another from the offset that the slot holds.
pub open spec fn values_from_record(d: Seq<u8>, o: ByteOrder, p: int, e: EntryModel) -> bool {
    let w = tag_width(e.tag_type);
    &&& e.value.len() == e.count
    &&& e.count * w <= 4 ==> e.value == Seq::new(e.count as nat, |i: int| value_at(d, o, e.tag_type, p + 8 + i * w))
    &&& e.count * w > 4 ==> e.value == Seq::new(
        e.count as nat,
        |i: int| value_at(d, o, e.tag_type, uint_at(d, o, p + 8, 4) + i * w),
    )
}

/// Every entry of every directory of a file that decodes is the decoding of
/// one 12-byte record of that directory, its values taken from the record's
/// slot or from the offset in it.
pub proof fn lemma_open_entries_from_records(d: Seq<u8>, k: int, m: int)
    requires
        open_error(d) is None,
        0 <= k < chain_spec(d, header_spec(d).unwrap().0, header_spec(d).unwrap().1, Seq::empty()).unwrap().len(),
        0 <= m < chain_spec(d, header_spec(d).unwrap().0, header_spec(d).unwrap().1, Seq::empty()).unwrap()[k].entries.len(),
    ensures
        ({
            let (o, first) = header_spec(d).unwrap();
            let ifd = chain_spec(d, o, first, Seq::empty()).unwrap()[k];
            exists|q: u32, j: int|
                ifd_spec(d, o, q as int) == Ok::<IFDModel, TiffError>(ifd) && 0 <= j < uint_at(d, o, q as int, 2)
                    && #[trigger] entry_spec(d, o, record_pos(q as int, j)) == Ok::<EntryModel, TiffError>(ifd.entries[m])
                    && values_from_record(d, o, record_pos(q as int, j), ifd.entries[m])
        }),
{
    let (o, first) = header_spec(d).unwrap();
    let ifd = chain_spec(d, o, first, Seq::empty()).unwrap()[k];
    lemma_chain_ifds_at_offsets(d, o, first, Seq::empty(), k);
    let q = choose|q: u32| #[trigger] ifd_spec(d, o, q as int) == Ok::<IFDModel, TiffError>(ifd);
    lemma_ifd_entries_from_records(d, o, q as int, m);
    let j = choose|j: int|
        0 <= j < uint_at(d, o, q as int, 2) && #[trigger] entry_spec(d, o, record_pos(q as int, j)) == Ok::<
            EntryModel,
            TiffError,
        >(ifd.entries[m]);
    let e = ifd.entries[m];
    let p = record_pos(q as int, j);
    assert(values_from_record(d, o, p, e));
}

} // verus!
