//! Reassembly of the raster of uncompressed, interleaved strips into a grid
//! of samples indexed `[row][column][sample]`.
use vstd::prelude::*;
use crate::bytes::{ByteOrder, uint_at, read_uint, lemma_pow256_values};
use crate::lowlevel::{
    TagValue, IMAGE_WIDTH_TAG, IMAGE_LENGTH_TAG, BITS_PER_SAMPLE_TAG, COMPRESSION_TAG,
    STRIP_OFFSETS_TAG, SAMPLES_PER_PIXEL_TAG, ROWS_PER_STRIP_TAG, STRIP_BYTE_COUNTS_TAG,
    PLANAR_CONFIGURATION_TAG, SAMPLE_FORMAT_TAG,
};
use crate::reader::{EntryModel, IFD, TiffError};

verus! {

/// Whether a value is an unsigned integer of at most 32 bits.
pub open spec fn is_uint(v: TagValue) -> bool {
    v is ByteValue || v is ShortValue || v is LongValue
}

/// The unsigned integer that a value holds (0 if it holds none).
pub open spec fn uint_of(v: TagValue) -> u32 {
    match v {
        TagValue::ByteValue(x) => x as u32,
        TagValue::ShortValue(x) => x as u32,
        TagValue::LongValue(x) => x,
        _ => 0,
    }
}

fn value_uint(v: &TagValue) -> (r: Option<u32>)
    ensures
        r == (if is_uint(*v) { Some(uint_of(*v)) } else { None::<u32> }),
{
    match *v {
        TagValue::ByteValue(x) => Some(x as u32),
        TagValue::ShortValue(x) => Some(x as u32),
        TagValue::LongValue(x) => Some(x),
        _ => None,
    }
}

/// The index of the first entry with `tag` among the first `k` entries.
pub open spec fn find_in(es: Seq<EntryModel>, tag: u16, k: nat) -> Option<int>
    decreases k,
{
    if k == 0 {
        None
    } else {
        match find_in(es, tag, (k - 1) as nat) {
            Some(i) => Some(i),
            None => if es[k - 1].tag == tag {
                Some(k - 1)
            } else {
                None
            },
        }
    }
}

proof fn lemma_find_in_stays(es: Seq<EntryModel>, tag: u16, k: nat, m: nat)
    requires
        k <= m,
        find_in(es, tag, k) is Some,
    ensures
        find_in(es, tag, m) == find_in(es, tag, k),
    decreases m - k,
{
    if k < m {
        lemma_find_in_stays(es, tag, k, (m - 1) as nat);
    }
}

/// Finds the first entry of `ifd` with tag code `tag`.
pub fn find_tag(ifd: &IFD, tag: u16) -> (r: Option<usize>)
    ensures
        match r {
            Some(i) => i < ifd.entries@.len() && find_in(ifd@.entries, tag, ifd@.entries.len())
                == Some(i as int),
            None => find_in(ifd@.entries, tag, ifd@.entries.len()) is None,
        },
{
    let mut k: usize = 0;
    while k < ifd.entries.len()
        invariant
            0 <= k <= ifd.entries@.len(),
            ifd@.entries.len() == ifd.entries@.len(),
            find_in(ifd@.entries, tag, k as nat) is None,
        decreases ifd.entries.len() - k,
    {
        assert(ifd@.entries[k as int] == ifd.entries@[k as int]@);
        if ifd.entries[k].tag == tag {
            proof {
                lemma_find_in_stays(ifd@.entries, tag, (k + 1) as nat, ifd@.entries.len());
            }
            return Some(k);
        }
        k = k + 1;
    }
    None
}

/// The first value of the first entry with `tag`, as an unsigned integer;
/// `dflt` where no entry has the tag.
pub open spec fn scalar_spec(es: Seq<EntryModel>, tag: u16, dflt: Option<u32>) -> Option<u32> {
    match find_in(es, tag, es.len()) {
        None => dflt,
        Some(i) => {
            let v = es[i].value;
            if v.len() > 0 && is_uint(v[0]) {
                Some(uint_of(v[0]))
            } else {
                None
            }
        },
    }
}

/// All values of the first entry with `tag`, as unsigned integers.
pub open spec fn list_spec(es: Seq<EntryModel>, tag: u16) -> Option<Seq<u32>> {
    match find_in(es, tag, es.len()) {
        None => None,
        Some(i) => {
            let v = es[i].value;
            if forall|j: int| 0 <= j < v.len() ==> is_uint(#[trigger] v[j]) {
                Some(Seq::new(v.len(), |j: int| uint_of(v[j])))
            } else {
                None
            }
        },
    }
}

fn scalar(ifd: &IFD, tag: u16, dflt: Option<u32>) -> (r: Option<u32>)
    ensures
        r == scalar_spec(ifd@.entries, tag, dflt),
{
    match find_tag(ifd, tag) {
        None => dflt,
        Some(i) => {
            assert(ifd@.entries[i as int] == ifd.entries@[i as int]@);
            let v = &ifd.entries[i].value;
            if v.len() > 0 {
                value_uint(&v[0])
            } else {
                None
            }
        },
    }
}

fn list(ifd: &IFD, tag: u16) -> (r: Option<Vec<u32>>)
    ensures
        match r {
            Some(v) => list_spec(ifd@.entries, tag) == Some(v@),
            None => list_spec(ifd@.entries, tag) is None,
        },
{
    match find_tag(ifd, tag) {
        None => None,
        Some(i) => {
            assert(ifd@.entries[i as int] == ifd.entries@[i as int]@);
            let v = &ifd.entries[i].value;
            let ghost vs = v@;
            assert(ifd@.entries[i as int].value == vs);
            let mut out: Vec<u32> = Vec::new();
            let mut j: usize = 0;
            while j < v.len()
                invariant
                    0 <= j <= v@.len(),
                    v@ == vs,
                    i < ifd.entries@.len(),
                    ifd@.entries[i as int].value == vs,
                    find_in(ifd@.entries, tag, ifd@.entries.len()) == Some(i as int),
                    forall|q: int| 0 <= q < j ==> is_uint(#[trigger] vs[q]),
                    out@ =~= Seq::new(j as nat, |q: int| uint_of(vs[q])),
                decreases v.len() - j,
            {
                match value_uint(&v[j]) {
                    Some(x) => out.push(x),
                    None => {
                        assert(ifd@.entries[i as int].value == vs);
                        assert(!is_uint(vs[j as int]));
                        return None;
                    },
                }
                j = j + 1;
                assert(out@ =~= Seq::new(j as nat, |q: int| uint_of(vs[q])));
            }
            Some(out)
        },
    }
}

/// The geometry of the raster, from the tags of a directory.
pub struct Layout {
    pub width: nat,
    pub length: nat,
    pub spp: nat,
    pub bytes: nat,
    pub rps: nat,
    pub offsets: Seq<u32>,
    pub counts: Seq<u32>,
}

pub open spec fn bytes_of_bits(bits: u32) -> nat {
    if bits == 8 { 1 } else if bits == 16 { 2 } else { 4 }
}

/// Every sample is an unsigned integer: the sample format tag is absent, or
/// all its values are 1.
pub open spec fn unsigned_samples(es: Seq<EntryModel>) -> bool {
    match find_in(es, SAMPLE_FORMAT_TAG, es.len()) {
        None => true,
        Some(_) => {
            let f = list_spec(es, SAMPLE_FORMAT_TAG);
            f is Some && forall|j: int| 0 <= j < f.unwrap().len() ==> #[trigger] f.unwrap()[j] == 1
        },
    }
}

/// The geometry that the tags give, if they give a supported one: width,
/// length and strip lists present; unsigned samples, interleaved (planar
/// configuration 1); samples per pixel 1, bits per sample 8, rows per strip
/// the image length, compression none and planar configuration 1 where absent.
pub open spec fn layout_spec(es: Seq<EntryModel>) -> Option<Layout> {
    let w = scalar_spec(es, IMAGE_WIDTH_TAG, None);
    let h = scalar_spec(es, IMAGE_LENGTH_TAG, None);
    let spp = scalar_spec(es, SAMPLES_PER_PIXEL_TAG, Some(1));
    let bps = scalar_spec(es, BITS_PER_SAMPLE_TAG, Some(8));
    let rps = scalar_spec(es, ROWS_PER_STRIP_TAG, h);
    let comp = scalar_spec(es, COMPRESSION_TAG, Some(1));
    let offs = list_spec(es, STRIP_OFFSETS_TAG);
    let cnts = list_spec(es, STRIP_BYTE_COUNTS_TAG);
    let planar = scalar_spec(es, PLANAR_CONFIGURATION_TAG, Some(1));
    if unsigned_samples(es) && planar == Some(1u32) && w is Some && h is Some && spp is Some && bps is Some && rps is Some && comp is Some
        && offs is Some && cnts is Some && w.unwrap() > 0 && h.unwrap() > 0 && spp.unwrap() > 0
        && rps.unwrap() > 0 && comp.unwrap() == 1 && (bps.unwrap() == 8 || bps.unwrap() == 16
        || bps.unwrap() == 32) {
        Some(
            Layout {
                width: w.unwrap() as nat,
                length: h.unwrap() as nat,
                spp: spp.unwrap() as nat,
                bytes: bytes_of_bits(bps.unwrap()),
                rps: rps.unwrap() as nat,
                offsets: offs.unwrap(),
                counts: cnts.unwrap(),
            },
        )
    } else {
        None
    }
}

pub open spec fn row_bytes(l: Layout) -> nat {
    l.width * l.spp * l.bytes
}

/// The number of rows that strip `i` holds.
pub open spec fn rows_of_strip(l: Layout, i: int) -> int {
    if l.length - i * l.rps < l.rps {
        l.length - i * l.rps
    } else {
        l.rps as int
    }
}

/// Strip `i` starts within the image and holds exactly the bytes of its rows.
pub open spec fn strip_exact(l: Layout, i: int) -> bool {
    i * l.rps < l.length && l.counts[i] == rows_of_strip(l, i) * row_bytes(l)
}

/// There are as many offsets as byte counts, and no strip holds a byte more
/// or less than its rows.
pub open spec fn strips_exact(l: Layout) -> bool {
    &&& l.offsets.len() == l.counts.len()
    &&& forall|i: int| 0 <= i < l.counts.len() ==> #[trigger] strip_exact(l, i)
}

/// Where strip `i` starts in the bytes of all strips joined in order.
pub open spec fn joined_start(counts: Seq<u32>, i: int) -> int
    decreases i,
{
    if i <= 0 {
        0
    } else {
        joined_start(counts, i - 1) + counts[i - 1]
    }
}

/// Every strip lies within the data.
pub open spec fn strips_in_data(d: Seq<u8>, l: Layout) -> bool {
    forall|i: int|
        0 <= i < l.offsets.len() && i < l.counts.len() ==> l.offsets[i] + l.counts[i] <= d.len()
}

/// Row `r` has a strip, and its strip holds it.
pub open spec fn row_fits(l: Layout, r: int) -> bool {
    let i = r / (l.rps as int);
    &&& i < l.offsets.len()
    &&& i < l.counts.len()
    &&& (r % (l.rps as int) + 1) * row_bytes(l) <= l.counts[i]
}

/// Every row has a strip, and its strip holds it.
pub open spec fn rows_in_strips(l: Layout) -> bool {
    forall|r: int| 0 <= r < l.length ==> #[trigger] row_fits(l, r)
}

/// Where sample `s` of column `c` of row `r` starts.
pub open spec fn sample_pos(l: Layout, r: int, c: int, s: int) -> int {
    l.offsets[r / (l.rps as int)] + (r % (l.rps as int)) * row_bytes(l) + (c * l.spp + s) * l.bytes
}

/// `g` is the raster of the layout, sample by sample.
pub open spec fn grid_matches(d: Seq<u8>, o: ByteOrder, l: Layout, g: Seq<Seq<Seq<usize>>>) -> bool {
    &&& g.len() == l.length
    &&& forall|r: int| 0 <= r < l.length ==> (#[trigger] g[r]).len() == l.width
    &&& forall|r: int, c: int|
        0 <= r < l.length && 0 <= c < l.width ==> (#[trigger] g[r][c]).len() == l.spp
    &&& forall|r: int, c: int, s: int|
        0 <= r < l.length && 0 <= c < l.width && 0 <= s < l.spp ==> #[trigger] g[r][c][s]
            == uint_at(d, o, sample_pos(l, r, c, s), l.bytes as int)
}

/// The error that assembling the raster of a directory gives, if any.
pub open spec fn image_error(d: Seq<u8>, es: Seq<EntryModel>) -> Option<TiffError> {
    match layout_spec(es) {
        None => Some(TiffError::ImageFormatError),
        Some(l) => if !strips_in_data(d, l) {
            Some(TiffError::IoError)
        } else if !rows_in_strips(l) || !strips_exact(l) {
            Some(TiffError::ImageFormatError)
        } else {
            None
        },
    }
}

pub open spec fn row_view(row: Vec<Vec<usize>>) -> Seq<Seq<usize>> {
    row@.map_values(|px: Vec<usize>| px@)
}

pub open spec fn grid_view(g: Vec<Vec<Vec<usize>>>) -> Seq<Seq<Seq<usize>>> {
    g@.map_values(|row: Vec<Vec<usize>>| row_view(row))
}

proof fn lemma_sample_in_row(w: nat, spp: nat, b: nat, c: nat, s: nat)
    requires
        c < w,
        s < spp,
    ensures
        (c * spp + s) * b + b <= w * spp * b,
        (c * spp + s) * b + b == (c * spp + s + 1) * b,
        (c * spp + spp) == (c + 1) * spp,
{
    assert(c * spp + s + 1 <= w * spp) by (nonlinear_arith)
        requires
            c < w,
            s < spp,
    ;
    assert((c * spp + s + 1) * b <= w * spp * b) by (nonlinear_arith)
        requires
            c * spp + s + 1 <= w * spp,
    ;
    assert((c * spp + s) * b + b == (c * spp + s + 1) * b) by (nonlinear_arith);
    assert((c * spp + spp) == (c + 1) * spp) by (nonlinear_arith);
}

struct StripLayout {
    width: u32,
    length: u32,
    spp: u32,
    bytes: u32,
    rps: u32,
    offsets: Vec<u32>,
    counts: Vec<u32>,
}

impl StripLayout {
    spec fn model(&self) -> Layout {
        Layout {
            width: self.width as nat,
            length: self.length as nat,
            spp: self.spp as nat,
            bytes: self.bytes as nat,
            rps: self.rps as nat,
            offsets: self.offsets@,
            counts: self.counts@,
        }
    }
}

fn all_ones(v: &Vec<u32>) -> (r: bool)
    ensures
        r == forall|j: int| 0 <= j < v@.len() ==> #[trigger] v@[j] == 1,
{
    let mut i: usize = 0;
    while i < v.len()
        invariant
            0 <= i <= v@.len(),
            forall|j: int| 0 <= j < i ==> #[trigger] v@[j] == 1,
        decreases v.len() - i,
    {
        if v[i] != 1 {
            return false;
        }
        i = i + 1;
    }
    true
}

fn read_layout(ifd: &IFD) -> (r: Option<StripLayout>)
    ensures
        match r {
            Some(l) => layout_spec(ifd@.entries) == Some(l.model()),
            None => layout_spec(ifd@.entries) is None,
        },
{
    let w = scalar(ifd, IMAGE_WIDTH_TAG, None);
    let h = scalar(ifd, IMAGE_LENGTH_TAG, None);
    let spp = scalar(ifd, SAMPLES_PER_PIXEL_TAG, Some(1));
    let bps = scalar(ifd, BITS_PER_SAMPLE_TAG, Some(8));
    let rps = scalar(ifd, ROWS_PER_STRIP_TAG, h);
    let comp = scalar(ifd, COMPRESSION_TAG, Some(1));
    let offsets = list(ifd, STRIP_OFFSETS_TAG);
    let counts = list(ifd, STRIP_BYTE_COUNTS_TAG);
    let planar = scalar(ifd, PLANAR_CONFIGURATION_TAG, Some(1));
    let unsigned = match find_tag(ifd, SAMPLE_FORMAT_TAG) {
        None => true,
        Some(_) => match list(ifd, SAMPLE_FORMAT_TAG) {
            None => false,
            Some(f) => {
                let ok = all_ones(&f);
                assert(list_spec(ifd@.entries, SAMPLE_FORMAT_TAG).unwrap() == f@);
                ok
            },
        },
    };
    assert(unsigned == unsigned_samples(ifd@.entries));
    if !unsigned || planar != Some(1u32) {
        return None;
    }
    match (w, h, spp, bps, rps, comp, offsets, counts) {
        (Some(w), Some(h), Some(spp), Some(bps), Some(rps), Some(comp), Some(offsets), Some(counts)) => {
            if w > 0 && h > 0 && spp > 0 && rps > 0 && comp == 1 && (bps == 8 || bps == 16 || bps
                == 32) {
                let bytes: u32 = if bps == 8 { 1 } else if bps == 16 { 2 } else { 4 };
                Some(StripLayout { width: w, length: h, spp, bytes, rps, offsets, counts })
            } else {
                None
            }
        },
        _ => None,
    }
}

/// The samples of row `r` of the raster are in `row`.
pub open spec fn row_matches(d: Seq<u8>, o: ByteOrder, l: Layout, r: int, row: Seq<Seq<usize>>) -> bool {
    &&& row.len() == l.width
    &&& forall|c: int| 0 <= c < l.width ==> (#[trigger] row[c]).len() == l.spp
    &&& forall|c: int, s: int|
        0 <= c < l.width && 0 <= s < l.spp ==> #[trigger] row[c][s] == uint_at(
            d,
            o,
            sample_pos(l, r, c, s),
            l.bytes as int,
        )
}

/// Assembles the raster that the first directory describes: rows split in
/// strips of `rows per strip` rows, each row `width * samples` samples of
/// `bits / 8` bytes, in the file's byte order. A strip must hold exactly the
/// bytes of its rows, so the raster is that of all strips joined in order.
pub fn assemble_image(d: &[u8], o: ByteOrder, ifd: &IFD) -> (r: Result<
    Vec<Vec<Vec<usize>>>,
    TiffError,
>)
    ensures
        match r {
            Ok(g) => image_error(d@, ifd@.entries) is None && grid_matches(
                d@,
                o,
                layout_spec(ifd@.entries).unwrap(),
                grid_view(g),
            ),
            Err(e) => image_error(d@, ifd@.entries) == Some(e),
        },
{
    let lay = match read_layout(ifd) {
        Some(l) => l,
        None => return Err(TiffError::ImageFormatError),
    };
    let ghost l = lay.model();
    let len = d.len();
    let mut i: usize = 0;
    while i < lay.offsets.len() && i < lay.counts.len()
        invariant
            0 <= i <= lay.offsets@.len(),
            len == d@.len(),
            l == lay.model(),
            layout_spec(ifd@.entries) == Some(l),
            forall|q: int|
                0 <= q < i && q < lay.counts@.len() ==> lay.offsets@[q] + lay.counts@[q] <= len,
        decreases lay.offsets.len() - i,
    {
        if lay.offsets[i] as u64 + lay.counts[i] as u64 > len as u64 {
            assert(l.offsets[i as int] + l.counts[i as int] > d@.len());
            assert(!strips_in_data(d@, l));
            return Err(TiffError::IoError);
        }
        i = i + 1;
    }
    assert(strips_in_data(d@, l));
    assert(lay.width as int * lay.spp as int <= 0xffff_ffff * 0xffff_ffff) by (nonlinear_arith)
        requires
            lay.width <= 0xffff_ffff,
            lay.spp <= 0xffff_ffff,
    ;
    let ws: u128 = lay.width as u128 * lay.spp as u128;
    assert(ws as int * lay.bytes as int <= 0xffff_ffff_ffff_ffff_ffff_ffff) by (nonlinear_arith)
        requires
            ws <= 0xffff_ffff * 0xffff_ffff,
            lay.bytes <= 4,
    ;
    let rb: u128 = ws * lay.bytes as u128;
    let mut r: u32 = 0;
    while r < lay.length
        invariant
            0 <= r <= lay.length,
            l == lay.model(),
            lay.rps > 0,
            rb == row_bytes(l),
            rb <= 0xffff_ffff_ffff_ffff_ffff_ffff,
            strips_in_data(d@, l),
            layout_spec(ifd@.entries) == Some(l),
            forall|q: int| 0 <= q < r ==> #[trigger] row_fits(l, q),
        decreases lay.length - r,
    {
        let strip = (r / lay.rps) as usize;
        let within = r % lay.rps;
        assert((within as int + 1) * (rb as int) <= 0x1_0000_0000 * 0xffff_ffff_ffff_ffff_ffff_ffff)
            by (nonlinear_arith)
            requires
                within < 0x1_0000_0000,
                rb <= 0xffff_ffff_ffff_ffff_ffff_ffff,
        ;
        if strip >= lay.offsets.len() || strip >= lay.counts.len() || (within as u128 + 1)
            * rb > lay.counts[strip] as u128 {
            assert(!row_fits(l, r as int));
            return Err(TiffError::ImageFormatError);
        }
        r = r + 1;
    }
    assert(rows_in_strips(l));
    if lay.offsets.len() != lay.counts.len() {
        return Err(TiffError::ImageFormatError);
    }
    assert(rb < 0x4_0000_0000_0000_0000) by (nonlinear_arith)
        requires
            rb == ws as int * lay.bytes as int,
            ws <= 0xffff_ffff * 0xffff_ffff,
            lay.bytes <= 4,
    ;
    let mut i: usize = 0;
    while i < lay.counts.len()
        invariant
            0 <= i <= lay.counts@.len(),
            l == lay.model(),
            lay.rps > 0,
            rb == row_bytes(l),
            rb < 0x4_0000_0000_0000_0000,
            strips_in_data(d@, l),
            rows_in_strips(l),
            layout_spec(ifd@.entries) == Some(l),
            forall|q: int| 0 <= q < i ==> #[trigger] strip_exact(l, q),
        decreases lay.counts.len() - i,
    {
        assert(i as int * lay.rps as int <= 0xffff_ffff_ffff_ffff * 0xffff_ffff) by (nonlinear_arith)
            requires
                i <= 0xffff_ffff_ffff_ffff,
                lay.rps <= 0xffff_ffff,
        ;
        let start: u128 = i as u128 * lay.rps as u128;
        if start >= lay.length as u128 {
            assert(!strip_exact(l, i as int));
            return Err(TiffError::ImageFormatError);
        }
        let left: u128 = lay.length as u128 - start;
        let rows: u128 = if left < lay.rps as u128 { left } else { lay.rps as u128 };
        assert(rows as int * rb as int <= 0xffff_ffff * 0x4_0000_0000_0000_0000) by (nonlinear_arith)
            requires
                rows <= 0xffff_ffff,
                rb < 0x4_0000_0000_0000_0000,
        ;
        if lay.counts[i] as u128 != rows * rb {
            assert(!strip_exact(l, i as int));
            return Err(TiffError::ImageFormatError);
        }
        i = i + 1;
    }
    assert(strips_exact(l));
    let mut g: Vec<Vec<Vec<usize>>> = Vec::new();
    let mut r: u32 = 0;
    while r < lay.length
        invariant
            0 <= r <= lay.length,
            l == lay.model(),
            lay.rps > 0,
            lay.bytes == 1 || lay.bytes == 2 || lay.bytes == 4,
            len == d@.len(),
            rb == row_bytes(l),
            rb <= 0xffff_ffff_ffff_ffff_ffff_ffff,
            rows_in_strips(l),
            strips_in_data(d@, l),
            layout_spec(ifd@.entries) == Some(l),
            g@.len() == r,
            forall|q: int| 0 <= q < r ==> row_matches(d@, o, l, q, row_view(#[trigger] g@[q])),
        decreases lay.length - r,
    {
        let strip = (r / lay.rps) as usize;
        let within = r % lay.rps;
        assert(row_fits(l, r as int));
        assert((within as int) * (rb as int) + rb as int == (within as int + 1) * (
        rb as int)) by (nonlinear_arith);
        let row_start: u128 = lay.offsets[strip] as u128 + within as u128 * rb;
        let mut row: Vec<Vec<usize>> = Vec::new();
        let mut c: u32 = 0;
        while c < lay.width
            invariant
                0 <= c <= lay.width,
                l == lay.model(),
                lay.rps > 0,
                lay.bytes == 1 || lay.bytes == 2 || lay.bytes == 4,
                len == d@.len(),
                rb == row_bytes(l),
                row_start + rb <= len,
                row_start == l.offsets[r as int / (l.rps as int)] + (r as int % (l.rps as int)) * row_bytes(l),
                0 <= r < lay.length,
                row_fits(l, r as int),
                row@.len() == c,
                forall|q: int| 0 <= q < c ==> (#[trigger] row@[q])@.len() == l.spp,
                forall|q: int, s: int|
                    0 <= q < c && 0 <= s < l.spp ==> #[trigger] row@[q]@[s] == uint_at(
                        d@,
                        o,
                        sample_pos(l, r as int, q, s),
                        l.bytes as int,
                    ),
            decreases lay.width - c,
        {
            let mut px: Vec<usize> = Vec::new();
            let mut s: u32 = 0;
            while s < lay.spp
                invariant
                    0 <= s <= lay.spp,
                    0 <= c < lay.width,
                    l == lay.model(),
                    lay.rps > 0,
                    lay.bytes == 1 || lay.bytes == 2 || lay.bytes == 4,
                    len == d@.len(),
                    rb == row_bytes(l),
                    row_start + rb <= len,
                    row_start == l.offsets[r as int / (l.rps as int)] + (r as int % (l.rps as int)) * row_bytes(l),
                    0 <= r < lay.length,
                    row_fits(l, r as int),
                    px@.len() == s,
                    forall|q: int|
                        0 <= q < s ==> #[trigger] px@[q] == uint_at(
                            d@,
                            o,
                            sample_pos(l, r as int, c as int, q),
                            l.bytes as int,
                        ),
                decreases lay.spp - s,
            {
                proof {
                    lemma_sample_in_row(l.width, l.spp, l.bytes, c as nat, s as nat);
                }
                let k: u128 = (c as u128 * lay.spp as u128 + s as u128) * lay.bytes as u128;
                let pos = (row_start + k) as usize;
                let v = read_uint(d, o, pos, lay.bytes as usize);
                proof {
                    lemma_pow256_values();
                }
                px.push(v as usize);
                s = s + 1;
            }
            row.push(px);
            c = c + 1;
        }
        let ghost before = g@;
        proof {
            assert(row_matches(d@, o, l, r as int, row_view(row)));
        }
        g.push(row);
        proof {
            assert forall|q: int| 0 <= q < r + 1 implies row_matches(d@, o, l, q, row_view(#[trigger] g@[q])) by {
                if q < r {
                    assert(g@[q] == before[q]);
                }
            }
        }
        r = r + 1;
    }
    proof {
        assert forall|q: int| 0 <= q < l.length implies #[trigger] grid_view(g)[q] == row_view(g@[q]) by {}
    }
    Ok(g)
}

/// The bytes of the first `n` strips, joined in order.
pub open spec fn joined_strips(d: Seq<u8>, l: Layout, n: int) -> Seq<u8>
    decreases n,
{
    if n <= 0 {
        Seq::empty()
    } else {
        joined_strips(d, l, n - 1) + d.subrange(
            l.offsets[n - 1] as int,
            l.offsets[n - 1] + l.counts[n - 1],
        )
    }
}

proof fn lemma_joined_start_grows(counts: Seq<u32>, i: int, j: int)
    requires
        0 <= i <= j <= counts.len(),
    ensures
        joined_start(counts, i) <= joined_start(counts, j),
    decreases j - i,
{
    if i < j {
        lemma_joined_start_grows(counts, i, j - 1);
    }
}

proof fn lemma_joined_len(d: Seq<u8>, l: Layout, n: int)
    requires
        strips_in_data(d, l),
        l.offsets.len() == l.counts.len(),
        0 <= n <= l.counts.len(),
    ensures
        joined_strips(d, l, n).len() == joined_start(l.counts, n),
    decreases n,
{
    if n > 0 {
        lemma_joined_len(d, l, n - 1);
        assert(l.offsets[n - 1] + l.counts[n - 1] <= d.len());
    }
}

proof fn lemma_joined_strips(d: Seq<u8>, l: Layout, n: int, i: int, x: int)
    requires
        strips_in_data(d, l),
        l.offsets.len() == l.counts.len(),
        0 <= n <= l.counts.len(),
        0 <= i < n,
        0 <= x < l.counts[i],
    ensures
        joined_strips(d, l, n)[joined_start(l.counts, i) + x] == d[l.offsets[i] + x],
    decreases n,
{
    let prev = joined_strips(d, l, n - 1);
    lemma_joined_len(d, l, n - 1);
    lemma_joined_start_grows(l.counts, 0, i);
    assert(l.offsets[n - 1] + l.counts[n - 1] <= d.len());
    if i < n - 1 {
        lemma_joined_strips(d, l, n - 1, i, x);
        lemma_joined_start_grows(l.counts, i + 1, n - 1);
        assert(joined_start(l.counts, i + 1) == joined_start(l.counts, i) + l.counts[i]);
        assert(joined_start(l.counts, i + 1) <= joined_start(l.counts, n - 1));
        assert(joined_start(l.counts, i) + x < prev.len());
        let strip = d.subrange(l.offsets[n - 1] as int, l.offsets[n - 1] + l.counts[n - 1]);
        assert(joined_strips(d, l, n) == prev + strip);
        assert(joined_strips(d, l, n)[joined_start(l.counts, i) + x] == prev[joined_start(l.counts, i) + x]);
    } else {
        assert(l.offsets[i] + l.counts[i] <= d.len());
        assert(joined_strips(d, l, n)[joined_start(l.counts, i) + x] == d.subrange(
            l.offsets[i] as int,
            l.offsets[i] + l.counts[i],
        )[x]);
    }
}

proof fn lemma_full_strips_before(l: Layout, i: int, j: int)
    requires
        strips_exact(l),
        l.rps > 0,
        0 <= j <= i < l.counts.len(),
        i * l.rps < l.length,
    ensures
        joined_start(l.counts, j) == j * l.rps * row_bytes(l),
    decreases j,
{
    if j > 0 {
        lemma_full_strips_before(l, i, j - 1);
        assert(strip_exact(l, j - 1));
        assert(j * l.rps <= i * l.rps) by (nonlinear_arith)
            requires
                j <= i,
        ;
        assert((j - 1) * l.rps + l.rps == j * l.rps) by (nonlinear_arith);
        assert(rows_of_strip(l, j - 1) == l.rps);
        assert(l.counts[j - 1] == l.rps * row_bytes(l));
        assert(joined_start(l.counts, j) == joined_start(l.counts, j - 1) + l.counts[j - 1]);
        assert((j - 1) * l.rps * row_bytes(l) + l.rps * row_bytes(l) == j * l.rps * row_bytes(l))
            by (nonlinear_arith);
    } else {
        assert(j * l.rps * row_bytes(l) == 0) by (nonlinear_arith)
            requires
                j == 0,
        ;
    }
}

/// On every successful assembly, the sample at row `r`, column `c`, index `s`
/// is the one that starts at byte `((r * width + c) * samples + s) * bytes`
/// of all strips joined in order: the raster is row-major, strips stacked.
pub proof fn lemma_grid_reads_joined_strips(
    d: Seq<u8>,
    o: ByteOrder,
    es: Seq<EntryModel>,
    r: int,
    c: int,
    s: int,
)
    requires
        image_error(d, es) is None,
        0 <= r < layout_spec(es).unwrap().length,
        0 <= c < layout_spec(es).unwrap().width,
        0 <= s < layout_spec(es).unwrap().spp,
    ensures
        ({
            let l = layout_spec(es).unwrap();
            let k = ((r * l.width + c) * l.spp + s) * l.bytes;
            let joined = joined_strips(d, l, l.counts.len() as int);
            &&& k + l.bytes <= joined.len()
            &&& uint_at(d, o, sample_pos(l, r, c, s), l.bytes as int) == uint_at(joined, o, k, l.bytes as int)
        }),
{
    let l = layout_spec(es).unwrap();
    let rps = l.rps as int;
    let i = r / rps;
    let rb = row_bytes(l) as int;
    let b = l.bytes as int;
    let n = l.counts.len() as int;
    let joined = joined_strips(d, l, n);
    assert(row_fits(l, r));
    assert(strip_exact(l, i));
    let x0 = (r % rps) * rb + (c * l.spp + s) * b;
    lemma_sample_in_row(l.width, l.spp, l.bytes, c as nat, s as nat);
    assert((r % rps) * rb + rb == (r % rps + 1) * rb) by (nonlinear_arith);
    assert(x0 + b <= l.counts[i]);
    assert(i * rps <= r) by (nonlinear_arith)
        requires
            i == r / rps,
            rps > 0,
            r >= 0,
    ;
    lemma_full_strips_before(l, i, i);
    let k = ((r * l.width + c) * l.spp + s) * b;
    vstd::arithmetic::div_mod::lemma_fundamental_div_mod(r, rps);
    assert(r == i * rps + r % rps);
    assert(k == i * rps * rb + x0) by (nonlinear_arith)
        requires
            k == ((r * l.width + c) * l.spp + s) * b,
            x0 == (r % rps) * rb + (c * l.spp + s) * b,
            rb == l.width * l.spp * b,
            r == i * rps + r % rps,
    ;
    lemma_joined_len(d, l, n);
    lemma_joined_start_grows(l.counts, i + 1, n);
    assert(k + b <= joined.len());
    assert forall|y: int| 0 <= y < b implies #[trigger] joined.subrange(k, k + b)[y] == d.subrange(
        sample_pos(l, r, c, s),
        sample_pos(l, r, c, s) + b,
    )[y] by {
        lemma_joined_strips(d, l, n, i, x0 + y);
    }
    assert(joined.subrange(k, k + b) =~= d.subrange(sample_pos(l, r, c, s), sample_pos(l, r, c, s) + b));
}

} // verus!
