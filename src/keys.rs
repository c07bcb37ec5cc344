//! The GeoKey directory that GeoTIFF stores, as a list of shorts, under a
//! reserved tag of the first directory.
use vstd::prelude::*;
use crate::lowlevel::{TagValue, GEO_KEY_DIRECTORY_TAG};
use crate::reader::{EntryModel, IFD, TiffError};
use crate::image::{find_in, find_tag};

verus! {

/// One geospatial key: where `tiff_tag_location` is 0 the value is
/// `value_offset` itself, else it lies in the tag of that code.
#[derive(Clone, Copy, Debug, PartialEq, Eq, Structural)]
pub struct GeoKeyEntry {
    pub key_id: u16,
    pub tiff_tag_location: u16,
    pub count: u16,
    pub value_offset: u16,
}

impl GeoKeyEntry {
    pub fn new(key_id: u16, tiff_tag_location: u16, count: u16, value_offset: u16) -> (r: Self)
        ensures
            r == (GeoKeyEntry { key_id, tiff_tag_location, count, value_offset }),
    {
        GeoKeyEntry { key_id, tiff_tag_location, count, value_offset }
    }
}

/// The GeoKey directory, as a mathematical value.
pub struct GeoKeyDirectoryModel {
    pub key_directory_version: u16,
    pub key_revision: u16,
    pub minor_revision: u16,
    pub keys: Seq<GeoKeyEntry>,
}

/// The GeoKey directory: its header and its keys, in stored order.
#[derive(Debug)]
pub struct GeoKeyDirectory {
    pub key_directory_version: u16,
    pub key_revision: u16,
    pub minor_revision: u16,
    pub keys: Vec<GeoKeyEntry>,
}

impl View for GeoKeyDirectory {
    type V = GeoKeyDirectoryModel;

    open spec fn view(&self) -> GeoKeyDirectoryModel {
        GeoKeyDirectoryModel {
            key_directory_version: self.key_directory_version,
            key_revision: self.key_revision,
            minor_revision: self.minor_revision,
            keys: self.keys@,
        }
    }
}

pub open spec fn short_of(v: TagValue) -> u16 {
    match v {
        TagValue::ShortValue(x) => x,
        _ => 0,
    }
}

/// The directory that a list of values encodes: four header shorts (version,
/// revision, minor revision, number of keys), then four shorts per key.
pub open spec fn geokeys_spec(v: Seq<TagValue>) -> Result<GeoKeyDirectoryModel, TiffError> {
    if !(forall|j: int| 0 <= j < v.len() ==> (#[trigger] v[j]) is ShortValue) || v.len() < 4
        || (v.len() - 4) % 4 != 0 || short_of(v[3]) != (v.len() - 4) / 4 {
        Err(TiffError::GeoKeyFormatError)
    } else {
        Ok(
            GeoKeyDirectoryModel {
                key_directory_version: short_of(v[0]),
                key_revision: short_of(v[1]),
                minor_revision: short_of(v[2]),
                keys: Seq::new(
                    ((v.len() - 4) / 4) as nat,
                    |k: int|
                        GeoKeyEntry {
                            key_id: short_of(v[4 + 4 * k]),
                            tiff_tag_location: short_of(v[5 + 4 * k]),
                            count: short_of(v[6 + 4 * k]),
                            value_offset: short_of(v[7 + 4 * k]),
                        },
                ),
            },
        )
    }
}

/// The GeoKey directory of a directory's entries: none without the tag.
pub open spec fn geokey_directory_spec(es: Seq<EntryModel>) -> Result<
    Option<GeoKeyDirectoryModel>,
    TiffError,
> {
    match find_in(es, GEO_KEY_DIRECTORY_TAG, es.len()) {
        None => Ok(None),
        Some(i) => match geokeys_spec(es[i].value) {
            Ok(g) => Ok(Some(g)),
            Err(e) => Err(e),
        },
    }
}

fn short_value(v: &TagValue) -> (r: Option<u16>)
    ensures
        r == (if *v is ShortValue { Some(short_of(*v)) } else { None::<u16> }),
{
    match *v {
        TagValue::ShortValue(x) => Some(x),
        _ => None,
    }
}

impl GeoKeyDirectory {
    /// Decodes a GeoKey directory from the values of its tag; fails where a
    /// value is not a short, the keys are not whole groups of four, or their
    /// number is not the one that the header gives.
    pub fn from_values(v: &Vec<TagValue>) -> (r: Result<GeoKeyDirectory, TiffError>)
        ensures
            match r {
                Ok(g) => geokeys_spec(v@) == Ok::<GeoKeyDirectoryModel, TiffError>(g@),
                Err(e) => geokeys_spec(v@) == Err::<GeoKeyDirectoryModel, TiffError>(e),
            },
    {
        let mut shorts: Vec<u16> = Vec::new();
        let mut j: usize = 0;
        while j < v.len()
            invariant
                0 <= j <= v@.len(),
                shorts@.len() == j,
                forall|q: int| 0 <= q < j ==> (#[trigger] v@[q]) is ShortValue,
                forall|q: int| 0 <= q < j ==> #[trigger] shorts@[q] == short_of(v@[q]),
            decreases v.len() - j,
        {
            match short_value(&v[j]) {
                Some(x) => shorts.push(x),
                None => return Err(TiffError::GeoKeyFormatError),
            }
            j = j + 1;
        }
        let n = shorts.len();
        if n < 4 || (n - 4) % 4 != 0 || shorts[3] as usize != (n - 4) / 4 {
            return Err(TiffError::GeoKeyFormatError);
        }
        let nkeys = (n - 4) / 4;
        let ghost want = geokeys_spec(v@).unwrap().keys;
        let mut keys: Vec<GeoKeyEntry> = Vec::new();
        let mut k: usize = 0;
        while k < nkeys
            invariant
                0 <= k <= nkeys,
                nkeys == (n - 4) / 4,
                n == shorts@.len(),
                n == v@.len(),
                forall|q: int| 0 <= q < n ==> #[trigger] shorts@[q] == short_of(v@[q]),
                want.len() == nkeys,
                forall|q: int| 0 <= q < nkeys ==> #[trigger] want[q] == (GeoKeyEntry {
                    key_id: short_of(v@[4 + 4 * q]),
                    tiff_tag_location: short_of(v@[5 + 4 * q]),
                    count: short_of(v@[6 + 4 * q]),
                    value_offset: short_of(v@[7 + 4 * q]),
                }),
                keys@ =~= want.take(k as int),
            decreases nkeys - k,
        {
            let b = 4 + 4 * k;
            keys.push(GeoKeyEntry::new(shorts[b], shorts[b + 1], shorts[b + 2], shorts[b + 3]));
            k = k + 1;
            assert(keys@ =~= want.take(k as int));
        }
        assert(want.take(nkeys as int) =~= want);
        Ok(GeoKeyDirectory {
            key_directory_version: shorts[0],
            key_revision: shorts[1],
            minor_revision: shorts[2],
            keys,
        })
    }

    /// Finds the GeoKey tag in `ifd` and decodes its directory; `Ok(None)`
    /// where the tag is absent.
    pub fn parse(ifd: &IFD) -> (r: Result<Option<GeoKeyDirectory>, TiffError>)
        ensures
            match r {
                Ok(Some(g)) => geokey_directory_spec(ifd@.entries) == Ok::<
                    Option<GeoKeyDirectoryModel>,
                    TiffError,
                >(Some(g@)),
                Ok(None) => geokey_directory_spec(ifd@.entries) == Ok::<
                    Option<GeoKeyDirectoryModel>,
                    TiffError,
                >(None),
                Err(e) => geokey_directory_spec(ifd@.entries) == Err::<
                    Option<GeoKeyDirectoryModel>,
                    TiffError,
                >(e),
            },
    {
        match find_tag(ifd, GEO_KEY_DIRECTORY_TAG) {
            None => Ok(None),
            Some(i) => {
                assert(ifd@.entries[i as int] == ifd.entries@[i as int]@);
                match GeoKeyDirectory::from_values(&ifd.entries[i].value) {
                    Ok(g) => Ok(Some(g)),
                    Err(e) => Err(e),
                }
            },
        }
    }
}

/// A payload of exactly the four header shorts, declaring no keys, is a
/// directory with no keys; a payload whose part after the header is not a
/// whole number of four-short groups is a GeoKey format error.
pub proof fn lemma_geokeys_length(v: Seq<TagValue>)
    ensures
        v.len() == 4 && (forall|j: int| 0 <= j < 4 ==> (#[trigger] v[j]) is ShortValue) && short_of(
            v[3],
        ) == 0 ==> geokeys_spec(v) is Ok && geokeys_spec(v).unwrap().keys.len() == 0,
        v.len() >= 4 && (v.len() - 4) % 4 != 0 ==> geokeys_spec(v) == Err::<
            GeoKeyDirectoryModel,
            TiffError,
        >(TiffError::GeoKeyFormatError),
{
}

} // verus!
