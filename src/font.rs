//! Fonts as loaded from font-file bytes: the first face of the file, which
//! swash parses for shaping and scaling.
use std::sync::Arc;
use vstd::prelude::*;
use swash::{CacheKey, FontRef};

verus! {

#[verifier::external_type_specification]
#[verifier::external_body]
pub struct ExCacheKey(CacheKey);

#[verifier::external_type_specification]
#[verifier::external_body]
pub struct ExIoError(std::io::Error);

pub const TAG_TRUETYPE: u32 = 0x0001_0000;

pub const TAG_OTTO: u32 = 0x4F54_544F;

pub const TAG_TRUE: u32 = 0x7472_7565;

pub const TAG_COLLECTION: u32 = 0x7474_6366;

/// The big-endian 32-bit word at byte `pos`, where four bytes are there.
pub open spec fn be_u32_at(data: Seq<u8>, pos: int) -> Option<u32> {
    if 0 <= pos && pos + 4 <= data.len() {
        Some(
            (data[pos] as int * 0x100_0000 + data[pos + 1] as int * 0x1_0000 + data[pos + 2] as int
                * 0x100 + data[pos + 3] as int) as u32,
        )
    } else {
        None
    }
}

pub open spec fn word_or_zero(w: Option<u32>) -> u32 {
    match w {
        Some(v) => v,
        None => 0,
    }
}

/// Whether a table directory of a TrueType or OpenType face starts at `offset`.
pub open spec fn is_face_at(data: Seq<u8>, offset: int) -> bool {
    let tag = word_or_zero(be_u32_at(data, offset));
    tag == TAG_TRUETYPE || tag == TAG_OTTO || tag == TAG_TRUE
}

/// Whether the bytes are a font collection.
pub open spec fn is_collection(data: Seq<u8>) -> bool {
    be_u32_at(data, 0) == Some(TAG_COLLECTION)
}

/// The number of faces in the bytes.
pub open spec fn face_count(data: Seq<u8>) -> int {
    if is_collection(data) {
        word_or_zero(be_u32_at(data, 8)) as int
    } else if is_face_at(data, 0) {
        1
    } else {
        0
    }
}

/// The offset of the table directory of the first face, where the bytes
/// hold one: a single face starts at 0, a collection's first face where its
/// first offset entry says.
pub open spec fn first_face_offset(data: Seq<u8>) -> Option<u32> {
    if !is_face_at(data, 0) && !is_collection(data) {
        None
    } else if face_count(data) == 0 {
        None
    } else if is_face_at(data, 0) {
        Some(0u32)
    } else {
        match be_u32_at(data, 12) {
            Some(off) => if is_face_at(data, off as int) {
                Some(off)
            } else {
                None
            },
            None => None,
        }
    }
}

/// Relies on swash's `FontRef::from_index` at index 0, for the offset of
/// the first face's table directory (`None` where the bytes hold no face)
/// and a fresh cache key.
#[verifier::external_body]
fn first_face(data: &Vec<u8>) -> (r: Option<(u32, CacheKey)>)
    ensures
        match r {
            Some(found) => first_face_offset(data@) == Some(found.0),
            None => first_face_offset(data@) is None,
        },
{
    FontRef::from_index(data, 0).map(|f| (f.offset, f.key))
}

/// A loaded font: the file's bytes and where its first face starts.
#[derive(Debug)]
pub struct OutlinedFont {
    data: Arc<Vec<u8>>,
    offset: u32,
    key: CacheKey,
}

impl OutlinedFont {
    pub closed spec fn spec_bytes(&self) -> Seq<u8> {
        (*self.data)@
    }

    pub closed spec fn spec_offset(&self) -> u32 {
        self.offset
    }

    /// The font file's bytes.
    pub fn data(&self) -> (r: &Vec<u8>)
        ensures
            r@ == self.spec_bytes(),
    {
        &self.data
    }

    /// The offset of the face's table directory.
    pub fn offset(&self) -> (r: u32)
        ensures
            r == self.spec_offset(),
    {
        self.offset
    }

    /// The key under which swash caches what it derives from this face.
    pub fn key(&self) -> CacheKey {
        self.key
    }
}

/// Why a font could not be loaded.
#[non_exhaustive]
#[derive(Debug)]
pub enum OutlineFontLoaderError {
    Io(std::io::Error),
    InvalidFont,
}

/// Loads fonts from the bytes of `.ttf` and `.otf` files.
#[derive(Debug, Clone, Copy, PartialEq, Eq, Structural)]
pub struct OutlinedFontLoader;

impl OutlinedFontLoader {
    /// The font of a font file's bytes: its first face, or `InvalidFont`
    /// where the bytes hold none.
    pub fn load(&self, bytes: Vec<u8>) -> (r: Result<OutlinedFont, OutlineFontLoaderError>)
        ensures
            match r {
                Ok(font) => first_face_offset(bytes@) == Some(font.spec_offset())
                    && font.spec_bytes() == bytes@,
                Err(e) => first_face_offset(bytes@) is None && e is InvalidFont,
            },
    {
        match first_face(&bytes) {
            Some((offset, key)) => Ok(OutlinedFont { data: Arc::new(bytes), offset, key }),
            None => Err(OutlineFontLoaderError::InvalidFont),
        }
    }
}

} // verus!
