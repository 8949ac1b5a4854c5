//! Descriptors of content sources, and the per-item decisions of the
//! reading stage: the size cap and the non-empty check on decoded text.

use crate::mt::{RealSize, FILE_SIZE_LIMIT_BYTES, SENTINEL_SIZE_BYTES};
use vstd::prelude::*;

verus! {

/// Footprint charged per entry name held by an archive descriptor.
pub const PATH_ENTRY_SIZE_BYTES: usize = 24;

/// One unit of work for the reading stage: either the text-bearing entry
/// names of a parsed archive, or the path of a regular file.
pub enum FileForIndex {
    Zip(Vec<String>, zip::read::ZipArchive<std::io::Cursor<Vec<u8>>>),
    Regular(String),
}

impl RealSize for Option<FileForIndex> {
    open spec fn spec_real_size(&self) -> usize {
        match self {
            Some(FileForIndex::Regular(path)) => vstd::utf8::encode_utf8(path@).len() as usize,
            Some(FileForIndex::Zip(paths, _)) => if paths@.len() * PATH_ENTRY_SIZE_BYTES
                <= usize::MAX {
                (paths@.len() * PATH_ENTRY_SIZE_BYTES) as usize
            } else {
                usize::MAX
            },
            None => SENTINEL_SIZE_BYTES,
        }
    }

    fn get_real_size(&self) -> (r: usize) {
        match self {
            Some(FileForIndex::Regular(path)) => path.as_str().len(),
            Some(FileForIndex::Zip(paths, _)) => {
                match paths.len().checked_mul(PATH_ENTRY_SIZE_BYTES) {
                    Some(n) => n,
                    None => usize::MAX,
                }
            },
            None => SENTINEL_SIZE_BYTES,
        }
    }
}

/// The characters `String::from_utf8_lossy` decodes these bytes to.
pub uninterp spec fn lossy_of(bytes: Seq<u8>) -> Seq<char>;

/// Relies on std's `String::from_utf8_lossy`: the decoding is a function of
/// the bytes alone.
#[verifier::external_body]
fn lossy_utf8(bytes: &Vec<u8>) -> (r: String)
    ensures
        r@ == lossy_of(bytes@),
{
    String::from_utf8_lossy(bytes.as_slice()).to_string()
}

/// Whether a file of this byte length is small enough to index.
pub fn should_index_file(len: u64) -> (r: bool)
    ensures
        r <==> len < FILE_SIZE_LIMIT_BYTES as u64,
{
    len < FILE_SIZE_LIMIT_BYTES as u64
}

/// Decodes raw bytes lossily to text; only non-empty text is content.
pub fn content_from_bytes(bytes: &Vec<u8>) -> (r: Option<String>)
    ensures
        r matches Some(s) ==> s@ == lossy_of(bytes@) && s@.len() > 0,
        r is None <==> lossy_of(bytes@).len() == 0,
{
    let s = lossy_utf8(bytes);
    if s.as_str().is_empty() {
        None
    } else {
        Some(s)
    }
}

} // verus!
