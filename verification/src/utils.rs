//! Fingerprints of whole contents and the hidden-file convention.

use crate::hasher::{hex_digest, is_fingerprint, Hasher};
use vstd::prelude::*;
use vstd::string::StringSliceAdditionalSpecFns;

verus! {

/// The fingerprint of a whole content held in memory.
pub fn calculate_hash(data: &[u8]) -> (digest: String)
    ensures
        digest@ == hex_digest(data@),
        is_fingerprint(digest@),
{
    let mut hasher = Hasher::new();
    hasher.update(data);
    assert(hasher@ =~= data@);
    hasher.finalize()
}

/// The byte that separates the components of a path: `/`.
pub const SEPARATOR: u8 = 0x2f;

/// The byte that the name of a hidden file begins with: `.`.
pub const DOT: u8 = 0x2e;

/// Whether the byte before `end` names nothing: it is a separator, or a
/// `.` that stands alone behind a separator.
pub open spec fn is_padding(path: Seq<u8>, end: int) -> bool {
    0 < end <= path.len() && (path[end - 1] == SEPARATOR || (path[end - 1] == DOT && end >= 2
        && path[end - 2] == SEPARATOR))
}

/// Where the last component of a path ends, once the separators and lone
/// `.` components at the end of the path are left out.
pub open spec fn name_end(path: Seq<u8>, end: int) -> int
    decreases end,
{
    if is_padding(path, end) {
        name_end(path, end - 1)
    } else {
        end
    }
}

/// Where the component that ends at `end` begins: behind the last separator
/// before `end`, or at the start of the path.
pub open spec fn name_start(path: Seq<u8>, end: int) -> int
    decreases end,
{
    if 0 < end <= path.len() && path[end - 1] != SEPARATOR {
        name_start(path, end - 1)
    } else {
        end
    }
}

/// The file name of a path: its last component. A path that is empty or a
/// root, or that ends in `.` or `..`, has none.
pub open spec fn file_name(path: Seq<u8>) -> Option<Seq<u8>> {
    let end = name_end(path, path.len() as int);
    let name = path.subrange(name_start(path, end), end);
    if name.len() == 0 {
        None
    } else if name.len() == 1 && name[0] == DOT {
        None
    } else if name.len() == 2 && name[0] == DOT && name[1] == DOT {
        None
    } else {
        Some(name)
    }
}

/// The convention of Unix-like systems: a path is hidden when its file name
/// begins with a dot.
pub open spec fn hidden_path(path: Seq<u8>) -> bool {
    match file_name(path) {
        Some(name) => name[0] == DOT,
        None => false,
    }
}

/// The same convention for a path given as text: it speaks of the bytes of
/// the path's UTF-8 encoding.
pub open spec fn hidden_name(path: Seq<char>) -> bool {
    hidden_path(vstd::utf8::encode_utf8(path))
}

/// Whether a path is hidden by the convention of Unix-like systems: its
/// file name begins with a dot.
pub fn is_hidden(path: &str) -> (hidden: bool)
    ensures
        hidden == hidden_name(path@),
{
    let bytes = path.as_bytes();
    let mut end: usize = bytes.len();
    while end > 0 && (bytes[end - 1] == SEPARATOR || (bytes[end - 1] == DOT && end >= 2 && bytes[end
        - 2] == SEPARATOR))
        invariant
            end <= bytes@.len(),
            name_end(bytes@, bytes@.len() as int) == name_end(bytes@, end as int),
        decreases end,
    {
        end -= 1;
    }
    let mut start: usize = end;
    while start > 0 && bytes[start - 1] != SEPARATOR
        invariant
            start <= end <= bytes@.len(),
            name_start(bytes@, end as int) == name_start(bytes@, start as int),
        decreases start,
    {
        start -= 1;
    }
    let len: usize = end - start;
    if len == 0 || bytes[start] != DOT {
        return false;
    }
    if len == 1 {
        return false;
    }
    !(len == 2 && bytes[start + 1] == DOT)
}

} // verus!
