//! The record kept for one candidate file.

use vstd::prelude::*;

verus! {

/// What a [`FileInfo`] stands for: its path and digest as character
/// sequences, its size as a number.
pub struct FileView {
    pub path: Seq<char>,
    pub size: u64,
    pub hash: Option<Seq<char>>,
}

/// A file that passed the filters: where it is, how large it is and, once
/// known, the digest of its content.
#[derive(Debug)]
pub struct FileInfo {
    pub path: String,
    pub size: u64,
    pub hash: Option<String>,
}

impl View for FileInfo {
    type V = FileView;

    open spec fn view(&self) -> FileView {
        FileView {
            path: self.path@,
            size: self.size,
            hash: match self.hash {
                Some(h) => Some(h@),
                None => None,
            },
        }
    }
}

impl Clone for FileInfo {
    fn clone(&self) -> (copy: Self)
        ensures
            copy == *self,
    {
        FileInfo {
            path: self.path.clone(),
            size: self.size,
            hash: match &self.hash {
                Some(h) => Some(h.clone()),
                None => None,
            },
        }
    }
}

impl FileInfo {
    /// A record whose digest is not known yet.
    pub fn new(path: String, size: u64) -> (info: Self)
        ensures
            info.path == path,
            info.size == size,
            info.hash is None,
            info@ == (FileView { path: path@, size, hash: None }),
    {
        FileInfo { path, size, hash: None }
    }

    /// A record whose digest is already known.
    pub fn with_hash(path: String, size: u64, hash: String) -> (info: Self)
        ensures
            info.path == path,
            info.size == size,
            info.hash == Some(hash),
            info@ == (FileView { path: path@, size, hash: Some(hash@) }),
    {
        FileInfo { path, size, hash: Some(hash) }
    }
}

/// The views of a sequence of records, in the same order.
pub open spec fn views(files: Seq<FileInfo>) -> Seq<FileView> {
    files.map_values(|f: FileInfo| f@)
}

} // verus!
