//! The flat file records that the trees are built from.

use vstd::prelude::*;

verus! {

/// One file of a download: its total size, the bytes already downloaded,
/// and its slash-delimited path.
#[derive(Debug, Clone)]
pub struct File {
    pub length: u64,
    pub bytes_completed: u64,
    pub name: String,
}

/// The paths of the records, in order.
pub open spec fn file_paths(files: Seq<File>) -> Seq<Seq<char>> {
    files.map_values(|f: File| f.name@)
}

} // verus!
