use vstd::prelude::*;

verus! {

/// A file or directory found by a scan: one row of the index, keyed by
/// inode and linked to its parent directory's inode (0 for a scan root).
#[derive(Debug)]
pub struct FileRecord {
    pub inode: u64,
    pub parent_inode: u64,
    pub name: String,
    pub is_dir: bool,
}

/// A record as plain values: inode, parent inode, name, whether a directory.
pub open spec fn record_view(r: FileRecord) -> (u64, u64, Seq<char>, bool) {
    (r.inode, r.parent_inode, r.name@, r.is_dir)
}

/// A sequence of records as plain values.
pub open spec fn records_view(rs: Seq<FileRecord>) -> Seq<(u64, u64, Seq<char>, bool)> {
    rs.map_values(|r: FileRecord| record_view(r))
}

/// A sequence of record batches, flattened into the records they hold.
pub open spec fn batches_view(bs: Seq<Vec<FileRecord>>) -> Seq<(u64, u64, Seq<char>, bool)> {
    bs.map_values(|b: Vec<FileRecord>| records_view(b@)).flatten()
}

} // verus!
