use vstd::prelude::*;

use crate::models::{FileRecord, record_view};

verus! {

/// The kind of a file-system change event.
#[derive(Debug, PartialEq, Eq, Structural, Clone, Copy)]
pub enum WatchEventKind {
    Create,
    Remove,
    Modify,
    Other,
}

/// What the watcher learned about one path of an event: its file name when
/// the path has both a parent and a file name; the inode and whether it is a
/// directory, if the path could be examined; and the inode of its parent
/// directory, if that could be examined.
#[derive(Debug)]
pub struct WatchedPath {
    pub name: Option<String>,
    pub entry: Option<(u64, bool)>,
    pub parent_inode: Option<u64>,
}

/// A change to apply to the index.
#[derive(Debug)]
pub enum IndexOp {
    /// Insert the record, replacing any with the same inode.
    Upsert(FileRecord),
    /// Delete the records with this parent inode and name.
    Delete { parent_inode: u64, name: String },
}

/// A change as plain values: for an upsert, the record; for a delete, the
/// parent inode and name.
pub open spec fn op_view(op: IndexOp) -> (bool, (u64, u64, Seq<char>, bool), u64, Seq<char>) {
    match op {
        IndexOp::Upsert(r) => (true, record_view(r), 0, seq![]),
        IndexOp::Delete { parent_inode, name } => (
            false,
            (0, 0, seq![], false),
            parent_inode,
            name@,
        ),
    }
}

/// A watched path as plain values.
pub open spec fn watched_view(p: WatchedPath) -> (Option<Seq<char>>, Option<(u64, bool)>, Option<u64>) {
    (
        match p.name {
            Some(n) => Some(n@),
            None => None,
        },
        p.entry,
        p.parent_inode,
    )
}

/// The change (if any) that one path of an event makes to the index: a
/// created path that can be examined, in a directory that can be examined,
/// is recorded; a removed path in a directory that can be examined is
/// deleted by parent and name; nothing else changes the index.
pub open spec fn op_for(
    kind: WatchEventKind,
    p: (Option<Seq<char>>, Option<(u64, bool)>, Option<u64>),
) -> Seq<(bool, (u64, u64, Seq<char>, bool), u64, Seq<char>)> {
    match (kind, p.0, p.1, p.2) {
        (WatchEventKind::Create, Some(name), Some(entry), Some(parent)) => seq![
            (true, (entry.0, parent, name, entry.1), 0, seq![]),
        ],
        (WatchEventKind::Remove, Some(name), _, Some(parent)) => seq![
            (false, (0, 0, seq![], false), parent, name),
        ],
        _ => seq![],
    }
}

/// The changes that the first `n` paths of an event make, in path order.
pub open spec fn ops_upto(
    kind: WatchEventKind,
    paths: Seq<(Option<Seq<char>>, Option<(u64, bool)>, Option<u64>)>,
    n: int,
) -> Seq<(bool, (u64, u64, Seq<char>, bool), u64, Seq<char>)>
    decreases n,
{
    if n <= 0 {
        seq![]
    } else {
        ops_upto(kind, paths, n - 1) + op_for(kind, paths[n - 1])
    }
}

/// Whether handling an event of this kind needs each path examined.
pub fn needs_entry_stat(kind: WatchEventKind) -> (r: bool)
    ensures
        r == (kind == WatchEventKind::Create),
{
    match kind {
        WatchEventKind::Create => true,
        _ => false,
    }
}

/// Whether handling an event of this kind needs each path's parent
/// directory examined.
pub fn needs_parent_stat(kind: WatchEventKind) -> (r: bool)
    ensures
        r == (kind == WatchEventKind::Create || kind == WatchEventKind::Remove),
{
    match kind {
        WatchEventKind::Create => true,
        WatchEventKind::Remove => true,
        _ => false,
    }
}

/// The index changes for one file-system event: created entries are
/// recorded under their parent's inode, removed entries deleted by parent
/// inode and name; modifications and other events change nothing.
pub fn plan_watch_event(kind: WatchEventKind, paths: Vec<WatchedPath>) -> (ops: Vec<IndexOp>)
    ensures
        ops@.map_values(|o: IndexOp| op_view(o)) == ops_upto(
            kind,
            paths@.map_values(|p: WatchedPath| watched_view(p)),
            paths@.len() as int,
        ),
{
    let ghost pv = paths@.map_values(|p: WatchedPath| watched_view(p));
    let n = paths.len();
    let mut ops: Vec<IndexOp> = Vec::new();
    let mut i: usize = 0;
    while i < n
        invariant
            n == paths@.len(),
            pv == paths@.map_values(|p: WatchedPath| watched_view(p)),
            i <= n,
            ops@.map_values(|o: IndexOp| op_view(o)) == ops_upto(kind, pv, i as int),
        decreases n - i,
    {
        let p = &paths[i];
        assert(pv[i as int] == watched_view(paths@[i as int]));
        let ghost before = ops@.map_values(|o: IndexOp| op_view(o));
        match kind {
            WatchEventKind::Create => {
                match (&p.name, p.entry, p.parent_inode) {
                    (Some(name), Some(entry), Some(parent)) => {
                        ops.push(
                            IndexOp::Upsert(
                                FileRecord {
                                    inode: entry.0,
                                    parent_inode: parent,
                                    name: name.clone(),
                                    is_dir: entry.1,
                                },
                            ),
                        );
                    },
                    _ => {},
                }
            },
            WatchEventKind::Remove => {
                match (&p.name, p.parent_inode) {
                    (Some(name), Some(parent)) => {
                        ops.push(IndexOp::Delete { parent_inode: parent, name: name.clone() });
                    },
                    _ => {},
                }
            },
            _ => {},
        }
        assert(ops@.map_values(|o: IndexOp| op_view(o)) =~= before + op_for(kind, pv[i as int]));
        i = i + 1;
    }
    ops
}

/// Only creations and removals touch the index: an event of any other
/// kind yields no change, whatever its paths.
pub proof fn lemma_other_events_change_nothing(
    kind: WatchEventKind,
    paths: Seq<(Option<Seq<char>>, Option<(u64, bool)>, Option<u64>)>,
    n: int,
)
    requires
        kind != WatchEventKind::Create,
        kind != WatchEventKind::Remove,
    ensures
        ops_upto(kind, paths, n) == Seq::<(bool, (u64, u64, Seq<char>, bool), u64, Seq<char>)>::empty(),
    decreases n,
{
    if n > 0 {
        lemma_other_events_change_nothing(kind, paths, n - 1);
        assert(ops_upto(kind, paths, n) =~= ops_upto(kind, paths, n - 1));
    }
}

} // verus!
