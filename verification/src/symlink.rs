use vstd::prelude::*;
use dashmap::DashSet;

verus! {

/// `dashmap::DashSet`, known to Verus as an opaque type; what it holds is
/// `dashset_inodes`.
#[verifier::external_type_specification]
#[verifier::external_body]
#[verifier::reject_recursive_types(K)]
#[verifier::reject_recursive_types(S)]
pub struct ExDashSet<K, S>(DashSet<K, S>);

/// The inodes that a `dashmap::DashSet<u64>` holds.
pub uninterp spec fn dashset_inodes(s: DashSet<u64>) -> Set<u64>;

/// Creates an empty set with `dashmap::DashSet::new`; claims that it holds
/// nothing.
#[verifier::external_body]
fn new_inode_set() -> (s: DashSet<u64>)
    ensures
        dashset_inodes(s) == Set::<u64>::empty(),
{
    DashSet::new()
}

/// Adds an inode with `dashmap::DashSet::insert`; claims that the set then
/// holds the inode besides what it held, and that the call returns whether
/// the inode was absent before (as that method's documentation says). The
/// method itself takes a shared reference; the wrapper takes the set
/// exclusively, so no other thread changes it during the call.
#[verifier::external_body]
fn insert_inode(s: &mut DashSet<u64>, inode: u64) -> (added: bool)
    ensures
        dashset_inodes(*final(s)) == dashset_inodes(*old(s)).insert(inode),
        added == !dashset_inodes(*old(s)).contains(inode),
{
    s.insert(inode)
}

/// Tracks the inodes of the directories already entered, so that a
/// directory reached a second time (through a hard link or a bind mount)
/// is not traversed again.
pub struct SymlinkGuard {
    visited: DashSet<u64>,
}

impl View for SymlinkGuard {
    type V = Set<u64>;

    closed spec fn view(&self) -> Set<u64> {
        dashset_inodes(self.visited)
    }
}

impl SymlinkGuard {
    /// A guard that has seen no directory yet.
    pub fn new() -> (g: Self)
        ensures
            g@ == Set::<u64>::empty(),
    {
        SymlinkGuard { visited: new_inode_set() }
    }

    /// Returns `true` when `inode` is seen for the first time (safe to
    /// traverse) and `false` when it was seen before (a cycle); either way
    /// the inode is remembered.
    pub fn check_and_mark(&mut self, inode: u64) -> (first: bool)
        ensures
            first == first_sight(old(self)@, inode),
            final(self)@ == old(self)@.insert(inode),
    {
        insert_inode(&mut self.visited, inode)
    }
}

/// Whether `check_and_mark` reports `inode` as seen for the first time,
/// given the inodes seen before.
pub open spec fn first_sight(visited: Set<u64>, inode: u64) -> bool {
    !visited.contains(inode)
}

/// A directory is traversed at most once: after `check_and_mark` has
/// accepted an inode, every later call with that inode reports a cycle, and
/// marking it again leaves the guard unchanged.
pub proof fn lemma_second_visit_is_cycle(visited: Set<u64>, inode: u64)
    ensures
        first_sight(visited, inode) ==> !first_sight(visited.insert(inode), inode),
        !first_sight(visited.insert(inode), inode),
        visited.insert(inode).insert(inode) == visited.insert(inode),
{
    assert(visited.insert(inode).insert(inode) =~= visited.insert(inode));
}

/// Marking only adds: every inode seen before is still seen after any
/// call.
pub proof fn lemma_marks_are_kept(visited: Set<u64>, inode: u64, other: u64)
    ensures
        visited.contains(other) ==> visited.insert(inode).contains(other),
{
}

} // verus!
