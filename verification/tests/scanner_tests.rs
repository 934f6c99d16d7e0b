use fex::metrics::Metrics;
use fex::models::FileRecord;
use fex::platform::{DirEntry, EntryType};
use fex::scanner::{
    name_is_hidden, plan_listing, RecordBatcher, RecordCollector, FILE_BATCH_SIZE,
    SUPER_BATCH_SIZE,
};
use fex::symlink::SymlinkGuard;

fn entry(name: &str, t: EntryType, inode: u64) -> DirEntry {
    DirEntry { name: name.to_string(), entry_type: t, inode }
}

fn rec(inode: u64, parent: u64, name: &str, is_dir: bool) -> FileRecord {
    FileRecord { inode, parent_inode: parent, name: name.to_string(), is_dir }
}

fn tuple(r: &FileRecord) -> (u64, u64, String, bool) {
    (r.inode, r.parent_inode, r.name.clone(), r.is_dir)
}

#[test]
fn guard_reports_first_sight_only_once() {
    let mut g = SymlinkGuard::new();
    assert!(g.check_and_mark(10));
    assert!(!g.check_and_mark(10));
    assert!(g.check_and_mark(11));
    assert!(!g.check_and_mark(10));
    assert!(!g.check_and_mark(11));
}

#[test]
fn hidden_names() {
    assert!(name_is_hidden(&".git".to_string()));
    assert!(name_is_hidden(&".".to_string()));
    assert!(!name_is_hidden(&"".to_string()));
    assert!(!name_is_hidden(&"a.b".to_string()));
    assert!(!name_is_hidden(&"é.".to_string()));
}

#[test]
fn metrics_start_at_zero_and_track_peak() {
    let mut m = Metrics::new();
    assert_eq!(m.in_flight, 0);
    assert_eq!(m.peak_in_flight, 0);
    m.dir_enqueued();
    m.dir_enqueued();
    m.dir_enqueued();
    assert_eq!(m.in_flight, 3);
    assert_eq!(m.peak_in_flight, 3);
    m.dir_done();
    m.dir_failed();
    assert_eq!(m.in_flight, 1);
    assert_eq!(m.peak_in_flight, 3);
    assert_eq!(m.dirs_scanned, 1);
    assert_eq!(m.dirs_failed, 1);
    m.dir_enqueued();
    m.enqueue_failed();
    assert_eq!(m.in_flight, 1);
    assert!(!m.is_idle());
    m.dir_done();
    assert!(m.is_idle());
}

#[test]
fn update_peak_ignores_negative_in_flight() {
    let mut m = Metrics::new();
    m.in_flight = 5;
    m.update_peak();
    assert_eq!(m.peak_in_flight, 5);
    m.in_flight = 2;
    m.update_peak();
    assert_eq!(m.peak_in_flight, 5);
    m.in_flight = -1;
    m.update_peak();
    assert_eq!(m.peak_in_flight, 5);
    m.in_flight = 9;
    m.update_peak();
    assert_eq!(m.peak_in_flight, 9);
}

#[test]
fn listing_is_classified() {
    let mut guard = SymlinkGuard::new();
    let mut metrics = Metrics::new();
    let mut batcher = RecordBatcher::new(FILE_BATCH_SIZE);
    let entries = vec![
        entry(".hidden", EntryType::Dir, 1),
        entry("a.txt", EntryType::File, 2),
        entry("sub", EntryType::Dir, 3),
        entry("link", EntryType::Symlink, 4),
        entry("sock", EntryType::Other, 5),
        entry("again", EntryType::Dir, 3),
        entry(".dotfile", EntryType::File, 6),
    ];
    let plan = plan_listing(&mut guard, &mut metrics, &mut batcher, 99, &entries);
    let subdirs: Vec<(String, u64)> = plan.subdirs.iter().map(|d| (d.name.clone(), d.inode)).collect();
    assert_eq!(subdirs, vec![("sub".to_string(), 3)]);
    assert!(plan.batches.is_empty());
    let rest = batcher.take_remaining();
    let got: Vec<_> = rest.iter().map(tuple).collect();
    assert_eq!(
        got,
        vec![(2, 99, "a.txt".to_string(), false), (3, 99, "sub".to_string(), true)]
    );
    assert_eq!(metrics.files_found, 1);
    assert_eq!(metrics.symlinks_skipped, 1);
    assert_eq!(metrics.cycles_detected, 1);
    // the one directory to enter is now in flight
    assert_eq!(metrics.in_flight, 1);
    assert_eq!(metrics.peak_in_flight, 1);
    // the directory seen in this listing is remembered for the next one
    assert!(!guard.check_and_mark(3));
    // hidden directories are never checked against the guard
    assert!(guard.check_and_mark(1));
}

#[test]
fn previously_seen_directory_is_a_cycle() {
    let mut guard = SymlinkGuard::new();
    assert!(guard.check_and_mark(50));
    let mut metrics = Metrics::new();
    let mut batcher = RecordBatcher::new(4);
    let entries = vec![entry("loop", EntryType::Dir, 50), entry("fresh", EntryType::Dir, 51)];
    let plan = plan_listing(&mut guard, &mut metrics, &mut batcher, 7, &entries);
    assert_eq!(plan.subdirs.len(), 1);
    assert_eq!(plan.subdirs[0].name, "fresh");
    assert_eq!(metrics.cycles_detected, 1);
}

#[test]
fn full_batches_are_handed_out_in_order() {
    let mut guard = SymlinkGuard::new();
    let mut metrics = Metrics::new();
    let mut batcher = RecordBatcher::new(2);
    let entries: Vec<DirEntry> =
        (0..5).map(|i| entry(&format!("f{}", i), EntryType::File, 100 + i)).collect();
    let plan = plan_listing(&mut guard, &mut metrics, &mut batcher, 1, &entries);
    assert_eq!(plan.batches.len(), 2);
    assert!(plan.batches.iter().all(|b| b.len() == 2));
    let mut all: Vec<_> = plan.batches.iter().flatten().map(tuple).collect();
    all.extend(batcher.take_remaining().iter().map(tuple));
    let want: Vec<_> = (0..5).map(|i| (100 + i, 1, format!("f{}", i), false)).collect();
    assert_eq!(all, want);
    assert_eq!(metrics.files_found, 5);
}

#[test]
fn batch_size_zero_sends_every_record() {
    let mut b = RecordBatcher::new(0);
    let full = b.push(rec(1, 0, "x", false));
    assert_eq!(full.map(|v| v.len()), Some(1));
    assert!(b.take_remaining().is_empty());
}

#[test]
fn batcher_fills_to_size() {
    let mut b = RecordBatcher::new(3);
    assert!(b.push(rec(1, 0, "a", false)).is_none());
    assert!(b.push(rec(2, 0, "b", false)).is_none());
    let full = b.push(rec(3, 0, "c", true)).expect("third record completes a batch");
    assert_eq!(full.iter().map(|r| r.inode).collect::<Vec<_>>(), vec![1, 2, 3]);
    assert!(b.take_remaining().is_empty());
}

#[test]
fn collector_commits_super_batches() {
    assert_eq!(SUPER_BATCH_SIZE, 8192);
    let mut c = RecordCollector::new();
    let mut committed = 0usize;
    for round in 0..40u64 {
        let batch: Vec<FileRecord> =
            (0..256u64).map(|i| rec(round * 256 + i, 0, "n", false)).collect();
        if let Some(commit) = c.accept(batch) {
            assert!(commit.len() >= 8192);
            committed += commit.len();
        }
    }
    assert_eq!(c.total_files(), 40 * 256);
    let rest = c.take_remaining();
    assert_eq!(committed + rest.len(), 40 * 256);
    assert_eq!(committed, 8192);
    assert_eq!(c.total_files(), 40 * 256);
}
