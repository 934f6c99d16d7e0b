use fex::watcher::{
    needs_entry_stat, needs_parent_stat, plan_watch_event, IndexOp, WatchEventKind, WatchedPath,
};

fn path(name: Option<&str>, entry: Option<(u64, bool)>, parent: Option<u64>) -> WatchedPath {
    WatchedPath { name: name.map(|n| n.to_string()), entry, parent_inode: parent }
}

#[test]
fn creation_is_recorded_under_its_parent() {
    let ops = plan_watch_event(
        WatchEventKind::Create,
        vec![
            path(Some("new.txt"), Some((500, false)), Some(7)),
            path(Some("gone"), None, Some(7)),
            path(None, Some((501, true)), Some(7)),
            path(Some("sub"), Some((502, true)), Some(8)),
        ],
    );
    assert_eq!(ops.len(), 2);
    match &ops[0] {
        IndexOp::Upsert(r) => {
            assert_eq!((r.inode, r.parent_inode, r.name.as_str(), r.is_dir), (500, 7, "new.txt", false))
        },
        _ => panic!("expected an upsert"),
    }
    match &ops[1] {
        IndexOp::Upsert(r) => {
            assert_eq!((r.inode, r.parent_inode, r.name.as_str(), r.is_dir), (502, 8, "sub", true))
        },
        _ => panic!("expected an upsert"),
    }
}

#[test]
fn removal_deletes_by_parent_and_name() {
    let ops = plan_watch_event(
        WatchEventKind::Remove,
        vec![path(Some("old.txt"), None, Some(9)), path(Some("x"), None, None)],
    );
    assert_eq!(ops.len(), 1);
    match &ops[0] {
        IndexOp::Delete { parent_inode, name } => {
            assert_eq!((*parent_inode, name.as_str()), (9, "old.txt"))
        },
        _ => panic!("expected a delete"),
    }
}

#[test]
fn modifications_change_nothing() {
    let ops = plan_watch_event(
        WatchEventKind::Modify,
        vec![path(Some("a"), Some((1, false)), Some(2))],
    );
    assert!(ops.is_empty());
    let ops = plan_watch_event(WatchEventKind::Other, vec![path(Some("a"), Some((1, false)), Some(2))]);
    assert!(ops.is_empty());
}

#[test]
fn which_stats_are_needed() {
    assert!(needs_entry_stat(WatchEventKind::Create));
    assert!(!needs_entry_stat(WatchEventKind::Remove));
    assert!(needs_parent_stat(WatchEventKind::Create));
    assert!(needs_parent_stat(WatchEventKind::Remove));
    assert!(!needs_parent_stat(WatchEventKind::Modify));
    assert!(!needs_parent_stat(WatchEventKind::Other));
}
