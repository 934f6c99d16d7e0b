use fex::platform::{
    entry_type_from_d_type, entry_type_from_flags, native_little_endian, new_scratch_buf,
    parse_dirents, parse_dirents_in, DirEntry, EntryType, SCRATCH_BUF_LEN,
};

fn record(inode: u64, d_type: u8, name: &[u8], little_endian: bool) -> Vec<u8> {
    let reclen = (21 + name.len() + 1 + 7) / 8 * 8;
    let mut r = vec![0u8; reclen];
    let ino = if little_endian { inode.to_le_bytes() } else { inode.to_be_bytes() };
    r[0..8].copy_from_slice(&ino);
    let rl = if little_endian { (reclen as u16).to_le_bytes() } else { (reclen as u16).to_be_bytes() };
    r[16..18].copy_from_slice(&rl);
    let nl = if little_endian {
        (name.len() as u16).to_le_bytes()
    } else {
        (name.len() as u16).to_be_bytes()
    };
    r[18..20].copy_from_slice(&nl);
    r[20] = d_type;
    r[21..21 + name.len()].copy_from_slice(name);
    r
}

fn names(out: &[DirEntry]) -> Vec<(String, EntryType, u64)> {
    out.iter().map(|e| (e.name.clone(), e.entry_type, e.inode)).collect()
}

#[test]
fn scratch_buffer_is_256k_of_zeros() {
    let b = new_scratch_buf();
    assert_eq!(b.len(), 256 * 1024);
    assert_eq!(SCRATCH_BUF_LEN, 262144);
    assert!(b.iter().all(|&x| x == 0));
}

#[test]
fn d_type_mapping() {
    assert_eq!(entry_type_from_d_type(8), EntryType::File);
    assert_eq!(entry_type_from_d_type(4), EntryType::Dir);
    assert_eq!(entry_type_from_d_type(10), EntryType::Symlink);
    assert_eq!(entry_type_from_d_type(0), EntryType::Other);
    assert_eq!(entry_type_from_d_type(6), EntryType::Other);
}

#[test]
fn file_type_flags_mapping() {
    assert_eq!(entry_type_from_flags(true, false, false), EntryType::File);
    assert_eq!(entry_type_from_flags(false, true, false), EntryType::Dir);
    assert_eq!(entry_type_from_flags(false, false, true), EntryType::Symlink);
    assert_eq!(entry_type_from_flags(false, false, false), EntryType::Other);
    assert_eq!(entry_type_from_flags(true, true, true), EntryType::File);
}

#[test]
fn parses_records_and_skips_dot_entries() {
    let mut buf = Vec::new();
    buf.extend(record(2, 4, b".", true));
    buf.extend(record(1, 4, b"..", true));
    buf.extend(record(100, 8, b"notes.txt", true));
    buf.extend(record(101, 4, b"src", true));
    buf.extend(record(0x0102030405060708, 10, b"link", true));
    buf.extend(record(103, 1, b"fifo", true));
    let mut out = Vec::new();
    parse_dirents_in(&buf, true, &mut out);
    assert_eq!(
        names(&out),
        vec![
            ("notes.txt".to_string(), EntryType::File, 100),
            ("src".to_string(), EntryType::Dir, 101),
            ("link".to_string(), EntryType::Symlink, 0x0102030405060708),
            ("fifo".to_string(), EntryType::Other, 103),
        ]
    );
}

#[test]
fn parses_big_endian_records() {
    let mut buf = Vec::new();
    buf.extend(record(77, 8, b"a", false));
    buf.extend(record(78, 4, b"bb", false));
    let mut out = Vec::new();
    parse_dirents_in(&buf, false, &mut out);
    assert_eq!(
        names(&out),
        vec![("a".to_string(), EntryType::File, 77), ("bb".to_string(), EntryType::Dir, 78)]
    );
}

#[test]
fn appends_after_existing_entries() {
    let mut out = vec![DirEntry { name: "old".to_string(), entry_type: EntryType::File, inode: 9 }];
    parse_dirents_in(&record(5, 8, b"new", true), true, &mut out);
    assert_eq!(out.len(), 2);
    assert_eq!(out[0].name, "old");
    assert_eq!(out[1].name, "new");
}

#[test]
fn stops_at_zero_or_overlong_record_length() {
    let mut buf = record(5, 8, b"first", true);
    let mut bad = record(6, 8, b"second", true);
    bad[16] = 0;
    bad[17] = 0;
    buf.extend(bad);
    buf.extend(record(7, 8, b"third", true));
    let mut out = Vec::new();
    parse_dirents_in(&buf, true, &mut out);
    assert_eq!(names(&out), vec![("first".to_string(), EntryType::File, 5)]);

    let mut long = record(8, 8, b"x", true);
    let len = long.len() as u16 + 8;
    long[16..18].copy_from_slice(&len.to_le_bytes());
    let mut out2 = Vec::new();
    parse_dirents_in(&long, true, &mut out2);
    assert!(out2.is_empty());
}

#[test]
fn skips_record_whose_name_runs_past_the_buffer() {
    let mut r = record(5, 8, b"abc", true);
    let reclen = r.len();
    r[18..20].copy_from_slice(&(200u16).to_le_bytes());
    assert!(reclen < 221);
    let mut buf = r;
    buf.extend(record(6, 8, b"ok", true));
    let mut out = Vec::new();
    parse_dirents_in(&buf, true, &mut out);
    assert_eq!(names(&out), vec![("ok".to_string(), EntryType::File, 6)]);
}

#[test]
fn invalid_utf8_names_are_replaced() {
    let buf = record(5, 8, b"caf\xe9", true);
    let mut out = Vec::new();
    parse_dirents_in(&buf, true, &mut out);
    assert_eq!(out[0].name, "caf\u{FFFD}");
}

#[test]
fn short_buffer_yields_nothing() {
    let mut out = Vec::new();
    parse_dirents_in(&[0u8; 21], true, &mut out);
    assert!(out.is_empty());
    parse_dirents_in(&[], true, &mut out);
    assert!(out.is_empty());
}

#[test]
fn native_order_matches_the_machine() {
    let le = u16::from_ne_bytes([1, 0]) == 1;
    assert_eq!(native_little_endian(), le);
    let mut buf = Vec::new();
    buf.extend(record(42, 8, b"native", le));
    let mut out = Vec::new();
    parse_dirents(&buf, &mut out);
    assert_eq!(names(&out), vec![("native".to_string(), EntryType::File, 42)]);
}
