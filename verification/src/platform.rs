use vstd::prelude::*;
use vstd::utf8::{decode_utf8, valid_utf8};

verus! {

/// Size of the per-worker scratch buffer handed to the directory reader
/// (one `getdirentries64` call fills it).
pub const SCRATCH_BUF_LEN: usize = 262144;

/// Bytes of a packed `dirent64` record that precede `d_name`.
pub const DIRENT_HDR: usize = 21;

/// `d_type` of a regular file.
pub const DT_REG: u8 = 8;

/// `d_type` of a directory.
pub const DT_DIR: u8 = 4;

/// `d_type` of a symbolic link.
pub const DT_LNK: u8 = 10;

/// The kind of a directory entry, as reported by the file system.
#[derive(Debug, PartialEq, Eq, Structural, Clone, Copy)]
pub enum EntryType {
    File,
    Dir,
    Symlink,
    Other,
}

/// One entry of a directory listing: its name (not the full path), its kind
/// and its inode number.
#[derive(Debug)]
pub struct DirEntry {
    pub name: String,
    pub entry_type: EntryType,
    pub inode: u64,
}

/// What a directory entry is, as plain values.
pub open spec fn entry_view(e: DirEntry) -> (Seq<char>, EntryType, u64) {
    (e.name@, e.entry_type, e.inode)
}

/// What a listing holds, as plain values.
pub open spec fn entries_view(entries: Seq<DirEntry>) -> Seq<(Seq<char>, EntryType, u64)> {
    entries.map_values(|e: DirEntry| entry_view(e))
}

/// Allocates the zero-filled scratch buffer that each worker reuses for
/// every directory it reads.
pub fn new_scratch_buf() -> (buf: Vec<u8>)
    ensures
        buf@.len() == SCRATCH_BUF_LEN,
        forall|i: int| 0 <= i < buf@.len() ==> buf@[i] == 0u8,
{
    vec![0u8; SCRATCH_BUF_LEN]
}

/// The entry kind for a `d_type` byte of a raw dirent record.
pub open spec fn d_type_kind(d_type: u8) -> EntryType {
    if d_type == DT_REG {
        EntryType::File
    } else if d_type == DT_DIR {
        EntryType::Dir
    } else if d_type == DT_LNK {
        EntryType::Symlink
    } else {
        EntryType::Other
    }
}

/// Maps the `d_type` byte of a raw dirent record to an entry kind.
pub fn entry_type_from_d_type(d_type: u8) -> (t: EntryType)
    ensures
        t == d_type_kind(d_type),
{
    if d_type == DT_REG {
        EntryType::File
    } else if d_type == DT_DIR {
        EntryType::Dir
    } else if d_type == DT_LNK {
        EntryType::Symlink
    } else {
        EntryType::Other
    }
}

/// Maps the answers of a file-type query to an entry kind. A failed query
/// is passed as three `false` flags and gives `Other`; the flags are tested
/// in the order file, directory, symbolic link.
pub fn entry_type_from_flags(is_file: bool, is_dir: bool, is_symlink: bool) -> (t: EntryType)
    ensures
        t == (if is_file {
            EntryType::File
        } else if is_dir {
            EntryType::Dir
        } else if is_symlink {
            EntryType::Symlink
        } else {
            EntryType::Other
        }),
{
    if is_file {
        EntryType::File
    } else if is_dir {
        EntryType::Dir
    } else if is_symlink {
        EntryType::Symlink
    } else {
        EntryType::Other
    }
}

/// A two-byte unsigned integer stored in the given byte order.
pub open spec fn decode_u16(b0: u8, b1: u8, little_endian: bool) -> int {
    if little_endian {
        b0 + 256 * b1
    } else {
        b1 + 256 * b0
    }
}

/// An eight-byte unsigned integer whose bytes, least significant first,
/// are `b0` .. `b7`.
pub open spec fn u64_from_le(b0: u8, b1: u8, b2: u8, b3: u8, b4: u8, b5: u8, b6: u8, b7: u8) -> int {
    b0 + 0x100 * b1 + 0x1_0000 * b2 + 0x100_0000 * b3 + 0x1_0000_0000 * b4 + 0x100_0000_0000 * b5
        + 0x1_0000_0000_0000 * b6 + 0x100_0000_0000_0000 * b7
}

/// The two-byte field at `pos`.
pub open spec fn u16_at(buf: Seq<u8>, pos: int, little_endian: bool) -> int {
    decode_u16(buf[pos], buf[pos + 1], little_endian)
}

/// The eight-byte field at `pos`.
pub open spec fn u64_at(buf: Seq<u8>, pos: int, little_endian: bool) -> int {
    if little_endian {
        u64_from_le(
            buf[pos],
            buf[pos + 1],
            buf[pos + 2],
            buf[pos + 3],
            buf[pos + 4],
            buf[pos + 5],
            buf[pos + 6],
            buf[pos + 7],
        )
    } else {
        u64_from_le(
            buf[pos + 7],
            buf[pos + 6],
            buf[pos + 5],
            buf[pos + 4],
            buf[pos + 3],
            buf[pos + 2],
            buf[pos + 1],
            buf[pos],
        )
    }
}

/// The names `.` and `..`, which every directory lists and which are
/// never reported.
pub open spec fn is_dot_name(name: Seq<u8>) -> bool {
    name == seq![46u8] || name == seq![46u8, 46u8]
}

/// A byte string decoded as UTF-8, each maximal invalid sequence replaced
/// by U+FFFD (what `compact_str::CompactString::from_utf8_lossy` returns).
pub uninterp spec fn utf8_lossy(bytes: Seq<u8>) -> Seq<char>;

/// The name an entry's bytes give: their text when they are valid UTF-8,
/// else the lossy decoding.
pub open spec fn entry_name(bytes: Seq<u8>) -> Seq<char> {
    if valid_utf8(bytes) {
        decode_utf8(bytes)
    } else {
        utf8_lossy(bytes)
    }
}

/// Decodes an entry name with `compact_str::CompactString::from_utf8_lossy`.
/// Claims that the result is `utf8_lossy` of the bytes and, as that
/// function's documentation shows, that valid UTF-8 decodes unchanged.
#[verifier::external_body]
fn name_from_bytes(bytes: &[u8]) -> (name: String)
    ensures
        name@ == utf8_lossy(bytes@),
        valid_utf8(bytes@) ==> name@ == decode_utf8(bytes@),
{
    compact_str::CompactString::from_utf8_lossy(bytes).into_string()
}

/// Reads a two-byte integer in the machine's byte order with
/// `u16::from_ne_bytes`. Claims only that the value is one of the two
/// byte orders: which one depends on the machine.
#[verifier::external_body]
fn u16_from_ne_bytes(bytes: [u8; 2]) -> (v: u16)
    ensures
        v == decode_u16(bytes@[0], bytes@[1], true) || v == decode_u16(bytes@[0], bytes@[1], false),
{
    u16::from_ne_bytes(bytes)
}

/// Whether this machine stores integers least significant byte first.
pub fn native_little_endian() -> (le: bool) {
    let probe = u16_from_ne_bytes([1u8, 0u8]);
    probe == 1
}

/// The entries that a buffer of packed dirent records holds from `pos` on.
/// Each record gives its inode (8 bytes at 0), its total length (2 bytes at
/// 16), its name length (2 bytes at 18), its `d_type` (at 20) and its name
/// (from 21), decoded by `entry_name`. Parsing stops at a zero or overlong
/// record length; a record whose name runs past the buffer, and the names
/// `.` and `..`, are skipped.
pub open spec fn dirents_from(buf: Seq<u8>, pos: int, little_endian: bool) -> Seq<
    (Seq<char>, EntryType, u64),
>
    decreases buf.len() - pos,
{
    if pos < 0 || pos + DIRENT_HDR >= buf.len() {
        seq![]
    } else {
        let reclen = u16_at(buf, pos + 16, little_endian);
        if reclen == 0 || pos + reclen > buf.len() {
            seq![]
        } else {
            let name_end = pos + DIRENT_HDR + u16_at(buf, pos + 18, little_endian);
            let name = buf.subrange(pos + DIRENT_HDR, name_end);
            let here = if name_end <= buf.len() && !is_dot_name(name) {
                seq![
                    (
                        entry_name(name),
                        d_type_kind(buf[pos + 20]),
                        u64_at(buf, pos, little_endian) as u64,
                    ),
                ]
            } else {
                seq![]
            };
            here + dirents_from(buf, pos + reclen, little_endian)
        }
    }
}

fn read_u16(buf: &[u8], pos: usize, little_endian: bool) -> (v: u16)
    requires
        pos + 1 < buf@.len(),
    ensures
        v == u16_at(buf@, pos as int, little_endian),
{
    let b0 = buf[pos] as u16;
    let b1 = buf[pos + 1] as u16;
    if little_endian {
        b0 + 256 * b1
    } else {
        b1 + 256 * b0
    }
}

fn read_u64(buf: &[u8], pos: usize, little_endian: bool) -> (v: u64)
    requires
        pos + 7 < buf@.len(),
    ensures
        v == u64_at(buf@, pos as int, little_endian),
{
    let n = buf.len();
    let mut b = [0u64; 8];
    let mut i: usize = 0;
    while i < 8
        invariant
            i <= 8,
            n == buf@.len(),
            pos + 7 < buf@.len(),
            forall|j: int|
                0 <= j < i ==> b@[j] == (if little_endian {
                    buf@[pos + j]
                } else {
                    buf@[pos + 7 - j]
                }),
        decreases 8 - i,
    {
        let byte = if little_endian {
            buf[pos + i]
        } else {
            buf[pos + 7 - i]
        };
        b[i] = byte as u64;
        i = i + 1;
    }
    let v = b[0] + 0x100 * b[1] + 0x1_0000 * b[2] + 0x100_0000 * b[3] + 0x1_0000_0000 * b[4]
        + 0x100_0000_0000 * b[5] + 0x1_0000_0000_0000 * b[6] + 0x100_0000_0000_0000 * b[7];
    v
}

fn is_dot_bytes(name: &[u8]) -> (r: bool)
    ensures
        r == is_dot_name(name@),
{
    if name.len() == 1 {
        let r = name[0] == 46u8;
        assert(r ==> name@ =~= seq![46u8]);
        r
    } else if name.len() == 2 {
        let r = name[0] == 46u8 && name[1] == 46u8;
        assert(r ==> name@ =~= seq![46u8, 46u8]);
        r
    } else {
        false
    }
}

/// Appends to `out` the entries of a buffer of packed dirent records whose
/// integers are stored in the given byte order.
pub fn parse_dirents_in(buf: &[u8], little_endian: bool, out: &mut Vec<DirEntry>)
    ensures
        entries_view(final(out)@) == entries_view(old(out)@) + dirents_from(buf@, 0, little_endian),
{
    let ghost start = entries_view(out@);
    let mut pos: usize = 0;
    while DIRENT_HDR < buf.len() - pos
        invariant
            pos <= buf@.len(),
            start + dirents_from(buf@, 0, little_endian) == entries_view(out@) + dirents_from(
                buf@,
                pos as int,
                little_endian,
            ),
        ensures
            dirents_from(buf@, pos as int, little_endian) =~= seq![],
        decreases buf@.len() - pos,
    {
        let reclen = read_u16(buf, pos + 16, little_endian) as usize;
        if reclen == 0 || reclen > buf.len() - pos {
            break;
        }
        let d_type = buf[pos + 20];
        let namlen = read_u16(buf, pos + 18, little_endian) as usize;
        let inode = read_u64(buf, pos, little_endian);
        let ghost before = entries_view(out@);
        if namlen <= buf.len() - pos - DIRENT_HDR {
            let name_end = pos + DIRENT_HDR + namlen;
            let name_bytes = &buf[pos + DIRENT_HDR..name_end];
            if !is_dot_bytes(name_bytes) {
                let name = name_from_bytes(name_bytes);
                let entry_type = entry_type_from_d_type(d_type);
                out.push(DirEntry { name, entry_type, inode });
                assert(entries_view(out@) =~= before + seq![
                    (name@, entry_type, inode),
                ]);
            }
        }
        pos = pos + reclen;
    }
    assert(entries_view(out@) + seq![] =~= entries_view(out@));
}

/// Appends to `out` the entries of a buffer filled by `getdirentries64`,
/// whose integers are stored in this machine's byte order.
pub fn parse_dirents(buf: &[u8], out: &mut Vec<DirEntry>)
    ensures
        entries_view(final(out)@) == entries_view(old(out)@) + dirents_from(buf@, 0, true)
            || entries_view(final(out)@) == entries_view(old(out)@) + dirents_from(buf@, 0, false),
{
    let le = native_little_endian();
    parse_dirents_in(buf, le, out);
}


/// Only the entries named `.` and `..` are skipped: a whole record at `pos`
/// (nonzero length, inside the buffer, with its name inside the buffer)
/// whose name is anything else is listed first, as its decoded name, its
/// kind and its inode, before the entries of the records after it; a
/// record named `.` or `..` adds nothing.
pub proof fn lemma_only_dot_entries_skipped(buf: Seq<u8>, pos: int, little_endian: bool)
    requires
        0 <= pos,
        pos + DIRENT_HDR < buf.len(),
        u16_at(buf, pos + 16, little_endian) != 0,
        pos + u16_at(buf, pos + 16, little_endian) <= buf.len(),
        pos + DIRENT_HDR + u16_at(buf, pos + 18, little_endian) <= buf.len(),
    ensures
        ({
            let name = buf.subrange(
                pos + DIRENT_HDR,
                pos + DIRENT_HDR + u16_at(buf, pos + 18, little_endian),
            );
            let rest = dirents_from(buf, pos + u16_at(buf, pos + 16, little_endian), little_endian);
            &&& (name != seq![46u8] && name != seq![46u8, 46u8]) ==> dirents_from(
                buf,
                pos,
                little_endian,
            ) == seq![
                (
                    entry_name(name),
                    d_type_kind(buf[pos + 20]),
                    u64_at(buf, pos, little_endian) as u64,
                ),
            ] + rest
            &&& (name == seq![46u8] || name == seq![46u8, 46u8]) ==> dirents_from(
                buf,
                pos,
                little_endian,
            ) == rest
        }),
{
    let name = buf.subrange(pos + DIRENT_HDR, pos + DIRENT_HDR + u16_at(buf, pos + 18, little_endian));
    let rest = dirents_from(buf, pos + u16_at(buf, pos + 16, little_endian), little_endian);
    if name == seq![46u8] || name == seq![46u8, 46u8] {
        assert(seq![] + rest =~= rest);
    }
}

} // verus!
