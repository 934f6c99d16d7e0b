use vstd::prelude::*;
use vstd::utf8::encode_utf8;

use crate::text::{lowercase, to_lowercase};

verus! {

/// One entry of a directory as the file browser shows it.
#[derive(Debug)]
pub struct DirEntryInfo {
    pub name: String,
    pub path: String,
    pub is_dir: bool,
    pub size: Option<u64>,
}

/// An entry as plain values.
pub open spec fn info_view(e: DirEntryInfo) -> (Seq<char>, Seq<char>, bool, Option<u64>) {
    (e.name@, e.path@, e.is_dir, e.size)
}

/// Byte strings in lexicographic order (a proper prefix comes first), the
/// order of `str`'s `Ord`.
pub open spec fn lex_le(a: Seq<u8>, b: Seq<u8>) -> bool
    decreases a.len(),
{
    if a.len() == 0 {
        true
    } else if b.len() == 0 {
        false
    } else if a[0] != b[0] {
        a[0] < b[0]
    } else {
        lex_le(a.drop_first(), b.drop_first())
    }
}

/// The key a listing is sorted by: directories first, then the lowercased
/// name's UTF-8 bytes.
pub open spec fn sort_key(e: (Seq<char>, Seq<char>, bool, Option<u64>)) -> (bool, Seq<u8>) {
    (e.2, encode_utf8(lowercase(e.0)))
}

/// `a` may come before `b`.
pub open spec fn key_le(a: (bool, Seq<u8>), b: (bool, Seq<u8>)) -> bool {
    if a.0 != b.0 {
        a.0
    } else {
        lex_le(a.1, b.1)
    }
}

pub proof fn lemma_lex_total(a: Seq<u8>, b: Seq<u8>)
    ensures
        lex_le(a, b) || lex_le(b, a),
    decreases a.len(),
{
    if a.len() > 0 && b.len() > 0 && a[0] == b[0] {
        lemma_lex_total(a.drop_first(), b.drop_first());
    }
}

pub proof fn lemma_lex_trans(a: Seq<u8>, b: Seq<u8>, c: Seq<u8>)
    requires
        lex_le(a, b),
        lex_le(b, c),
    ensures
        lex_le(a, c),
    decreases a.len(),
{
    if a.len() > 0 && b.len() > 0 && c.len() > 0 && a[0] == b[0] && b[0] == c[0] {
        lemma_lex_trans(a.drop_first(), b.drop_first(), c.drop_first());
    }
}

pub proof fn lemma_key_total(a: (bool, Seq<u8>), b: (bool, Seq<u8>))
    ensures
        key_le(a, b) || key_le(b, a),
{
    lemma_lex_total(a.1, b.1);
}

pub proof fn lemma_key_trans(a: (bool, Seq<u8>), b: (bool, Seq<u8>), c: (bool, Seq<u8>))
    requires
        key_le(a, b),
        key_le(b, c),
    ensures
        key_le(a, c),
{
    if a.0 == b.0 && b.0 == c.0 {
        lemma_lex_trans(a.1, b.1, c.1);
    }
}

fn lex_le_exec(a: &[u8], b: &[u8]) -> (r: bool)
    ensures
        r == lex_le(a@, b@),
{
    let na = a.len();
    let nb = b.len();
    let mut i: usize = 0;
    assert(a@.skip(0) =~= a@);
    assert(b@.skip(0) =~= b@);
    while i < na && i < nb && a[i] == b[i]
        invariant
            na == a@.len(),
            nb == b@.len(),
            i <= na,
            i <= nb,
            lex_le(a@, b@) == lex_le(a@.skip(i as int), b@.skip(i as int)),
        decreases na - i,
    {
        assert(a@.skip(i as int).drop_first() =~= a@.skip(i + 1));
        assert(b@.skip(i as int).drop_first() =~= b@.skip(i + 1));
        i = i + 1;
    }
    if i == na {
        true
    } else if i == nb {
        false
    } else {
        a[i] < b[i]
    }
}

fn key_le_exec(a_dir: bool, a: &[u8], b_dir: bool, b: &[u8]) -> (r: bool)
    ensures
        r == key_le((a_dir, a@), (b_dir, b@)),
{
    if a_dir != b_dir {
        a_dir
    } else {
        lex_le_exec(a, b)
    }
}

/// `perm` is a bijection between positions of the output and of the input.
pub open spec fn is_permutation(perm: Seq<int>, n: nat) -> bool {
    &&& perm.len() == n
    &&& forall|i: int| 0 <= i < n ==> 0 <= #[trigger] perm[i] < n
    &&& forall|i: int, j: int| 0 <= i < j < n ==> perm[i] != perm[j]
}

/// `out` is `input` sorted by `sort_key`, stably: `perm` says where each
/// output entry was in the input, and entries whose keys tie keep their
/// input order.
pub open spec fn is_stable_sort_of(
    out: Seq<(Seq<char>, Seq<char>, bool, Option<u64>)>,
    input: Seq<(Seq<char>, Seq<char>, bool, Option<u64>)>,
    perm: Seq<int>,
) -> bool {
    &&& out.len() == input.len()
    &&& is_permutation(perm, input.len())
    &&& forall|i: int| 0 <= i < out.len() ==> #[trigger] out[i] == input[perm[i]]
    &&& forall|i: int, j: int|
        0 <= i < j < out.len() ==> key_le(sort_key(out[i]), sort_key(out[j]))
    &&& forall|i: int, j: int|
        0 <= i < j < out.len() && key_le(sort_key(out[j]), sort_key(out[i])) ==> perm[i] < perm[j]
}

/// An entry list as plain values.
pub open spec fn infos_view(v: Seq<DirEntryInfo>) -> Seq<(Seq<char>, Seq<char>, bool, Option<u64>)> {
    v.map_values(|e: DirEntryInfo| info_view(e))
}

/// First position whose key is not below `(dir, k)`.
fn lower_bound(keys_dir: &Vec<bool>, keys: &Vec<Vec<u8>>, dir: bool, k: &Vec<u8>) -> (p: usize)
    requires
        keys_dir@.len() == keys@.len(),
        forall|i: int, j: int|
            0 <= i < j < keys@.len() ==> key_le(
                (keys_dir@[i], keys@[i]@),
                (keys_dir@[j], keys@[j]@),
            ),
    ensures
        p <= keys@.len(),
        forall|i: int| 0 <= i < p ==> !key_le((dir, k@), (keys_dir@[i], keys@[i]@)),
        forall|i: int| p <= i < keys@.len() ==> key_le((dir, k@), (keys_dir@[i], keys@[i]@)),
{
    let mut lo: usize = 0;
    let mut hi: usize = keys.len();
    while lo < hi
        invariant
            lo <= hi <= keys@.len(),
            keys_dir@.len() == keys@.len(),
            forall|i: int, j: int|
                0 <= i < j < keys@.len() ==> key_le(
                    (keys_dir@[i], keys@[i]@),
                    (keys_dir@[j], keys@[j]@),
                ),
            forall|i: int| 0 <= i < lo ==> !key_le((dir, k@), (keys_dir@[i], keys@[i]@)),
            forall|i: int| hi <= i < keys@.len() ==> key_le((dir, k@), (keys_dir@[i], keys@[i]@)),
        decreases hi - lo,
    {
        let mid = lo + (hi - lo) / 2;
        if key_le_exec(dir, k.as_slice(), keys_dir[mid], keys[mid].as_slice()) {
            assert forall|i: int| mid <= i < keys@.len() implies key_le(
                (dir, k@),
                (keys_dir@[i], keys@[i]@),
            ) by {
                if i > mid {
                    lemma_key_trans(
                        (dir, k@),
                        (keys_dir@[mid as int], keys@[mid as int]@),
                        (keys_dir@[i], keys@[i]@),
                    );
                }
            }
            hi = mid;
        } else {
            assert forall|i: int| 0 <= i <= mid implies !key_le(
                (dir, k@),
                (keys_dir@[i], keys@[i]@),
            ) by {
                if i < mid && key_le((dir, k@), (keys_dir@[i], keys@[i]@)) {
                    lemma_key_trans(
                        (dir, k@),
                        (keys_dir@[i], keys@[i]@),
                        (keys_dir@[mid as int], keys@[mid as int]@),
                    );
                }
            }
            lo = mid + 1;
        }
    }
    lo
}

/// Orders a directory listing as the file browser shows it: directories
/// first, then by lowercased name, keeping the given order of entries
/// that tie (a stable sort).
pub fn sort_listing(entries: Vec<DirEntryInfo>) -> (out: Vec<DirEntryInfo>)
    ensures
        exists|perm: Seq<int>| is_stable_sort_of(infos_view(out@), infos_view(entries@), perm),
{
    let ghost input = infos_view(entries@);
    let n = entries.len();
    let mut in_dirs: Vec<bool> = Vec::new();
    let mut in_keys: Vec<Vec<u8>> = Vec::new();
    let mut k: usize = 0;
    while k < n
        invariant
            n == entries@.len(),
            input == infos_view(entries@),
            k <= n,
            in_dirs@.len() == k,
            in_keys@.len() == k,
            forall|t: int|
                0 <= t < k ==> (#[trigger] in_dirs@[t], in_keys@[t]@) == sort_key(input[t]),
        decreases n - k,
    {
        let lower = to_lowercase(entries[k].name.as_str());
        let bytes = lower.as_str().as_bytes_vec();
        in_dirs.push(entries[k].is_dir);
        in_keys.push(bytes);
        k = k + 1;
    }
    let mut rest = entries;
    let mut out: Vec<DirEntryInfo> = Vec::new();
    let mut out_dirs: Vec<bool> = Vec::new();
    let mut out_keys: Vec<Vec<u8>> = Vec::new();
    let ghost mut perm: Seq<int> = Seq::empty();
    while rest.len() > 0
        invariant
            n == input.len(),
            in_dirs@.len() == n,
            in_keys@.len() == n,
            forall|t: int|
                0 <= t < n ==> (#[trigger] in_dirs@[t], in_keys@[t]@) == sort_key(input[t]),
            rest@.len() <= n,
            infos_view(rest@) == input.subrange(0, rest@.len() as int),
            out@.len() == n - rest@.len(),
            out_dirs@.len() == out@.len(),
            out_keys@.len() == out@.len(),
            perm.len() == out@.len(),
            forall|i: int|
                0 <= i < out@.len() ==> rest@.len() <= #[trigger] perm[i] < n,
            forall|i: int, j: int| 0 <= i < j < out@.len() ==> perm[i] != perm[j],
            forall|i: int|
                0 <= i < out@.len() ==> #[trigger] infos_view(out@)[i] == input[perm[i]],
            forall|i: int|
                0 <= i < out@.len() ==> (#[trigger] out_dirs@[i], out_keys@[i]@) == sort_key(
                    input[perm[i]],
                ),
            forall|i: int, j: int|
                0 <= i < j < out@.len() ==> key_le(
                    (out_dirs@[i], out_keys@[i]@),
                    (out_dirs@[j], out_keys@[j]@),
                ),
            forall|i: int, j: int|
                0 <= i < j < out@.len() && key_le(
                    (out_dirs@[j], out_keys@[j]@),
                    (out_dirs@[i], out_keys@[i]@),
                ) ==> perm[i] < perm[j],
        decreases rest@.len(),
    {
        let ghost old_out = infos_view(out@);
        let ghost old_dirs = out_dirs@;
        let ghost old_keys = out_keys@;
        let ghost old_perm = perm;
        let j = rest.len() - 1;
        let ghost rest_old = rest@;
        let e = match rest.pop() {
            Some(e) => e,
            None => {
                assert(false);
                return out;
            },
        };
        assert(e == rest_old[j as int]);
        assert(infos_view(rest_old)[j as int] == info_view(rest_old[j as int]));
        assert(input.subrange(0, rest_old.len() as int)[j as int] == input[j as int]);
        assert(info_view(e) == input[j as int]);
        assert(infos_view(rest@) =~= input.subrange(0, rest@.len() as int));
        let kd = in_dirs[j];
        let kb = in_keys[j].clone();
        let p = lower_bound(&out_dirs, &out_keys, kd, &kb);
        out.insert(p, e);
        out_dirs.insert(p, kd);
        out_keys.insert(p, kb);
        proof {
            perm = old_perm.insert(p as int, j as int);
            assert(infos_view(out@) =~= old_out.insert(p as int, input[j as int]));
            assert forall|i: int, i2: int| 0 <= i < i2 < out@.len() implies key_le(
                (out_dirs@[i], out_keys@[i]@),
                (out_dirs@[i2], out_keys@[i2]@),
            ) by {
                let ki = (out_dirs@[i], out_keys@[i]@);
                let ki2 = (out_dirs@[i2], out_keys@[i2]@);
                if i < p && i2 == p {
                    lemma_key_total((kd, kb@), (old_dirs[i], old_keys[i]@));
                } else if i < p && i2 > p {
                    assert(ki == (old_dirs[i], old_keys[i]@));
                    assert(ki2 == (old_dirs[i2 - 1], old_keys[i2 - 1]@));
                } else if i == p {
                    assert(ki2 == (old_dirs[i2 - 1], old_keys[i2 - 1]@));
                } else if i > p {
                    assert(ki == (old_dirs[i - 1], old_keys[i - 1]@));
                    assert(ki2 == (old_dirs[i2 - 1], old_keys[i2 - 1]@));
                } else {
                    assert(ki == (old_dirs[i], old_keys[i]@));
                    assert(ki2 == (old_dirs[i2], old_keys[i2]@));
                }
            }
            assert forall|i: int, i2: int|
                0 <= i < i2 < out@.len() && key_le(
                    (out_dirs@[i2], out_keys@[i2]@),
                    (out_dirs@[i], out_keys@[i]@),
                ) implies perm[i] < perm[i2] by {
                if i < p && i2 == p {
                    assert(!key_le((kd, kb@), (old_dirs[i], old_keys[i]@)));
                } else if i < p && i2 > p {
                    assert(perm[i] == old_perm[i]);
                    assert(perm[i2] == old_perm[i2 - 1]);
                    assert(out_dirs@[i] == old_dirs[i] && out_keys@[i] == old_keys[i]);
                    assert(out_dirs@[i2] == old_dirs[i2 - 1] && out_keys@[i2] == old_keys[i2 - 1]);
                } else if i == p {
                    assert(perm[i2] == old_perm[i2 - 1]);
                } else if i > p {
                    assert(perm[i] == old_perm[i - 1]);
                    assert(perm[i2] == old_perm[i2 - 1]);
                    assert(out_dirs@[i] == old_dirs[i - 1] && out_keys@[i] == old_keys[i - 1]);
                    assert(out_dirs@[i2] == old_dirs[i2 - 1] && out_keys@[i2] == old_keys[i2 - 1]);
                } else {
                    assert(perm[i] == old_perm[i]);
                    assert(perm[i2] == old_perm[i2]);
                    assert(out_dirs@[i] == old_dirs[i] && out_keys@[i] == old_keys[i]);
                    assert(out_dirs@[i2] == old_dirs[i2] && out_keys@[i2] == old_keys[i2]);
                }
            }
            assert forall|i: int| 0 <= i < out@.len() implies rest@.len() <= #[trigger] perm[i] < n by {
                if i < p {
                    assert(perm[i] == old_perm[i]);
                } else if i > p {
                    assert(perm[i] == old_perm[i - 1]);
                }
            }
            assert forall|i: int, i2: int| 0 <= i < i2 < out@.len() implies perm[i] != perm[i2] by {
                if i < p && i2 > p {
                    assert(perm[i] == old_perm[i]);
                    assert(perm[i2] == old_perm[i2 - 1]);
                } else if i > p {
                    assert(perm[i] == old_perm[i - 1]);
                    assert(perm[i2] == old_perm[i2 - 1]);
                } else if i2 < p {
                    assert(perm[i] == old_perm[i]);
                    assert(perm[i2] == old_perm[i2]);
                } else if i == p {
                    assert(perm[i2] == old_perm[i2 - 1]);
                } else {
                    assert(perm[i] == old_perm[i]);
                }
            }
            assert forall|i: int| 0 <= i < out@.len() implies #[trigger] infos_view(out@)[i] == input[perm[i]]
                && (out_dirs@[i], out_keys@[i]@) == sort_key(input[perm[i]]) by {
                if i < p {
                    assert(perm[i] == old_perm[i]);
                    assert(out_dirs@[i] == old_dirs[i] && out_keys@[i] == old_keys[i]);
                } else if i > p {
                    assert(perm[i] == old_perm[i - 1]);
                    assert(out_dirs@[i] == old_dirs[i - 1] && out_keys@[i] == old_keys[i - 1]);
                }
            }
        }
    }
    proof {
        assert forall|i: int| 0 <= i < out@.len() implies sort_key(#[trigger] infos_view(out@)[i])
            == (out_dirs@[i], out_keys@[i]@) by {
            assert(infos_view(out@)[i] == input[perm[i]]);
        }
        assert forall|i: int, i2: int|
            0 <= i < i2 < out@.len() && key_le(
                sort_key(infos_view(out@)[i2]),
                sort_key(infos_view(out@)[i]),
            ) implies perm[i] < perm[i2] by {
            assert(sort_key(infos_view(out@)[i]) == (out_dirs@[i], out_keys@[i]@));
            assert(sort_key(infos_view(out@)[i2]) == (out_dirs@[i2], out_keys@[i2]@));
        }
        assert forall|i: int, i2: int|
            0 <= i < i2 < out@.len() implies key_le(
            sort_key(infos_view(out@)[i]),
            sort_key(infos_view(out@)[i2]),
        ) by {
            assert((out_dirs@[i], out_keys@[i]@) == sort_key(infos_view(out@)[i]));
            assert((out_dirs@[i2], out_keys@[i2]@) == sort_key(infos_view(out@)[i2]));
        }
        assert(is_stable_sort_of(infos_view(out@), input, perm));
    }
    out
}

/// Directories come first: in a sorted listing, no file precedes a
/// directory.
pub proof fn lemma_directories_first(
    out: Seq<(Seq<char>, Seq<char>, bool, Option<u64>)>,
    input: Seq<(Seq<char>, Seq<char>, bool, Option<u64>)>,
    perm: Seq<int>,
)
    requires
        is_stable_sort_of(out, input, perm),
    ensures
        forall|i: int, j: int| 0 <= i < j < out.len() && (#[trigger] out[j]).2 ==> (#[trigger] out[i]).2,
{
    assert forall|i: int, j: int| 0 <= i < j < out.len() && (#[trigger] out[j]).2 implies (#[trigger] out[i]).2 by {
        assert(key_le(sort_key(out[i]), sort_key(out[j])));
    }
}


/// Within each kind (directories, then files), a sorted listing is in the
/// order of the entries' whole lowercased names, compared byte by byte as
/// UTF-8; and two entries leave their input order only when they are of
/// different kinds or their lowercased names differ.
pub proof fn lemma_names_in_order(
    out: Seq<(Seq<char>, Seq<char>, bool, Option<u64>)>,
    input: Seq<(Seq<char>, Seq<char>, bool, Option<u64>)>,
    perm: Seq<int>,
)
    requires
        is_stable_sort_of(out, input, perm),
    ensures
        forall|i: int, j: int|
            0 <= i < j < out.len() && (#[trigger] out[i]).2 == (#[trigger] out[j]).2 ==> lex_le(
                encode_utf8(lowercase(out[i].0)),
                encode_utf8(lowercase(out[j].0)),
            ),
        forall|i: int, j: int|
            0 <= i < j < out.len() && perm[j] < perm[i] ==> (#[trigger] out[i]).2 != (
            #[trigger] out[j]).2 || encode_utf8(lowercase(out[i].0)) != encode_utf8(
                lowercase(out[j].0),
            ),
{
    assert forall|i: int, j: int|
        0 <= i < j < out.len() && (#[trigger] out[i]).2 == (#[trigger] out[j]).2 implies lex_le(
        encode_utf8(lowercase(out[i].0)),
        encode_utf8(lowercase(out[j].0)),
    ) by {
        assert(key_le(sort_key(out[i]), sort_key(out[j])));
    }
    assert forall|i: int, j: int|
        0 <= i < j < out.len() && perm[j] < perm[i] implies (#[trigger] out[i]).2 != (
        #[trigger] out[j]).2 || encode_utf8(lowercase(out[i].0)) != encode_utf8(
            lowercase(out[j].0),
        ) by {
        if out[i].2 == out[j].2 && encode_utf8(lowercase(out[i].0)) == encode_utf8(
            lowercase(out[j].0),
        ) {
            lemma_lex_refl(encode_utf8(lowercase(out[i].0)));
            assert(key_le(sort_key(out[j]), sort_key(out[i])));
        }
    }
}

proof fn lemma_lex_refl(a: Seq<u8>)
    ensures
        lex_le(a, a),
    decreases a.len(),
{
    if a.len() > 0 {
        lemma_lex_refl(a.drop_first());
    }
}

/// `lex_le` is the dictionary order of byte strings: `a` comes first when
/// it is a prefix of `b`, or when at the first position where they differ
/// its byte is the smaller.
pub proof fn lemma_lex_le_meaning(a: Seq<u8>, b: Seq<u8>)
    ensures
        lex_le(a, b) <==> (a.len() <= b.len() && b.subrange(0, a.len() as int) == a) || exists|
            k: int,
        |
            0 <= k < a.len() && k < b.len() && a.subrange(0, k) == b.subrange(0, k) && a[k]
                < b[k],
    decreases a.len(),
{
    if a.len() == 0 {
        assert(b.subrange(0, 0) =~= a);
    } else if b.len() == 0 {
    } else if a[0] != b[0] {
        if a[0] < b[0] {
            assert(a.subrange(0, 0) =~= b.subrange(0, 0));
        } else {
            if a.len() <= b.len() {
                assert(b.subrange(0, a.len() as int)[0] != a[0]);
            }
            if exists|k: int| 0 <= k < a.len() && k < b.len() && a.subrange(0, k) == b.subrange(0, k)
                && a[k] < b[k] {
                let k = choose|k: int|
                    0 <= k < a.len() && k < b.len() && a.subrange(0, k) == b.subrange(0, k) && a[k]
                        < b[k];
                if k > 0 {
                    assert(a.subrange(0, k)[0] == b.subrange(0, k)[0]);
                }
            }
        }
    } else {
        let a2 = a.drop_first();
        let b2 = b.drop_first();
        lemma_lex_le_meaning(a2, b2);
        if a.len() <= b.len() && b.subrange(0, a.len() as int) == a {
            assert(b2.subrange(0, a2.len() as int) =~= b.subrange(0, a.len() as int).drop_first());
        }
        if a2.len() <= b2.len() && b2.subrange(0, a2.len() as int) == a2 {
            assert(b.subrange(0, a.len() as int) =~= seq![b[0]] + b2.subrange(0, a2.len() as int));
            assert(a =~= seq![a[0]] + a2);
        }
        if exists|k: int| 0 <= k < a.len() && k < b.len() && a.subrange(0, k) == b.subrange(0, k)
            && a[k] < b[k] {
            let k = choose|k: int|
                0 <= k < a.len() && k < b.len() && a.subrange(0, k) == b.subrange(0, k) && a[k] < b[k];
            assert(k > 0);
            assert(a2.subrange(0, k - 1) =~= a.subrange(0, k).drop_first());
            assert(b2.subrange(0, k - 1) =~= b.subrange(0, k).drop_first());
            assert(a2[k - 1] == a[k]);
            assert(b2[k - 1] == b[k]);
        }
        if exists|k: int| 0 <= k < a2.len() && k < b2.len() && a2.subrange(0, k) == b2.subrange(0, k)
            && a2[k] < b2[k] {
            let k = choose|k: int|
                0 <= k < a2.len() && k < b2.len() && a2.subrange(0, k) == b2.subrange(0, k) && a2[k]
                    < b2[k];
            assert(a.subrange(0, k + 1) =~= seq![a[0]] + a2.subrange(0, k));
            assert(b.subrange(0, k + 1) =~= seq![b[0]] + b2.subrange(0, k));
            assert(a[k + 1] == a2[k]);
        }
    }
}

} // verus!
