use vstd::prelude::*;

use crate::text::push_char;

verus! {

/// The Base64 digit for a value below 64: `A`-`Z`, `a`-`z`, `0`-`9`, `+`, `/`.
pub open spec fn b64_digit(v: int) -> char {
    if v < 26 {
        (65 + v) as char
    } else if v < 52 {
        (97 + v - 26) as char
    } else if v < 62 {
        (48 + v - 52) as char
    } else if v == 62 {
        '+'
    } else {
        '/'
    }
}

/// The four characters that encode the group of up to three bytes starting
/// at byte `3 * g`: missing bytes count as zero, and each output character
/// that depends only on missing bytes is `=`.
pub open spec fn b64_group(data: Seq<u8>, g: int) -> Seq<char> {
    let i = 3 * g;
    let b0 = data[i] as int;
    let b1 = if i + 1 < data.len() {
        data[i + 1] as int
    } else {
        0
    };
    let b2 = if i + 2 < data.len() {
        data[i + 2] as int
    } else {
        0
    };
    let val = b0 * 65536 + b1 * 256 + b2;
    seq![
        b64_digit(val / 262144 % 64),
        b64_digit(val / 4096 % 64),
        if i + 1 < data.len() {
            b64_digit(val / 64 % 64)
        } else {
            '='
        },
        if i + 2 < data.len() {
            b64_digit(val % 64)
        } else {
            '='
        },
    ]
}

/// The encoding of the first `g` groups.
pub open spec fn base64_groups(data: Seq<u8>, g: int) -> Seq<char>
    decreases g,
{
    if g <= 0 {
        seq![]
    } else {
        base64_groups(data, g - 1) + b64_group(data, g - 1)
    }
}

/// The number of three-byte groups (the last one possibly short).
pub open spec fn b64_group_count(len: nat) -> int {
    ((len + 2) / 3) as int
}

/// Standard Base64 (RFC 4648 alphabet, `=` padding) of a byte string.
pub open spec fn base64(data: Seq<u8>) -> Seq<char> {
    base64_groups(data, b64_group_count(data.len()))
}

fn digit_char(v: u32) -> (c: char)
    requires
        v < 64,
    ensures
        c == b64_digit(v as int),
{
    if v < 26 {
        ((65 + v) as u8) as char
    } else if v < 52 {
        ((97 + v - 26) as u8) as char
    } else if v < 62 {
        ((48 + v - 52) as u8) as char
    } else if v == 62 {
        '+'
    } else {
        '/'
    }
}

fn sextets(val: u32) -> (r: (u32, u32, u32, u32))
    requires
        val < 16777216,
    ensures
        r.0 == val / 262144 % 64 && r.0 < 64,
        r.1 == val / 4096 % 64 && r.1 < 64,
        r.2 == val / 64 % 64 && r.2 < 64,
        r.3 == val % 64 && r.3 < 64,
{
    (val / 262144 % 64, val / 4096 % 64, val / 64 % 64, val % 64)
}

fn push_group(data: &[u8], i: usize, Ghost(g): Ghost<int>, out: &mut String)
    requires
        i == 3 * g,
        i < data@.len(),
    ensures
        final(out)@ == old(out)@ + b64_group(data@, g),
{
    let n = data.len();
    let b0 = data[i] as u32;
    let has1 = i < n - 1;
    let has2 = n >= 2 && i < n - 2;
    let b1 = if has1 {
        data[i + 1] as u32
    } else {
        0
    };
    let b2 = if has2 {
        data[i + 2] as u32
    } else {
        0
    };
    let val = b0 * 65536 + b1 * 256 + b2;
    let (s0, s1, s2, s3) = sextets(val);
    let ghost before = out@;
    push_char(out, digit_char(s0));
    push_char(out, digit_char(s1));
    if has1 {
        push_char(out, digit_char(s2));
    } else {
        push_char(out, '=');
    }
    if has2 {
        push_char(out, digit_char(s3));
    } else {
        push_char(out, '=');
    }
    assert(out@ =~= before + b64_group(data@, g));
}

/// Encodes bytes as standard Base64 with `=` padding.
pub fn base64_encode(data: &[u8]) -> (s: String)
    requires
        (data@.len() + 2) / 3 * 4 <= usize::MAX,
    ensures
        s@ == base64(data@),
{
    let n = data.len();
    let mut out = String::new();
    let mut i: usize = 0;
    let ghost mut g: int = 0;
    while i < n
        invariant
            n == data@.len(),
            n + 2 <= usize::MAX,
            i == 3 * g,
            0 <= g,
            i <= n + 2,
            i < n + 3,
            i > 0 ==> i - 3 < n,
            out@ == base64_groups(data@, g),
        decreases n + 3 - i,
    {
        push_group(data, i, Ghost(g), &mut out);
        i = i + 3;
        proof {
            g = g + 1;
        }
    }
    assert(g == b64_group_count(n as nat));
    out
}

/// The decimal digit character for a value below 10.
pub open spec fn digit(v: int) -> char {
    (48 + v) as char
}

/// The decimal representation of `n`, without leading zeros.
pub open spec fn decimal(n: nat) -> Seq<char>
    decreases n,
{
    if n < 10 {
        seq![digit(n as int)]
    } else {
        decimal(n / 10) + seq![digit((n % 10) as int)]
    }
}

/// A digit string with `_` between each group of three digits, counted
/// from the right: 1540158 becomes 1_540_158.
pub open spec fn group_thousands(d: Seq<char>) -> Seq<char>
    decreases d.len(),
{
    if d.len() <= 3 {
        d
    } else {
        group_thousands(d.subrange(0, d.len() - 3)) + seq!['_'] + d.subrange(
            d.len() - 3,
            d.len() as int,
        )
    }
}

fn decimal_digits(n: usize) -> (d: Vec<char>)
    ensures
        d@ == decimal(n as nat),
    decreases n,
{
    if n < 10 {
        let mut d = Vec::new();
        d.push(((48 + n) as u8) as char);
        assert(d@ =~= decimal(n as nat));
        d
    } else {
        let mut d = decimal_digits(n / 10);
        d.push(((48 + n % 10) as u8) as char);
        d
    }
}

fn group_digits(d: &[char], out: &mut String)
    ensures
        final(out)@ == old(out)@ + group_thousands(d@),
    decreases d@.len(),
{
    let n = d.len();
    if n <= 3 {
        let ghost before = out@;
        let mut k: usize = 0;
        while k < n
            invariant
                n == d@.len(),
                k <= n,
                out@ == before + d@.subrange(0, k as int),
            decreases n - k,
        {
            push_char(out, d[k]);
            assert(d@.subrange(0, k + 1) =~= d@.subrange(0, k as int).push(d@[k as int]));
            k = k + 1;
        }
        assert(d@.subrange(0, n as int) =~= d@);
    } else {
        group_digits(&d[0..n - 3], out);
        let ghost mid = out@;
        push_char(out, '_');
        push_char(out, d[n - 3]);
        push_char(out, d[n - 2]);
        push_char(out, d[n - 1]);
        assert(out@ =~= mid + seq!['_'] + d@.subrange(n - 3, n as int));
    }
}

/// Formats a number with `_` between groups of three digits: `1_540_158`.
pub fn fmt_thousands(n: usize) -> (s: String)
    ensures
        s@ == group_thousands(decimal(n as nat)),
{
    let digits = decimal_digits(n);
    let mut out = String::new();
    group_digits(digits.as_slice(), &mut out);
    assert(Seq::<char>::empty() + group_thousands(decimal(n as nat)) =~= group_thousands(
        decimal(n as nat),
    ));
    out
}

/// A character of the Base64 alphabet, or the padding `=`.
pub open spec fn is_base64_char(c: char) -> bool {
    ('A' <= c && c <= 'Z') || ('a' <= c && c <= 'z') || ('0' <= c && c <= '9') || c == '+' || c
        == '/' || c == '='
}

proof fn lemma_base64_groups_shape(data: Seq<u8>, g: int)
    requires
        0 <= g,
        3 * g <= data.len() + 2,
    ensures
        base64_groups(data, g).len() == 4 * g,
        forall|k: int| 0 <= k < base64_groups(data, g).len() ==> is_base64_char(
            #[trigger] base64_groups(data, g)[k],
        ),
        3 * g <= data.len() ==> forall|k: int|
            0 <= k < base64_groups(data, g).len() ==> #[trigger] base64_groups(data, g)[k] != '=',
    decreases g,
{
    if g > 0 {
        lemma_base64_groups_shape(data, g - 1);
        let prev = base64_groups(data, g - 1);
        let grp = b64_group(data, g - 1);
        let cur = base64_groups(data, g);
        assert forall|k: int| 0 <= k < cur.len() implies is_base64_char(#[trigger] cur[k]) && (3 * g
            <= data.len() ==> cur[k] != '=') by {
            if k >= prev.len() {
                assert(cur[k] == grp[k - prev.len()]);
            } else {
                assert(cur[k] == prev[k]);
            }
        }
    }
}

/// Base64 output is four characters per started group of three bytes, all
/// from the Base64 alphabet or `=`; when the input length is a multiple
/// of three there is no padding.
pub proof fn lemma_base64_shape(data: Seq<u8>)
    ensures
        base64(data).len() == 4 * ((data.len() + 2) / 3),
        forall|k: int| 0 <= k < base64(data).len() ==> is_base64_char(#[trigger] base64(data)[k]),
        data.len() % 3 == 0 ==> forall|k: int|
            0 <= k < base64(data).len() ==> #[trigger] base64(data)[k] != '=',
{
    lemma_base64_groups_shape(data, b64_group_count(data.len()));
}

proof fn lemma_group_of_concat(a: Seq<u8>, b: Seq<u8>, k: int)
    requires
        a.len() % 3 == 0,
        0 <= k,
    ensures
        3 * k + 2 < a.len() ==> b64_group(a + b, k) == b64_group(a, k),
        3 * k < b.len() ==> b64_group(a + b, (a.len() / 3) as int + k) == b64_group(b, k),
{
    let ab = a + b;
    if 3 * k + 2 < a.len() {
        assert(ab[3 * k] == a[3 * k]);
        assert(ab[3 * k + 1] == a[3 * k + 1]);
        assert(ab[3 * k + 2] == a[3 * k + 2]);
    }
    if 3 * k < b.len() {
        let i = 3 * ((a.len() / 3) as int + k);
        assert(i == a.len() + 3 * k);
        assert(ab[i] == b[3 * k]);
        if 3 * k + 1 < b.len() {
            assert(ab[i + 1] == b[3 * k + 1]);
        }
        if 3 * k + 2 < b.len() {
            assert(ab[i + 2] == b[3 * k + 2]);
        }
    }
}

proof fn lemma_groups_of_concat_prefix(a: Seq<u8>, b: Seq<u8>, g: int)
    requires
        a.len() % 3 == 0,
        0 <= g <= (a.len() / 3) as int,
    ensures
        base64_groups(a + b, g) == base64_groups(a, g),
    decreases g,
{
    if g > 0 {
        lemma_groups_of_concat_prefix(a, b, g - 1);
        lemma_group_of_concat(a, b, g - 1);
    }
}

proof fn lemma_groups_of_concat(a: Seq<u8>, b: Seq<u8>, m: int)
    requires
        a.len() % 3 == 0,
        0 <= m,
        3 * (m - 1) < b.len() || m == 0,
    ensures
        base64_groups(a + b, (a.len() / 3) as int + m) == base64_groups(a, (a.len() / 3) as int)
            + base64_groups(b, m),
    decreases m,
{
    let q = (a.len() / 3) as int;
    if m == 0 {
        lemma_groups_of_concat_prefix(a, b, q);
        assert(base64_groups(b, 0) =~= Seq::<char>::empty());
        assert(base64_groups(a, q) + Seq::<char>::empty() =~= base64_groups(a, q));
    } else {
        lemma_groups_of_concat(a, b, m - 1);
        lemma_group_of_concat(a, b, m - 1);
        assert(base64_groups(a, q) + base64_groups(b, m - 1) + b64_group(b, m - 1) =~= base64_groups(
            a,
            q,
        ) + (base64_groups(b, m - 1) + b64_group(b, m - 1)));
    }
}

/// Base64 works group by group: when the first part's length is a
/// multiple of three, the encoding of two byte strings joined is the two
/// encodings joined.
pub proof fn lemma_base64_concat(a: Seq<u8>, b: Seq<u8>)
    requires
        a.len() % 3 == 0,
    ensures
        base64(a + b) == base64(a) + base64(b),
{
    let m = b64_group_count(b.len());
    assert(b64_group_count((a + b).len()) == (a.len() / 3) as int + m);
    assert(b64_group_count(a.len()) == (a.len() / 3) as int);
    lemma_groups_of_concat(a, b, m);
}

/// The value of a Base64 character: its place in the alphabet, and zero
/// for the padding `=` (or anything else).
pub open spec fn b64_value(c: char) -> int {
    if 'A' <= c && c <= 'Z' {
        c as int - 65
    } else if 'a' <= c && c <= 'z' {
        c as int - 97 + 26
    } else if '0' <= c && c <= '9' {
        c as int - 48 + 52
    } else if c == '+' {
        62
    } else if c == '/' {
        63
    } else {
        0
    }
}

/// The bytes that a block of four Base64 characters stands for (RFC 4648,
/// section 4): three, or one when the third character is `=`, or two when
/// only the fourth is.
pub open spec fn decode_quad(q: Seq<char>) -> Seq<u8> {
    let v = b64_value(q[0]) * 262144 + b64_value(q[1]) * 4096 + b64_value(q[2]) * 64 + b64_value(
        q[3],
    );
    if q[2] == '=' {
        seq![(v / 65536) as u8]
    } else if q[3] == '=' {
        seq![(v / 65536) as u8, (v / 256 % 256) as u8]
    } else {
        seq![(v / 65536) as u8, (v / 256 % 256) as u8, (v % 256) as u8]
    }
}

/// The bytes of the first `g` blocks of four characters.
pub open spec fn base64_decode_blocks(s: Seq<char>, g: int) -> Seq<u8>
    decreases g,
{
    if g <= 0 {
        seq![]
    } else {
        base64_decode_blocks(s, g - 1) + decode_quad(s.subrange(4 * (g - 1), 4 * g))
    }
}

/// Standard padded Base64 decoding of a text made of whole blocks.
pub open spec fn base64_decode(s: Seq<char>) -> Seq<u8> {
    base64_decode_blocks(s, (s.len() / 4) as int)
}

proof fn lemma_digit_value(v: int)
    requires
        0 <= v < 64,
    ensures
        b64_value(b64_digit(v)) == v,
        b64_digit(v) != '=',
{
}

proof fn lemma_sextets_recombine(b0: u32, b1: u32, b2: u32)
    by (bit_vector)
    requires
        b0 < 256,
        b1 < 256,
        b2 < 256,
    ensures
        ((b0 * 65536 + b1 * 256 + b2) / 262144 % 64) * 262144 + ((b0 * 65536 + b1 * 256 + b2)
            / 4096 % 64) * 4096 + ((b0 * 65536 + b1 * 256 + b2) / 64 % 64) * 64 + (b0 * 65536 + b1
            * 256 + b2) % 64 == b0 * 65536 + b1 * 256 + b2,
        (b0 * 65536 + b1 * 256 + b2) / 65536 == b0,
        (b0 * 65536 + b1 * 256 + b2) / 256 % 256 == b1,
        (b0 * 65536 + b1 * 256 + b2) % 256 == b2,
        b1 == 0 && b2 == 0 ==> (b0 * 65536 + b1 * 256 + b2) / 64 % 64 == 0,
        b2 == 0 ==> (b0 * 65536 + b1 * 256 + b2) % 64 == 0,
{
}

proof fn lemma_decode_group(data: Seq<u8>, g: int)
    requires
        0 <= g,
        3 * g < data.len(),
    ensures
        decode_quad(b64_group(data, g)) == data.subrange(
            3 * g,
            if 3 * g + 3 <= data.len() {
                3 * g + 3
            } else {
                data.len() as int
            },
        ),
{
    let i = 3 * g;
    let b0: u32 = data[i] as u32;
    let b1: u32 = if i + 1 < data.len() {
        data[i + 1] as u32
    } else {
        0
    };
    let b2: u32 = if i + 2 < data.len() {
        data[i + 2] as u32
    } else {
        0
    };
    let val = b0 * 65536 + b1 * 256 + b2;
    lemma_sextets_recombine(b0, b1, b2);
    let q = b64_group(data, g);
    assert(q[0] == b64_digit(val / 262144 % 64));
    assert(q[1] == b64_digit(val / 4096 % 64));
    lemma_digit_value(val / 262144 % 64);
    lemma_digit_value(val / 4096 % 64);
    lemma_digit_value(val / 64 % 64);
    lemma_digit_value(val % 64);
    assert(b64_value(q[2]) == val / 64 % 64);
    assert(b64_value(q[3]) == val % 64);
    assert(q[2] == '=' <==> i + 1 >= data.len());
    assert(q[3] == '=' <==> i + 2 >= data.len());
    let end = if i + 3 <= data.len() {
        i + 3
    } else {
        data.len() as int
    };
    assert(decode_quad(q) =~= data.subrange(i, end));
}

proof fn lemma_group_block(data: Seq<u8>, n: int, k: int)
    requires
        0 <= k < n,
        3 * n <= data.len() + 2,
    ensures
        base64_groups(data, n).subrange(4 * k, 4 * k + 4) == b64_group(data, k),
    decreases n,
{
    lemma_base64_groups_shape(data, n - 1);
    let prev = base64_groups(data, n - 1);
    let cur = base64_groups(data, n);
    if k == n - 1 {
        assert(cur.subrange(4 * k, 4 * k + 4) =~= b64_group(data, k));
    } else {
        lemma_group_block(data, n - 1, k);
        assert(cur.subrange(4 * k, 4 * k + 4) =~= prev.subrange(4 * k, 4 * k + 4));
    }
}

proof fn lemma_decode_prefix(data: Seq<u8>, g: int)
    requires
        0 <= g <= b64_group_count(data.len()),
    ensures
        base64_decode_blocks(base64(data), g) == data.subrange(
            0,
            if 3 * g <= data.len() {
                3 * g
            } else {
                data.len() as int
            },
        ),
    decreases g,
{
    if g == 0 {
        assert(data.subrange(0, 0) =~= Seq::<u8>::empty());
    } else {
        lemma_decode_prefix(data, g - 1);
        lemma_group_block(data, b64_group_count(data.len()), g - 1);
        lemma_decode_group(data, g - 1);
        let end = if 3 * g <= data.len() {
            3 * g
        } else {
            data.len() as int
        };
        assert(data.subrange(0, 3 * (g - 1)) + data.subrange(3 * (g - 1), end) =~= data.subrange(
            0,
            end,
        ));
    }
}

/// Decoding Base64 output with a standard padded decoder gives back the
/// bytes that were encoded.
pub proof fn lemma_base64_round_trip(data: Seq<u8>)
    ensures
        base64_decode(base64(data)) == data,
{
    lemma_base64_shape(data);
    let n = b64_group_count(data.len());
    assert(base64(data).len() / 4 == n);
    lemma_decode_prefix(data, n);
    assert(data.subrange(0, data.len() as int) =~= data);
}

proof fn lemma_filter_keeps_all(s: Seq<char>, pred: spec_fn(char) -> bool)
    requires
        forall|i: int| 0 <= i < s.len() ==> pred(#[trigger] s[i]),
    ensures
        s.filter(pred) == s,
    decreases s.len(),
{
    reveal(Seq::filter);
    if s.len() > 0 {
        lemma_filter_keeps_all(s.drop_last(), pred);
        assert(s.drop_last().push(s.last()) =~= s);
    }
}

/// Not an underscore.
pub open spec fn not_underscore(c: char) -> bool {
    c != '_'
}

/// Grouping only inserts separators: removing the `_` characters from
/// `group_thousands(d)` gives back `d`, for any digit string without `_`.
pub proof fn lemma_grouping_keeps_digits(d: Seq<char>)
    requires
        forall|i: int| 0 <= i < d.len() ==> #[trigger] d[i] != '_',
    ensures
        group_thousands(d).filter(|c: char| not_underscore(c)) == d,
    decreases d.len(),
{
    let pred = |c: char| not_underscore(c);
    if d.len() <= 3 {
        lemma_filter_keeps_all(d, pred);
    } else {
        let head = d.subrange(0, d.len() - 3);
        let tail = d.subrange(d.len() - 3, d.len() as int);
        lemma_grouping_keeps_digits(head);
        lemma_filter_keeps_all(tail, pred);
        reveal(Seq::filter);
        assert(seq!['_'].drop_last() =~= Seq::<char>::empty());
        assert(Seq::<char>::empty().filter(pred) =~= Seq::<char>::empty());
        assert(!pred('_'));
        assert(seq!['_'].last() == '_');
        assert(seq!['_'].filter(pred) =~= Seq::<char>::empty());
        Seq::filter_distributes_over_add(group_thousands(head), seq!['_'], pred);
        Seq::filter_distributes_over_add(group_thousands(head) + seq!['_'], tail, pred);
        assert(head + tail =~= d);
    }
}

/// Every digit of a decimal representation is `0`-`9`.
pub proof fn lemma_decimal_is_digits(n: nat)
    ensures
        forall|i: int| 0 <= i < decimal(n).len() ==> '0' <= #[trigger] decimal(n)[i] && decimal(n)[i] <= '9',
    decreases n,
{
    if n >= 10 {
        lemma_decimal_is_digits(n / 10);
        let prev = decimal(n / 10);
        assert forall|i: int| 0 <= i < decimal(n).len() implies '0' <= #[trigger] decimal(n)[i]
            && decimal(n)[i] <= '9' by {
            if i < prev.len() {
                assert(decimal(n)[i] == prev[i]);
            }
        }
    }
}

/// Formatting with separators loses no digit: `fmt_thousands(n)` without
/// its `_` characters is the decimal representation of `n`.
pub proof fn lemma_fmt_thousands_digits(n: nat)
    ensures
        group_thousands(decimal(n)).filter(|c: char| not_underscore(c)) == decimal(n),
{
    lemma_decimal_is_digits(n);
    lemma_grouping_keeps_digits(decimal(n));
}

/// The shape of grouped digits: in `group_thousands(d)`, of length `L`,
/// position `i` holds `_` exactly when it is not the first and `L - i` is a
/// multiple of four. So the groups after the first have exactly three
/// digits, the first has one to three, and no `_` leads, trails or repeats.
pub proof fn lemma_grouping_shape(d: Seq<char>)
    requires
        forall|i: int| 0 <= i < d.len() ==> #[trigger] d[i] != '_',
    ensures
        forall|i: int|
            0 <= i < group_thousands(d).len() ==> (#[trigger] group_thousands(d)[i] == '_' <==> (i > 0
                && (group_thousands(d).len() - i) % 4 == 0)),
    decreases d.len(),
{
    if d.len() > 3 {
        let head = d.subrange(0, d.len() - 3);
        let tail = d.subrange(d.len() - 3, d.len() as int);
        lemma_grouping_shape(head);
        lemma_grouping_len(head);
        let gh = group_thousands(head);
        let g = group_thousands(d);
        assert(g == gh + seq!['_'] + tail);
        assert forall|i: int| 0 <= i < g.len() implies (#[trigger] g[i] == '_' <==> (i > 0 && (g.len()
            - i) % 4 == 0)) by {
            if i < gh.len() {
                assert(g[i] == gh[i]);
                assert((g.len() - i) % 4 == (gh.len() - i) % 4);
            } else if i == gh.len() {
            } else {
                assert(g[i] == tail[i - gh.len() - 1]);
            }
        }
    }
}

proof fn lemma_grouping_len(d: Seq<char>)
    ensures
        d.len() > 0 ==> group_thousands(d).len() > 0,
        group_thousands(d).len() >= d.len(),
    decreases d.len(),
{
    if d.len() > 3 {
        lemma_grouping_len(d.subrange(0, d.len() - 3));
    }
}

/// `fmt_thousands(n)` has that shape.
pub proof fn lemma_fmt_thousands_shape(n: nat)
    ensures
        forall|i: int|
            0 <= i < group_thousands(decimal(n)).len() ==> (#[trigger] group_thousands(decimal(n))[i]
                == '_' <==> (i > 0 && (group_thousands(decimal(n)).len() - i) % 4 == 0)),
{
    lemma_decimal_is_digits(n);
    lemma_grouping_shape(decimal(n));
}

/// Consecutive reports add up: when the count does not go down, the deltas
/// of two ticks sum to the growth since the first reference.
pub proof fn lemma_throughput_deltas_add_up(last: usize, a: usize, b: usize)
    requires
        last <= a <= b,
    ensures
        (a - last) + (b - a) == b - last,
{
}

/// The throughput reporter's state: the file count at the last report.
pub struct ThroughputMeter {
    pub last: usize,
}

impl ThroughputMeter {
    /// A meter that has reported nothing yet.
    pub fn new() -> (m: Self)
        ensures
            m.last == 0,
    {
        ThroughputMeter { last: 0 }
    }

    /// Files found since the last report (0 if the count went down); the
    /// current count becomes the new reference.
    pub fn tick(&mut self, current: usize) -> (delta: usize)
        ensures
            delta == (if current >= old(self).last {
                current - old(self).last
            } else {
                0
            }),
            final(self).last == current,
    {
        let delta = current.saturating_sub(self.last);
        self.last = current;
        delta
    }
}

} // verus!
