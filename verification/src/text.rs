use vstd::prelude::*;
use vstd::utf8::{decode_utf8, valid_utf8};

verus! {

/// `needle` occurs in `haystack` starting at index `i`.
pub open spec fn occurs_at<T>(haystack: Seq<T>, needle: Seq<T>, i: int) -> bool {
    0 <= i && i + needle.len() <= haystack.len() && haystack.subrange(i, i + needle.len()) == needle
}

/// `i` is the first index at which `needle` occurs in `haystack`.
pub open spec fn is_first_occurrence<T>(haystack: Seq<T>, needle: Seq<T>, i: int) -> bool {
    occurs_at(haystack, needle, i) && forall|j: int| 0 <= j < i ==> !occurs_at(haystack, needle, j)
}

/// The first index at which `needle` occurs in `haystack`, if it occurs.
pub open spec fn first_occurrence<T>(haystack: Seq<T>, needle: Seq<T>) -> Option<int> {
    if exists|i: int| occurs_at(haystack, needle, i) {
        Some(choose|i: int| is_first_occurrence(haystack, needle, i))
    } else {
        None
    }
}

/// There is at most one first occurrence.
pub proof fn lemma_first_occurrence_unique<T>(haystack: Seq<T>, needle: Seq<T>, i: int, j: int)
    requires
        is_first_occurrence(haystack, needle, i),
        is_first_occurrence(haystack, needle, j),
    ensures
        i == j,
{
}

/// If the needle occurs, `first_occurrence` names the first index.
pub proof fn lemma_first_occurrence_is_first<T>(haystack: Seq<T>, needle: Seq<T>, i: int)
    requires
        is_first_occurrence(haystack, needle, i),
    ensures
        first_occurrence(haystack, needle) == Some(i),
{
    let k = choose|k: int| is_first_occurrence(haystack, needle, k);
    assert(is_first_occurrence(haystack, needle, k));
    lemma_first_occurrence_unique(haystack, needle, i, k);
}

fn matches_at(haystack: &[u8], needle: &[u8], i: usize) -> (r: bool)
    requires
        i + needle@.len() <= haystack@.len(),
    ensures
        r == occurs_at(haystack@, needle@, i as int),
{
    let n = haystack.len();
    let m = needle.len();
    let mut k: usize = 0;
    while k < m
        invariant
            n == haystack@.len(),
            m == needle@.len(),
            k <= m,
            i + m <= haystack@.len(),
            forall|t: int| 0 <= t < k ==> haystack@[i + t] == needle@[t],
        decreases m - k,
    {
        if haystack[i + k] != needle[k] {
            assert(haystack@.subrange(i as int, i + m)[k as int] != needle@[k as int]);
            return false;
        }
        k = k + 1;
    }
    assert(haystack@.subrange(i as int, i + m) =~= needle@);
    true
}

/// The first index at which `needle` occurs in `haystack` (byte strings).
pub fn find_bytes(haystack: &[u8], needle: &[u8]) -> (r: Option<usize>)
    ensures
        match r {
            Some(i) => {
                &&& first_occurrence(haystack@, needle@) == Some(i as int)
                &&& is_first_occurrence(haystack@, needle@, i as int)
            },
            None => {
                &&& first_occurrence(haystack@, needle@) is None
                &&& forall|j: int| !occurs_at(haystack@, needle@, j)
            },
        },
{
    let n = haystack.len();
    let m = needle.len();
    if m > n {
        assert forall|i: int| !occurs_at(haystack@, needle@, i) by {}
        return None;
    }
    let last = n - m;
    let mut i: usize = 0;
    loop
        invariant
            n == haystack@.len(),
            m == needle@.len(),
            last == n - m,
            i <= last,
            forall|j: int| 0 <= j < i ==> !occurs_at(haystack@, needle@, j),
        ensures
            forall|j: int| 0 <= j <= last ==> !occurs_at(haystack@, needle@, j),
        decreases last - i,
    {
        if matches_at(haystack, needle, i) {
            proof {
                lemma_first_occurrence_is_first(haystack@, needle@, i as int);
            }
            return Some(i);
        }
        if i == last {
            break;
        }
        i = i + 1;
    }
    assert forall|j: int| !occurs_at(haystack@, needle@, j) by {
        if 0 <= j && j <= last {
        }
    }
    None
}

/// `needle` occurs somewhere in `haystack`.
pub open spec fn contains_seq<T>(haystack: Seq<T>, needle: Seq<T>) -> bool {
    exists|i: int| occurs_at(haystack, needle, i)
}

/// Whether `needle` occurs in `haystack`.
pub fn contains_bytes(haystack: &[u8], needle: &[u8]) -> (r: bool)
    ensures
        r == contains_seq(haystack@, needle@),
{
    match find_bytes(haystack, needle) {
        Some(i) => true,
        None => false,
    }
}

/// A string converted to lowercase by the Unicode `Lowercase` mapping
/// (what `str::to_lowercase` returns).
pub uninterp spec fn lowercase(s: Seq<char>) -> Seq<char>;

/// Lowercases with `str::to_lowercase`; claims that the result is
/// `lowercase` of the argument.
#[verifier::external_body]
pub(crate) fn to_lowercase(s: &str) -> (r: String)
    ensures
        r@ == lowercase(s@),
{
    s.to_lowercase()
}

/// Whether a character is alphabetic or numeric in Unicode (what
/// `char::is_alphanumeric` returns).
pub uninterp spec fn char_is_alphanumeric(c: char) -> bool;

/// Tests a character with `char::is_alphanumeric`; claims that the result
/// is `char_is_alphanumeric` of it.
#[verifier::external_body]
pub(crate) fn is_alphanumeric(c: char) -> (r: bool)
    ensures
        r == char_is_alphanumeric(c),
{
    c.is_alphanumeric()
}

/// Appends a character with `String::push`; claims that the string then
/// holds that character after what it held.
#[verifier::external_body]
pub(crate) fn push_char(s: &mut String, c: char)
    ensures
        final(s)@ == old(s)@.push(c),
{
    s.push(c);
}

/// An ASCII letter mapped to lowercase; every other byte unchanged.
pub open spec fn ascii_lower(b: u8) -> u8 {
    if 65 <= b <= 90 {
        (b + 32) as u8
    } else {
        b
    }
}

/// Whether two byte strings are equal once ASCII letters are lowercased.
pub fn eq_ignore_ascii_case(a: &[u8], b: &[u8]) -> (r: bool)
    ensures
        r == (a@.len() == b@.len() && forall|i: int|
            0 <= i < a@.len() ==> ascii_lower(#[trigger] a@[i]) == ascii_lower(b@[i])),
{
    if a.len() != b.len() {
        return false;
    }
    let n = a.len();
    let mut i: usize = 0;
    while i < n
        invariant
            n == a@.len(),
            n == b@.len(),
            i <= n,
            forall|j: int| 0 <= j < i ==> ascii_lower(#[trigger] a@[j]) == ascii_lower(b@[j]),
        decreases n - i,
    {
        let x = a[i];
        let y = b[i];
        let lx = if 65 <= x && x <= 90 {
            x + 32
        } else {
            x
        };
        let ly = if 65 <= y && y <= 90 {
            y + 32
        } else {
            y
        };
        if lx != ly {
            return false;
        }
        i = i + 1;
    }
    true
}


/// A byte string decoded as UTF-8, each invalid sequence replaced by
/// U+FFFD (what `String::from_utf8_lossy` returns).
pub uninterp spec fn std_utf8_lossy(bytes: Seq<u8>) -> Seq<char>;

/// Decodes bytes with `String::from_utf8_lossy`; claims that the result is
/// `std_utf8_lossy` of the bytes and, as its documentation says, that valid
/// UTF-8 comes back as its own text.
#[verifier::external_body]
pub(crate) fn lossy_text(bytes: &[u8]) -> (s: String)
    ensures
        s@ == std_utf8_lossy(bytes@),
        valid_utf8(bytes@) ==> s@ == decode_utf8(bytes@),
{
    String::from_utf8_lossy(bytes).into_owned()
}

/// Whether a character has the Unicode `White_Space` property (what
/// `char::is_whitespace` returns).
pub uninterp spec fn char_is_whitespace(c: char) -> bool;

/// Tests a character with `char::is_whitespace`; claims that the result is
/// `char_is_whitespace` of it.
#[verifier::external_body]
pub(crate) fn is_whitespace(c: char) -> (r: bool)
    ensures
        r == char_is_whitespace(c),
{
    c.is_whitespace()
}

/// A text with its leading and trailing whitespace removed.
pub open spec fn trimmed(s: Seq<char>) -> Seq<char>
    decreases s.len(),
{
    if s.len() == 0 {
        s
    } else if char_is_whitespace(s[0]) {
        trimmed(s.drop_first())
    } else if char_is_whitespace(s.last()) {
        trimmed(s.drop_last())
    } else {
        s
    }
}

proof fn lemma_trimmed_is_middle(s: Seq<char>, a: int, b: int)
    requires
        0 <= a <= b <= s.len(),
        forall|i: int| 0 <= i < a ==> char_is_whitespace(#[trigger] s[i]),
        forall|i: int| b <= i < s.len() ==> char_is_whitespace(#[trigger] s[i]),
        a < b ==> !char_is_whitespace(s[a]) && !char_is_whitespace(s[b - 1]),
    ensures
        trimmed(s) == s.subrange(a, b),
    decreases s.len(),
{
    if s.len() == 0 {
        assert(s.subrange(a, b) =~= s);
    } else if a > 0 || b == 0 {
        let t = s.drop_first();
        let (a2, b2) = if a > 0 { (a - 1, b - 1) } else { (0int, 0int) };
        assert(char_is_whitespace(s[0]));
        assert forall|i: int| 0 <= i < a2 implies char_is_whitespace(#[trigger] t[i]) by {
            assert(t[i] == s[i + 1]);
        }
        assert forall|i: int| b2 <= i < t.len() implies char_is_whitespace(#[trigger] t[i]) by {
            assert(t[i] == s[i + 1]);
        }
        if a2 < b2 {
            assert(t[a2] == s[a]);
            assert(t[b2 - 1] == s[b - 1]);
        }
        lemma_trimmed_is_middle(t, a2, b2);
        assert(t.subrange(a2, b2) =~= s.subrange(a, b));
    } else if b < s.len() {
        let t = s.drop_last();
        assert(!char_is_whitespace(s[0]));
        assert(char_is_whitespace(s.last()));
        assert forall|i: int| b <= i < t.len() implies char_is_whitespace(#[trigger] t[i]) by {
            assert(t[i] == s[i]);
        }
        assert(t[0] == s[0]);
        assert(t[b - 1] == s[b - 1]);
        lemma_trimmed_is_middle(t, a, b);
        assert(t.subrange(a, b) =~= s.subrange(a, b));
    } else {
        assert(s.subrange(a, b) =~= s);
    }
}

/// The text with its leading and trailing whitespace removed (as
/// `str::trim` does).
pub fn trim_text(s: &str) -> (t: String)
    ensures
        t@ == trimmed(s@),
{
    let n = s.unicode_len();
    let mut a: usize = 0;
    while a < n && is_whitespace(s.get_char(a))
        invariant
            n == s@.len(),
            a <= n,
            forall|i: int| 0 <= i < a ==> char_is_whitespace(#[trigger] s@[i]),
        decreases n - a,
    {
        a = a + 1;
    }
    let mut b: usize = n;
    while b > a && is_whitespace(s.get_char(b - 1))
        invariant
            n == s@.len(),
            a <= b <= n,
            forall|i: int| b <= i < n ==> char_is_whitespace(#[trigger] s@[i]),
        decreases b - a,
    {
        b = b - 1;
    }
    proof {
        lemma_trimmed_is_middle(s@, a as int, b as int);
    }
    String::from_str(s.substring_char(a, b))
}

} // verus!
