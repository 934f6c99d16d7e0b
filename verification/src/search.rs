use vstd::prelude::*;
use vstd::multiset::Multiset;
use vstd::utf8::encode_utf8;
use nucleo::pattern::{CaseMatching, Normalization, Pattern};
use nucleo::{Matcher, Utf32String};

use crate::models::{FileRecord, records_view};
use crate::text::{
    char_is_alphanumeric,
    find_bytes,
    first_occurrence,
    occurs_at,
    is_alphanumeric,
    lowercase,
    push_char,
    to_lowercase,
};

verus! {

broadcast use {
    vstd::seq_lib::to_multiset_build,
    vstd::seq_lib::to_multiset_insert,
    vstd::seq_lib::to_multiset_remove,
    vstd::seq_lib::to_multiset_len,
    vstd::multiset::group_multiset_axioms,
};

/// Results returned when a search request names no limit.
pub const DEFAULT_SEARCH_LIMIT: usize = 50;

/// A search request: the query text and an optional number of results.
#[derive(Debug)]
pub struct SearchQuery {
    pub q: String,
    pub limit: Option<usize>,
}

impl SearchQuery {
    /// The number of results to return: the requested limit, or
    /// `DEFAULT_SEARCH_LIMIT` when none was given.
    pub fn effective_limit(&self) -> (n: usize)
        ensures
            n == match self.limit {
                Some(l) => l,
                None => DEFAULT_SEARCH_LIMIT,
            },
    {
        match self.limit {
            Some(l) => l,
            None => DEFAULT_SEARCH_LIMIT,
        }
    }
}

/// One search hit as shown to the user: the entry's name, its full path,
/// and whether it is a directory.
#[derive(Debug)]
pub struct SearchResult {
    pub name: String,
    pub path: String,
    pub is_dir: bool,
}

/// `nucleo::pattern::Pattern`, known to Verus as an opaque type.
#[verifier::external_type_specification]
#[verifier::external_body]
pub struct ExPattern(Pattern);

/// `nucleo::Matcher`, known to Verus as an opaque type.
#[verifier::external_type_specification]
#[verifier::external_body]
pub struct ExMatcher(Matcher);

/// How many words a query has once parsed for fuzzy matching (what the
/// `atoms` of `nucleo::pattern::Pattern::parse(query, CaseMatching::Ignore,
/// Normalization::Smart)` hold).
pub uninterp spec fn fuzzy_word_count(query: Seq<char>) -> nat;

/// The fuzzy-match score of word `k` of the parsed query against a name,
/// `None` when that word does not match (what `nucleo`'s `Atom::score`
/// returns, scored by a default `Matcher`).
pub uninterp spec fn fuzzy_word_score(query: Seq<char>, k: int, name: Seq<char>) -> Option<u16>;

/// The outcome of scoring a name against a whole query.
#[derive(Debug, PartialEq, Eq, Structural, Clone, Copy)]
pub enum PatternScore {
    /// Every word matched; the sum of their scores.
    Score(u32),
    /// Some word did not match.
    NoMatch,
    /// The sum of the word scores does not fit in a `u32`.
    Overflow,
}

/// The score of a name against the first `k` words of a query: words are
/// scored in order, the first that does not match ends with `NoMatch`, and
/// the scores are summed in a `u32` (as `nucleo::pattern::Pattern::score`
/// does; a query with no words scores 0).
pub open spec fn pattern_score_upto(query: Seq<char>, name: Seq<char>, k: int) -> PatternScore
    decreases k,
{
    if k <= 0 {
        PatternScore::Score(0)
    } else {
        match pattern_score_upto(query, name, k - 1) {
            PatternScore::Score(s) => match fuzzy_word_score(query, k - 1, name) {
                None => PatternScore::NoMatch,
                Some(w) => if s + w > u32::MAX {
                    PatternScore::Overflow
                } else {
                    PatternScore::Score((s + w) as u32)
                },
            },
            other => other,
        }
    }
}

/// The score of a name against a whole query.
pub open spec fn pattern_score(query: Seq<char>, name: Seq<char>) -> PatternScore {
    pattern_score_upto(query, name, fuzzy_word_count(query) as int)
}

/// A query parsed for fuzzy matching, with the matcher that scores names
/// against it.
pub(crate) struct FuzzyMatcher {
    pattern: Pattern,
    matcher: Matcher,
    query: String,
}

impl FuzzyMatcher {
    /// The query the pattern was parsed from.
    pub(crate) closed spec fn query(&self) -> Seq<char> {
        self.query@
    }

    /// Parses `query` with `nucleo::pattern::Pattern::parse` (case ignored,
    /// smart normalization) and creates a `nucleo::Matcher::default()`;
    /// claims that the query kept beside the pattern is the one parsed. The
    /// fields are private and set only here, which is what `word_count` and
    /// `score_word` rely on.
    #[verifier::external_body]
    pub(crate) fn new(query: &str) -> (m: Self)
        ensures
            m.query() == query@,
    {
        FuzzyMatcher {
            pattern: Pattern::parse(query, CaseMatching::Ignore, Normalization::Smart),
            matcher: Matcher::default(),
            query: query.to_string(),
        }
    }

    /// The number of words of the parsed pattern (the length of its
    /// `atoms`); claims that it is `fuzzy_word_count` of the query.
    #[verifier::external_body]
    pub(crate) fn word_count(&self) -> (n: usize)
        ensures
            n == fuzzy_word_count(self.query()),
    {
        self.pattern.atoms.len()
    }

    /// Scores `name` against word `k` with `nucleo::pattern::Atom::score`;
    /// claims that the result is `fuzzy_word_score` of the query, `k` and
    /// the name. The matcher panics on a name of more than `u32::MAX`
    /// characters, so such names are not admitted.
    #[verifier::external_body]
    pub(crate) fn score_word(&mut self, k: usize, name: &str) -> (r: Option<u16>)
        requires
            k < fuzzy_word_count(old(self).query()),
            name@.len() <= u32::MAX,
        ensures
            r == fuzzy_word_score(old(self).query(), k as int, name@),
            final(self).query() == old(self).query(),
    {
        self.pattern.atoms[k].score(Utf32String::from(name).slice(..), &mut self.matcher)
    }

    /// Scores `name` against the whole query: the word scores summed in
    /// order, stopping at the first word that does not match, and
    /// `Overflow` where the sum leaves the `u32` range.
    pub(crate) fn score(&mut self, name: &str) -> (r: PatternScore)
        requires
            name@.len() <= u32::MAX,
        ensures
            r == pattern_score(old(self).query(), name@),
            final(self).query() == old(self).query(),
    {
        let n = self.word_count();
        let mut total: u32 = 0;
        let mut k: usize = 0;
        while k < n
            invariant
                n == fuzzy_word_count(self.query()),
                self.query() == old(self).query(),
                name@.len() <= u32::MAX,
                k <= n,
                pattern_score_upto(self.query(), name@, k as int) == PatternScore::Score(total),
            decreases n - k,
        {
            match self.score_word(k, name) {
                None => {
                    proof {
                        lemma_pattern_score_settles(self.query(), name@, k + 1, n as int);
                    }
                    return PatternScore::NoMatch;
                },
                Some(w) => match total.checked_add(w as u32) {
                    None => {
                        proof {
                            lemma_pattern_score_settles(self.query(), name@, k + 1, n as int);
                        }
                        return PatternScore::Overflow;
                    },
                    Some(t) => {
                        total = t;
                    },
                },
            }
            k = k + 1;
        }
        PatternScore::Score(total)
    }
}

/// Once the score of a prefix of the words is `NoMatch` or `Overflow`, it
/// stays so for every longer prefix.
proof fn lemma_pattern_score_settles(query: Seq<char>, name: Seq<char>, i: int, j: int)
    requires
        0 <= i <= j,
        !(pattern_score_upto(query, name, i) is Score),
    ensures
        pattern_score_upto(query, name, j) == pattern_score_upto(query, name, i),
    decreases j - i,
{
    if i < j {
        lemma_pattern_score_settles(query, name, i, j - 1);
    }
}

/// Whether a byte, read as the character with that code point, is a letter
/// or a digit (a byte of a word).
pub open spec fn is_word_byte(b: u8) -> bool {
    char_is_alphanumeric(b as char)
}

/// The bonus a name earns for containing the query: 400 when the
/// (lowercased) query occurs in the (lowercased) name; 600 more when that
/// first occurrence is a whole word (no letter or digit byte right before or
/// after it); 500 more when that word starts the name. `name` and `query`
/// are the UTF-8 bytes.
pub open spec fn substring_boost(name: Seq<u8>, query: Seq<u8>) -> nat {
    match first_occurrence(name, query) {
        Some(idx) => {
            let left = idx == 0 || !is_word_byte(name[idx - 1]);
            let right = idx + query.len() == name.len() || !is_word_byte(name[idx + query.len()]);
            400 + if left && right {
                600 + if idx == 0 {
                    500nat
                } else {
                    0nat
                }
            } else {
                0nat
            }
        },
        None => 0,
    }
}

/// The whole bonus of an entry: its substring bonus, and 100 for a
/// directory.
pub open spec fn name_boost(name: Seq<u8>, query: Seq<u8>, is_dir: bool) -> nat {
    substring_boost(name, query) + if is_dir {
        100nat
    } else {
        0nat
    }
}

/// Computes the bonus of an entry from its lowercased name and the
/// lowercased query.
pub fn compute_name_boost(name_lower: &str, query_lower: &str, is_dir: bool) -> (b: u32)
    ensures
        b == name_boost(encode_utf8(name_lower@), encode_utf8(query_lower@), is_dir),
{
    let n = name_lower.as_bytes();
    let q = query_lower.as_bytes();
    let mut boost: u32 = 0;
    match find_bytes(n, q) {
        Some(idx) => {
            boost = 400;
            let left = idx == 0 || !is_alphanumeric(n[idx - 1] as char);
            let right = idx + q.len() == n.len() || !is_alphanumeric(n[idx + q.len()] as char);
            if left && right {
                boost = boost + 600;
                if idx == 0 {
                    boost = boost + 500;
                }
            }
        },
        None => {},
    }
    if is_dir {
        boost = boost + 100;
    }
    boost
}

/// The ranking score of a matched entry: its fuzzy score plus its bonus,
/// `None` when the sum does not fit in a `u32`.
pub fn boosted_score(base: u32, name_lower: &str, query_lower: &str, is_dir: bool) -> (s: Option<
    u32,
>)
    ensures
        s == (if base + name_boost(encode_utf8(name_lower@), encode_utf8(query_lower@), is_dir)
            <= u32::MAX {
            Some(
                (base + name_boost(encode_utf8(name_lower@), encode_utf8(query_lower@), is_dir)) as u32,
            )
        } else {
            None
        }),
{
    let boost = compute_name_boost(name_lower, query_lower, is_dir);
    base.checked_add(boost)
}

/// Scores are in descending order.
pub open spec fn sorted_desc(s: Seq<(u32, usize)>) -> bool {
    forall|i: int, j: int| 0 <= i < j < s.len() ==> s[i].0 >= s[j].0
}

/// The smaller of `a` and `b`.
pub open spec fn min_nat(a: nat, b: nat) -> nat {
    if a < b {
        a
    } else {
        b
    }
}

/// `top` holds the `limit` best-scored candidates (all of them if there
/// are fewer), best first: no candidate left out scores higher than one
/// kept. Among equal scores, which candidates are kept, and in which order,
/// is left open.
pub open spec fn is_top_k(top: Seq<(u32, usize)>, cands: Seq<(u32, usize)>, limit: usize) -> bool {
    &&& sorted_desc(top)
    &&& top.len() == min_nat(cands.len(), limit as nat)
    &&& top.to_multiset().subset_of(cands.to_multiset())
    &&& forall|x: (u32, usize)|
        cands.to_multiset().count(x) > top.to_multiset().count(x) ==> forall|k: int|
            0 <= k < top.len() ==> x.0 <= #[trigger] top[k].0
}

/// Where to insert a candidate of score `score` into a list sorted by
/// descending score: after every entry scoring at least as much.
fn insert_position(top: &Vec<(u32, usize)>, score: u32) -> (p: usize)
    requires
        sorted_desc(top@),
    ensures
        p <= top@.len(),
        forall|j: int| 0 <= j < p ==> top@[j].0 >= score,
        forall|j: int| p <= j < top@.len() ==> top@[j].0 < score,
{
    let mut p: usize = 0;
    while p < top.len() && top[p].0 >= score
        invariant
            p <= top@.len(),
            sorted_desc(top@),
            forall|j: int| 0 <= j < p ==> top@[j].0 >= score,
        decreases top@.len() - p,
    {
        p = p + 1;
    }
    p
}

/// Keeps the `limit` best-scored candidates, best first (the order of the
/// full list sorted by descending score, cut to `limit`).
pub fn top_matches(cands: &Vec<(u32, usize)>, limit: usize) -> (top: Vec<(u32, usize)>)
    ensures
        is_top_k(top@, cands@, limit),
{
    let mut top: Vec<(u32, usize)> = Vec::new();
    let n = cands.len();
    assert(cands@.subrange(0, 0) =~= Seq::<(u32, usize)>::empty());
    assert(top@ =~= Seq::<(u32, usize)>::empty());
    assert(top@.to_multiset().len() == 0);
    assert(top@.to_multiset() =~= Multiset::<(u32, usize)>::empty());
    let mut i: usize = 0;
    while i < n
        invariant
            n == cands@.len(),
            i <= n,
            sorted_desc(top@),
            top@.len() == min_nat(i as nat, limit as nat),
            top@.to_multiset().subset_of(cands@.subrange(0, i as int).to_multiset()),
            i <= limit ==> top@.to_multiset() == cands@.subrange(0, i as int).to_multiset(),
            forall|x: (u32, usize)|
                cands@.subrange(0, i as int).to_multiset().count(x) > top@.to_multiset().count(x)
                    ==> forall|k: int| 0 <= k < top@.len() ==> x.0 <= #[trigger] top@[k].0,
        decreases n - i,
    {
        let c = cands[i];
        let ghost pre = cands@.subrange(0, i as int);
        let ghost post = cands@.subrange(0, i + 1);
        assert(post =~= pre.push(c));
        let ghost old_top = top@;
        if top.len() < limit {
            let p = insert_position(&top, c.0);
            top.insert(p, c);
            assert(top@ =~= old_top.insert(p as int, c));
            assert(sorted_desc(top@)) by {
                assert forall|a: int, b: int| 0 <= a < b < top@.len() implies top@[a].0 >= top@[b].0 by {
                    if a < p && b < p {
                    } else if a < p && b == p {
                    } else if a < p {
                        assert(top@[b] == old_top[b - 1]);
                    } else if a == p {
                        assert(top@[b] == old_top[b - 1]);
                    } else {
                        assert(top@[a] == old_top[a - 1]);
                        assert(top@[b] == old_top[b - 1]);
                    }
                }
            }
            assert(old_top.len() < limit);
            assert(top@.to_multiset() == pre.to_multiset().insert(c));
        } else if limit > 0 && c.0 > top[limit - 1].0 {
            let last = top[limit - 1];
            let ghost removed = old_top.remove(limit - 1);
            assert(removed.to_multiset() == old_top.to_multiset().remove(last));
            top.pop();
            assert(top@ =~= removed);
            let ghost mid = top@;
            let p = insert_position(&top, c.0);
            top.insert(p, c);
            assert(top@ =~= mid.insert(p as int, c));
            assert(sorted_desc(top@)) by {
                assert forall|a: int, b: int| 0 <= a < b < top@.len() implies top@[a].0 >= top@[b].0 by {
                    if a < p && b < p {
                        assert(top@[a] == mid[a] && top@[b] == mid[b]);
                        assert(mid[a] == old_top[a] && mid[b] == old_top[b]);
                    } else if a < p && b == p {
                    } else if a < p {
                        assert(top@[b] == mid[b - 1]);
                    } else if a == p {
                        assert(top@[b] == mid[b - 1]);
                    } else {
                        assert(top@[a] == mid[a - 1]);
                        assert(top@[b] == mid[b - 1]);
                        assert(mid[a - 1] == old_top[a - 1] && mid[b - 1] == old_top[b - 1]);
                    }
                }
            }
            assert(top@.to_multiset() == old_top.to_multiset().remove(last).insert(c));
            assert forall|x: (u32, usize)|
                post.to_multiset().count(x) > top@.to_multiset().count(x) implies forall|k: int|
                0 <= k < top@.len() ==> x.0 <= #[trigger] top@[k].0 by {
                assert forall|k: int| 0 <= k < top@.len() implies x.0 <= #[trigger] top@[k].0 by {
                    if x == last {
                        assert(old_top[limit - 1] == last);
                    } else {
                        assert(pre.to_multiset().count(x) > old_top.to_multiset().count(x));
                        assert(x.0 <= old_top[limit - 1].0);
                    }
                    if k < p {
                        assert(top@[k] == mid[k]);
                        assert(mid[k] == old_top[k]);
                        assert(old_top[k].0 >= old_top[limit - 1].0);
                    } else if k > p {
                        assert(top@[k] == mid[k - 1]);
                        assert(mid[k - 1] == old_top[k - 1]);
                        assert(old_top[k - 1].0 >= old_top[limit - 1].0);
                    }
                }
            }
        } else {
            assert forall|x: (u32, usize)|
                post.to_multiset().count(x) > top@.to_multiset().count(x) implies forall|k: int|
                0 <= k < top@.len() ==> x.0 <= #[trigger] top@[k].0 by {
                assert forall|k: int| 0 <= k < top@.len() implies x.0 <= #[trigger] top@[k].0 by {
                    if x != c {
                        assert(pre.to_multiset().count(x) > old_top.to_multiset().count(x));
                    } else {
                        assert(old_top[k].0 >= old_top[limit - 1].0);
                    }
                }
            }
        }
        i = i + 1;
    }
    assert(cands@.subrange(0, n as int) =~= cands@);
    top
}

/// The ranking score of an entry that matched with fuzzy score `base`:
/// `base` plus the entry's bonus, computed on the lowercased name and query.
pub open spec fn record_score(base: u32, name: Seq<char>, query: Seq<char>, is_dir: bool) -> int {
    base + name_boost(encode_utf8(lowercase(name)), encode_utf8(lowercase(query)), is_dir)
}

/// The outcome of ranking one record: its total score when the query
/// matches it, `NoMatch` when it does not, and `Overflow` when the fuzzy
/// score or the total leaves the `u32` range.
pub open spec fn record_outcome(query: Seq<char>, r: (u64, u64, Seq<char>, bool)) -> PatternScore {
    match pattern_score(query, r.2) {
        PatternScore::Score(b) => if record_score(b, r.2, query, r.3) > u32::MAX {
            PatternScore::Overflow
        } else {
            PatternScore::Score(record_score(b, r.2, query, r.3) as u32)
        },
        other => other,
    }
}

/// The (score, index) of each of the first `n` records that the query
/// matches, in record order.
pub open spec fn scored_upto(
    recs: Seq<(u64, u64, Seq<char>, bool)>,
    query: Seq<char>,
    n: int,
) -> Seq<(u32, usize)>
    decreases n,
{
    if n <= 0 {
        seq![]
    } else {
        let prev = scored_upto(recs, query, n - 1);
        match record_outcome(query, recs[n - 1]) {
            PatternScore::Score(s) => prev.push((s, (n - 1) as usize)),
            _ => prev,
        }
    }
}

/// No record's score leaves the `u32` range.
pub open spec fn scores_fit(recs: Seq<(u64, u64, Seq<char>, bool)>, query: Seq<char>) -> bool {
    forall|k: int| 0 <= k < recs.len() ==> record_outcome(query, #[trigger] recs[k]) != PatternScore::Overflow
}

/// Ranks the records against a query: scores each record whose name the
/// query fuzzy-matches (fuzzy score plus bonus), and keeps the `limit` best,
/// best first, as (score, record index). Returns `None` when a score does
/// not fit in a `u32` (where summing the word scores or adding the bonus
/// would overflow). The fuzzy matcher handles names of at most `u32::MAX`
/// characters.
pub fn rank_records(records: &Vec<FileRecord>, query: &str, limit: usize) -> (r: Option<
    Vec<(u32, usize)>,
>)
    requires
        forall|k: int| 0 <= k < records@.len() ==> (#[trigger] records@[k]).name@.len() <= u32::MAX,
    ensures
        match r {
            Some(top) => {
                &&& scores_fit(records_view(records@), query@)
                &&& is_top_k(
                    top@,
                    scored_upto(records_view(records@), query@, records@.len() as int),
                    limit,
                )
            },
            None => !scores_fit(records_view(records@), query@),
        },
{
    let ghost rv = records_view(records@);
    let mut matcher = FuzzyMatcher::new(query);
    let query_lower = to_lowercase(query);
    let mut cands: Vec<(u32, usize)> = Vec::new();
    let n = records.len();
    let mut i: usize = 0;
    while i < n
        invariant
            n == records@.len(),
            rv == records_view(records@),
            forall|k: int| 0 <= k < records@.len() ==> (#[trigger] records@[k]).name@.len() <= u32::MAX,
            i <= n,
            matcher.query() == query@,
            query_lower@ == lowercase(query@),
            forall|k: int| 0 <= k < i ==> record_outcome(query@, #[trigger] rv[k]) != PatternScore::Overflow,
            cands@ == scored_upto(rv, query@, i as int),
        decreases n - i,
    {
        let record = &records[i];
        assert(rv[i as int] == (record.inode, record.parent_inode, record.name@, record.is_dir));
        match matcher.score(record.name.as_str()) {
            PatternScore::Score(base) => {
                let name_lower = to_lowercase(record.name.as_str());
                match boosted_score(base, name_lower.as_str(), query_lower.as_str(), record.is_dir) {
                    Some(total) => {
                        cands.push((total, i));
                    },
                    None => {
                        assert(record_outcome(query@, rv[i as int]) == PatternScore::Overflow);
                        return None;
                    },
                }
            },
            PatternScore::NoMatch => {},
            PatternScore::Overflow => {
                assert(record_outcome(query@, rv[i as int]) == PatternScore::Overflow);
                return None;
            },
        }
        i = i + 1;
    }
    Some(top_matches(&cands, limit))
}


/// Path components joined with `/`.
pub open spec fn join_path(parts: Seq<Seq<char>>) -> Seq<char>
    decreases parts.len(),
{
    if parts.len() == 0 {
        seq![]
    } else if parts.len() == 1 {
        parts[0]
    } else {
        join_path(parts.drop_last()) + seq!['/'] + parts.last()
    }
}

/// Rebuilds the full path of an indexed entry by walking up its parent
/// links: the caller looks up each inode that `pending_lookup` names and
/// reports the row found (its parent inode and name) or that none exists.
/// The walk ends at a parent inode of 0 (a scan root, whose name is its
/// full path) or at a missing row.
pub struct PathResolver {
    components: Vec<String>,
    current_parent: u64,
    stopped: bool,
}

impl PathResolver {
    /// The names collected so far, the entry's own name first.
    pub closed spec fn components(&self) -> Seq<Seq<char>> {
        self.components@.map_values(|c: String| c@)
    }

    /// The inode whose row is looked up next.
    pub closed spec fn current_parent(&self) -> u64 {
        self.current_parent
    }

    /// Whether a lookup found no row.
    pub closed spec fn stopped(&self) -> bool {
        self.stopped
    }

    /// The path that the names collected so far give: outermost first,
    /// joined with `/`.
    pub open spec fn spec_path(&self) -> Seq<char> {
        join_path(self.components().reverse())
    }

    /// Starts at an entry: its own name, then its parent.
    pub fn new(record: &FileRecord) -> (r: Self)
        ensures
            r.components() == seq![record.name@],
            r.current_parent() == record.parent_inode,
            !r.stopped(),
    {
        let mut components = Vec::new();
        components.push(record.name.clone());
        let r = PathResolver { components, current_parent: record.parent_inode, stopped: false };
        assert(r.components() =~= seq![record.name@]);
        r
    }

    /// The inode to look up next, or `None` when the walk is over.
    pub fn pending_lookup(&self) -> (next: Option<u64>)
        ensures
            next == (if !self.stopped() && self.current_parent() != 0 {
                Some(self.current_parent())
            } else {
                None
            }),
    {
        if !self.stopped && self.current_parent != 0 {
            Some(self.current_parent)
        } else {
            None
        }
    }

    /// The looked-up row exists: its name is the next component, and its
    /// parent is looked up next.
    pub fn found(&mut self, parent_inode: u64, name: String)
        ensures
            final(self).components() == old(self).components().push(name@),
            final(self).current_parent() == parent_inode,
            final(self).stopped() == old(self).stopped(),
    {
        let ghost before = self.components();
        self.components.push(name);
        self.current_parent = parent_inode;
        assert(self.components() =~= before.push(name@));
    }

    /// The looked-up row does not exist: the walk stops here.
    pub fn not_found(&mut self)
        ensures
            final(self).components() == old(self).components(),
            final(self).current_parent() == old(self).current_parent(),
            final(self).stopped(),
    {
        self.stopped = true;
    }

    /// The full path: the collected names, outermost first, joined with `/`.
    pub fn path(&self) -> (p: String)
        ensures
            p@ == self.spec_path(),
    {
        let ghost comps = self.components();
        let ghost rev = comps.reverse();
        let k = self.components.len();
        let mut out = String::new();
        let mut j = k;
        assert(rev.subrange(0, 0) =~= Seq::<Seq<char>>::empty());
        while j > 0
            invariant
                k == self.components@.len(),
                comps == self.components(),
                rev == comps.reverse(),
                j <= k,
                out@ == join_path(rev.subrange(0, (k - j) as int)),
            decreases j,
        {
            j = j - 1;
            let ghost prev = rev.subrange(0, (k - j - 1) as int);
            let ghost next = rev.subrange(0, (k - j) as int);
            assert(next.drop_last() =~= prev);
            assert(next.last() == comps[j as int]);
            assert(comps[j as int] == self.components@[j as int]@);
            if j + 1 != k {
                push_char(&mut out, '/');
            } else {
                assert(next =~= seq![comps[j as int]]);
            }
            out.append(self.components[j].as_str());
        }
        assert(rev.subrange(0, k as int) =~= rev);
        out
    }
}


/// A directory earns exactly 100 more than a file of the same name.
pub proof fn lemma_directory_bonus(name: Seq<u8>, query: Seq<u8>)
    ensures
        name_boost(name, query, true) == name_boost(name, query, false) + 100,
{
}

/// A name that contains the query earns at least 400, and a name that
/// starts with the query as a whole word (the query is the whole name, or
/// is followed by a byte that is not a letter or digit) earns the full
/// 1500.
pub proof fn lemma_substring_bonuses(name: Seq<u8>, query: Seq<u8>)
    ensures
        crate::text::contains_seq(name, query) ==> substring_boost(name, query) >= 400,
        (occurs_at(name, query, 0) && (query.len() == name.len() || !is_word_byte(
            name[query.len() as int],
        ))) ==> substring_boost(name, query) == 1500,
        !crate::text::contains_seq(name, query) ==> substring_boost(name, query) == 0,
{
    if occurs_at(name, query, 0) {
        crate::text::lemma_first_occurrence_is_first(name, query, 0);
    }
}

/// The word-boundary bonus, wherever the query first occurs: given that
/// the first occurrence of the query is at `idx`, the name earns 1000 or
/// more exactly when that occurrence is a whole word (no letter or digit
/// byte right before it, and none right after it), 1500 exactly when that
/// word also starts the name, and 400 otherwise.
pub proof fn lemma_whole_word_bonus(name: Seq<u8>, query: Seq<u8>, idx: int)
    requires
        crate::text::is_first_occurrence(name, query, idx),
    ensures
        substring_boost(name, query) >= 1000 <==> ((idx == 0 || !is_word_byte(name[idx - 1])) && (
        idx + query.len() == name.len() || !is_word_byte(name[idx + query.len()]))),
        substring_boost(name, query) == 1500 <==> (idx == 0 && (query.len() == name.len()
            || !is_word_byte(name[query.len() as int]))),
        substring_boost(name, query) == 400 || substring_boost(name, query) == 1000
            || substring_boost(name, query) == 1500,
{
    crate::text::lemma_first_occurrence_is_first(name, query, idx);
}

/// The bonus in a record's ranking score does not depend on letter case:
/// two names with the same lowercase form, ranked against queries with the
/// same lowercase form, get the same score from the same fuzzy score.
pub proof fn lemma_record_score_ignores_case(
    base: u32,
    name1: Seq<char>,
    name2: Seq<char>,
    query1: Seq<char>,
    query2: Seq<char>,
    is_dir: bool,
)
    requires
        lowercase(name1) == lowercase(name2),
        lowercase(query1) == lowercase(query2),
    ensures
        record_score(base, name1, query1, is_dir) == record_score(base, name2, query2, is_dir),
{
}

/// A record whose lowercased name starts with the whole lowercased query
/// as a word (the query is the whole name, or is followed by a byte that
/// is not a letter or digit) scores its fuzzy score plus 1500, and 100 more
/// for a directory.
pub proof fn lemma_record_score_prefix_word(
    base: u32,
    name: Seq<char>,
    query: Seq<char>,
    is_dir: bool,
)
    requires
        encode_utf8(lowercase(query)).len() <= encode_utf8(lowercase(name)).len(),
        encode_utf8(lowercase(name)).subrange(0, encode_utf8(lowercase(query)).len() as int)
            == encode_utf8(lowercase(query)),
        encode_utf8(lowercase(query)).len() == encode_utf8(lowercase(name)).len() || !is_word_byte(
            encode_utf8(lowercase(name))[encode_utf8(lowercase(query)).len() as int],
        ),
    ensures
        record_score(base, name, query, is_dir) == base + 1500 + if is_dir {
            100int
        } else {
            0int
        },
{
    let n = encode_utf8(lowercase(name));
    let q = encode_utf8(lowercase(query));
    assert(occurs_at(n, q, 0));
    lemma_substring_bonuses(n, q);
}

/// The path of an entry whose parent is 0 (a scan root) is its own name,
/// which for a root is the full path it was scanned under; and each
/// ancestor found adds one `/`-separated component in front.
#[verifier::spinoff_prover]
pub proof fn lemma_path_components(components: Seq<Seq<char>>, ancestor: Seq<char>)
    ensures
        join_path(seq![ancestor].reverse()) == ancestor,
        components.len() > 0 ==> join_path(components.push(ancestor).reverse()) == ancestor
            + seq!['/'] + join_path(components.reverse()),
    decreases components.len(),
{
    assert(seq![ancestor].reverse() =~= seq![ancestor]);
    if components.len() > 0 {
        let rev = components.push(ancestor).reverse();
        assert(rev[0] == ancestor);
        if components.len() == 1 {
            assert(components.reverse() =~= seq![components[0]]);
            assert(rev.drop_last() =~= seq![ancestor]);
        } else {
            let shorter = components.drop_first();
            lemma_path_components(shorter, ancestor);
            assert(rev.drop_last() =~= shorter.push(ancestor).reverse());
            assert(components.reverse().drop_last() =~= shorter.reverse());
            assert(rev.last() == components.reverse().last());
            let tail = rev.last();
            let mid = join_path(shorter.reverse());
            assert(join_path(rev) == join_path(rev.drop_last()) + seq!['/'] + tail);
            assert(join_path(components.reverse()) == mid + seq!['/'] + tail);
            assert(ancestor + seq!['/'] + mid + seq!['/'] + tail =~= ancestor + seq!['/'] + (mid
                + seq!['/'] + tail));
        }
    }
}

} // verus!
