use fex::models::FileRecord;
use fex::search::{
    boosted_score, compute_name_boost, rank_records, top_matches, PathResolver, SearchQuery,
    DEFAULT_SEARCH_LIMIT,
};

fn rec(inode: u64, parent: u64, name: &str, is_dir: bool) -> FileRecord {
    FileRecord { inode, parent_inode: parent, name: name.to_string(), is_dir }
}

#[test]
fn name_boost_values() {
    assert_eq!(compute_name_boost("resume.pdf", "resume", false), 1500);
    assert_eq!(compute_name_boost("my-resume.txt", "resume", false), 1000);
    assert_eq!(compute_name_boost("myresumefile.docx", "resume", false), 400);
    assert_eq!(compute_name_boost("resumes", "resume", false), 400);
    assert_eq!(compute_name_boost("resume", "resume", false), 1500);
    assert_eq!(compute_name_boost("report", "resume", false), 0);
    assert_eq!(compute_name_boost("report", "resume", true), 100);
    assert_eq!(compute_name_boost("resume", "resume", true), 1600);
}

#[test]
fn name_boost_uses_the_first_occurrence() {
    // the first "ab" is inside a word; the later whole-word one does not count
    assert_eq!(compute_name_boost("xab ab", "ab", false), 400);
}

#[test]
fn name_boost_bytes_above_ascii_count_as_word_bytes_when_latin1_letters() {
    // 'é' is 0xC3 0xA9 in UTF-8; the byte 0xA9 read as a character is '©', not alphanumeric
    assert_eq!(compute_name_boost("é-x", "-x", false), 1000);
    // 'ü' is 0xC3 0xBC; 0xBC read as a character is '¼', which is numeric
    assert_eq!(compute_name_boost("ü-x", "-x", false), 400);
}

#[test]
fn boosted_score_overflow_is_none() {
    assert_eq!(boosted_score(10, "resume.pdf", "resume", false), Some(1510));
    assert_eq!(boosted_score(u32::MAX - 1500, "resume.pdf", "resume", false), Some(u32::MAX));
    assert_eq!(boosted_score(u32::MAX - 1499, "resume.pdf", "resume", false), None);
    assert_eq!(boosted_score(u32::MAX, "zzz", "resume", false), Some(u32::MAX));
}

#[test]
fn top_matches_keeps_best_first() {
    let cands = vec![(5, 0), (9, 1), (1, 2), (7, 3), (9, 4)];
    let top = top_matches(&cands, 3);
    assert_eq!(top.len(), 3);
    let scores: Vec<u32> = top.iter().map(|x| x.0).collect();
    assert_eq!(scores, vec![9, 9, 7]);
    let mut idx: Vec<usize> = top.iter().map(|x| x.1).collect();
    idx.sort();
    assert_eq!(idx, vec![1, 3, 4]);
}

#[test]
fn top_matches_with_few_candidates_or_zero_limit() {
    let cands = vec![(3, 0), (8, 1)];
    assert_eq!(top_matches(&cands, 10), vec![(8, 1), (3, 0)]);
    assert!(top_matches(&cands, 0).is_empty());
    assert!(top_matches(&Vec::new(), 5).is_empty());
}

#[test]
fn ranking_prefers_whole_words_and_starts() {
    let records = vec![
        rec(1, 0, "myresumefile.docx", false),
        rec(2, 0, "unrelated.txt", false),
        rec(3, 0, "resume.pdf", false),
        rec(4, 0, "my-resume.txt", false),
    ];
    let ranked = rank_records(&records, "resume", 10).expect("scores fit");
    let order: Vec<usize> = ranked.iter().map(|x| x.1).collect();
    assert_eq!(order, vec![2, 3, 0]);
    assert!(ranked[0].0 > ranked[1].0 && ranked[1].0 > ranked[2].0);
}

#[test]
fn ranking_ignores_case_and_respects_limit() {
    let records = vec![
        rec(1, 0, "Report.PDF", false),
        rec(2, 0, "reports", true),
        rec(3, 0, "other", false),
    ];
    let ranked = rank_records(&records, "REPORT", 1).expect("scores fit");
    assert_eq!(ranked.len(), 1);
    let all = rank_records(&records, "report", 50).expect("scores fit");
    let idx: Vec<usize> = all.iter().map(|x| x.1).collect();
    assert_eq!(idx.len(), 2);
    assert!(idx.contains(&0) && idx.contains(&1));
    assert!(all[0].0 >= all[1].0);
}

#[test]
fn ranking_no_match_is_empty() {
    let records = vec![rec(1, 0, "alpha", false), rec(2, 0, "beta", false)];
    assert_eq!(rank_records(&records, "zzzz", 5), Some(Vec::new()));
}

#[test]
fn search_query_default_limit() {
    let q = SearchQuery { q: "x".to_string(), limit: None };
    assert_eq!(q.effective_limit(), 50);
    assert_eq!(DEFAULT_SEARCH_LIMIT, 50);
    let q = SearchQuery { q: "x".to_string(), limit: Some(3) };
    assert_eq!(q.effective_limit(), 3);
}

#[test]
fn path_of_root_is_its_name() {
    let r = PathResolver::new(&rec(10, 0, "/Users/me", true));
    assert_eq!(r.pending_lookup(), None);
    assert_eq!(r.path(), "/Users/me");
}

#[test]
fn path_walks_up_to_the_root() {
    let mut r = PathResolver::new(&rec(30, 20, "file.txt", false));
    assert_eq!(r.pending_lookup(), Some(20));
    r.found(10, "Documents".to_string());
    assert_eq!(r.pending_lookup(), Some(10));
    r.found(0, "/Users/me".to_string());
    assert_eq!(r.pending_lookup(), None);
    assert_eq!(r.path(), "/Users/me/Documents/file.txt");
}

#[test]
fn path_stops_at_a_missing_parent() {
    let mut r = PathResolver::new(&rec(30, 20, "file.txt", false));
    r.found(15, "dir".to_string());
    assert_eq!(r.pending_lookup(), Some(15));
    r.not_found();
    assert_eq!(r.pending_lookup(), None);
    assert_eq!(r.path(), "dir/file.txt");
}

#[test]
fn very_long_query_is_answered() {
    let records = vec![rec(1, 0, "alpha", false), rec(2, 0, "beta", true)];
    let query = "q".repeat(200_000);
    assert_eq!(rank_records(&records, &query, 10), Some(Vec::new()));
}

#[test]
fn every_word_of_the_query_must_match() {
    let records = vec![rec(1, 0, "resume.pdf", false), rec(2, 0, "resume.txt", false)];
    let ranked = rank_records(&records, "res pdf", 10).expect("scores fit");
    let idx: Vec<usize> = ranked.iter().map(|x| x.1).collect();
    assert_eq!(idx, vec![0]);
}
