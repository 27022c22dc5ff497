use kmer_count::compress::compress_seq;
use kmer_count::orchestrate::{NeedleOutcome, NeedleSet};
use kmer_count::search::Search;

#[test]
fn test_search() {
    let needles = vec![
        compress_seq(&"T".repeat(32)).unwrap(),
        compress_seq(&"G".repeat(32)).unwrap(),
    ];
    let mut search = Search::new(&needles).unwrap();
    search.search("AAGGGGGGGGGGGGGGGGGGGGGGGGGGGGGGGGAA");

    let res = search.needles.get_hits(needles[0]);
    assert_eq!(res, Some(0));

    let res = search.needles.get_hits(needles[1]);
    assert_eq!(res, Some(1));

    let missing = compress_seq(&"C".repeat(32)).unwrap();
    let res = search.needles.get_hits(missing);
    assert!(res.is_none());
}

#[test]
fn test_search_with_n() {
    let needles = vec![
        compress_seq(&"ACGT".repeat(8)).unwrap(),
        compress_seq(&"G".repeat(32)).unwrap(),
    ];
    let mut search = Search::new(&needles).unwrap();

    search.search("AANACGTACGTACGTACGTACGTACGTACGTACGTNNAA");

    let res = search.needles.get_hits(needles[0]);
    assert_eq!(res, Some(1));

    let res = search.needles.get_hits(needles[1]);
    assert_eq!(res, Some(0));
}

#[test]
fn test_search_short_haystack() {
    let needles = vec![compress_seq(&"A".repeat(32)).unwrap()];
    let mut search = Search::new(&needles).unwrap();
    search.search(&"A".repeat(31));
    assert_eq!(search.needles.get_hits(needles[0]), Some(0));
}

#[test]
fn test_search_overlapping_hits() {
    // 35 As hold four windows of 32 As.
    let needles = vec![compress_seq(&"A".repeat(32)).unwrap()];
    let mut search = Search::new(&needles).unwrap();
    search.search(&"A".repeat(35));
    assert_eq!(search.needles.get_hits(needles[0]), Some(4));
}

#[test]
fn test_poly_g_haystack_counts_one_needle() {
    // Haystack of 32 Gs against the C and G needles: exactly one needle
    // scores, the G needle, exactly once.
    let mut set = NeedleSet::new();
    assert_eq!(
        set.add_needle("all-c", &"C".repeat(32)),
        NeedleOutcome::Registered
    );
    assert_eq!(
        set.add_needle("all-g", &"G".repeat(32)),
        NeedleOutcome::Registered
    );
    let mut search = Search::new(&set.keys).unwrap();
    search.search(&"G".repeat(32));

    let out = set.collect_hits(&search.needles);
    assert_eq!(out, vec![("all-g".to_string(), 1)]);
}

#[test]
fn test_embedded_needle_counts_once() {
    // "ACAC" + 32 Ts + "ACAC": only the T needle scores, once, for the
    // single window at offset 4.
    let haystack = format!("ACAC{}ACAC", "T".repeat(32));
    assert_eq!(haystack.len(), 40);
    let mut set = NeedleSet::new();
    assert_eq!(
        set.add_needle("all-c", &"C".repeat(32)),
        NeedleOutcome::Registered
    );
    assert_eq!(
        set.add_needle("all-t", &"T".repeat(32)),
        NeedleOutcome::Registered
    );
    let mut search = Search::new(&set.keys).unwrap();
    search.search(&haystack);

    let out = set.collect_hits(&search.needles);
    assert_eq!(out, vec![("all-t".to_string(), 1)]);
}

#[test]
fn test_no_window_spans_ambiguous_symbol() {
    // An N at position 10 of a poly-A haystack: no window spanning it is
    // counted, so only the windows that begin past it score.
    let haystack = format!("{}N{}", "A".repeat(10), "A".repeat(33));
    let needles = vec![compress_seq(&"A".repeat(32)).unwrap()];
    let mut search = Search::new(&needles).unwrap();
    search.search(&haystack);
    // Positions 11 and 12 start the only clean windows.
    assert_eq!(search.needles.get_hits(needles[0]), Some(2));
}

#[test]
fn test_case_insensitive_haystacks_agree() {
    let upper = format!("ACAC{}ACAC", "T".repeat(32));
    let lower = upper.to_lowercase();
    let needles = vec![
        compress_seq(&"T".repeat(32)).unwrap(),
        compress_seq(&"C".repeat(32)).unwrap(),
    ];

    let mut upper_search = Search::new(&needles).unwrap();
    upper_search.search(&upper);
    let mut lower_search = Search::new(&needles).unwrap();
    lower_search.search(&lower);

    for k in &needles {
        assert_eq!(
            upper_search.needles.get_hits(*k),
            lower_search.needles.get_hits(*k)
        );
    }
}

#[test]
fn test_no_usable_needles_leaves_empty_set() {
    // A needle file with no valid record leaves nothing to scan with; the
    // run must stop before any haystack is opened.
    let mut set = NeedleSet::new();
    assert_eq!(set.add_needle("short", "ACGT"), NeedleOutcome::Rejected);
    assert_eq!(
        set.add_needle("bad-symbol", &"N".repeat(32)),
        NeedleOutcome::Rejected
    );
    assert_eq!(
        set.add_needle("too-long", &"A".repeat(33)),
        NeedleOutcome::Rejected
    );
    assert!(set.keys.is_empty());
}

#[test]
fn test_duplicate_needle_keeps_first_name() {
    let mut set = NeedleSet::new();
    assert_eq!(
        set.add_needle("first", &"ACGT".repeat(8)),
        NeedleOutcome::Registered
    );
    assert_eq!(
        set.add_needle("alias", &"acgt".repeat(8)),
        NeedleOutcome::Duplicate
    );
    assert_eq!(set.keys.len(), 1);

    let mut search = Search::new(&set.keys).unwrap();
    search.search(&"ACGT".repeat(8));
    let out = set.collect_hits(&search.needles);
    assert_eq!(out, vec![("first".to_string(), 1)]);
}

#[test]
fn test_counts_accumulate_across_files() {
    // One worker's index sees two haystacks in a row: counts add up.
    let needles = vec![compress_seq(&"G".repeat(32)).unwrap()];
    let mut search = Search::new(&needles).unwrap();
    search.search(&"G".repeat(32));
    search.search(&"G".repeat(33));
    assert_eq!(search.needles.get_hits(needles[0]), Some(3));
}
