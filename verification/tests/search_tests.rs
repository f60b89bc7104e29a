use pattern_quest::SearchResult;
use pattern_quest::scan;
use pattern_quest::search;
use pattern_quest::search_insensitive;
use pattern_quest::search_inverted;
use pattern_quest::search_inverted_insensitive;

#[test]
fn test_search_exact_match() {
    let content = "This is a sample content for testing.";
    let query = "sample";
    let result = search(content, query);
    assert_eq!(result, vec![SearchResult::new("This is a sample content for testing.", 1)]);
}

#[test]
fn test_search_insensitive_match() {
    let content = "Case INseNSitive Match.";
    let query = "insensitive";
    let result = search_insensitive(content, query);
    assert_eq!(result, vec![SearchResult::new("Case INseNSitive Match.", 1)]);
}

#[test]
fn test_search_inverted_no_match() {
    let content = "No matches here.";
    let query = "notfound";
    let result = search_inverted(content, query);
    assert_eq!(result, vec![SearchResult::new("No matches here.", 1)]);
}

#[test]
fn test_search_inverted_insensitive_no_match() {
    let content = "No matches here.";
    let query = "NOTFOUND";
    let result = search_inverted_insensitive(content, query);
    assert_eq!(result, vec![SearchResult::new("No matches here.", 1)]);
}

#[test]
fn test_search_multiple_matches() {
    let content = "Multiple matches in this content. Matches can occur multiple times.";
    let query = "matches";
    let result = search(content, query);
    assert_eq!(
        result,
        vec![SearchResult::new(
            "Multiple matches in this content. Matches can occur multiple times.",
            1
        )]
    );
}

#[test]
fn test_search_inverted_multiple_matches() {
    let content = "Multiple matches in this content. Matches can occur multiple times.";
    let query = "notfound";
    let result = search_inverted(content, query);
    assert_eq!(
        result,
        vec![SearchResult::new(
            "Multiple matches in this content. Matches can occur multiple times.",
            1
        )]
    );
}

#[test]
fn test_search_empty_content() {
    let content = "";
    let query = "somequery";
    let result = search(content, query);
    assert_eq!(result, Vec::<SearchResult>::new());
}

// The empty query is treated as contained in every line, following plain
// substring-containment semantics: every line is reported in normal mode
// and none in inverted mode.
#[test]
fn test_empty_query_matches_every_line() {
    let content = "Content with an empty query.";
    let result = search(content, "");
    assert_eq!(result, vec![SearchResult::new("Content with an empty query.", 1)]);
    let inverted = search_inverted(content, "");
    assert_eq!(inverted, Vec::<SearchResult>::new());
}

#[test]
fn test_empty_content_all_modes() {
    assert_eq!(search("", "q"), Vec::<SearchResult>::new());
    assert_eq!(search_insensitive("", "q"), Vec::<SearchResult>::new());
    assert_eq!(search_inverted("", "q"), Vec::<SearchResult>::new());
    assert_eq!(search_inverted_insensitive("", "q"), Vec::<SearchResult>::new());
}

#[test]
fn test_line_numbering_first_line() {
    let result = scan("a\nb\nc", "a", false, false);
    assert_eq!(result, vec![SearchResult::new("a", 1)]);
}

#[test]
fn test_line_numbering_no_match() {
    let result = scan("a\nb\nc", "z", false, false);
    assert_eq!(result, Vec::<SearchResult>::new());
}

#[test]
fn test_line_numbering_inverted_all_lines() {
    let result = scan("a\nb\nc", "z", false, true);
    assert_eq!(
        result,
        vec![
            SearchResult::new("a", 1),
            SearchResult::new("b", 2),
            SearchResult::new("c", 3),
        ]
    );
}

#[test]
fn test_matches_reported_in_document_order() {
    let result = search("x\nyx\nz\nx", "x");
    assert_eq!(
        result,
        vec![
            SearchResult::new("x", 1),
            SearchResult::new("yx", 2),
            SearchResult::new("x", 4),
        ]
    );
}

#[test]
fn test_crlf_and_lf_inputs_agree() {
    let lf = search("alpha\nbeta\ngamma", "beta");
    let crlf = search("alpha\r\nbeta\r\ngamma", "beta");
    assert_eq!(lf, crlf);
    assert_eq!(lf, vec![SearchResult::new("beta", 2)]);
    let lf_all = search_inverted("alpha\nbeta\ngamma", "zzz");
    let crlf_all = search_inverted("alpha\r\nbeta\r\ngamma", "zzz");
    assert_eq!(lf_all, crlf_all);
    for r in &crlf_all {
        assert!(!r.line_content.contains('\r'));
    }
}

#[test]
fn test_trailing_carriage_return_stripped() {
    let result = search("last line\r", "last");
    assert_eq!(result, vec![SearchResult::new("last line", 1)]);
}

#[test]
fn test_final_unterminated_line_kept() {
    let result = search("one\ntwo", "two");
    assert_eq!(result, vec![SearchResult::new("two", 2)]);
}

#[test]
fn test_trailing_newline_adds_no_line() {
    let result = search_inverted("one\n", "zzz");
    assert_eq!(result, vec![SearchResult::new("one", 1)]);
}

#[test]
fn test_normal_and_inverted_partition_lines() {
    let content = "apple\nbanana\ncherry\napricot";
    let query = "ap";
    let normal = search(content, query);
    let inverted = search_inverted(content, query);
    assert_eq!(normal.len() + inverted.len(), 4);
    let mut numbers: Vec<usize> = normal.iter().chain(inverted.iter()).map(|r| r.line_number).collect();
    numbers.sort();
    assert_eq!(numbers, vec![1, 2, 3, 4]);
    assert_eq!(
        normal,
        vec![SearchResult::new("apple", 1), SearchResult::new("apricot", 4)]
    );
    assert_eq!(
        inverted,
        vec![SearchResult::new("banana", 2), SearchResult::new("cherry", 3)]
    );
}

#[test]
fn test_case_fold_equivalence() {
    let content = "Alpha\nBETA\ngamma\nAlphabet";
    let query = "ALPHA";
    let insensitive = search_insensitive(content, query);
    let folded = search(&content.to_lowercase(), &query.to_lowercase());
    let insensitive_numbers: Vec<usize> = insensitive.iter().map(|r| r.line_number).collect();
    let folded_numbers: Vec<usize> = folded.iter().map(|r| r.line_number).collect();
    assert_eq!(insensitive_numbers, folded_numbers);
    assert_eq!(insensitive_numbers, vec![1, 4]);
    // The case-insensitive scan reports original-case contents.
    assert_eq!(insensitive[0].line_content, "Alpha");
    assert_eq!(insensitive[1].line_content, "Alphabet");
}

#[test]
fn test_query_longer_than_line() {
    let result = search("ab", "abc");
    assert_eq!(result, Vec::<SearchResult>::new());
}

#[test]
fn test_search_result_new_fields() {
    let r = SearchResult::new("hello", 7);
    assert_eq!(r.line_content, "hello");
    assert_eq!(r.line_number, 7);
}
