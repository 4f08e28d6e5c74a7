use phrase_extractor::extract::SpanPair;
use phrase_extractor::extract::extract_spans;
use phrase_extractor::pipeline::phrase_extraction;
use phrase_extractor::pipeline::process_lines;

fn pair(a: &str, b: &str) -> (String, String) {
    (a.to_string(), b.to_string())
}

#[test]
fn monotonic_one_to_one() {
    // A fully monotonic one-to-one alignment yields the classic phrase table.
    let r = phrase_extraction("a b c", "x y z", "0-0 1-1 2-2");
    let expected = vec![
        pair("a", "x"),
        pair("a b", "x y"),
        pair("a b c", "x y z"),
        pair("b", "y"),
        pair("b c", "y z"),
        pair("c", "z"),
    ];
    assert_eq!(r, expected);
}

#[test]
fn unaligned_word_absorption() {
    // Target token `y` is unaligned and may be absorbed on either side.
    let r = phrase_extraction("a b", "x y z", "0-0 1-2");
    let expected = vec![
        pair("a", "x"),
        pair("a", "x y"),
        pair("a b", "x y z"),
        pair("b", "y z"),
        pair("b", "z"),
    ];
    assert_eq!(r, expected);
}

#[test]
fn empty_alignment_yields_nothing() {
    let r = phrase_extraction("a b", "x y", "");
    assert!(r.is_empty());
    let r = phrase_extraction("some longer sentence here", "une phrase plus longue", "");
    assert!(r.is_empty());
}

#[test]
fn malformed_alignment_tokens_are_skipped() {
    // Only `1-1` is well-formed; the rest are ignored, so the result is the
    // extraction under the single point (1, 1), with the unaligned `x`
    // absorbed by expansion.
    let r = phrase_extraction("a b", "x y", "garbage 1-1 2--3 -4 5- 1-2-3");
    let expected = vec![
        pair("a b", "x y"),
        pair("a b", "y"),
        pair("b", "x y"),
        pair("b", "y"),
    ];
    assert_eq!(r, expected);
    assert_eq!(r, phrase_extraction("a b", "x y", "1-1"));
}

#[test]
fn out_of_range_point_is_ignored() {
    // The point (5, 0) addresses no source token and must change nothing.
    let with_bad = phrase_extraction("a b", "x", "5-0 0-0");
    let without = phrase_extraction("a b", "x", "0-0");
    assert_eq!(with_bad, without);
    assert_eq!(without, vec![pair("a", "x"), pair("a b", "x")]);
}

#[test]
fn rerun_is_identical() {
    let first = phrase_extraction("a b c d", "w x y z", "0-1 1-0 2-2 2-3 3-3");
    let second = phrase_extraction("a b c d", "w x y z", "0-1 1-0 2-2 2-3 3-3");
    assert_eq!(first, second);
}

#[test]
fn empty_sentences_yield_nothing() {
    assert!(phrase_extraction("", "x y", "0-0").is_empty());
    assert!(phrase_extraction("a b", "", "0-0").is_empty());
    assert!(phrase_extraction("", "", "").is_empty());
}

#[test]
fn single_token_sentences() {
    let r = phrase_extraction("a", "x", "0-0");
    assert_eq!(r, vec![pair("a", "x")]);
}

#[test]
fn duplicate_alignment_entries_do_not_duplicate_results() {
    let deduped = phrase_extraction("a b", "x y", "0-0 1-1");
    let duplicated = phrase_extraction("a b", "x y", "0-0 0-0 1-1 1-1 0-0");
    assert_eq!(deduped, duplicated);
}

#[test]
fn crossing_alignment_blocks_sub_spans() {
    // With a crossing alignment each single token still pairs with its own
    // aligned counterpart, and the full spans pair with each other; the
    // mixed sub-spans (such as `a` with `x`) are inconsistent.
    let r = phrase_extraction("a b", "x y", "0-1 1-0");
    assert_eq!(r, vec![pair("a", "y"), pair("a b", "x y"), pair("b", "x")]);
}

#[test]
fn extract_spans_exact_rectangle() {
    let alignment = vec![(0usize, 0usize), (1usize, 2usize)];
    let spans = extract_spans(&alignment, 2, 3);
    let expected = vec![
        SpanPair { e_start: 0, e_end: 0, f_start: 0, f_end: 0 },
        SpanPair { e_start: 0, e_end: 0, f_start: 0, f_end: 1 },
        SpanPair { e_start: 0, e_end: 1, f_start: 0, f_end: 2 },
        SpanPair { e_start: 1, e_end: 1, f_start: 1, f_end: 2 },
        SpanPair { e_start: 1, e_end: 1, f_start: 2, f_end: 2 },
    ];
    assert_eq!(spans, expected);
}

#[test]
fn process_lines_formats_and_filters() {
    let pairs = vec!["a b c ||| x y z".to_string()];
    let alignments = vec!["0-0 1-1 2-2".to_string()];
    let short = process_lines(&pairs, &alignments, 1);
    assert_eq!(
        short,
        vec!["a ||| x".to_string(), "b ||| y".to_string(), "c ||| z".to_string()]
    );
    let all = process_lines(&pairs, &alignments, 10);
    assert_eq!(all.len(), 6);
    assert_eq!(all[0], "a ||| x".to_string());
    assert_eq!(all[2], "a b c ||| x y z".to_string());
    // Raising the bound keeps every line emitted under the lower bound.
    for line in &short {
        assert!(all.contains(line));
    }
}

#[test]
fn process_lines_length_bounds_hold() {
    let pairs = vec!["a b c d ||| w x y z".to_string()];
    let alignments = vec!["0-0 1-1 2-2 3-3".to_string()];
    let k = 2usize;
    let out = process_lines(&pairs, &alignments, k as u32);
    assert!(!out.is_empty());
    for line in &out {
        let mut fields = line.split(" ||| ");
        let src = fields.next().unwrap();
        let trg = fields.next().unwrap();
        assert!(fields.next().is_none());
        let src_len = src.split_whitespace().count();
        let trg_len = trg.split_whitespace().count();
        assert!(1 <= src_len && src_len <= k);
        assert!(1 <= trg_len && trg_len <= k);
    }
}

#[test]
fn process_lines_skips_malformed_lines() {
    let pairs = vec![
        "no separator here".to_string(),
        "a ||| b ||| c".to_string(),
        "  a ||| x  ".to_string(),
    ];
    let alignments = vec!["0-0".to_string(), "0-0".to_string(), "0-0".to_string()];
    let out = process_lines(&pairs, &alignments, 10);
    assert_eq!(out, vec!["a ||| x".to_string()]);
}

#[test]
fn process_lines_pairs_lines_in_step() {
    // Only as many lines are processed as both inputs supply.
    let pairs = vec!["a ||| x".to_string(), "b ||| y".to_string()];
    let alignments = vec!["0-0".to_string()];
    let out = process_lines(&pairs, &alignments, 10);
    assert_eq!(out, vec!["a ||| x".to_string()]);
}
