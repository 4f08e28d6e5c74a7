use phrase_extractor::alignment::convert_alignment;
use phrase_extractor::alignment::parse_align_token;
use phrase_extractor::alignment::parse_index;
use std::str::FromStr;

use phrase_extractor::senna::IOBES;
use phrase_extractor::senna::iobes_of_str;
use phrase_extractor::senna::Token;
use phrase_extractor::senna::transpose;
use phrase_extractor::text::join_range;
use phrase_extractor::text::split_str;
use phrase_extractor::text::trim_spaces;
use phrase_extractor::text::whitespace_tokenizer;

#[test]
fn tokenizer_splits_on_whitespace_runs() {
    let toks = whitespace_tokenizer("  a  bb\tc \n");
    assert_eq!(toks, vec!["a".to_string(), "bb".to_string(), "c".to_string()]);
    assert!(whitespace_tokenizer("").is_empty());
    assert!(whitespace_tokenizer("   \t ").is_empty());
    assert_eq!(whitespace_tokenizer("one"), vec!["one".to_string()]);
}

#[test]
fn tokenizer_uses_unicode_whitespace() {
    // Form feed, vertical tab, next line, no-break space, and ideographic
    // space all separate tokens, as str::split_whitespace has it.
    let toks = whitespace_tokenizer("a\u{000C}b\u{000B}c\u{0085}d\u{00A0}e\u{3000}f");
    assert_eq!(
        toks,
        "a\u{000C}b\u{000B}c\u{0085}d\u{00A0}e\u{3000}f"
            .split_whitespace()
            .map(|t| t.to_string())
            .collect::<Vec<String>>()
    );
    assert_eq!(toks.len(), 6);
    let toks = whitespace_tokenizer("\u{2003}une\u{202F}phrase\u{2009}plus longue\u{2028}");
    assert_eq!(
        toks,
        vec![
            "une".to_string(),
            "phrase".to_string(),
            "plus".to_string(),
            "longue".to_string()
        ]
    );
}

#[test]
fn trim_uses_unicode_whitespace() {
    assert_eq!(trim_spaces("\u{00A0}a b\u{000C}"), "a b".to_string());
    assert_eq!(trim_spaces("\u{2028}\u{205F}"), "".to_string());
    assert_eq!(trim_spaces("  x\u{00A0}y  "), "x\u{00A0}y".trim().to_string());
}

#[test]
fn split_str_keeps_empty_fields() {
    let fields = split_str("a ||| b", " ||| ");
    assert_eq!(fields, vec!["a".to_string(), "b".to_string()]);
    let fields = split_str("a ||| b ||| c", " ||| ");
    assert_eq!(fields.len(), 3);
    let fields = split_str("no separator", " ||| ");
    assert_eq!(fields, vec!["no separator".to_string()]);
    let fields = split_str("", " ||| ");
    assert_eq!(fields, vec!["".to_string()]);
    let fields = split_str("x--y", "-");
    assert_eq!(fields, vec!["x".to_string(), "".to_string(), "y".to_string()]);
}

#[test]
fn trim_removes_edges_only() {
    assert_eq!(trim_spaces("  a b  "), "a b".to_string());
    assert_eq!(trim_spaces("a"), "a".to_string());
    assert_eq!(trim_spaces("   "), "".to_string());
    assert_eq!(trim_spaces(""), "".to_string());
    assert_eq!(trim_spaces("\t a \n"), "a".to_string());
}

#[test]
fn join_range_single_spaces() {
    let toks = vec!["a".to_string(), "b".to_string(), "c".to_string()];
    assert_eq!(join_range(&toks, 0, 2), "a b c".to_string());
    assert_eq!(join_range(&toks, 1, 1), "b".to_string());
    assert_eq!(join_range(&toks, 1, 2), "b c".to_string());
}

#[test]
fn parse_index_accepts_digits_only() {
    assert_eq!(parse_index("0"), Some(0));
    assert_eq!(parse_index("42"), Some(42));
    assert_eq!(parse_index("007"), Some(7));
    assert_eq!(parse_index(""), None);
    assert_eq!(parse_index("4x"), None);
    assert_eq!(parse_index("-4"), None);
    assert_eq!(parse_index("99999999999999999999999999"), None);
}

#[test]
fn align_token_needs_two_indices() {
    assert_eq!(parse_align_token("3-4"), Some((3, 4)));
    assert_eq!(parse_align_token("03-2"), Some((3, 2)));
    assert_eq!(parse_align_token("3"), None);
    assert_eq!(parse_align_token("3-4-5"), None);
    assert_eq!(parse_align_token("-4"), None);
    assert_eq!(parse_align_token("3-"), None);
    assert_eq!(parse_align_token("a-b"), None);
    assert_eq!(parse_align_token(""), None);
}

#[test]
fn convert_alignment_skips_malformed_entries() {
    assert_eq!(convert_alignment("3-4 x 5 1-2"), vec![(3, 4), (1, 2)]);
    assert_eq!(convert_alignment(""), Vec::<(usize, usize)>::new());
    assert_eq!(convert_alignment("0-0"), vec![(0, 0)]);
    assert_eq!(convert_alignment("1-2  3-4"), vec![(1, 2), (3, 4)]);
}

#[test]
fn iobes_markers_parse() {
    assert_eq!(iobes_of_str("I"), Ok(IOBES::I));
    assert_eq!(iobes_of_str("O"), Ok(IOBES::O));
    assert_eq!(iobes_of_str("B"), Ok(IOBES::B));
    assert_eq!(iobes_of_str("E"), Ok(IOBES::E));
    assert_eq!(iobes_of_str("S"), Ok(IOBES::S));
    assert_eq!(iobes_of_str("i"), Err(()));
    assert_eq!(iobes_of_str("X"), Err(()));
    assert_eq!(iobes_of_str("BB"), Err(()));
    assert_eq!(iobes_of_str(""), Err(()));
    assert_eq!(IOBES::from_str("I"), Ok(IOBES::I));
    assert_eq!(IOBES::from_str("O"), Ok(IOBES::O));
    assert_eq!(IOBES::from_str("B"), Ok(IOBES::B));
    assert_eq!(IOBES::from_str("E"), Ok(IOBES::E));
    assert_eq!(IOBES::from_str("S"), Ok(IOBES::S));
    assert_eq!(IOBES::from_str("X"), Err(()));
    assert_eq!(IOBES::from_str("BB"), Err(()));
    assert_eq!(IOBES::from_str(""), Err(()));
}

#[test]
fn token_takes_its_columns() {
    let parts = vec!["word", "c1", "c2", "c3", "NP", "PER", "c6", "A0", "A1"];
    let t = Token::new(parts);
    assert_eq!(t.token, "word".to_string());
    assert_eq!(t.chunk, "NP".to_string());
    assert_eq!(t.ner, "PER".to_string());
    assert_eq!(t.srls, vec!["A0".to_string(), "A1".to_string()]);
}

#[test]
fn token_with_no_srl_columns() {
    let parts = vec!["word", "c1", "c2", "c3", "NP", "O", "c6"];
    let t = Token::new(parts);
    assert_eq!(t.token, "word".to_string());
    assert!(t.srls.is_empty());
}

#[test]
fn transpose_swaps_axes() {
    let m = vec![
        vec!["a".to_string(), "b".to_string()],
        vec!["c".to_string(), "d".to_string()],
        vec!["e".to_string(), "f".to_string()],
    ];
    let t = transpose(&m);
    assert_eq!(t.len(), 2);
    assert_eq!(t[0], vec!["a".to_string(), "c".to_string(), "e".to_string()]);
    assert_eq!(t[1], vec!["b".to_string(), "d".to_string(), "f".to_string()]);
    assert!(transpose(&Vec::new()).is_empty());
}
