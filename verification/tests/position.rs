use laplace_lsp::analysis::{analyze, QualifiedCall, TOKEN_DATA, TOKEN_LIBRARY_FUNCTION};
use laplace_lsp::mask::CodeMask;
use laplace_lsp::position::{
    build_semantic_tokens, line_starts, offset_to_position, position_to_offset,
    semantic_tokens_full, Position, SemanticToken,
};
use laplace_lsp::text::{
    contains_name, is_ascii_whitespace, is_boundary, is_ident_char, join_parts,
    matches_at, str_eq, substring, utf16_count,
};
use laplace_lsp::tokens::RawToken;

fn at(line: u32, character: u32) -> Position {
    Position { line, character }
}

fn token(delta_line: u32, delta_start: u32, length: u32, token_type: u32) -> SemanticToken {
    SemanticToken { delta_line, delta_start, length, token_type, token_modifiers_bitset: 0 }
}

#[test]
fn lines_start_behind_line_feeds() {
    assert_eq!(line_starts(""), vec![0]);
    assert_eq!(line_starts("a\nbc\r\n"), vec![0, 2, 6]);
    assert_eq!(line_starts("\n\n"), vec![0, 1, 2]);
}

#[test]
fn offsets_become_positions_in_utf16_units() {
    // Two bytes and one unit, then four bytes and two units.
    let source = "a\n\u{e9}\u{1f600}b";
    let starts = line_starts(source);
    assert_eq!(offset_to_position(source, &starts, 0), at(0, 0));
    assert_eq!(offset_to_position(source, &starts, 1), at(0, 1));
    assert_eq!(offset_to_position(source, &starts, 2), at(1, 0));
    assert_eq!(offset_to_position(source, &starts, 4), at(1, 1));
    assert_eq!(offset_to_position(source, &starts, 8), at(1, 3));
    assert_eq!(offset_to_position(source, &starts, 9), at(1, 4));
}

#[test]
fn positions_become_offsets() {
    let source = "a\n\u{e9}\u{1f600}b";
    assert_eq!(position_to_offset(source, at(0, 0)), 0);
    assert_eq!(position_to_offset(source, at(1, 1)), 4);
    // Between the two units of a character: behind it.
    assert_eq!(position_to_offset(source, at(1, 2)), 8);
    assert_eq!(position_to_offset(source, at(1, 3)), 8);
    // Behind the end of a line: its end, that is the start of the next one.
    assert_eq!(position_to_offset(source, at(0, 9)), 2);
    assert_eq!(position_to_offset(source, at(1, 9)), 9);
    // Behind the last line: the end of the text.
    assert_eq!(position_to_offset(source, at(7, 0)), 9);
    assert_eq!(position_to_offset("", at(0, 0)), 0);
}

#[test]
fn a_position_leads_back_to_its_offset() {
    let source = "data {\n  // \u{e9}\u{1f600}\n  int N;\n}\n";
    let starts = line_starts(source);
    let mut last = at(0, 0);
    for offset in 0..=source.len() {
        if source.is_char_boundary(offset) {
            let position = offset_to_position(source, &starts, offset);
            assert_eq!(position_to_offset(source, position), offset);
            assert!((last.line, last.character) <= (position.line, position.character));
            last = position;
        }
    }
}

#[test]
fn tokens_are_encoded_by_their_distance() {
    let source = "ab cd\n  \u{1f600} ef\n";
    let raw = vec![
        RawToken { start: 13, end: 15, token_type: 7 },
        RawToken { start: 0, end: 2, token_type: 1 },
        RawToken { start: 8, end: 12, token_type: 4 },
        RawToken { start: 3, end: 5, token_type: 2 },
    ];
    assert_eq!(
        build_semantic_tokens(source, &raw),
        vec![token(0, 0, 2, 1), token(0, 3, 2, 2), token(1, 2, 2, 4), token(0, 3, 2, 7)]
    );
    assert_eq!(build_semantic_tokens(source, &[]), vec![]);
}

#[test]
fn a_file_is_answered_with_its_tokens() {
    let source = "data {\n  real x;\n}\nmodel {\n  p::f(x);\n}\n";
    let mut closing = vec![None; source.len()];
    closing[source.find('{').unwrap()] = source.find('}');
    closing[source.rfind('{').unwrap()] = source.rfind('}');
    let mask = CodeMask::from_parts(source, vec![true; source.len()], closing).unwrap();
    let start = source.find("p::f").unwrap();
    let call = QualifiedCall { package: "p".to_string(), func: "f".to_string(), range: start..start + 4 };
    let analysis = analyze(source, &mask, &vec![], &vec![], vec![call], vec![]);
    assert_eq!(
        semantic_tokens_full(source, &mask, &analysis),
        vec![
            token(1, 7, 1, TOKEN_DATA),
            token(3, 2, 4, TOKEN_LIBRARY_FUNCTION),
            token(0, 5, 1, TOKEN_DATA),
        ]
    );
}

#[test]
fn bytes_of_identifiers_and_whitespace() {
    for b in 0..=255u8 {
        assert_eq!(is_ident_char(b), b.is_ascii_alphanumeric() || b == b'_');
        assert_eq!(is_ascii_whitespace(b), b.is_ascii_whitespace());
    }
}

#[test]
fn texts_can_be_cut_between_characters_only() {
    let source = "a\u{e9}\u{1f600}";
    for i in 0..source.len() + 2 {
        assert_eq!(is_boundary(source.as_bytes(), i), source.is_char_boundary(i));
    }
    assert_eq!(substring(source, 1, 3), "\u{e9}");
    assert_eq!(substring(source, 3, 3), "");
}

#[test]
fn texts_are_found_in_texts() {
    assert!(matches_at(b"abc", 1, b"bc"));
    assert!(!matches_at(b"abc", 2, b"cd"));
    assert!(matches_at(b"abc", 3, b""));
    assert!(!matches_at(b"abc", 4, b""));
    assert!(str_eq("\u{e9}", "\u{e9}") && !str_eq("a", "ab"));
    assert_eq!(join_parts(&vec!["a", "", "\u{e9}b"]), "a\u{e9}b");
    assert!(contains_name(&vec!["f".to_string()], "f"));
    assert!(!contains_name(&vec!["f".to_string()], ""));
    assert_eq!(utf16_count("a\u{e9}\u{1f600}"), 4);
}
