use fsman::diagnostics::{publication, DocumentEvent, Publication};
use fsman::diagnostics::{
    diagnostics, last_full_change, lsp_range, position_at, visible_byte_range, Position, Severity,
    TextRange,
};

#[test]
fn converts_unicode_and_crlf_positions_to_utf16() {
    let diagnostic = diagnostics("valid\r\n\u{1f600} }\r\n").pop().unwrap();

    assert_eq!(
        diagnostic.range,
        TextRange::new(Position::new(1, 3), Position::new(1, 4))
    );
}

#[test]
fn highlights_the_previous_character_for_an_eof_error() {
    let diagnostic = diagnostics("dir {\nfile\n").pop().unwrap();

    assert_eq!(
        diagnostic.range,
        TextRange::new(Position::new(1, 3), Position::new(1, 4))
    );
}

#[test]
fn returns_no_diagnostics_for_valid_input() {
    assert!(diagnostics("dir {\n  file\n}\n").is_empty());
}

#[test]
fn a_diagnostic_carries_the_parser_message() {
    let found = diagnostics("}\n");
    assert_eq!(found.len(), 1);
    assert_eq!(found[0].message, "unexpected `}` outside of a block");
    assert_eq!(
        found[0].range,
        TextRange::new(Position::new(0, 0), Position::new(0, 1))
    );
}

#[test]
fn non_empty_ranges_are_kept() {
    assert_eq!(visible_byte_range("abc", 0..2), 0..2);
    assert_eq!(visible_byte_range("abc", 5..9), 5..9);
}

#[test]
fn a_point_widens_to_the_character_at_it() {
    assert_eq!(visible_byte_range("a\u{e9}b", 1..1), 1..3);
    assert_eq!(visible_byte_range("a\u{1f600}", 1..1), 1..5);
    assert_eq!(visible_byte_range("a\r\nb", 1..1), 1..3);
    assert_eq!(visible_byte_range("a\rb", 1..1), 1..2);
}

#[test]
fn a_point_at_the_end_moves_to_the_last_visible_character() {
    assert_eq!(visible_byte_range("ab\r\n\n", 5..5), 1..2);
    assert_eq!(visible_byte_range("a\u{e9}", 3..3), 1..3);
    assert_eq!(visible_byte_range("\n\n", 2..2), 1..2);
    assert_eq!(visible_byte_range("", 0..0), 0..0);
}

#[test]
fn positions_count_lines_and_utf16_columns() {
    let text = "ab\r\n\u{1f600}x\ny\rz";
    assert_eq!(position_at(text, 0), Position::new(0, 0));
    assert_eq!(position_at(text, 2), Position::new(0, 2));
    assert_eq!(position_at(text, 3), Position::new(0, 2));
    assert_eq!(position_at(text, 4), Position::new(1, 0));
    assert_eq!(position_at(text, 6), Position::new(1, 0));
    assert_eq!(position_at(text, 8), Position::new(1, 2));
    assert_eq!(position_at(text, 9), Position::new(1, 3));
    assert_eq!(position_at(text, 10), Position::new(2, 0));
    assert_eq!(position_at(text, 12), Position::new(3, 0));
    assert_eq!(position_at(text, 100), Position::new(3, 1));
}

#[test]
fn ranges_convert_both_ends() {
    assert_eq!(
        lsp_range("a\nbc", 1..3),
        TextRange::new(Position::new(0, 1), Position::new(1, 1))
    );
}

#[test]
fn a_diagnostic_is_a_syntax_error_from_fsman() {
    let found = diagnostics("dir {\nfile\n");
    assert_eq!(found.len(), 1);
    assert_eq!(found[0].severity, Severity::Error);
    assert_eq!(found[0].code, "syntax-error");
    assert_eq!(found[0].source, "fsman");
    assert_eq!(found[0].message, "expected `}` to close the block");
}

#[test]
fn the_last_change_without_a_range_replaces_the_document() {
    assert_eq!(last_full_change(&vec![false, true, false, true]), Some(2));
    assert_eq!(last_full_change(&vec![false]), Some(0));
    assert_eq!(last_full_change(&vec![true, true]), None);
    assert_eq!(last_full_change(&vec![]), None);
}

#[test]
fn each_document_event_publishes_what_it_should() {
    assert_eq!(publication(&DocumentEvent::Opened), Publication::OpenedText);
    assert_eq!(
        publication(&DocumentEvent::Changed { has_range: vec![false, true, false, true] }),
        Publication::ChangeText(2)
    );
    assert_eq!(
        publication(&DocumentEvent::Changed { has_range: vec![true] }),
        Publication::Nothing
    );
    assert_eq!(publication(&DocumentEvent::Closed), Publication::Clear);
    assert_eq!(publication(&DocumentEvent::Other), Publication::Nothing);
}
