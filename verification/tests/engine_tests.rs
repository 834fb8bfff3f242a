use std::cmp::Ordering;

use hime_text::Text;
use hime_text::TextPosition;
use hime_text::TextSpan;

#[test]
fn single_char_terminators_each_break_once() {
    // VT, FF, NEL, LS and PS each end a line right after themselves
    let text = Text::from_str("a\u{000B}b\u{000C}c\u{0085}d\u{2028}e\u{2029}f");
    assert_eq!(text.get_line_count(), 6);
    assert_eq!(text.get_line_index(1), 0);
    assert_eq!(text.get_line_index(2), 2);
    assert_eq!(text.get_line_index(3), 4);
    assert_eq!(text.get_line_index(4), 7);
    assert_eq!(text.get_line_index(5), 11);
    assert_eq!(text.get_line_index(6), 15);
}

#[test]
fn crlf_counts_as_one_break() {
    let text = Text::from_str("ab\r\ncd");
    assert_eq!(text.get_line_count(), 2);
    assert_eq!(text.get_line_index(2), 4);
    assert_eq!(text.get_line_length(1), 4);
    assert_eq!(text.get_line_content(1), "ab\r\n");
    assert_eq!(text.get_line_content(2), "cd");
}

#[test]
fn lone_cr_breaks_at_following_char() {
    let text = Text::from_str("ab\rcd");
    assert_eq!(text.get_line_count(), 2);
    assert_eq!(text.get_line_index(2), 3);
    assert_eq!(text.get_line_content(1), "ab\r");
    assert_eq!(text.get_line_content(2), "cd");
}

#[test]
fn trailing_cr_registers_no_break() {
    let text = Text::from_str("abc\r");
    assert_eq!(text.get_line_count(), 1);
    assert_eq!(text.get_line_length(1), 4);
    assert_eq!(text.get_line_content(1), "abc\r");
}

#[test]
fn empty_text() {
    let text = Text::from_str("");
    assert!(text.is_empty());
    assert_eq!(text.len(), 0);
    assert_eq!(text.get_line_count(), 1);
    assert_eq!(text.get_line_length(1), 0);
    assert!(text.is_end(0));
}

#[test]
fn position_offset_round_trip() {
    let text = Text::from_str("नमस्ते\nЗдравствуйте");
    // walk all character boundaries and come back through the position
    for i in [0, 3, 6, 9, 12, 15, 18, 19, 21, 23] {
        let p = text.get_position_at(i);
        assert_eq!(text.get_position_for(p, 0), p);
    }
}

#[test]
fn position_for_advances_by_length() {
    let text = Text::from_str("this is\na new line");
    let p = text.get_position_at(0);
    assert_eq!(
        text.get_position_for(p, 8),
        TextPosition { line: 2, column: 1 }
    );
    assert_eq!(
        text.get_position_for(TextPosition { line: 2, column: 3 }, 3),
        TextPosition { line: 2, column: 6 }
    );
}

#[test]
fn utf16_sequencer_ascii_and_bmp() {
    let text = Text::from_str("a\u{00E9}\u{0928}");
    let mut iter = text.iter_utf16_from(0);
    assert_eq!(iter.next(), Some((0x61, 1)));
    assert_eq!(iter.next(), Some((0xE9, 2)));
    assert_eq!(iter.next(), Some((0x928, 3)));
    assert_eq!(iter.next(), None);
    assert_eq!(iter.next(), None);
}

#[test]
fn utf16_sequencer_surrogate_pair() {
    // U+10437 takes four source bytes and one surrogate pair
    let text = Text::from_str("a\u{10437}b");
    let mut iter = text.iter_utf16_from(0);
    assert_eq!(iter.next(), Some((0x61, 1)));
    assert_eq!(iter.next(), Some((0xD801, 1)));
    assert_eq!(iter.next(), Some((0xDC37, 3)));
    assert_eq!(iter.next(), Some((0x62, 1)));
    assert_eq!(iter.next(), None);
}

#[test]
fn utf16_sequencer_from_offset() {
    let text = Text::from_str("ab\ncd");
    let mut iter = text.iter_utf16_from(3);
    assert_eq!(iter.next(), Some((0x63, 1)));
    assert_eq!(iter.next(), Some((0x64, 1)));
    assert_eq!(iter.next(), None);
}

#[test]
fn span_order_is_lexicographic() {
    let a = TextSpan { index: 1, length: 5 };
    let b = TextSpan { index: 2, length: 0 };
    let c = TextSpan { index: 1, length: 7 };
    assert!(a < b);
    assert!(a < c);
    assert!(c < b);
    assert_eq!(a.partial_cmp(&b), Some(Ordering::Less));
    assert_eq!(b.partial_cmp(&a), Some(Ordering::Greater));
    assert_eq!(a.partial_cmp(&a), Some(Ordering::Equal));
}

#[test]
fn position_order_is_lexicographic() {
    let a = TextPosition { line: 1, column: 9 };
    let b = TextPosition { line: 2, column: 1 };
    let c = TextPosition { line: 1, column: 10 };
    assert!(a < b);
    assert!(a < c);
    assert!(c < b);
    assert_eq!(a.partial_cmp(&b), Some(Ordering::Less));
    assert_eq!(b.partial_cmp(&a), Some(Ordering::Greater));
    assert_eq!(c.partial_cmp(&c), Some(Ordering::Equal));
}

#[test]
fn context_strips_terminator_of_first_line() {
    let text = Text::from_str("this is\na new line");
    assert_eq!(text.get_line_content(1), "this is\n");
    let context = text.get_context_for(TextPosition { line: 1, column: 1 }, 4);
    assert_eq!(context.content, "this is");
    assert_eq!(context.pointer, "^^^^");
}

#[test]
fn context_strips_crlf() {
    let text = Text::from_str("ab\r\ncd");
    let context = text.get_context_for(TextPosition { line: 1, column: 2 }, 1);
    assert_eq!(context.content, "ab");
    assert_eq!(context.pointer, " ^");
}

#[test]
fn context_caps_carets_at_line_end() {
    // the match runs past the end of the line: carets stop there
    let text = Text::from_str("ab\ncdef");
    let context = text.get_context_for(TextPosition { line: 1, column: 1 }, 5);
    assert_eq!(context.content, "ab");
    assert_eq!(context.pointer, "^^");
}

#[test]
fn context_of_span() {
    let text = Text::from_str("this is\na new line");
    let span = TextSpan { index: 10, length: 3 };
    let context = text.get_context_of(span);
    assert_eq!(context.content, "a new line");
    assert_eq!(context.pointer, "  ^^^");
}

#[test]
fn context_at_points_one_char() {
    let text = Text::from_str("this is\na new line");
    let context = text.get_context_at(TextPosition { line: 2, column: 3 });
    assert_eq!(context.content, "a new line");
    assert_eq!(context.pointer, "  ^");
}

#[test]
fn value_for_span() {
    let text = Text::from_str("this is\na new line");
    assert_eq!(
        text.get_value_for(TextSpan { index: 5, length: 4 }),
        "is\na"
    );
}

#[test]
fn from_string_matches_from_str() {
    let text = Text::from_string(String::from("this is\na new line"));
    assert_eq!(text.get_line_count(), 2);
    assert_eq!(text.get_line_content(2), "a new line");
    assert!(!text.is_empty());
    assert_eq!(text.len(), 18);
}

#[test]
fn caret_alignment_counts_code_points() {
    // three Cyrillic characters before the match: three blanks, two carets
    let text = Text::from_str("Здравствуйте");
    let context = text.get_context_for(TextPosition { line: 1, column: 4 }, 4);
    assert_eq!(context.content, "Здравствуйте");
    assert_eq!(context.pointer, "   ^^");
}
