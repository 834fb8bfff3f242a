use hime_text::Text;
use hime_text::TextContext;
use hime_text::TextPosition;

#[test]
fn test_text_lines() {
    let text = Text::from_str("this is\na new line");
    assert_eq!(text.get_line_count(), 2);
    assert_eq!(text.get_line_index(1), 0);
    assert_eq!(text.get_line_index(2), 8);
}

#[test]
fn test_text_at() {
    let text = Text::from_str("this is\na new line");
    assert_eq!(text.at(0), 't');
    assert_eq!(text.at(8), 'a');
}

#[test]
fn test_text_get_value() {
    let text = Text::from_str("this is\na new line");
    assert_eq!(text.get_value(0, 3), "thi");
    assert_eq!(text.get_value(8, 2), "a ");
}

#[test]
fn test_text_get_value_at() {
    let text = Text::from_str("this is\na new line");
    assert_eq!(
        text.get_value_at(TextPosition { line: 1, column: 1 }, 3),
        "thi"
    );
    assert_eq!(
        text.get_value_at(TextPosition { line: 2, column: 3 }, 3),
        "new"
    );
}

#[test]
fn test_text_get_value_at_2() {
    let text = Text::from_str("नमस्ते\nЗдравствуйте");
    assert_eq!(
        text.get_value_at(TextPosition { line: 1, column: 1 }, 6),
        "नम"
    );
    assert_eq!(
        text.get_value_at(TextPosition { line: 2, column: 3 }, 4),
        "ра"
    );
}

#[test]
fn test_text_get_line_index() {
    let text = Text::from_str("this is\na new line");
    assert_eq!(text.get_line_index(1), 0);
    assert_eq!(text.get_line_index(2), 8);
}

#[test]
fn test_text_get_line_length() {
    let text = Text::from_str("this is\na new line");
    assert_eq!(text.get_line_length(1), 8);
    assert_eq!(text.get_line_length(2), 10);
}

#[test]
fn test_text_get_line_content() {
    let text = Text::from_str("this is\na new line");
    assert_eq!(text.get_line_content(1), "this is\n");
    assert_eq!(text.get_line_content(2), "a new line");
}

#[test]
fn test_text_get_position_at() {
    let text = Text::from_str("this is\na new line");
    for i in 0..8 {
        assert_eq!(
            text.get_position_at(i),
            TextPosition {
                line: 1,
                column: i + 1
            }
        );
    }
    for i in 8..text.len() {
        assert_eq!(
            text.get_position_at(i),
            TextPosition {
                line: 2,
                column: i + 1 - 8
            }
        );
    }
}

#[test]
fn test_text_get_context_for() {
    let text = Text::from_str("नमस्ते\nЗдравствуйте");
    assert_eq!(
        text.get_context_for(TextPosition { line: 1, column: 2 }, 6),
        TextContext {
            content: "नमस्ते",
            pointer: String::from(" ^^")
        }
    );
    assert_eq!(
        text.get_context_for(TextPosition { line: 2, column: 3 }, 6),
        TextContext {
            content: "Здравствуйте",
            pointer: String::from("  ^^^")
        }
    );
}
