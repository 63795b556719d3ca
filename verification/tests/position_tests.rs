use oal_compiler::position::{
    char_index, utf16_position, utf8_index, utf8_range_to_position, utf8_to_char_index,
    utf8_to_position, Position,
};

#[test]
fn test_utf8_to_char_index() {
    let input = "some😉text!";
    assert_eq!(input.len(), 13);
    assert_eq!(input.chars().count(), 10);
    assert_eq!(utf8_to_char_index(input, 0), 0);
    assert_eq!(utf8_to_char_index(input, 8), 5);
    assert_eq!(utf8_to_char_index(input, 42), 10);
}

#[test]
fn test_position_to_utf8() {
    assert_eq!('😉'.len_utf8(), 4);
    assert_eq!('😉'.len_utf16(), 2);
    let text = "hello\nworld\r\n😉text\r\n!";
    // The position of the character 'e' on the last line.
    let position = Position { line: 2, character: 3 };
    let index = oal_compiler::position::position_to_utf8(&text, position);
    assert_eq!(index, 18);
}

#[test]
fn test_position_to_utf8_overflow() {
    let text = "hello\nworld\r\ntext\r\n!";
    // A position past the end of the last line.
    let position = Position { line: 2, character: 10 };
    let index = oal_compiler::position::position_to_utf8(&text, position);
    // We expect the index of the carriage return at the end of the last line.
    assert_eq!(index, 17);
}

#[test]
fn test_utf8_to_position() {
    assert_eq!('😉'.len_utf16(), 2);
    let text = "hello\nworld\r\n😉text\r\n!";
    let index = 18; // The character 'e' in word "text"
    assert_eq!(&text[index..index + 1], "e");
    let position = utf8_to_position(&text, index);
    assert_eq!(position.line, 2);
    assert_eq!(position.character, 3);
}

#[test]
fn position_to_utf8() {
    assert_eq!('😉'.len_utf8(), 4);
    assert_eq!('😉'.len_utf16(), 2);
    let text = "hello\nworld\r\n😉text\r\n!";
    // The position of the character 'e' on the last line.
    let position = Position { line: 2, character: 3 };
    let index = utf8_index(&text, position);
    assert_eq!(index, 18);
}

#[test]
fn position_to_utf8_overflow() {
    let text = "hello\nworld\r\ntext\r\n!";
    // A position past the end of the last line.
    let position = Position { line: 2, character: 10 };
    let index = utf8_index(&text, position);
    // We expect the index of the carriage return at the end of the last line.
    assert_eq!(index, 17);
}

#[test]
fn position_to_char() {
    let text = "hello\nworld\r\ntext\r\n!";
    let position = Position { line: 2, character: 10 }; // Position past the end of last line
    let index = char_index(&text, position);
    assert_eq!(index, 17);
}

#[test]
fn char_to_position() {
    assert_eq!('😉'.len_utf16(), 2);
    let text = "hello\nworld\r\n😉text\r\n!";
    let index = 15; // The character 'e' in word "text"
    assert_eq!(text.chars().skip(index).next().unwrap(), 'e');
    let position = utf16_position(&text, index);
    assert_eq!(position.line, 2);
    assert_eq!(position.character, 3);
}

#[test]
fn char_and_utf8_indices_agree() {
    // The emoji counts for one character and four UTF-8 bytes.
    let text = "a😉\nb";
    let position = Position { line: 1, character: 1 };
    assert_eq!(char_index(text, position), 4);
    assert_eq!(utf8_index(text, position), 7);
    // Converting back gives the same position.
    assert_eq!(utf8_to_position(text, 7), position);
    assert_eq!(utf16_position(text, 4), position);
}

#[test]
fn utf16_columns_count_surrogate_pairs() {
    let text = "😉x";
    // The 'x' is after two UTF-16 code units.
    assert_eq!(utf8_to_position(text, 4), Position { line: 0, character: 2 });
    assert_eq!(utf8_index(text, Position { line: 0, character: 2 }), 4);
}

#[test]
fn range_to_position() {
    let text = "ab\ncd";
    let r = utf8_range_to_position(text, 1..3);
    assert_eq!(r.start, Position { line: 0, character: 1 });
    assert_eq!(r.end, Position { line: 1, character: 0 });
}

#[test]
fn empty_text_positions() {
    assert_eq!(utf8_index("", Position { line: 3, character: 4 }), 0);
    assert_eq!(utf8_to_position("", 5), Position { line: 0, character: 0 });
    assert_eq!(utf8_to_char_index("", 5), 0);
}

#[test]
fn position_round_trips_through_utf8() {
    let text = "let a = 'é';\n  let b = \u{1F600} num;\nend";
    let positions = [
        Position { line: 0, character: 0 },
        Position { line: 0, character: 9 },
        Position { line: 0, character: 12 },
        Position { line: 1, character: 10 },
        Position { line: 1, character: 12 },
        Position { line: 2, character: 3 },
    ];
    for p in positions {
        let index = oal_compiler::position::position_to_utf8(text, p);
        assert_eq!(utf8_to_position(text, index), p);
    }
}

#[test]
fn positions_fit_ordinary_texts() {
    assert!(oal_compiler::position::positions_fit(""));
    assert!(oal_compiler::position::positions_fit("let a = 'é';\n  let b = \u{1F600} num;\r\nend"));
}
