use pep_292::parser::{bracket_placeholder, content, escape, simple_placeholder};
use pep_292::{token, Token};

/// Runs `rule` on `input` and accepts its result only if it read all of it.
fn whole<'i, T>(
    rule: impl Fn(&mut &'i [u8]) -> Option<T>,
    input: &'i [u8],
) -> Option<T> {
    let mut cursor = input;
    let found = rule(&mut cursor)?;
    if cursor.is_empty() {
        Some(found)
    } else {
        None
    }
}

#[test]
fn test_simple_placeholder_full() {
    let expected: &[u8] = b"hello_world10";
    assert_eq!(whole(simple_placeholder, b"$hello_world10"), Some(expected));
}

#[test]
fn test_simple_placeholder_one_letter() {
    let expected: &[u8] = b"h";
    assert_eq!(whole(simple_placeholder, b"$h"), Some(expected));
}

#[test]
fn test_simple_placeholder_starts_with_digit() {
    assert_eq!(whole(simple_placeholder, b"$1"), None);
}

#[test]
fn test_simple_placeholder_starts_with_underscore() {
    let expected: &[u8] = b"_";
    assert_eq!(whole(simple_placeholder, b"$_"), Some(expected));
}

#[test]
fn test_bracket_placeholder_full() {
    let expected: &[u8] = b"hello_world10";
    assert_eq!(whole(bracket_placeholder, b"${hello_world10}"), Some(expected));
}

#[test]
fn test_bracket_placeholder_one_letter() {
    let expected: &[u8] = b"h";
    assert_eq!(whole(bracket_placeholder, b"${h}"), Some(expected));
}

#[test]
fn test_bracket_placeholder_starts_with_digit() {
    assert_eq!(whole(bracket_placeholder, b"${1}"), None);
}

#[test]
fn test_bracket_placeholder_starts_with_underscore() {
    let expected: &[u8] = b"_";
    assert_eq!(whole(bracket_placeholder, b"${_}"), Some(expected));
}

#[test]
fn test_scape() {
    assert_eq!(whole(escape, b"$$"), Some(()));
}

#[test]
fn test_escape_needs_two_dollars() {
    assert_eq!(whole(escape, b"$"), None);
    assert_eq!(whole(escape, b"$a"), None);
    assert_eq!(whole(escape, b""), None);
}

#[test]
fn test_content_simple() {
    let expected: &[u8] = b"Hello world";
    assert_eq!(whole(content, b"Hello world"), Some(expected));
}

#[test]
fn test_content_single() {
    assert_eq!(whole(content, b"$"), None);
}

#[test]
fn test_content_end() {
    assert_eq!(whole(content, b"end$"), None);
}

#[test]
fn test_content_start() {
    assert_eq!(whole(content, b"$start"), None);
}

#[test]
fn test_content_middle() {
    assert_eq!(whole(content, b"mid$dle"), None);
}

#[test]
fn test_content_stops_before_dollar() {
    let mut cursor: &[u8] = b"mid$dle";
    let expected: &[u8] = b"mid";
    let rest: &[u8] = b"$dle";
    assert_eq!(content(&mut cursor), Some(expected));
    assert_eq!(cursor, rest);
}

#[test]
fn test_content_of_nothing_is_empty() {
    let mut cursor: &[u8] = b"";
    let expected: &[u8] = b"";
    assert_eq!(content(&mut cursor), Some(expected));
    assert!(cursor.is_empty());
}

#[test]
fn test_content_keeps_cursor_on_failure() {
    let mut cursor: &[u8] = b"$start";
    let same: &[u8] = b"$start";
    assert_eq!(content(&mut cursor), None);
    assert_eq!(cursor, same);
}

#[test]
fn test_token_escape() {
    assert_eq!(whole(token, b"$$"), Some(Token::Escape));
}

#[test]
fn test_token_simple() {
    assert_eq!(whole(token, b"$hello"), Some(Token::SimplePlaceholder(b"hello")));
}

#[test]
fn test_token_brackets() {
    assert_eq!(whole(token, b"${hello}"), Some(Token::BracketPlaceholder(b"hello")));
}

#[test]
fn test_token_content() {
    assert_eq!(
        whole(token, b"some random text {}"),
        Some(Token::Content(b"some random text {}"))
    );
}

#[test]
fn test_token_escape_comes_before_bracket() {
    let mut cursor: &[u8] = b"$${foo}";
    assert_eq!(token(&mut cursor), Some(Token::Escape));
    assert_eq!(token(&mut cursor), Some(Token::Content(b"{foo}")));
    assert!(cursor.is_empty());
}

#[test]
fn test_token_sequence() {
    let mut cursor: &[u8] = b"a $b ${c_1}$$d";
    assert_eq!(token(&mut cursor), Some(Token::Content(b"a ")));
    assert_eq!(token(&mut cursor), Some(Token::SimplePlaceholder(b"b")));
    assert_eq!(token(&mut cursor), Some(Token::Content(b" ")));
    assert_eq!(token(&mut cursor), Some(Token::BracketPlaceholder(b"c_1")));
    assert_eq!(token(&mut cursor), Some(Token::Escape));
    assert_eq!(token(&mut cursor), Some(Token::Content(b"d")));
    assert!(cursor.is_empty());
}

#[test]
fn test_token_identifier_stops_at_other_byte() {
    let mut cursor: &[u8] = b"$name-rest";
    let rest: &[u8] = b"-rest";
    assert_eq!(token(&mut cursor), Some(Token::SimplePlaceholder(b"name")));
    assert_eq!(cursor, rest);
}

#[test]
fn test_token_identifier_letters_only_ascii() {
    // U+00E9 is a letter, but not an ASCII one.
    let text = "$caf\u{e9}";
    let mut cursor: &[u8] = text.as_bytes();
    let rest = "\u{e9}";
    assert_eq!(token(&mut cursor), Some(Token::SimplePlaceholder(b"caf")));
    assert_eq!(cursor, rest.as_bytes());
}

#[test]
fn test_token_failure_leaves_cursor_at_dollar() {
    for input in [&b"$1"[..], b"$", b"${", b"${}", b"${a", b"${a b}", b"$ a", b"${1}", b"$-"] {
        let mut cursor: &[u8] = input;
        assert_eq!(token(&mut cursor), None);
        assert_eq!(cursor, input);
    }
}

#[test]
fn test_token_character_classes() {
    for byte in 0u8..=255 {
        let text = [b'$', byte];
        let mut cursor: &[u8] = &text;
        let found = token(&mut cursor);
        let starts = byte.is_ascii_alphabetic() || byte == b'_';
        if byte == b'$' {
            assert_eq!(found, Some(Token::Escape));
        } else if starts {
            assert_eq!(found, Some(Token::SimplePlaceholder(&text[1..])));
        } else {
            assert_eq!(found, None);
        }
        let text = [b'$', b'a', byte];
        let mut cursor: &[u8] = &text;
        let found = token(&mut cursor);
        let continues = byte.is_ascii_alphanumeric() || byte == b'_';
        if continues {
            assert_eq!(found, Some(Token::SimplePlaceholder(&text[1..])));
            assert!(cursor.is_empty());
        } else {
            assert_eq!(found, Some(Token::SimplePlaceholder(&text[1..2])));
            assert_eq!(cursor, &text[2..]);
        }
    }
}
