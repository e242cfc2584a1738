use pep_292::{Mapping, Template, TemplateError};

fn mapping(pairs: &[(&str, &str)]) -> Mapping {
    let mut mapping = Mapping::new();
    for (key, value) in pairs {
        mapping.insert(key, value);
    }
    mapping
}

#[test]
fn test_substitute_hello() {
    let res = "hello".substitute(&mapping(&[]));
    assert_eq!(res, Ok("hello".into()));
}

#[test]
fn test_substitute_feeling() {
    let map = mapping(&[("feeling", "love")]);
    let res = "I $feeling string substitution".substitute(&map);
    assert_eq!(res, Ok("I love string substitution".into()));
}

#[test]
fn test_safe_substitute_hello() {
    let res = "hello".safe_substitute(&mapping(&[]));
    assert_eq!(res, Ok("hello".into()));
}

#[test]
fn test_escape_is_one_dollar() {
    assert_eq!("$$".substitute(&mapping(&[])), Ok("$".into()));
    assert_eq!("$$".safe_substitute(&mapping(&[])), Ok("$".into()));
}

#[test]
fn test_escape_is_one_dollar_whatever_the_mapping() {
    let map = mapping(&[("a", "b"), ("$", "x"), ("$$", "y")]);
    assert_eq!("1$$2$$$$3".substitute(&map), Ok("1$2$$3".into()));
    assert_eq!("1$$2$$$$3".safe_substitute(&map), Ok("1$2$$3".into()));
    assert_eq!("$a$$$a".substitute(&map), Ok("b$b".into()));
}

#[test]
fn test_escape_then_brace_is_content() {
    let map = mapping(&[("foo", "bar")]);
    assert_eq!("$${foo}".substitute(&map), Ok("${foo}".into()));
    assert_eq!("$${foo}".safe_substitute(&map), Ok("${foo}".into()));
}

#[test]
fn test_permissive_keeps_bracket_placeholder() {
    assert_eq!("${name}!".safe_substitute(&mapping(&[])), Ok("${name}!".into()));
}

#[test]
fn test_permissive_keeps_simple_placeholder() {
    assert_eq!("Hi $name!".safe_substitute(&mapping(&[])), Ok("Hi $name!".into()));
}

#[test]
fn test_permissive_keeps_only_what_is_missing() {
    let map = mapping(&[("a", "1")]);
    assert_eq!(
        "$a $b ${a} ${b} $$".safe_substitute(&map),
        Ok("1 $b 1 ${b} $".into())
    );
}

#[test]
fn test_strict_reports_missing_key() {
    assert_eq!(
        "${name}!".substitute(&mapping(&[])),
        Err(TemplateError::KeyError("name"))
    );
}

#[test]
fn test_strict_reports_first_missing_key() {
    let map = mapping(&[("a", "1")]);
    assert_eq!("$a $b $c".substitute(&map), Err(TemplateError::KeyError("b")));
    assert_eq!("$a ${c} $b".substitute(&map), Err(TemplateError::KeyError("c")));
}

#[test]
fn test_strict_missing_key_comes_before_later_parse_failure() {
    assert_eq!(
        "$a $1".substitute(&mapping(&[])),
        Err(TemplateError::KeyError("a"))
    );
    assert_eq!(
        "$a $1".safe_substitute(&mapping(&[])),
        Err(TemplateError::ParserError { position: 3 })
    );
}

#[test]
fn test_digit_is_no_identifier() {
    let map = mapping(&[("1", "one")]);
    assert_eq!("$1".substitute(&map), Err(TemplateError::ParserError { position: 0 }));
    assert_eq!("$1".safe_substitute(&map), Err(TemplateError::ParserError { position: 0 }));
    assert_eq!(
        "$1".substitute(&mapping(&[])),
        Err(TemplateError::ParserError { position: 0 })
    );
}

#[test]
fn test_parse_failure_position_is_that_of_the_dollar() {
    let map = mapping(&[("ok", "fine")]);
    for (text, position) in [
        ("$", 0),
        ("abc$", 3),
        ("abc$ def", 3),
        ("$ok ${ok", 4),
        ("$ok ${ok}${", 9),
        ("$$$", 2),
        ("${}", 0),
        ("${ok }", 0),
        ("a${1}", 1),
        ("\u{e9}$", 2),
        ("$ok$\u{e9}", 3),
    ] {
        assert_eq!(
            text.substitute(&map),
            Err(TemplateError::ParserError { position }),
            "{text}"
        );
        assert_eq!(
            text.safe_substitute(&map),
            Err(TemplateError::ParserError { position }),
            "{text}"
        );
    }
}

#[test]
fn test_policies_agree_when_every_key_is_there() {
    let map = mapping(&[("who", "world"), ("greeting", "Hello"), ("_", "!")]);
    for text in ["$greeting, ${who}$_", "", "no placeholder", "$$$who$$", "$who$who", "${who}s"] {
        assert_eq!(text.substitute(&map), text.safe_substitute(&map), "{text}");
    }
    assert_eq!(
        "$greeting, ${who}$_".substitute(&map),
        Ok("Hello, world!".into())
    );
}

#[test]
fn test_text_without_dollar_is_unchanged() {
    let map = mapping(&[("a", "b")]);
    for text in ["", "a", "{a}", "plain text, with {braces} and \u{20ac} signs\n"] {
        assert_eq!(text.substitute(&map), Ok(text.into()));
        assert_eq!(text.safe_substitute(&map), Ok(text.into()));
        assert_eq!(text.substitute(&mapping(&[])), Ok(text.into()));
    }
}

#[test]
fn test_rendering_twice_gives_the_same() {
    let map = mapping(&[("a", "1")]);
    for text in ["$a and ${a}", "$b", "$", "x"] {
        assert_eq!(text.substitute(&map), text.substitute(&map));
        assert_eq!(text.safe_substitute(&map), text.safe_substitute(&map));
    }
}

#[test]
fn test_text_beyond_ascii() {
    let map = mapping(&[("name", "Zo\u{eb}"), ("sum", "\u{20ac} 5")]);
    assert_eq!(
        "\u{a1}Hola $name! ${sum}\u{2026}".substitute(&map),
        Ok("\u{a1}Hola Zo\u{eb}! \u{20ac} 5\u{2026}".into())
    );
    assert_eq!(
        "\u{1f600}$missing\u{1f600}".safe_substitute(&map),
        Ok("\u{1f600}$missing\u{1f600}".into())
    );
}

#[test]
fn test_replacement_is_not_rendered_again() {
    let map = mapping(&[("a", "$b"), ("b", "no")]);
    assert_eq!("$a".substitute(&map), Ok("$b".into()));
    assert_eq!("${a}$$".safe_substitute(&map), Ok("$b$".into()));
}

#[test]
fn test_identifier_is_the_longest_run() {
    let map = mapping(&[("a", "1"), ("ab", "2"), ("a_1", "3")]);
    assert_eq!("$ab".substitute(&map), Ok("2".into()));
    assert_eq!("$a_1".substitute(&map), Ok("3".into()));
    assert_eq!("${a}b".substitute(&map), Ok("1b".into()));
    assert_eq!("$a-b".substitute(&map), Ok("1-b".into()));
    assert_eq!("$abc".substitute(&map), Err(TemplateError::KeyError("abc")));
}

#[test]
fn test_empty_replacement() {
    let map = mapping(&[("nothing", "")]);
    assert_eq!("<$nothing>".substitute(&map), Ok("<>".into()));
    assert_eq!("<${nothing}>".safe_substitute(&map), Ok("<>".into()));
}

#[test]
fn test_mapping_insert_and_get() {
    let mut map = Mapping::new();
    assert_eq!(map.get("a"), None);
    map.insert("a", "1");
    map.insert("b", "2");
    assert_eq!(map.get("a"), Some("1"));
    assert_eq!(map.get("b"), Some("2"));
    assert_eq!(map.get("c"), None);
    map.insert("a", "3");
    assert_eq!(map.get("a"), Some("3"));
}

#[test]
fn test_mapping_default_is_empty() {
    let map = Mapping::default();
    assert_eq!(map.get("a"), None);
    assert_eq!("$a".substitute(&map), Err(TemplateError::KeyError("a")));
}

#[test]
fn test_parser_error_message() {
    let error = TemplateError::ParserError { position: 0 };
    assert_eq!(error.message(), "Invalid placeholder on input at position 0");
    let error = TemplateError::ParserError { position: 7 };
    assert_eq!(error.message(), "Invalid placeholder on input at position 7");
    let error = TemplateError::ParserError { position: 10 };
    assert_eq!(error.message(), "Invalid placeholder on input at position 10");
    let error = TemplateError::ParserError { position: 9075 };
    assert_eq!(error.message(), "Invalid placeholder on input at position 9075");
    let error = TemplateError::ParserError { position: usize::MAX };
    assert_eq!(
        error.message(),
        format!("Invalid placeholder on input at position {}", usize::MAX)
    );
}

#[test]
fn test_key_error_message() {
    let error = TemplateError::KeyError("name");
    assert_eq!(error.message(), "Missing key \"name\"");
}

#[test]
fn test_error_message_of_a_failed_rendering() {
    let error = "abc $1".substitute(&mapping(&[])).unwrap_err();
    assert_eq!(error.message(), "Invalid placeholder on input at position 4");
    let error = "abc $one".substitute(&mapping(&[])).unwrap_err();
    assert_eq!(error.message(), "Missing key \"one\"");
}

#[test]
fn test_long_text() {
    let map = mapping(&[("x", "yz")]);
    let text = "$x.".repeat(1000);
    assert_eq!(text.substitute(&map), Ok("yz.".repeat(1000)));
}
