use tini::Error;
use tini::ParseError;
use tini::parser::Parsed;
use tini::parser::parse_line;

#[test]
fn comment() -> Result<(), Error> {
    match parse_line(";------", 0)? {
        Parsed::Empty => assert!(true),
        _ => assert!(false),
    }
    Ok(())
}

#[test]
fn entry() -> Result<(), Error> {
    match parse_line("name1 = 100 ; comment", 0)? {
        Parsed::Value(name, text) => {
            assert_eq!(name, String::from("name1"));
            assert_eq!(text, String::from("100"));
        }
        _ => assert!(false),
    }
    Ok(())
}

#[test]
fn section() -> Result<(), Error> {
    match parse_line("[section]", 0)? {
        Parsed::Section(name) => assert_eq!(name, String::from("section")),
        _ => assert!(false),
    }
    Ok(())
}

#[test]
fn weird_name() -> Result<(), Error> {
    match parse_line("_.,:(){}-#@&*| = 100", 0)? {
        Parsed::Value(name, text) => {
            assert_eq!(name, String::from("_.,:(){}-#@&*|"));
            assert_eq!(text, String::from("100"));
        }
        _ => assert!(false),
    }
    Ok(())
}

#[test]
fn weird_section() -> Result<(), Error> {
    match parse_line("[[abc]] ; omg", 0)? {
        Parsed::Section(name) => assert_eq!(name, String::from("abc")),
        _ => assert!(false),
    }
    Ok(())
}

#[test]
fn text_entry() -> Result<(), Error> {
    match parse_line("text_name = hello world!", 0)? {
        Parsed::Value(name, text) => {
            assert_eq!(name, String::from("text_name"));
            assert_eq!(text, String::from("hello world!"));
        }
        _ => assert!(false),
    }
    Ok(())
}

#[test]
fn incorrect_token() {
    match parse_line("[section = 1, 2 = value", 0) {
        Err(_) => assert!(true),
        _ => assert!(false),
    }
}

#[test]
fn parser_empty_key() {
    match parse_line("= 3", 0) {
        Err(_) => assert!(true),
        _ => assert!(false),
    }
}

#[test]
fn empty_kv() {
    match parse_line("=", 0) {
        Err(_) => assert!(true),
        _ => assert!(false),
    }
}

#[test]
fn empty_value() -> Result<(), Error> {
    match parse_line("a =", 0)? {
        Parsed::Value(key, value) => {
            assert_eq!(key, String::from("a"));
            assert_eq!(value.len(), 0);
        }
        _ => assert!(false),
    }
    Ok(())
}

#[test]
fn empty_value_with_comment() -> Result<(), Error> {
    match parse_line("a = ; comment line", 0)? {
        Parsed::Value(key, value) => {
            assert_eq!(key, String::from("a"));
            assert_eq!(value.len(), 0);
        }
        _ => assert!(false),
    }
    Ok(())
}

#[test]
fn error_kinds_carry_their_line() {
    match parse_line("[broken", 7) {
        Err(e) => assert_eq!(e, ParseError::IncorrectSection(7)),
        _ => assert!(false),
    }
    match parse_line("no separator here", 9) {
        Err(e) => assert_eq!(e, ParseError::IncorrectSyntax(9)),
        _ => assert!(false),
    }
    match parse_line("  = value", 11) {
        Err(e) => assert_eq!(e, ParseError::EmptyKey(11)),
        _ => assert!(false),
    }
}
