use include_preprocessor::line_parser::{parse_line, skip_line, IncludePath, Line};

#[test]
fn test_parse_line() {
    let src = "Text line \n\
        #pragma once\n\
        #pragma     once     \n\
        #include <angle_path>\n\
        #include \"quote_path\"\n\
        \n\
        #unknowndirective\n\
        #pragma unknown\n\
        #include <angle_path_unclosed\n\
        #include \"quote_path_unclosed\n\
        #include undelimited\n\
        ";
    let s = src.as_bytes();
    let mut pos: usize = 0;

    let res = parse_line(s, pos);

    assert!(res.is_ok());

    let (line, next) = res.unwrap();
    pos = next;

    assert_eq!(line, Line::Text);

    let res = parse_line(s, pos);

    assert!(res.is_ok());

    let (line, next) = res.unwrap();
    pos = next;

    assert_eq!(line, Line::PragmaOnce);

    let res = parse_line(s, pos);

    assert!(res.is_ok());

    let (line, next) = res.unwrap();
    pos = next;

    assert_eq!(line, Line::PragmaOnce);

    let res = parse_line(s, pos);

    assert!(res.is_ok());

    let (line, next) = res.unwrap();
    pos = next;

    assert_eq!(
        line,
        Line::Include(IncludePath::Angle(b"angle_path".to_vec()))
    );

    let res = parse_line(s, pos);

    assert!(res.is_ok());

    let (line, next) = res.unwrap();
    pos = next;

    assert_eq!(
        line,
        Line::Include(IncludePath::Quote(b"quote_path".to_vec()))
    );

    let res = parse_line(s, pos);

    assert!(res.is_ok());

    let (line, next) = res.unwrap();
    pos = next;

    assert_eq!(line, Line::Text);

    let res = parse_line(s, pos);

    assert!(res.is_ok());

    let (line, next) = res.unwrap();
    pos = next;

    assert_eq!(line, Line::Text);

    let res = parse_line(s, pos);

    assert!(res.is_ok());

    let (line, next) = res.unwrap();
    pos = next;

    assert_eq!(line, Line::Text);

    // The three malformed directive-shaped lines fall through to text.
    let res = parse_line(s, pos);

    assert!(res.is_ok());

    let (line, next) = res.unwrap();
    pos = next;

    assert_eq!(line, Line::Text);

    let res = parse_line(s, pos);

    assert!(res.is_ok());

    let (line, next) = res.unwrap();
    pos = next;

    assert_eq!(line, Line::Text);

    let res = parse_line(s, pos);

    assert!(res.is_ok());

    let (line, next) = res.unwrap();

    assert_eq!(line, Line::Text);
    assert_eq!(next, s.len());
}

#[test]
fn test_parse_line_positions() {
    let s = "ab\n#pragma once\ncd".as_bytes();
    let (line, next) = parse_line(s, 0).unwrap();
    assert_eq!(line, Line::Text);
    assert_eq!(next, 3);
    let (line, next) = parse_line(s, 3).unwrap();
    assert_eq!(line, Line::PragmaOnce);
    assert_eq!(next, 16);
    let (line, next) = parse_line(s, 16).unwrap();
    assert_eq!(line, Line::Text);
    assert_eq!(next, 18);
}

#[test]
fn test_parse_line_crlf() {
    let s = "ab\r\n#include <x>\r\n".as_bytes();
    let (line, next) = parse_line(s, 0).unwrap();
    assert_eq!(line, Line::Text);
    assert_eq!(next, 4);
    let (line, next) = parse_line(s, 4).unwrap();
    assert_eq!(line, Line::Include(IncludePath::Angle(b"x".to_vec())));
    assert_eq!(next, 18);
}

#[test]
fn test_parse_line_bare_carriage_return() {
    let s = "ab\rcd\n".as_bytes();
    assert!(parse_line(s, 0).is_err());
    assert_eq!(skip_line(s, 0), 6);
}

#[test]
fn test_parse_line_unterminated_directive_is_text() {
    // A once-guard without a line terminator falls through to text.
    let s = "#pragma once".as_bytes();
    let (line, next) = parse_line(s, 0).unwrap();
    assert_eq!(line, Line::Text);
    assert_eq!(next, 12);
    // So does an include without one: a directive needs its terminator,
    // and what fails the directive grammar is text.
    let s2 = "#include <x>".as_bytes();
    let (line, next) = parse_line(s2, 0).unwrap();
    assert_eq!(line, Line::Text);
    assert_eq!(next, 12);
}

#[test]
fn test_parse_line_malformed_directive_shapes_are_text() {
    for line_text in [
        "#include <unclosed\n",
        "#include \"unclosed\n",
        "#include undelimited\n",
        "#include <>\n",
        "#include <a> trailing\n",
    ] {
        let s = line_text.as_bytes();
        let (line, next) = parse_line(s, 0).unwrap();
        assert_eq!(line, Line::Text, "{}", line_text);
        assert_eq!(next, s.len());
    }
}

#[test]
fn test_parse_line_no_space_after_keyword_is_text() {
    let s = "#include<x>\n".as_bytes();
    let (line, next) = parse_line(s, 0).unwrap();
    assert_eq!(line, Line::Text);
    assert_eq!(next, 12);
}

#[test]
fn test_skip_line_unterminated() {
    let s = "abc".as_bytes();
    assert_eq!(skip_line(s, 0), 3);
    let s2 = "abc\ndef".as_bytes();
    assert_eq!(skip_line(s2, 0), 4);
}
