use std::sync::Arc;

use byst::confix::file::FileHash;
use byst::confix::toml::input::{Input, SourceFile};
use byst::confix::toml::parse::{
    BasicString, Boolean, Comment, Digits, DottedKey, Expression, Float, Integer, IntegerPrefix,
    Key, KeyvalSep, LiteralString, Newline, QuotedKey, Sign, SimpleKey, Toml, UnquotedKey,
    Whitespace,
};

fn source_input(text: &str) -> Input {
    Input::new(Arc::new(SourceFile::new(None, text.to_string())))
}

#[test]
fn file_hash_of_nothing_is_zero() {
    assert_eq!(FileHash::hash(b""), FileHash(0));
}

#[test]
fn file_hash_tells_contents_apart() {
    let a = FileHash::hash(b"key = 1\n");
    let b = FileHash::hash(b"key = 2\n");
    assert_ne!(a, b);
    assert_eq!(a, FileHash::hash(b"key = 1\n"));
    assert_ne!(FileHash::hash(b"a"), FileHash(0));
}

#[test]
fn source_file_keeps_path_and_text() {
    let file = SourceFile::new(Some("config.toml".to_string()), "a = 1".to_string());
    assert_eq!(file.path(), Some("config.toml"));
    assert_eq!(file.source(), "a = 1");
    assert_eq!(SourceFile::new(None, String::new()).path(), None);
}

#[test]
fn input_tracks_lines_and_columns() {
    let mut input = source_input("ab\ncdé\nx");
    let span = input.next_slice(3);
    assert_eq!(span.bytes(), b"ab\n");
    assert_eq!(input.pos().line(), 1);
    assert_eq!(input.pos().column(), 0);
    let checkpoint = input.checkpoint();
    input.next_slice(4);
    assert_eq!(input.pos().line(), 1);
    assert_eq!(input.pos().column(), 3);
    assert_eq!(input.pos().offset(), 7);
    assert_eq!(input.eof_offset(), 2);
    input.reset(&checkpoint);
    assert_eq!(input.location(), 3);
    let later = input.next_slice(5);
    let earlier = span;
    let merged = earlier.merge(&later);
    assert_eq!(merged.start().offset(), 0);
    assert_eq!(merged.end().offset(), 8);
    assert_eq!(merged.bytes(), "ab\ncdé\n".as_bytes());
}

#[test]
fn whitespace_and_comments() {
    let mut input = source_input(" \t# note\nrest");
    let ws = Whitespace::parse(&mut input);
    assert_eq!(ws.span.bytes(), b" \t");
    let comment = Comment::parse(&mut input).unwrap();
    assert_eq!(comment.span.bytes(), b"# note");
    assert!(Comment::parse(&mut input).is_err());
    let newline = Newline::parse(&mut input).unwrap();
    assert_eq!(newline.span.bytes(), b"\n");
    assert!(Newline::parse(&mut input).is_err());
    assert_eq!(input.rest_bytes(), b"rest");
}

#[test]
fn crlf_is_a_newline() {
    let mut input = source_input("\r\nx");
    assert_eq!(Newline::parse(&mut input).unwrap().span.bytes(), b"\r\n");
}

#[test]
fn keys() {
    let mut input = source_input("server-name_2 = 'x'");
    let key = UnquotedKey::parse(&mut input).unwrap();
    assert_eq!(key.span.bytes(), b"server-name_2");
    let sep = KeyvalSep::parse(&mut input).unwrap();
    assert_eq!(sep.span.bytes(), b" = ");
    let value = LiteralString::parse(&mut input).unwrap();
    assert_eq!(value.inner.item.bytes(), b"x");
    assert_eq!(value.span.bytes(), b"'x'");
}

#[test]
fn dotted_keys() {
    let mut input = source_input("a . \"b\".c = 1");
    let key = DottedKey::parse(&mut input).unwrap();
    assert_eq!(key.parts.items.len(), 3);
    assert_eq!(key.parts.separators.len(), 2);
    assert_eq!(key.span.bytes(), b"a . \"b\".c");

    let mut input = source_input("a.=");
    assert!(DottedKey::parse(&mut input).is_err());
    assert_eq!(input.location(), 0);
}

#[test]
fn key_takes_the_simple_key_first() {
    let mut input = source_input("a.b");
    match Key::parse(&mut input).unwrap() {
        Key::Simple(SimpleKey::Unquoted(key)) => assert_eq!(key.span.bytes(), b"a"),
        _ => panic!("expected a simple key"),
    }
}

#[test]
fn basic_strings_with_escapes() {
    let mut input = source_input(r#""a\"b\u00e9\n" rest"#);
    let string = BasicString::parse(&mut input).unwrap();
    assert_eq!(string.inner.item.bytes(), br#"a\"b\u00e9\n"#);
    assert_eq!(input.rest_bytes(), b" rest");

    let mut input = source_input(r#""bad \q""#);
    assert!(BasicString::parse(&mut input).is_err());
    assert_eq!(input.location(), 0);

    let mut input = source_input("\"unterminated");
    assert!(BasicString::parse(&mut input).is_err());
}

#[test]
fn booleans() {
    let mut input = source_input("truefalse");
    assert!(matches!(Boolean::parse(&mut input).unwrap(), Boolean::True { .. }));
    assert!(matches!(Boolean::parse(&mut input).unwrap(), Boolean::False { .. }));
    assert!(Boolean::parse(&mut input).is_err());
}

#[test]
fn signs_and_prefixes() {
    let mut input = source_input("-0b");
    let sign = Sign::parse(&mut input).unwrap();
    assert_eq!(sign.signum(), -1);
    assert_eq!(sign.span().bytes(), b"-");
    let prefix = IntegerPrefix::parse(&mut input).unwrap();
    assert_eq!(prefix.base(), 2);
}

#[test]
fn integers() {
    let mut input = source_input("-120 rest");
    let integer = Integer::parse(&mut input).unwrap();
    assert!(matches!(integer, Integer::Dec { .. }));
    assert_eq!(integer.as_int(), -120);
    assert_eq!(input.rest_bytes(), b" rest");

    let mut input = source_input("0x1F");
    let integer = Integer::parse(&mut input).unwrap();
    // a leading zero is a whole decimal integer
    assert!(matches!(integer, Integer::Dec { .. }));
    assert_eq!(integer.as_int(), 0);
    assert_eq!(input.rest_bytes(), b"x1F");

    let mut input = source_input("x");
    assert!(Integer::parse(&mut input).is_err());
}

#[test]
fn digits_in_other_bases() {
    let mut input = source_input("1F_");
    let digits = Digits::parse_with_leading_zeros(&mut input, 16).unwrap();
    assert_eq!(digits.span.bytes(), b"1F_");
    let mut input = source_input("1F");
    let digits = Digits::parse_with_leading_zeros(&mut input, 16).unwrap();
    assert_eq!(digits.as_int(16), 0x1F);
    let mut input = source_input("1_000");
    let digits = Digits::parse_dec(&mut input).unwrap();
    assert_eq!(digits.as_int(10), 1000);
    let mut input = source_input("ff");
    let digits = Digits::parse_with_leading_zeros(&mut input, 16).unwrap();
    assert_eq!(digits.as_int(16), 255);
    let mut input = source_input("0012");
    let digits = Digits::parse_dec(&mut input).unwrap();
    assert_eq!(digits.span.bytes(), b"0");
}

#[test]
fn floats() {
    let mut input = source_input("+3.14e-2,");
    match Float::parse(&mut input).unwrap() {
        Float::Normal { frac, exp, sign, .. } => {
            assert!(frac.is_some());
            assert!(exp.is_some());
            assert!(sign.is_some());
        }
        _ => panic!("expected a normal float"),
    }
    assert_eq!(input.rest_bytes(), b",");

    let mut input = source_input("-inf");
    assert!(matches!(Float::parse(&mut input).unwrap(), Float::Inf { .. }));
    let mut input = source_input("nan");
    assert!(matches!(Float::parse(&mut input).unwrap(), Float::Nan { .. }));
    let mut input = source_input("1.e5");
    match Float::parse(&mut input).unwrap() {
        Float::Normal { frac, exp, .. } => {
            assert!(frac.is_none());
            assert!(exp.is_none());
        }
        _ => panic!("expected a normal float"),
    }
    assert_eq!(input.rest_bytes(), b".e5");
}

#[test]
fn expressions_and_documents() {
    let mut input = source_input("  # a\n\n\t# b\nkey = 1");
    let toml = Toml::parse(&mut input);
    assert_eq!(toml.expressions.items.len(), 4);
    assert_eq!(toml.expressions.separators.len(), 3);
    assert_eq!(toml.span.bytes(), b"  # a\n\n\t# b\n");
    assert_eq!(input.rest_bytes(), b"key = 1");
    match &toml.expressions.items[0] {
        Expression::Comment { comment, ws, .. } => {
            assert_eq!(ws.span.bytes(), b"  ");
            assert_eq!(comment.as_ref().unwrap().span.bytes(), b"# a");
        }
        _ => panic!("expected a comment line"),
    }
}

#[test]
fn dotted_key_parts_come_in_order() {
    let mut input = source_input("a . \"b\".c = 1");
    let key = DottedKey::parse(&mut input).unwrap();
    match &key.parts.items[0] {
        SimpleKey::Unquoted(k) => assert_eq!(k.span.bytes(), b"a"),
        _ => panic!("expected an unquoted key"),
    }
    match &key.parts.items[1] {
        SimpleKey::Quoted(QuotedKey::Basic(k)) => assert_eq!(k.span.bytes(), b"\"b\""),
        _ => panic!("expected a quoted key"),
    }
    match &key.parts.items[2] {
        SimpleKey::Unquoted(k) => assert_eq!(k.span.bytes(), b"c"),
        _ => panic!("expected an unquoted key"),
    }
}

#[test]
fn document_expressions_come_in_order() {
    let mut input = source_input("# a\n# b");
    let toml = Toml::parse(&mut input);
    assert_eq!(toml.expressions.items.len(), 2);
    match &toml.expressions.items[1] {
        Expression::Comment { comment, .. } => {
            assert_eq!(comment.as_ref().unwrap().span.bytes(), b"# b");
        }
        _ => panic!("expected a comment line"),
    }
}
