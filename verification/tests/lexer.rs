use temp_rs::lexer::{
    input_needs_more, skip_block_comment, skip_raw_string, take_prefixed_literal, take_raw, OpenLit,
};

#[test]
fn waits_after_outer_attribute() {
    assert!(input_needs_more("#[derive(Debug)]"));
    assert!(input_needs_more("#[derive(Debug)]\n#[allow(dead_code)]"));
    assert!(input_needs_more("#[derive(Debug)] // kept"));
    assert!(!input_needs_more("#[derive(Debug)]\nstruct Foo;"));
    assert!(!input_needs_more("#[derive(Debug)] struct Foo;"));
}

#[test]
fn waits_after_outer_doc_comment() {
    assert!(input_needs_more("/// A point"));
    assert!(input_needs_more("/** A point */"));
    assert!(!input_needs_more("/// A point\nstruct Foo;"));
    assert!(!input_needs_more("/* ordinary */"));
}

#[test]
fn still_tracks_delimiters_and_strings() {
    assert!(input_needs_more("struct A {"));
    assert!(!input_needs_more("struct A {\n    x: i32,\n}"));
    assert!(!input_needs_more("println!(\"{name}\")"));
    assert!(input_needs_more("println!(\"{"));
}

#[test]
fn empty_and_blank_input_is_complete() {
    assert!(!input_needs_more(""));
    assert!(!input_needs_more("   \n\t "));
}

#[test]
fn open_delimiters_wait_until_closed() {
    assert!(input_needs_more("fn f() {"));
    assert!(input_needs_more("foo(1, [2"));
    assert!(!input_needs_more("foo(1, [2])"));
    assert!(!input_needs_more("let v = vec![1, 2];"));
}

#[test]
fn stray_closer_ends_the_wait() {
    assert!(!input_needs_more(")"));
    assert!(!input_needs_more("foo(]"));
    assert!(!input_needs_more("} {"));
}

#[test]
fn strings_hide_delimiters() {
    assert!(!input_needs_more("\"(\""));
    assert!(input_needs_more("\"unterminated"));
    assert!(!input_needs_more("\"escaped \\\" quote\""));
    assert!(input_needs_more("\"ends in escape\\\""));
    assert!(!input_needs_more("b\"bytes {\""));
    assert!(!input_needs_more("c\"c string [\""));
}

#[test]
fn raw_strings_need_their_hashes() {
    assert!(!input_needs_more("r\"raw { \""));
    assert!(!input_needs_more("r#\"has \" quote\"#"));
    assert!(input_needs_more("r#\"has \" quote\""));
    assert!(!input_needs_more("br##\"x\"##"));
    assert!(input_needs_more("br##\"x\"#"));
}

#[test]
fn char_literals_and_lifetimes() {
    assert!(!input_needs_more("let c = '{';"));
    assert!(!input_needs_more("let c = '\\'';"));
    assert!(!input_needs_more("let c = '\\u{7b}';"));
    assert!(input_needs_more("let c = '\\u{7b"));
    assert!(!input_needs_more("fn f<'a>(x: &'a str) {}"));
    assert!(!input_needs_more("b'x'"));
    assert!(input_needs_more("b'x"));
}

#[test]
fn nested_block_comments() {
    assert!(input_needs_more("/* outer /* inner */"));
    assert!(!input_needs_more("/* outer /* inner */ */"));
    assert!(!input_needs_more("/*** not doc */"));
    assert!(!input_needs_more("// ( comment\n1"));
}

#[test]
fn inner_attribute_does_not_wait() {
    assert!(!input_needs_more("#![allow(unused)] fn f() {}"));
    assert!(input_needs_more("#[test]"));
    assert!(!input_needs_more("# x"));
}

#[test]
fn trailing_blank_lines_keep_completeness() {
    let inputs = [
        "struct A {",
        "#[derive(Debug)]",
        "/// doc",
        "// plain comment",
        "\"open string",
        "'",
        "'\\",
        "r#\"raw\"",
        "b",
        "x = 1",
        "fn f() {}",
        "'a",
        "/* open",
        "#",
    ];
    for s in inputs {
        let expected = input_needs_more(s);
        for w in ["\n", " ", "\n\n", " \t\n"] {
            let extended = format!("{s}{w}");
            assert_eq!(input_needs_more(&extended), expected, "{s:?} + {w:?}");
        }
    }
}

#[test]
fn plain_comments_that_look_like_doc_comments_leave_nothing_open() {
    assert!(!input_needs_more("/**/"));
    assert!(!input_needs_more("//// note"));
    assert!(!input_needs_more("/*** banner ***/"));
    assert!(input_needs_more("/** doc */"));
    assert!(input_needs_more("/// doc"));
}

#[test]
fn char_literals_and_lifetimes_are_closed() {
    assert!(!input_needs_more("let c = 'a';"));
    assert!(!input_needs_more("fn f<'a>(x: &'a str) {}"));
    assert!(!input_needs_more("let u = '_';"));
    assert!(!input_needs_more("'outer: loop { break 'outer; }"));
    assert!(!input_needs_more("let e = 'é';"));
    assert!(input_needs_more("let c = '"));
    assert!(input_needs_more("let c = '\\"));
}

fn chars(s: &str) -> Vec<char> {
    s.chars().collect()
}

#[test]
fn raw_strings_open_and_close_as_written() {
    assert_eq!(take_raw(&chars("##\"x"), 0), Some((3, 2)));
    assert_eq!(take_raw(&chars("\"x"), 0), Some((1, 0)));
    assert_eq!(take_raw(&chars("#x"), 0), None);
    assert_eq!(skip_raw_string(&chars("a\"b\"#c"), 0, 1), Some(5));
    assert_eq!(skip_raw_string(&chars("a\"b\"c"), 0, 1), None);
    assert!(matches!(take_prefixed_literal('b', &chars("r#\"x\"#"), 0), (Some(OpenLit::Raw(1)), 3)));
    assert!(matches!(take_prefixed_literal('b', &chars("'x'"), 0), (Some(OpenLit::Char), 1)));
    assert!(matches!(take_prefixed_literal('c', &chars("\"x\""), 0), (Some(OpenLit::Cooked), 1)));
    assert!(matches!(take_prefixed_literal('r', &chars("ust"), 0), (None, 0)));
}

#[test]
fn block_comments_nest() {
    assert_eq!(skip_block_comment(&chars(" /* */ */x"), 0), Some(9));
    assert_eq!(skip_block_comment(&chars(" /* */"), 0), None);
}

#[test]
fn plain_text_waits_for_open_brackets_only() {
    assert!(!input_needs_more(")"));
    assert!(!input_needs_more("(]"));
    assert!(input_needs_more("f(a["));
    assert!(!input_needs_more("f(a[1])"));
}
