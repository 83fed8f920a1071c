use temp_rs::generator::generate_source;
use temp_rs::parser::InputKind;

const HEADER: &str = "#![allow(unused, unused_imports, dead_code)]\n";
const EVAL_OPEN: &str =
    "\n#[no_mangle]\npub extern \"C\" fn __repl_eval(_ctx: *mut std::ffi::c_void) {\n";

fn line_of(source: &str, line: usize) -> &str {
    source.lines().nth(line - 1).unwrap()
}

#[test]
fn item_goes_after_kept_items() {
    let items = vec!["fn a() {}".to_string(), "struct B;".to_string()];
    let g = generate_source(&InputKind::Item("fn c() {}".to_string()), &items, &[]);
    let expected = format!("{HEADER}fn a() {{}}\nstruct B;\nfn c() {{}}\n{EVAL_OPEN}\n}}\n");
    assert_eq!(g.source, expected);
    assert_eq!(g.snippet_start_line, 4);
    assert_eq!(line_of(&g.source, g.snippet_start_line), "fn c() {}");
}

#[test]
fn statement_runs_after_bindings() {
    let bindings = vec!["let mut a = 3".to_string(), "a = 4;".to_string()];
    let g = generate_source(&InputKind::Statement("a += 1".to_string()), &[], &bindings);
    let expected = format!("{HEADER}{EVAL_OPEN}let mut a = 3;\na = 4;\na += 1;\n}}\n");
    assert_eq!(g.source, expected);
    assert_eq!(g.snippet_start_line, 7);
    assert_eq!(line_of(&g.source, g.snippet_start_line), "a += 1;");
}

#[test]
fn statement_with_trailing_space_after_semicolon_is_not_doubled() {
    let g = generate_source(&InputKind::Statement("let x = 1;  ".to_string()), &[], &[]);
    assert!(g.source.contains("let x = 1;  \n}"), "{}", g.source);
}

#[test]
fn expression_is_printed() {
    let items = vec!["fn double(x: i32) -> i32 { x * 2 }".to_string()];
    let bindings = vec!["let a = 3".to_string()];
    let g = generate_source(&InputKind::Expression("double(a)".to_string()), &items, &bindings);
    assert!(g.source.starts_with(HEADER));
    assert!(g.source.contains("fn __repl_print<T: std::fmt::Debug>(value: T) {"));
    assert!(g.source.ends_with("let a = 3;\n    __repl_print({\ndouble(a)\n    });\n}\n"));
    assert_eq!(line_of(&g.source, g.snippet_start_line), "double(a)");
    assert_eq!(g.snippet_start_line, 14);
}

#[test]
fn deref_gives_the_source() {
    let g = generate_source(&InputKind::Expression("1".to_string()), &[], &[]);
    let s: &str = &g;
    assert_eq!(s, g.source.as_str());
}
