use temp_rs::parser::{
    classify_input, file_is_item, is_assign_expr, is_let_binding, is_persistent_binding,
    is_stmt_like_macro, InputKind,
};
use temp_rs::syntax::{ExprShape, ItemShape};

fn item(src: &str) -> InputKind {
    InputKind::Item(src.trim().to_string())
}

fn stmt(src: &str) -> InputKind {
    InputKind::Statement(src.trim().to_string())
}

fn expr(src: &str) -> InputKind {
    InputKind::Expression(src.trim().to_string())
}

#[test]
fn classifies_items() {
    assert_eq!(classify_input("fn foo() {}"), item("fn foo() {}"));
    assert_eq!(classify_input("struct Foo;"), item("struct Foo;"));
    assert_eq!(
        classify_input("const N: i32 = 1;"),
        item("const N: i32 = 1;")
    );
    assert_eq!(
        classify_input("async fn foo() {}"),
        item("async fn foo() {}")
    );
    assert_eq!(
        classify_input("#[derive(Debug)] struct Foo;"),
        item("#[derive(Debug)] struct Foo;")
    );
    assert_eq!(
        classify_input("struct Foo; impl Foo {}"),
        item("struct Foo; impl Foo {}")
    );
    assert_eq!(
        classify_input("macro_rules! m { () => {} }"),
        item("macro_rules! m { () => {} }")
    );
    assert_eq!(
        classify_input("struct A {\n    n: u8,\n};"),
        item("struct A {\n    n: u8,\n}")
    );
    assert_eq!(
        classify_input("#[derive(Debug)]\nstruct A {\n    n: u8,\n};"),
        item("#[derive(Debug)]\nstruct A {\n    n: u8,\n}")
    );
    assert_eq!(classify_input("fn foo() {};"), item("fn foo() {}"));
}

#[test]
fn classifies_statements() {
    assert_eq!(classify_input("let x = 1;"), stmt("let x = 1;"));
    assert_eq!(classify_input("let x = 1"), stmt("let x = 1"));
    assert_eq!(
        classify_input("println!(\"hi\");"),
        stmt("println!(\"hi\");")
    );
    assert_eq!(classify_input("a = 4"), stmt("a = 4"));
    assert_eq!(classify_input("a = 4;"), stmt("a = 4;"));
    assert_eq!(classify_input("a += 1"), stmt("a += 1"));
    assert_eq!(classify_input("let mut a = 3"), stmt("let mut a = 3"));
    assert_eq!(classify_input("a.push(1);"), stmt("a.push(1);"));
}

#[test]
fn classifies_expressions() {
    assert_eq!(classify_input("2 + 2"), expr("2 + 2"));
    assert_eq!(classify_input("foo()"), expr("foo()"));
    assert_eq!(
        classify_input("if true { 1 } else { 2 }"),
        expr("if true { 1 } else { 2 }")
    );
}

#[test]
fn classified_text_is_trimmed() {
    assert_eq!(classify_input("  2 + 2 \n"), expr("2 + 2"));
    assert_eq!(classify_input("\tlet x = 1  "), stmt("let x = 1"));
    assert_eq!(classify_input(" fn f() {}; \n"), item("fn f() {}"));
}

#[test]
fn every_compound_assignment_is_persistent() {
    for op in ["+=", "-=", "*=", "/=", "%=", "^=", "&=", "|=", "<<=", ">>="] {
        let src = format!("a {op} 1");
        assert!(is_persistent_binding(&src), "{src}");
        assert_eq!(classify_input(&src), stmt(&src));
    }
    assert!(!is_persistent_binding("a + 1"));
    assert!(!is_persistent_binding("a == 1"));
}

#[test]
fn persistent_bindings() {
    assert!(is_persistent_binding("let a = 1"));
    assert!(is_persistent_binding("a = 1;"));
    assert!(is_persistent_binding("v.push(2)"));
    assert!(!is_persistent_binding("foo(2)"));
    assert!(!is_persistent_binding("2 + 2"));
    assert!(is_let_binding("let mut a = vec![1]"));
    assert!(!is_let_binding("a = 1"));
}

#[test]
fn macro_invocation_statement_is_not_an_item() {
    assert_eq!(classify_input("println!(\"a\")"), expr("println!(\"a\")"));
    assert_eq!(classify_input("vec![1]"), expr("vec![1]"));
}

#[test]
fn garbage_is_an_expression() {
    assert_eq!(classify_input("this is not rust"), expr("this is not rust"));
}

#[test]
fn expressions_are_never_persistent_bindings() {
    for raw in ["2 + 2", "a", "a == 1", "foo()", "v.len()", "x += 1", "let y = 2", "a.push(1)"] {
        if let InputKind::Expression(code) = classify_input(raw) {
            assert!(!is_persistent_binding(&code), "{raw}");
        }
    }
    assert!(matches!(classify_input("v.len()"), InputKind::Statement(_)));
}

#[test]
fn unicode_whitespace_is_trimmed() {
    assert_eq!(classify_input("\u{3000}2 + 2\u{a0}"), expr("2 + 2"));
}

#[test]
fn rules_on_parsed_shapes() {
    assert!(is_assign_expr(&ExprShape::Assign));
    assert!(is_assign_expr(&ExprShape::Binary { op: "<<=".to_string() }));
    assert!(!is_assign_expr(&ExprShape::Binary { op: "<=".to_string() }));
    assert!(!is_assign_expr(&ExprShape::MethodCall));
    let invocation = ItemShape::Macro { path: Some("println".to_string()), defines: None };
    let definition = ItemShape::Macro {
        path: Some("macro_rules".to_string()),
        defines: Some("m".to_string()),
    };
    let qualified = ItemShape::Macro { path: None, defines: None };
    assert!(is_stmt_like_macro(&invocation));
    assert!(!is_stmt_like_macro(&definition));
    assert!(is_stmt_like_macro(&qualified));
    assert!(!is_stmt_like_macro(&ItemShape::Other { tokens: "struct S ;".to_string() }));
    assert!(!file_is_item(&vec![]));
    assert!(!file_is_item(&vec![ItemShape::Macro { path: Some("vec".to_string()), defines: None }]));
    assert!(file_is_item(&vec![invocation, ItemShape::Other { tokens: "fn f () { }".to_string() }]));
}

#[test]
fn surrounding_whitespace_does_not_change_classification() {
    for s in ["2 + 2", "let a = 1", "struct A;", "a.push(1);", "struct A { n: u8 };"] {
        let padded = format!(" \n\t{s} \n");
        assert_eq!(classify_input(&padded), classify_input(s));
    }
}
