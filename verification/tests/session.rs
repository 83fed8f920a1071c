use temp_rs::parser::InputKind;
use temp_rs::session::{item_keys, items_without_conflicts, names_of, upsert_item, Outcome, Session};
use temp_rs::syntax::ItemShape;

fn strings(v: &[&str]) -> Vec<String> {
    v.iter().map(|s| s.to_string()).collect()
}

#[test]
fn keys_are_defined_names() {
    assert_eq!(item_keys("fn double(x: i32) -> i32 { x * 2 }"), strings(&["double"]));
    assert_eq!(item_keys("struct A; enum B { X } impl A {}"), strings(&["A", "B"]));
    assert_eq!(item_keys("macro_rules! m { () => {} }"), strings(&["m"]));
    assert!(item_keys("impl A {}").is_empty());
    assert!(item_keys("not an item").is_empty());
}

#[test]
fn redefinition_replaces_the_old_item() {
    let history = strings(&["fn a() {}", "struct S;", "fn b() {}"]);
    let kept = items_without_conflicts(&history, "fn a() -> i32 { 1 }");
    assert_eq!(kept, strings(&["struct S;", "fn b() {}"]));
    let mut h = history.clone();
    upsert_item(&mut h, "fn a() -> i32 { 1 }".to_string());
    assert_eq!(h, strings(&["struct S;", "fn b() {}", "fn a() -> i32 { 1 }"]));
}

#[test]
fn item_without_names_keeps_everything() {
    let history = strings(&["struct S;", "fn b() {}"]);
    let kept = items_without_conflicts(&history, "impl S {}");
    assert_eq!(kept, history);
    let mut h = history.clone();
    upsert_item(&mut h, "impl S {}".to_string());
    assert_eq!(h, strings(&["struct S;", "fn b() {}", "impl S {}"]));
}

#[test]
fn session_replays_items_and_bindings() {
    let mut s = Session::new();
    assert_eq!(s.counter(), 0);
    let e = s.prepare("fn double(x: i32) -> i32 { x * 2 }").unwrap();
    assert_eq!(e.kind, InputKind::Item("fn double(x: i32) -> i32 { x * 2 }".to_string()));
    assert_eq!(e.counter, 0);
    s.compiled();
    s.record(&e.kind);
    let e = s.prepare("let mut a = vec![1]").unwrap();
    assert_eq!(e.counter, 1);
    s.compiled();
    s.record(&e.kind);
    let e = s.prepare("a.push(2)").unwrap();
    s.compiled();
    s.record(&e.kind);
    let e = s.prepare("double(a.len() as i32)").unwrap();
    assert!(matches!(e.kind, InputKind::Expression(_)));
    assert!(e.source.source.contains("fn double(x: i32) -> i32 { x * 2 }\n"));
    assert!(e.source.source.contains("let mut a = vec![1];\na.push(2);\n"));
    assert_eq!(e.counter, 3);
    s.record(&e.kind);
    let e2 = s.prepare("1").unwrap();
    assert!(!e2.source.source.contains("double(a.len() as i32)"));
}

#[test]
fn session_redefinition_compiles_without_old_item() {
    let mut s = Session::new();
    let e = s.prepare("fn f() -> i32 { 1 }").unwrap();
    s.record(&e.kind);
    let e = s.prepare("fn f() -> i32 { 2 }").unwrap();
    assert!(!e.source.source.contains("fn f() -> i32 { 1 }"));
    assert!(e.source.source.contains("fn f() -> i32 { 2 }"));
    s.record(&e.kind);
    let e = s.prepare("f()").unwrap();
    assert!(!e.source.source.contains("{ 1 }"));
    assert!(e.source.source.contains("fn f() -> i32 { 2 }"));
}

#[test]
fn names_of_parsed_items() {
    let items = vec![
        ItemShape::Other { tokens: "fn f () { }".to_string() },
        ItemShape::Other { tokens: "const N : u8 = 1 ;".to_string() },
        ItemShape::Other { tokens: "impl S { }".to_string() },
        ItemShape::Other { tokens: "enum E { }".to_string() },
        ItemShape::Other { tokens: "pub struct P < T > (T) ;".to_string() },
        ItemShape::Macro { path: Some("macro_rules".to_string()), defines: Some("m".to_string()) },
        ItemShape::Macro { path: Some("println".to_string()), defines: None },
    ];
    assert_eq!(names_of(&items), strings(&["f", "E", "P", "m"]));
}

#[test]
fn only_functions_structs_enums_and_macros_are_keys() {
    let src = "/// doc\n#[inline] pub async fn f<T: Copy>(x: T) -> T { x } const N: u8 = 1; \
               struct S; static T: u8 = 0; enum E {} trait Tr {} type A = u8; mod m {} \
               macro_rules! mm { () => {} } impl S {}";
    assert_eq!(item_keys(src), strings(&["f", "S", "E", "mm"]));
}

#[test]
fn failed_evaluations_keep_the_history() {
    let mut s = Session::new();
    let e = s.prepare("let a = 1").unwrap();
    s.conclude(&e.kind, Outcome::CompileFailed);
    assert_eq!(s.counter(), 0);
    let e = s.prepare("a").unwrap();
    assert!(!e.source.source.contains("let a = 1"));
    let e = s.prepare("let b = 2").unwrap();
    s.conclude(&e.kind, Outcome::NotRun);
    assert_eq!(s.counter(), 1);
    let e = s.prepare("b").unwrap();
    assert!(!e.source.source.contains("let b = 2"));
    let e = s.prepare("let c = 3").unwrap();
    s.conclude(&e.kind, Outcome::Ran);
    assert_eq!(s.counter(), 2);
    let e = s.prepare("c").unwrap();
    assert!(e.source.source.contains("let c = 3;"));
}
