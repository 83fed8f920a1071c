use temp_rs::prompt::Prompt;

#[test]
fn prompt_switches_while_a_snippet_continues() {
    let mut p = Prompt::new();
    assert_eq!(p.prompt(), "-> ");
    assert_eq!(p.feed("struct A {"), None);
    assert_eq!(p.prompt(), ".. ");
    assert_eq!(p.feed("    n: u8,"), None);
    assert_eq!(p.feed("};"), Some("struct A {\n    n: u8,\n};".to_string()));
    assert_eq!(p.prompt(), "-> ");
}

#[test]
fn complete_line_is_submitted_trimmed() {
    let mut p = Prompt::new();
    assert_eq!(p.feed("  2 + 2  "), Some("2 + 2".to_string()));
}

#[test]
fn blank_input_submits_nothing() {
    let mut p = Prompt::new();
    assert_eq!(p.feed(""), None);
    assert_eq!(p.feed("   "), None);
    assert_eq!(p.prompt(), "-> ");
}

#[test]
fn empty_line_keeps_an_unfinished_snippet_waiting() {
    let mut p = Prompt::new();
    assert_eq!(p.feed("#[derive(Debug)]"), None);
    assert_eq!(p.feed(""), None);
    assert_eq!(p.feed("   "), None);
    assert_eq!(p.prompt(), ".. ");
    assert_eq!(
        p.feed("struct Foo;"),
        Some("#[derive(Debug)]\n\n   \nstruct Foo;".to_string())
    );
}

#[test]
fn interrupt_discards_the_pending_snippet() {
    let mut p = Prompt::new();
    assert_eq!(p.feed("fn f() {"), None);
    p.interrupt();
    assert_eq!(p.prompt(), "-> ");
    assert_eq!(p.feed("1"), Some("1".to_string()));
}
