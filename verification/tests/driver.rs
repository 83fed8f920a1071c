use temp_rs::driver::{
    compile_outcome, diagnostics_text, dylib_filename, map_line, remap_diagnostics,
    source_filename, TargetOs,
};

#[test]
fn dylib_filename_matches_platform() {
    for os in [TargetOs::Windows, TargetOs::MacOs, TargetOs::Other] {
        let name = dylib_filename(0, os);
        assert!(
            name.ends_with(".dylib") || name.ends_with(".so") || name.ends_with(".dll"),
            "{name}"
        );
        assert!(name.contains("eval_0"), "{name}");
    }
}

#[test]
fn dylib_filename_per_platform() {
    assert_eq!(dylib_filename(0, TargetOs::Windows), "libeval_0.dll");
    assert_eq!(dylib_filename(17, TargetOs::MacOs), "libeval_17.dylib");
    assert_eq!(dylib_filename(1234, TargetOs::Other), "libeval_1234.so");
}

#[test]
fn source_filenames() {
    assert_eq!(source_filename(0), "eval_0.rs");
    assert_eq!(source_filename(305), "eval_305.rs");
}

#[test]
fn remap_strips_eval_path_and_shifts_lines() {
    let raw = "\
error[E0308]: mismatched types
 --> /tmp/scratch/eval_3.rs:12:5
  |
12 |     1 + \"a\"
   |     ^
";
    let mapped = remap_diagnostics(raw, "/tmp/scratch/eval_3.rs", "eval_3.rs", 12);
    assert!(!mapped.contains("eval_3.rs"), "{mapped}");
    assert!(mapped.contains("<repl>:1:5"), "{mapped}");
    assert!(
        mapped.contains("\n 1 |     1 + \"a\"\n") || mapped.contains("\n1 |     1 + \"a\"\n"),
        "{mapped}"
    );
}

#[test]
fn remap_exact_output() {
    let raw = "error: x\n --> /s/eval_0.rs:7:9\n  |\n7 |     bad\n  |     ^^^\n";
    let mapped = remap_diagnostics(raw, "/s/eval_0.rs", "eval_0.rs", 5);
    assert_eq!(
        mapped,
        "error: x\n --> <repl>:3:9\n  |\n3 |     bad\n  |     ^^^\n"
    );
}

#[test]
fn remap_keeps_foreign_spans_and_renames_mentions() {
    let raw = "note: in eval_0.rs\n  ::: /rustlib/core.rs:10:2\n10 | core line";
    let mapped = remap_diagnostics(raw, "/s/eval_0.rs", "eval_0.rs", 5);
    assert_eq!(mapped, "note: in <repl>\n  ::: /rustlib/core.rs:10:2\n10 | core line");
}

#[test]
fn remap_lines_before_the_snippet_keep_their_numbers() {
    let raw = " --> eval_1.rs:2:1\n2 | x";
    let mapped = remap_diagnostics(raw, "/d/eval_1.rs", "eval_1.rs", 9);
    assert_eq!(mapped, " --> <repl>:2:1\n2 | x");
}

#[test]
fn remap_widens_gutter_when_needed() {
    let raw = " --> /d/eval_1.rs:9:1\n9 | x";
    let mapped = remap_diagnostics(raw, "/d/eval_1.rs", "eval_1.rs", 1);
    assert_eq!(mapped, " --> <repl>:9:1\n9 | x");
    let raw = " --> /d/eval_1.rs:100:1\n100 | x";
    let mapped = remap_diagnostics(raw, "/d/eval_1.rs", "eval_1.rs", 100);
    assert_eq!(mapped, " --> <repl>:1:1\n  1 | x");
}

#[test]
fn map_line_shifts_from_snippet_start() {
    assert_eq!(map_line(12, 12), 1);
    assert_eq!(map_line(15, 12), 4);
    assert_eq!(map_line(3, 12), 3);
    assert_eq!(map_line(1, 1), 1);
}

#[test]
fn diagnostics_text_picks_output() {
    assert_eq!(diagnostics_text("err", "", "exit status: 1"), "err");
    assert_eq!(diagnostics_text("", "out", "exit status: 1"), "out");
    assert_eq!(diagnostics_text("err", "out", "exit status: 1"), "errout");
    assert_eq!(
        diagnostics_text("", "", "exit status: 1"),
        "rustc exited with exit status: 1"
    );
}

#[test]
fn compile_outcome_success_and_failure() {
    let ok = compile_outcome(true, "", "/d/eval_0.rs", "eval_0.rs", 1, "/d/libeval_0.so".to_string());
    assert_eq!(ok.unwrap().dylib_path, "/d/libeval_0.so");
    let err = compile_outcome(
        false,
        "error: bad\n --> /d/eval_0.rs:4:1\n",
        "/d/eval_0.rs",
        "eval_0.rs",
        3,
        "/d/libeval_0.so".to_string(),
    );
    assert_eq!(err.unwrap_err(), "error: bad\n --> <repl>:2:1\n");
}

#[test]
fn remap_renames_like_str_replace() {
    for (line, full, name) in [
        ("in /a/eval_2.rs and eval_2.rs", "/a/eval_2.rs", "eval_2.rs"),
        ("ab", "x", ""),
        ("aaa", "aa", "b"),
    ] {
        let expected = line.replace(full, "<repl>").replace(name, "<repl>");
        assert_eq!(remap_diagnostics(line, full, name, 1), expected);
    }
}

#[test]
fn counters_give_distinct_file_names() {
    let names: Vec<String> = (0..200).map(|n| dylib_filename(n, TargetOs::Other)).collect();
    for (i, a) in names.iter().enumerate() {
        for b in &names[i + 1..] {
            assert_ne!(a, b);
        }
    }
    assert_ne!(source_filename(1), source_filename(10));
}

#[test]
fn span_on_snippet_first_line_is_line_one() {
    for start in [1usize, 2, 9, 10, 11, 99, 100, 12345] {
        let raw = format!("  --> /tmp/d/eval_4.rs:{start}:7");
        let mapped = remap_diagnostics(&raw, "/tmp/d/eval_4.rs", "eval_4.rs", start);
        assert_eq!(mapped, "  --> <repl>:1:7");
    }
}

#[test]
fn quoted_lines_keep_their_length() {
    let raw = " --> /tmp/eval_3.rs:12:5\n   |\n12 |     x\n  123 | y\n";
    let mapped = remap_diagnostics(raw, "/tmp/eval_3.rs", "eval_3.rs", 12);
    let lens = |s: &str| s.lines().map(|l| l.chars().count()).collect::<Vec<_>>();
    assert_eq!(lens(&mapped)[1..], lens(raw)[1..]);
    assert!(mapped.contains("\n 1 |     x\n"), "{mapped}");
    assert!(mapped.contains("\n  112 | y\n"), "{mapped}");
}
