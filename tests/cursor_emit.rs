use cahirp::codegen::cursor::{CodeCursor, CursorPosition};
use cahirp::codegen::emitter::{emit_at, match_line_indentation, CodeEmitter};
use cahirp::parser::directives::InsertDirective;
use cahirp::parser::parameters::{Parameter, Parameters};

fn chars(s: &str) -> Vec<char> {
    s.chars().collect()
}

fn text(v: &[char]) -> String {
    v.iter().collect()
}

fn cursor(params: Vec<Parameter>, file: &str) -> CursorPosition {
    CodeCursor::from_parameters(&Parameters::from_vec(params), &chars(file)).pos
}

fn emit(params: Vec<Parameter>, file: &str, code: &str) -> Result<String, String> {
    InsertDirective::new(Parameters::from_vec(params)).emit(file.to_string(), code)
}

const FILE: &str = "alpha\nbeta\ngamma\n";

#[test]
fn at_on_first_line() {
    let c = cursor(vec![Parameter::At("alpha".to_string())], FILE);
    assert!(c.found);
    assert_eq!(c.idx, 0);
    assert_eq!(c.selection_len, 0);
    assert_eq!(
        emit(vec![Parameter::At("alpha".to_string())], FILE, "new").unwrap(),
        "new\nalpha\nbeta\ngamma\n"
    );
}

#[test]
fn at_on_last_line() {
    let c = cursor(vec![Parameter::At("gam".to_string())], FILE);
    assert!(c.found);
    assert_eq!(c.idx, 11);
    assert_eq!(
        emit(vec![Parameter::At("gam".to_string())], FILE, "new").unwrap(),
        "alpha\nbeta\nnew\ngamma\n"
    );
}

#[test]
fn at_absent_reports_no_location() {
    let c = cursor(vec![Parameter::At("delta".to_string())], FILE);
    assert!(!c.found);
    assert_eq!(c.idx, FILE.len());
    assert_eq!(
        emit(vec![Parameter::At("delta".to_string())], FILE, "new"),
        Err(FILE.to_string())
    );
}

#[test]
fn at_twice_finds_the_next_occurrence() {
    let file = "x\ny\nx\n";
    let c = cursor(
        vec![Parameter::At("x".to_string()), Parameter::At("x".to_string())],
        file,
    );
    assert_eq!(c.idx, 4);
}

#[test]
fn below_and_above() {
    let c = cursor(vec![Parameter::Below("alpha".to_string())], FILE);
    assert_eq!(c.idx, 6);
    let c = cursor(vec![Parameter::Above("gamma".to_string())], FILE);
    assert_eq!(c.idx, 6);
    let c = cursor(vec![Parameter::Below("gamma".to_string())], "alpha\ngamma");
    assert!(!c.found);
    let c = cursor(vec![Parameter::Above("alpha".to_string())], FILE);
    assert!(!c.found);
}

#[test]
fn select_replaces_the_match() {
    let params = vec![
        Parameter::At("beta".to_string()),
        Parameter::Select("et".to_string()),
    ];
    let c = cursor(params.clone(), FILE);
    assert_eq!((c.idx, c.selection_len), (7, 2));
    assert_eq!(emit(params, FILE, "ET").unwrap(), "alpha\nbET\na\ngamma\n");
}

#[test]
fn select_across_multibyte_characters() {
    let file = "café crème\n";
    let c = cursor(vec![Parameter::Select("é c".to_string())], file);
    assert!(c.found);
    assert_eq!((c.idx, c.selection_len), (3, 3));
    assert_eq!(
        emit(vec![Parameter::Select("é c".to_string())], file, "-").unwrap(),
        "caf-\nrème\n"
    );
}

#[test]
fn select_absent_on_multibyte_text_reports_no_location() {
    let file = "naïve café\n";
    let r = emit(vec![Parameter::Select("ïx".to_string())], file, "z");
    assert_eq!(r, Err(file.to_string()));
    let r = emit(
        vec![Parameter::At("café".to_string()), Parameter::Select("naï".to_string())],
        "naïve\ncafé\n",
        "z",
    );
    assert_eq!(r, Err("naïve\ncafé\n".to_string()));
}

#[test]
fn multiline_select_all_lines_match() {
    let file = "one\n  two\nthree\nfour\n";
    let c = cursor(vec![Parameter::MultilineSelect(" one\n two \n".to_string())], file);
    assert!(c.found);
    assert_eq!((c.idx, c.selection_len), (0, 10));
}

#[test]
fn multiline_select_length_counts_bytes_of_ascii_lines() {
    let file = "a\none\ntwo\nz\n";
    let c = cursor(vec![Parameter::MultilineSelect("one\ntwo".to_string())], file);
    assert_eq!((c.idx, c.selection_len), (2, 8));
}

#[test]
fn multiline_select_partial_match_is_rejected() {
    let file = "one\ntwo\nthree\n";
    let c = cursor(vec![Parameter::MultilineSelect("one\ntwo\nfour".to_string())], file);
    assert!(!c.found);
    assert_eq!(
        emit(vec![Parameter::MultilineSelect("one\ntwo\nfour".to_string())], file, "X"),
        Err(file.to_string())
    );
}

#[test]
fn multiline_select_replaces_span() {
    let file = "one\ntwo\nthree\n";
    let params = vec![Parameter::MultilineSelect(" one\n two\n three ".to_string())];
    assert_eq!(emit(params, file, "X").unwrap(), "X\n");
}

#[test]
fn multiline_select_on_last_line_without_line_feed() {
    let file = "a\nb";
    let c = cursor(vec![Parameter::MultilineSelect("b".to_string())], file);
    assert_eq!((c.idx, c.selection_len), (2, 1));
}

#[test]
fn snippet_takes_indentation_of_preceding_line() {
    let file = "class A {\n  function f() {}\n}\n";
    let params = vec![Parameter::Below("function f".to_string())];
    assert_eq!(
        emit(params, file, "  g();\n h();").unwrap(),
        "class A {\n  function f() {}\n  g();\n  h();\n}\n"
    );
}

#[test]
fn empty_snippet_is_identity() {
    let file = chars("a\n  b\nc\n");
    let pos = CursorPosition { idx: 2, selection_len: 0, next_line: 6, found: true };
    assert_eq!(text(&emit_at(&file, &Vec::new(), pos).unwrap()), "a\n  b\nc\n");
    let pos = CursorPosition { idx: 4, selection_len: 0, next_line: 6, found: true };
    assert_eq!(text(&emit_at(&file, &Vec::new(), pos).unwrap()), "a\nb\nc\n");
}

#[test]
fn emit_rejects_selection_past_end() {
    let file = chars("abc");
    let pos = CursorPosition { idx: 2, selection_len: 5, next_line: 3, found: true };
    assert!(emit_at(&file, &chars("x"), pos).is_none());
}

#[test]
fn indentation_comes_from_last_complete_line() {
    let out = match_line_indentation(&chars("a\n   b  \n"), &chars("x\n\t  y\nzz"));
    assert_eq!(text(&out), "\t  a\n\t  b\n");
    let out = match_line_indentation(&chars("a"), &chars("no line feed"));
    assert_eq!(text(&out), "a\n");
}

#[test]
fn cursor_starts_at_origin() {
    let c = CursorPosition::new();
    assert_eq!((c.idx, c.selection_len, c.next_line, c.found), (0, 0, 0, true));
    let mut cc = CodeCursor { pos: c };
    cc.advance(&Parameters::from_vec(vec![Parameter::Note("n".to_string())]), &chars("q\n"));
    assert_eq!(cc.pos, CursorPosition::new());
}

#[test]
fn cursor_does_not_go_back_to_earlier_lines() {
    let c = cursor(
        vec![Parameter::At("gamma".to_string()), Parameter::At("alpha".to_string())],
        FILE,
    );
    assert!(!c.found);
    let c = cursor(
        vec![Parameter::At("beta".to_string()), Parameter::Select("al".to_string())],
        FILE,
    );
    assert!(!c.found);
}
