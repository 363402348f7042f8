use cahirp::codegen::export_database::ExportDatabase;
use cahirp::codegen::file_defs_buf::{FileDefsBuf, FileDefsMode};
use cahirp::codegen::file_pool::FilePool;
use cahirp::codegen::names::NameSet;
use cahirp::codegen::orchestrator::{fits_requirements, ExecutionOrchestrator};
use cahirp::parser::context::parse_directive_file;
use cahirp::parser::directives::{assign_ids, Directive, DirectiveId};
use cahirp::parser::parameters::{ParamKind, Parameter, Parameters};

fn directives(recipes: &[&str]) -> Vec<Directive> {
    let mut out = Vec::new();
    for r in recipes {
        let (ds, errors) = parse_directive_file(r);
        assert_eq!(errors, 0);
        out.extend(ds);
    }
    assign_ids(&mut out);
    out
}

fn build(recipes: &[&str], files: &[(&str, &str)], mods: &[&str]) -> (Vec<(String, String)>, usize, Vec<(usize, String)>) {
    let mut pool = FilePool::new(directives(recipes));
    for (suffix, contents) in files {
        pool.insert_file(suffix.to_string(), contents.to_string());
    }
    let mods: Vec<String> = mods.iter().map(|m| m.to_string()).collect();
    let report = pool.emit(&mods);
    (pool.into_files(), report.waves, report.misses)
}

fn name(s: &str) -> String {
    s.to_string()
}

#[test]
fn single_insert_below_class_line() {
    let recipe = "@insert(\n  file(a.ws)\n  below(class A {)\n)\nputs(\"x\");";
    let (files, waves, misses) = build(&[recipe], &[("a.ws", "class A {\n  function f() {}\n}\n")], &[]);
    assert_eq!(waves, 1);
    assert!(misses.is_empty());
    assert_eq!(files[0].1, "class A {\nputs(\"x\");\n  function f() {}\n}\n");
}

#[test]
fn guarded_directive_runs_in_a_later_wave() {
    let r1 = "@insert(\nfile(b.ws)\nat(X)\ndefine(Y)\n)\nA";
    let r2 = "@insert(\nfile(b.ws)\nat(X)\nifdef(Y)\n)\nB";
    let (files, waves, _) = build(&[r2, r1], &[("b.ws", "X\n")], &[]);
    assert_eq!(waves, 2);
    assert_eq!(files[0].1, "A\nB\nX\n");
}

#[test]
fn exports_are_withheld_and_spliced() {
    let r1 = "@insert(\nfile(c.ws)\nat(marker)\nexport(here)\n)";
    let r2 = "@insert(\nuse(here)\n)\nbody";
    let mut ds = directives(&[r1, r2]);
    let db = ExportDatabase::collect_named_exports(&mut ds);
    assert_eq!(ds.len(), 1);
    assert_eq!(db.get(&name("here")).unwrap().id, DirectiveId::new(0));
    db.feed_exports(&mut ds);
    let tags: Vec<(ParamKind, String)> =
        ds[0].parameters().all().iter().map(|p| (p.kind(), p.value().clone())).collect();
    assert_eq!(tags, vec![(ParamKind::File, name("c.ws")), (ParamKind::At, name("marker"))]);
    assert_eq!(ds[0].code, "body");
}

#[test]
fn first_exporter_of_a_key_wins_and_unknown_use_stays() {
    let r1 = "@insert(\nat(one)\nexport(k)\n)";
    let r2 = "@insert(\nat(two)\nexport(k)\n)";
    let r3 = "@insert(\nnote(n)\nuse(k)\nuse(missing)\n)\nz";
    let mut ds = directives(&[r1, r2, r3]);
    let db = ExportDatabase::collect_named_exports(&mut ds);
    assert_eq!(ds.len(), 1);
    db.feed_exports(&mut ds);
    let tags: Vec<(ParamKind, String)> =
        ds[0].parameters().all().iter().map(|p| (p.kind(), p.value().clone())).collect();
    assert_eq!(
        tags,
        vec![
            (ParamKind::Note, name("n")),
            (ParamKind::At, name("one")),
            (ParamKind::Use, name("missing"))
        ]
    );
}

#[test]
fn export_expansion_is_idempotent() {
    let r1 = "@insert(\nfile(c.ws)\nat(marker)\nexport(here)\n)";
    let r2 = "@insert(\nbelow(x)\nuse(here)\nnote(after)\n)\nbody";
    let mut ds = directives(&[r1, r2]);
    let db = ExportDatabase::collect_named_exports(&mut ds);
    let mut once = ds[0].parameters().duplicate();
    once.feed_exports(&db);
    let mut twice = once.duplicate();
    twice.feed_exports(&db);
    let t1: Vec<(ParamKind, String)> = once.all().iter().map(|p| (p.kind(), p.value().clone())).collect();
    let t2: Vec<(ParamKind, String)> = twice.all().iter().map(|p| (p.kind(), p.value().clone())).collect();
    assert_eq!(t1.len(), 4);
    assert_eq!(t1, t2);
}

#[test]
fn ifndef_is_deferred_and_then_fails() {
    let r1 = "@insert(file(d.ws)\nat(M)\nifndef(skipme)\n)\nA";
    let r2 = "@insert(file(d.ws)\nat(M)\ndefine(skipme)\n)\nB";
    let (files, waves, _) = build(&[r1, r2], &[("d.ws", "M\n")], &[]);
    assert_eq!(waves, 1);
    assert_eq!(files[0].1, "B\nM\n");
}

#[test]
fn ifndef_runs_when_nothing_defines_the_name() {
    let r1 = "@insert(\nfile(d.ws)\nat(M)\nifndef(other)\n)\nA";
    let r2 = "@insert(\nfile(d.ws)\nat(M)\n)\nB";
    let (files, waves, _) = build(&[r1, r2], &[("d.ws", "M\n")], &[]);
    assert_eq!(waves, 2);
    assert_eq!(files[0].1, "B\nA\nM\n");
}

#[test]
fn multi_line_select_replaces_lines_in_a_build() {
    let recipe = "@insert(\nfile(e.ws)\nselect[[ one\n two\n three ]]\n)\nX";
    let (files, _, _) = build(&[recipe], &[("e.ws", "one\ntwo\nthree\n")], &[]);
    assert_eq!(files[0].1, "X\n");
}

#[test]
fn missing_file_is_tolerated() {
    let recipe = "@insert(\nfile(ghost.ws)\nat(x)\n)\nA";
    let (files, waves, misses) = build(&[recipe], &[], &[]);
    assert!(files.is_empty());
    assert_eq!(waves, 1);
    assert!(misses.is_empty());
}

#[test]
fn no_location_is_reported_with_the_directive() {
    let recipe = "@insert(\nfile(f.ws)\nat(nowhere)\nnote(look here)\n)\nA";
    let (files, waves, misses) = build(&[recipe], &[("f.ws", "abc\n")], &[]);
    assert_eq!(waves, 1);
    assert_eq!(files[0].1, "abc\n");
    assert_eq!(misses, vec![(0, name("f.ws"))]);
}

#[test]
fn installed_mods_are_seed_names() {
    let recipe = "@insert(\nfile(g.ws)\nat(q)\nifdef(installed.modFoo)\n)\nA";
    let (files, _, _) = build(&[recipe], &[("g.ws", "q\n")], &["modFoo"]);
    assert_eq!(files[0].1, "A\nq\n");
    let (files, waves, _) = build(&[recipe], &[("g.ws", "q\n")], &["modBar"]);
    assert_eq!(waves, 0);
    assert_eq!(files[0].1, "q\n");
}

#[test]
fn pool_holds_each_file_once() {
    let mut pool = FilePool::new(Vec::new());
    assert!(pool.insert_file(name("a.ws"), name("first")));
    assert!(!pool.insert_file(name("a.ws"), name("second")));
    assert!(pool.insert_file(name("b.ws"), name("other")));
    assert_eq!(pool.contents_of(&name("a.ws")).unwrap(), "first");
    assert!(pool.contents_of(&name("c.ws")).is_none());
    let files = pool.into_files();
    assert_eq!(files, vec![(name("a.ws"), name("first")), (name("b.ws"), name("other"))]);
}

#[test]
fn unguarded_directives_run_in_first_wave() {
    let ds = directives(&[
        "@insert(\nat(a)\n)\nA",
        "@insert(\nat(b)\nifdef(v)\n)\nB",
        "@insert(\nat(c)\n)\nC",
        "@insert(\nat(d)\nifndef(w)\n)\nD",
    ]);
    let names = NameSet::new();
    let orch = ExecutionOrchestrator::new(&ds, &names);
    assert_eq!(orch.to_run, vec![0, 2]);
    assert_eq!(orch.to_skip, vec![1, 3]);
    assert!(!orch.finished);
    assert_eq!(orch.iteration, 0);
}

#[test]
fn orchestrator_moves_to_the_next_wave() {
    let ds = directives(&["@insert(\nat(b)\nifdef(v)\n)\nB", "@insert(\nat(d)\nifndef(w)\n)\nD"]);
    let mut names = NameSet::new();
    let mut orch = ExecutionOrchestrator::new(&ds, &names);
    assert_eq!(orch.to_run, vec![1]);
    names.insert(&name("v"));
    orch.next(&ds, &names);
    assert_eq!(orch.to_run, vec![0]);
    assert_eq!(orch.iteration, 1);
    orch.next(&ds, &names);
    assert!(orch.finished);
    let later = ExecutionOrchestrator::next_iteration(7, &ds, &vec![0, 1], &names);
    assert_eq!(later.to_run, vec![0]);
    assert_eq!(later.to_skip, vec![1]);
}

#[test]
fn requirements_check_both_guards() {
    let ds = directives(&["@insert(\nifdef(a)\nifndef(b)\n)\nX"]);
    let mut names = NameSet::new();
    assert!(!fits_requirements(&ds[0], &names));
    names.insert(&name("a"));
    assert!(fits_requirements(&ds[0], &names));
    names.insert(&name("b"));
    assert!(!fits_requirements(&ds[0], &names));
}

#[test]
fn name_set_basics() {
    let mut names = NameSet::new();
    assert!(names.is_empty());
    assert!(names.insert(&name("x")));
    assert!(!names.insert(&name("x")));
    assert!(names.contains(&name("x")));
    assert!(!names.contains(&name("y")));
    names.clear();
    assert!(names.is_empty());
}

#[test]
fn file_defs_buffer_tracks_passes() {
    let ds = directives(&["@insert(\nifdef(a)\ndefine(b)\n)\nX", "@insert(\ndefine(a)\n)\nY"]);
    let mut buf = FileDefsBuf::new();
    assert!(!buf.can_execute_directive(&ds[0]));
    assert!(buf.can_execute_directive(&ds[1]));
    buf.mark_as_executed(&ds[1]);
    assert!(buf.next_pass(FileDefsMode::OnlyNew));
    assert!(buf.can_execute_directive(&ds[0]));
    assert!(!buf.can_execute_directive(&ds[1]));
    assert!(!buf.next_pass(FileDefsMode::All));
}

#[test]
fn context_is_prepended_to_directive() {
    let d = Directive::new(Parameters::from_vec(vec![Parameter::At(name("y"))]), name("c"));
    let d = d.with_context(Parameters::from_vec(vec![Parameter::File(name("f"))]));
    assert_eq!(d.file_suffixes(), vec![name("f")]);
    assert_eq!(d.parameters().len(), 2);
}

fn tags_of(d: &Directive) -> Vec<(ParamKind, String)> {
    d.parameters().all().iter().map(|p| (p.kind(), p.value().clone())).collect()
}

#[test]
fn ids_follow_positions() {
    let mut ds = vec![
        Directive::new(Parameters::empty(), name("a")),
        Directive::new(Parameters::empty(), name("b")),
        Directive::new(Parameters::empty(), name("c")),
    ];
    assign_ids(&mut ds);
    let ids: Vec<DirectiveId> = ds.iter().map(|d| d.id).collect();
    assert_eq!(ids, vec![DirectiveId::new(0), DirectiveId::new(1), DirectiveId::new(2)]);
    assert_eq!(ds[2].code, "c");
}

#[test]
fn nested_exports_expand_fully_in_one_run() {
    let ea = "@insert(\nuse(b)\nnote(from a)\nexport(a)\n)";
    let eb = "@insert(\nat(X)\nexport(b)\n)";
    let user = "@insert(\nuse(a)\n)\nbody";
    let mut ds = directives(&[ea, eb, user]);
    let db = ExportDatabase::collect_named_exports(&mut ds);
    db.feed_exports(&mut ds);
    let once = tags_of(&ds[0]);
    assert_eq!(once, vec![(ParamKind::At, name("X")), (ParamKind::Note, name("from a"))]);
    db.feed_exports(&mut ds);
    assert_eq!(tags_of(&ds[0]), once);
}

#[test]
fn export_cycle_is_cut() {
    let ea = "@insert(\nat(A)\nuse(b)\nexport(a)\n)";
    let eb = "@insert(\nat(B)\nuse(a)\nexport(b)\n)";
    let user = "@insert(\nuse(a)\n)\nbody";
    let mut ds = directives(&[ea, eb, user]);
    let db = ExportDatabase::collect_named_exports(&mut ds);
    db.feed_exports(&mut ds);
    let once = tags_of(&ds[0]);
    assert_eq!(once, vec![(ParamKind::At, name("A")), (ParamKind::At, name("B"))]);
    db.feed_exports(&mut ds);
    assert_eq!(tags_of(&ds[0]), once);
}
