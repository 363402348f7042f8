use cahirp::parser::context::{parse_directive_file, Context, DirectiveOrContext};
use cahirp::parser::directives::{Directive, DirectiveId};
use cahirp::parser::parameters::{ParamKind, Parameter, Parameters};

fn chars(s: &str) -> Vec<char> {
    s.chars().collect()
}

fn tags(ps: &Parameters) -> Vec<(ParamKind, String)> {
    ps.all().iter().map(|p| (p.kind(), p.value().clone())).collect()
}

#[test]
fn parses_one_insert_with_snippet() {
    let recipe = "@insert(\n  file(a.ws)\n  below(class A {)\n)\nputs(\"x\");\n";
    let (ds, errors) = parse_directive_file(recipe);
    assert_eq!(errors, 0);
    assert_eq!(ds.len(), 1);
    assert_eq!(
        tags(ds[0].parameters()),
        vec![
            (ParamKind::File, "a.ws".to_string()),
            (ParamKind::Below, "class A {".to_string())
        ]
    );
    assert_eq!(ds[0].code, "puts(\"x\");");
}

#[test]
fn context_parameters_come_first() {
    let recipe = "@context(\nfile(game/a.ws)\n)\n@insert(\nat(foo)\n)\nA\n@insert(\nat(bar)\n)\nB";
    let (ds, errors) = parse_directive_file(recipe);
    assert_eq!(errors, 0);
    assert_eq!(ds.len(), 2);
    assert_eq!(
        tags(ds[0].parameters()),
        vec![
            (ParamKind::File, "game/a.ws".to_string()),
            (ParamKind::At, "foo".to_string())
        ]
    );
    assert_eq!(
        tags(ds[1].parameters()),
        vec![
            (ParamKind::File, "game/a.ws".to_string()),
            (ParamKind::At, "bar".to_string())
        ]
    );
    assert_eq!(ds[1].code, "B");
}

#[test]
fn malformed_form_is_skipped_and_counted() {
    let recipe = "@insert(\nat(x)\nbogus(y)\n)\nA\n@replace(\nat(x)\n)\nB\n@insert(\nat(z)\n)\nC";
    let (ds, errors) = parse_directive_file(recipe);
    assert_eq!(errors, 2);
    assert_eq!(ds.len(), 1);
    assert_eq!(ds[0].code, "C");
}

#[test]
fn text_before_first_form_is_ignored() {
    let (ds, errors) = parse_directive_file("some notes\n@insert(\nat(q)\n)\nZ");
    assert_eq!(errors, 0);
    assert_eq!(ds.len(), 1);
    let (none, e2) = parse_directive_file("no forms at all");
    assert!(none.is_empty());
    assert_eq!(e2, 0);
}

#[test]
fn every_parameter_kind_parses() {
    let text = chars(
        "file(f)\nat(a)\nbelow(b)\nabove(c)\nselect(d)\nselect[[e\n f]]\nnote(\"g h\")\nifdef(i)\nifndef(j)\ndefine(k)\nexport(l)\nuse(m)\n",
    );
    let (ps, end) = Parameters::parse(&text, 0);
    assert_eq!(end, text.len());
    assert_eq!(
        tags(&ps),
        vec![
            (ParamKind::File, "f".to_string()),
            (ParamKind::At, "a".to_string()),
            (ParamKind::Below, "b".to_string()),
            (ParamKind::Above, "c".to_string()),
            (ParamKind::Select, "d".to_string()),
            (ParamKind::MultilineSelect, "e\n f".to_string()),
            (ParamKind::Note, "g h".to_string()),
            (ParamKind::IfDef, "i".to_string()),
            (ParamKind::IfNotDef, "j".to_string()),
            (ParamKind::Define, "k".to_string()),
            (ParamKind::Export, "l".to_string()),
            (ParamKind::Use, "m".to_string())
        ]
    );
}

#[test]
fn value_may_hold_a_parenthesis_not_at_line_end() {
    let text = chars("at(f(x) + g(y))\n");
    let (p, end) = Parameter::parse(&text, 0).unwrap();
    assert_eq!(p.kind(), ParamKind::At);
    assert_eq!(p.value(), "f(x) + g(y)");
    assert_eq!(end, text.len());
}

#[test]
fn parameter_without_line_feed_does_not_parse() {
    assert!(Parameter::parse(&chars("at(x)"), 0).is_none());
    assert!(Parameter::parse(&chars("at()\n"), 0).is_none());
    assert!(Parameter::parse(&chars("nothing(x)\n"), 0).is_none());
}

#[test]
fn parse_serialize_round_trip() {
    let ps = Parameters::from_vec(vec![
        Parameter::File("game/player.ws".to_string()),
        Parameter::At("class Player".to_string()),
        Parameter::MultilineSelect("a()\n b()".to_string()),
        Parameter::Note("see (here)".to_string()),
        Parameter::Define("done".to_string()),
    ]);
    let text = ps.to_recipe();
    assert_eq!(
        text,
        "file(game/player.ws)\nat(class Player)\nselect[[a()\n b()]]\nnote(see (here))\ndefine(done)\n"
    );
    let (back, end) = Parameters::parse(&chars(&text), 0);
    assert_eq!(end, text.chars().count());
    assert_eq!(tags(&back), tags(&ps));
}

#[test]
fn context_form_extends_context() {
    let mut ctx = Context::empty();
    let r = ctx.parse_with_context(&chars("@context(\nifdef(x)\n)\nignored"));
    assert!(matches!(r, Ok(None)));
    let r = ctx.parse_with_context(&chars("@insert(\nat(y)\n)\ncode"));
    let d = r.unwrap().unwrap();
    assert_eq!(
        tags(d.parameters()),
        vec![
            (ParamKind::IfDef, "x".to_string()),
            (ParamKind::At, "y".to_string())
        ]
    );
    assert!(ctx.parse_with_context(&chars("@bogus()")).is_err());
    assert_eq!(tags(&ctx.0), vec![(ParamKind::IfDef, "x".to_string())]);
}

#[test]
fn form_kinds_are_told_apart() {
    assert!(matches!(
        DirectiveOrContext::parse(&chars("@context(\nat(a)\n)")),
        Some(DirectiveOrContext::Context(_))
    ));
    assert!(matches!(
        DirectiveOrContext::parse(&chars("@insert(\nat(a)\n)\nx")),
        Some(DirectiveOrContext::Directive(_))
    ));
    assert!(DirectiveOrContext::parse(&chars("@insert(\nat(a)\n")).is_none());
    let d = Directive::parse(&chars("@insert()\n   body  \n")).unwrap();
    assert_eq!(d.code, "body");
    assert_eq!(d.id, DirectiveId::new(0));
    assert_eq!(d.id, DirectiveId::default());
}

#[test]
fn parameter_queries() {
    let ps = Parameters::from_vec(vec![
        Parameter::File("a".to_string()),
        Parameter::IfDef("x".to_string()),
        Parameter::Export("k1".to_string()),
        Parameter::File("b".to_string()),
        Parameter::Export("k2".to_string()),
        Parameter::Note("n".to_string()),
    ]);
    assert_eq!(ps.files(), vec!["a".to_string(), "b".to_string()]);
    assert_eq!(ps.ifdefs(), vec!["x".to_string()]);
    assert!(ps.ifndefs().is_empty());
    assert_eq!(ps.notes(), vec!["n".to_string()]);
    assert!(ps.ats().is_empty() && ps.belows().is_empty() && ps.aboves().is_empty());
    assert!(ps.defines().is_empty());
    assert_eq!(ps.exports_first().unwrap(), "k1");
    assert!(ps.has_export());
    assert!(!ps.has_ifndefs());
    assert!(ps.has_ifndef_or_ifdef());
    assert!(Parameters::empty().exports_first().is_none());
    let mut a = Parameters::empty();
    a.append(ps.duplicate());
    assert_eq!(a.len(), 6);
    assert_eq!(a.into_inner().len(), 6);
}
