//! The recipe grammar.
//!
//! A recipe is a run of forms, each starting at an `@`: `@context(...)`, whose
//! parameters precede those of every later directive of the recipe, or
//! `@insert(...)` followed by the snippet. Inside the parentheses each
//! parameter reads `name(value)` and ends with `)` and a line feed; a
//! multi-line selection reads `select[[lines]]` and ends with `]]` and a line
//! feed. Spaces, line feeds and carriage returns may stand between
//! parameters, and double quotes around a value are dropped.
use vstd::prelude::*;

use crate::parser::parameters::{ParamKind, ParamModel, Parameter, Parameters};
use crate::text::{
    chars_of, contains, find_from, find_pattern, lemma_find_from, matches_at, slice_of,
    string_of, trim,
};

verus! {

/// Whether `c` may stand between parameters.
pub open spec fn is_gap(c: char) -> bool {
    c == ' ' || c == '\n' || c == '\r'
}

/// The first position at or after `i` that does not hold a gap character.
pub open spec fn skip_gap(s: Seq<char>, i: int) -> int
    decreases s.len() - i,
{
    if 0 <= i < s.len() && is_gap(s[i]) {
        skip_gap(s, i + 1)
    } else {
        i
    }
}

/// Whether `w` occurs in `s` at position `i`.
pub open spec fn has_at(s: Seq<char>, i: int, w: Seq<char>) -> bool {
    0 <= i && i + w.len() <= s.len() && s.subrange(i, i + w.len()) == w
}

/// The name of a parameter in a recipe, with its opening parenthesis; a
/// multi-line selection opens with two brackets instead.
pub open spec fn opening(k: ParamKind) -> Seq<char> {
    match k {
        ParamKind::File => "file("@,
        ParamKind::At => "at("@,
        ParamKind::Below => "below("@,
        ParamKind::Above => "above("@,
        ParamKind::Select => "select("@,
        ParamKind::MultilineSelect => "select[["@,
        ParamKind::Note => "note("@,
        ParamKind::IfDef => "ifdef("@,
        ParamKind::IfNotDef => "ifndef("@,
        ParamKind::Define => "define("@,
        ParamKind::Export => "export("@,
        ParamKind::Use => "use("@,
    }
}

/// What closes a parameter of kind `k`.
pub open spec fn closing(k: ParamKind) -> Seq<char> {
    if k == ParamKind::MultilineSelect {
        "]]\n"@
    } else {
        ")\n"@
    }
}

/// `v` without the double quotes that start it.
pub open spec fn strip_leading_quotes(v: Seq<char>) -> Seq<char>
    decreases v.len(),
{
    if v.len() > 0 && v[0] == '"' {
        strip_leading_quotes(v.drop_first())
    } else {
        v
    }
}

/// `v` without the double quotes that end it.
pub open spec fn strip_trailing_quotes(v: Seq<char>) -> Seq<char>
    decreases v.len(),
{
    if v.len() > 0 && v.last() == '"' {
        strip_trailing_quotes(v.drop_last())
    } else {
        v
    }
}

/// The payload written `v`: without surrounding double quotes, except in a
/// multi-line selection, which keeps its text as written.
pub open spec fn payload(k: ParamKind, v: Seq<char>) -> Seq<char> {
    if k == ParamKind::MultilineSelect {
        v
    } else {
        strip_trailing_quotes(strip_leading_quotes(v))
    }
}

/// The parameter of kind `k` written at position `j` of `s`, and the
/// position after it and the gap that follows.
pub open spec fn param_of_kind(s: Seq<char>, j: int, k: ParamKind) -> Option<(ParamModel, int)> {
    let open = j + opening(k).len();
    if has_at(s, j, opening(k)) {
        let e = find_from(s, open, closing(k));
        if e > open {
            Some(((k, payload(k, s.subrange(open, e))), skip_gap(s, e + closing(k).len())))
        } else {
            None
        }
    } else {
        None
    }
}

/// The kinds of parameter, in the order the grammar tries them.
pub open spec fn kinds() -> Seq<ParamKind> {
    seq![
        ParamKind::File,
        ParamKind::At,
        ParamKind::Above,
        ParamKind::Below,
        ParamKind::Select,
        ParamKind::MultilineSelect,
        ParamKind::Note,
        ParamKind::IfDef,
        ParamKind::IfNotDef,
        ParamKind::Define,
        ParamKind::Export,
        ParamKind::Use,
    ]
}

/// The first kind from `kinds()[n..]` whose parameter is written at `j`.
pub open spec fn try_kinds(s: Seq<char>, j: int, n: int) -> Option<(ParamModel, int)>
    decreases kinds().len() - n,
{
    if n < 0 || n >= kinds().len() {
        None
    } else if param_of_kind(s, j, kinds()[n]) is Some {
        param_of_kind(s, j, kinds()[n])
    } else {
        try_kinds(s, j, n + 1)
    }
}

/// The parameter written at position `i` of `s`, after a gap, and the
/// position after it and the gap that follows.
pub open spec fn param_at(s: Seq<char>, i: int) -> Option<(ParamModel, int)> {
    try_kinds(s, skip_gap(s, i), 0)
}

/// The parameters written one after the other from position `i` of `s`, and
/// the position where they stop.
pub open spec fn params_from(s: Seq<char>, i: int) -> (Seq<ParamModel>, int)
    decreases s.len() - i via params_from_decreases
{
    match param_at(s, i) {
        Some((p, k)) => {
            let (ps, e) = params_from(s, k);
            (seq![p] + ps, e)
        },
        None => (Seq::empty(), i),
    }
}

proof fn lemma_skip_gap(s: Seq<char>, i: int)
    requires
        0 <= i,
    ensures
        i <= skip_gap(s, i),
        i <= s.len() ==> skip_gap(s, i) <= s.len(),
        forall|j: int| i <= j < skip_gap(s, i) ==> is_gap(s[j]),
        skip_gap(s, i) < s.len() ==> !is_gap(s[skip_gap(s, i)]),
    decreases s.len() - i,
{
    if 0 <= i < s.len() && is_gap(s[i]) {
        lemma_skip_gap(s, i + 1);
    }
}

proof fn lemma_param_of_kind(s: Seq<char>, j: int, k: ParamKind)
    ensures
        param_of_kind(s, j, k) matches Some((_, e)) ==> j < e <= s.len(),
{
    let open = j + opening(k).len();
    if has_at(s, j, opening(k)) {
        lemma_find_from(s, open, closing(k));
        let e = find_from(s, open, closing(k));
        if e > open {
            lemma_skip_gap(s, e + closing(k).len());
        }
    }
}

proof fn lemma_try_kinds(s: Seq<char>, j: int, n: int)
    ensures
        try_kinds(s, j, n) matches Some((_, e)) ==> j < e <= s.len(),
    decreases kinds().len() - n,
{
    if 0 <= n < kinds().len() {
        lemma_param_of_kind(s, j, kinds()[n]);
        lemma_try_kinds(s, j, n + 1);
    }
}

/// A parameter read from position `i` ends after `i`, inside the text.
pub proof fn lemma_param_at(s: Seq<char>, i: int)
    ensures
        param_at(s, i) matches Some((_, e)) ==> i < e <= s.len(),
{
    if i >= 0 {
        lemma_skip_gap(s, i);
    }
    lemma_try_kinds(s, skip_gap(s, i), 0);
}

#[via_fn]
proof fn params_from_decreases(s: Seq<char>, i: int) {
    lemma_param_at(s, i);
}

/// The parameter list written inside the parentheses that open at `i - 1`,
/// and the position after it and the gap that follows.
pub open spec fn params_block(s: Seq<char>, i: int) -> (Seq<ParamModel>, int) {
    let (ps, e) = params_from(s, skip_gap(s, i));
    (ps, skip_gap(s, e))
}

/// What a form holds: the parameters of a context, or the parameters and the
/// snippet of a directive.
pub enum FormModel {
    Context(Seq<ParamModel>),
    Insert(Seq<ParamModel>, Seq<char>),
}

/// The parameters of the context form `f`, when it is one.
pub open spec fn context_form(f: Seq<char>) -> Option<Seq<ParamModel>> {
    let c = params_block(f, "@context("@.len() as int);
    if has_at(f, 0, "@context("@) && c.1 < f.len() && f[c.1] == ')' {
        Some(c.0)
    } else {
        None
    }
}

/// The parameters and the trimmed snippet of the directive form `f`, when
/// it is one.
pub open spec fn insert_form(f: Seq<char>) -> Option<(Seq<ParamModel>, Seq<char>)> {
    let d = params_block(f, "@insert("@.len() as int);
    if has_at(f, 0, "@insert("@) && d.1 < f.len() && f[d.1] == ')' {
        Some((d.0, trim(f.subrange(d.1 + 1, f.len() as int))))
    } else {
        None
    }
}

/// The form `f`, or `None` when it does not parse.
pub open spec fn parse_form(f: Seq<char>) -> Option<FormModel> {
    match context_form(f) {
        Some(ps) => Some(FormModel::Context(ps)),
        None => match insert_form(f) {
            Some((ps, code)) => Some(FormModel::Insert(ps, code)),
            None => None,
        },
    }
}

/// Where the form that starts at `i` ends: at the next `@`, or at the end.
pub open spec fn form_end(s: Seq<char>, i: int) -> int {
    let n = find_from(s, i + 1, "@"@);
    if n < 0 {
        s.len() as int
    } else {
        n
    }
}

/// The forms of `s` from the `@` at `i` on.
pub open spec fn forms_from(s: Seq<char>, i: int) -> Seq<Seq<char>>
    decreases s.len() - i via forms_from_decreases
{
    if i < 0 || i >= s.len() {
        Seq::empty()
    } else {
        seq![s.subrange(i, form_end(s, i))] + forms_from(s, form_end(s, i))
    }
}

#[via_fn]
proof fn forms_from_decreases(s: Seq<char>, i: int) {
    if 0 <= i < s.len() {
        lemma_find_from(s, i + 1, "@"@);
    }
}

/// The forms of the recipe `s`: each runs from an `@` up to the next `@` or
/// the end; what stands before the first `@` belongs to none.
pub open spec fn recipe_forms(s: Seq<char>) -> Seq<Seq<char>> {
    let i = find_from(s, 0, "@"@);
    if i < 0 {
        Seq::empty()
    } else {
        forms_from(s, i)
    }
}

/// The directives that the forms `fs` yield, as parameter lists and
/// snippets, the context in force after them, and how many forms did not
/// parse.
pub open spec fn read_forms(fs: Seq<Seq<char>>) -> (Seq<(Seq<ParamModel>, Seq<char>)>, Seq<ParamModel>, nat)
    decreases fs.len(),
{
    if fs.len() == 0 {
        (Seq::empty(), Seq::empty(), 0)
    } else {
        let (ds, ctx, errs) = read_forms(fs.drop_last());
        match parse_form(fs.last()) {
            None => (ds, ctx, errs + 1),
            Some(FormModel::Context(ps)) => (ds, ctx + ps, errs),
            Some(FormModel::Insert(ps, code)) => (ds.push((ctx + ps, code)), ctx, errs),
        }
    }
}

/// The first position at or after `i` that does not hold a gap character.
pub fn skip_gaps(s: &Vec<char>, i: usize) -> (r: usize)
    requires
        i <= s@.len(),
    ensures
        r == skip_gap(s@, i as int),
        i <= r <= s@.len(),
{
    let mut j = i;
    while j < s.len() && (s[j] == ' ' || s[j] == '\n' || s[j] == '\r')
        invariant
            i <= j <= s@.len(),
            skip_gap(s@, j as int) == skip_gap(s@, i as int),
        decreases s@.len() - j,
    {
        j = j + 1;
    }
    j
}

/// The opening of a parameter of kind `k`.
fn opening_text(k: ParamKind) -> (r: &'static str)
    ensures
        r@ == opening(k),
{
    match k {
        ParamKind::File => "file(",
        ParamKind::At => "at(",
        ParamKind::Below => "below(",
        ParamKind::Above => "above(",
        ParamKind::Select => "select(",
        ParamKind::MultilineSelect => "select[[",
        ParamKind::Note => "note(",
        ParamKind::IfDef => "ifdef(",
        ParamKind::IfNotDef => "ifndef(",
        ParamKind::Define => "define(",
        ParamKind::Export => "export(",
        ParamKind::Use => "use(",
    }
}

/// What closes a parameter of kind `k`.
fn closing_text(k: ParamKind) -> (r: &'static str)
    ensures
        r@ == closing(k),
{
    if k == ParamKind::MultilineSelect {
        "]]\n"
    } else {
        ")\n"
    }
}

/// The kind tried at step `n` of the grammar.
fn kind_number(n: usize) -> (r: ParamKind)
    requires
        n < kinds().len(),
    ensures
        r == kinds()[n as int],
{
    if n == 0 {
        ParamKind::File
    } else if n == 1 {
        ParamKind::At
    } else if n == 2 {
        ParamKind::Above
    } else if n == 3 {
        ParamKind::Below
    } else if n == 4 {
        ParamKind::Select
    } else if n == 5 {
        ParamKind::MultilineSelect
    } else if n == 6 {
        ParamKind::Note
    } else if n == 7 {
        ParamKind::IfDef
    } else if n == 8 {
        ParamKind::IfNotDef
    } else if n == 9 {
        ParamKind::Define
    } else if n == 10 {
        ParamKind::Export
    } else {
        ParamKind::Use
    }
}

/// The payload written as the characters of `s` from `a` up to `b`.
fn payload_of(k: ParamKind, s: &Vec<char>, a: usize, b: usize) -> (r: Vec<char>)
    requires
        a <= b <= s@.len(),
    ensures
        r@ == payload(k, s@.subrange(a as int, b as int)),
{
    if k == ParamKind::MultilineSelect {
        return slice_of(s, a, b);
    }
    let ghost v = s@.subrange(a as int, b as int);
    let mut x = a;
    while x < b && s[x] == '"'
        invariant
            a <= x <= b,
            b <= s@.len(),
            v == s@.subrange(a as int, b as int),
            strip_leading_quotes(v) == strip_leading_quotes(s@.subrange(x as int, b as int)),
        decreases b - x,
    {
        assert(s@.subrange(x as int, b as int).drop_first() =~= s@.subrange(x + 1, b as int));
        x = x + 1;
    }
    assert(strip_leading_quotes(v) == s@.subrange(x as int, b as int));
    let mut y = b;
    while y > x && s[y - 1] == '"'
        invariant
            a <= x <= y <= b,
            b <= s@.len(),
            strip_leading_quotes(v) == s@.subrange(x as int, b as int),
            strip_trailing_quotes(strip_leading_quotes(v)) == strip_trailing_quotes(
                s@.subrange(x as int, y as int),
            ),
        decreases y,
    {
        assert(s@.subrange(x as int, y as int).drop_last() =~= s@.subrange(x as int, y - 1));
        y = y - 1;
    }
    slice_of(s, x, y)
}

impl Parameter {
    /// The parameter of kind `k` written at position `j` of `s`, and the
    /// position after it and the gap that follows.
    pub fn parse_kind(s: &Vec<char>, j: usize, k: ParamKind) -> (r: Option<(Parameter, usize)>)
        requires
            j <= s@.len(),
        ensures
            match r {
                Some((p, e)) => param_of_kind(s@, j as int, k) == Some((p@, e as int)),
                None => param_of_kind(s@, j as int, k) is None,
            },
    {
        let open = chars_of(opening_text(k));
        if !matches_at(s, j, &open) {
            return None;
        }
        let size = s.len();
        let o = j + open.len();
        let close = chars_of(closing_text(k));
        proof {
            lemma_find_from(s@, o as int, close@);
        }
        match find_pattern(s, o, &close) {
            Some(e) => {
                if e > o {
                    let value = payload_of(k, s, o, e);
                    let next = skip_gaps(s, e + close.len());
                    let p = Parameter::from_parts(k, string_of(&value));
                    Some((p, next))
                } else {
                    None
                }
            },
            None => None,
        }
    }

    /// The parameter written at position `i` of `s`, after a gap, and the
    /// position after it and the gap that follows.
    pub fn parse(s: &Vec<char>, i: usize) -> (r: Option<(Parameter, usize)>)
        requires
            i <= s@.len(),
        ensures
            match r {
                Some((p, e)) => param_at(s@, i as int) == Some((p@, e as int)),
                None => param_at(s@, i as int) is None,
            },
    {
        let j = skip_gaps(s, i);
        let mut n: usize = 0;
        while n < 12
            invariant
                n <= kinds().len(),
                j <= s@.len(),
                j == skip_gap(s@, i as int),
                try_kinds(s@, j as int, n as int) == try_kinds(s@, j as int, 0),
            decreases 12 - n,
        {
            let found = Parameter::parse_kind(s, j, kind_number(n));
            if found.is_some() {
                return found;
            }
            n = n + 1;
        }
        None
    }
}

impl Parameters {
    /// The parameter list written from position `i` of `s`, up to what is
    /// not a parameter, and the position after it and the gap that follows.
    pub fn parse(s: &Vec<char>, i: usize) -> (r: (Parameters, usize))
        requires
            i <= s@.len(),
        ensures
            (r.0@, r.1 as int) == params_block(s@, i as int),
            r.1 <= s@.len(),
    {
        let start = skip_gaps(s, i);
        let mut out = Parameters::empty();
        let mut at = start;
        loop
            invariant
                start <= at <= s@.len(),
                params_from(s@, start as int) == (out@ + params_from(s@, at as int).0, params_from(s@, at as int).1),
            ensures
                params_from(s@, start as int) == (out@, at as int),
                at <= s@.len(),
            decreases s@.len() - at,
        {
            proof {
                lemma_param_at(s@, at as int);
            }
            match Parameter::parse(s, at) {
                Some((p, next)) => {
                    let ghost before = out@;
                    let ghost pm = p@;
                    out.push(p);
                    assert(before + (seq![pm] + params_from(s@, next as int).0) =~= out@ + params_from(s@, next as int).0);
                    at = next;
                },
                None => {
                    assert(out@ + Seq::<ParamModel>::empty() =~= out@);
                    break;
                },
            }
        }
        let end = skip_gaps(s, at);
        (out, end)
    }
}

/// Reads the form `f` that opens with `head` and a parameter list: the
/// parameters, and the position of the closing parenthesis.
pub fn parse_form_head(f: &Vec<char>, head: &str) -> (r: Option<(Parameters, usize)>)
    ensures
        match r {
            Some((ps, e)) => has_at(f@, 0, head@) && params_block(f@, head@.len() as int) == (
                ps@,
                e as int,
            ) && e < f@.len() && f@[e as int] == ')',
            None => !(has_at(f@, 0, head@) && params_block(f@, head@.len() as int).1 < f@.len()
                && f@[params_block(f@, head@.len() as int).1] == ')'),
        },
{
    let h = chars_of(head);
    if !matches_at(f, 0, &h) {
        return None;
    }
    let (ps, e) = Parameters::parse(f, h.len());
    if e < f.len() && f[e] == ')' {
        Some((ps, e))
    } else {
        None
    }
}

/// The parameter `p` as a recipe writes it.
pub open spec fn write_param(p: ParamModel) -> Seq<char> {
    opening(p.0) + p.1 + closing(p.0)
}

/// The parameters `ps` as a recipe writes them, one after the other.
pub open spec fn write_params(ps: Seq<ParamModel>) -> Seq<char>
    decreases ps.len(),
{
    if ps.len() == 0 {
        Seq::empty()
    } else {
        write_params(ps.drop_last()) + write_param(ps.last())
    }
}

/// Whether the grammar reads back the parameter `p` as written: its payload
/// is not empty, holds no closing of its kind and, outside a multi-line
/// selection, neither starts nor ends with a double quote.
pub open spec fn writable(p: ParamModel) -> bool {
    &&& p.1.len() > 0
    &&& !contains(p.1, closing(p.0))
    &&& p.0 != ParamKind::MultilineSelect ==> p.1[0] != '"' && p.1.last() != '"'
}

proof fn lemma_write_params_concat(a: Seq<ParamModel>, b: Seq<ParamModel>)
    ensures
        write_params(a + b) == write_params(a) + write_params(b),
    decreases b.len(),
{
    if b.len() == 0 {
        assert(a + b =~= a);
        assert(write_params(a) + write_params(b) =~= write_params(a));
    } else {
        assert((a + b).drop_last() =~= a + b.drop_last());
        lemma_write_params_concat(a, b.drop_last());
        assert(write_params(a + b) =~= write_params(a) + write_params(b));
    }
}

proof fn lemma_find_exact(s: Seq<char>, from: int, pat: Seq<char>, m: int)
    requires
        0 <= from <= m,
        m + pat.len() <= s.len(),
        s.subrange(m, m + pat.len()) == pat,
        forall|t: int| from <= t < m ==> #[trigger] s.subrange(t, t + pat.len()) != pat,
    ensures
        find_from(s, from, pat) == m,
    decreases m - from,
{
    if from < m {
        assert(s.subrange(from, from + pat.len()) != pat);
        lemma_find_exact(s, from + 1, pat, m);
    }
}

/// The position of the kind `k` in `kinds()`.
pub open spec fn kind_index(k: ParamKind) -> int {
    match k {
        ParamKind::File => 0,
        ParamKind::At => 1,
        ParamKind::Above => 2,
        ParamKind::Below => 3,
        ParamKind::Select => 4,
        ParamKind::MultilineSelect => 5,
        ParamKind::Note => 6,
        ParamKind::IfDef => 7,
        ParamKind::IfNotDef => 8,
        ParamKind::Define => 9,
        ParamKind::Export => 10,
        ParamKind::Use => 11,
    }
}

proof fn lemma_openings()
    ensures
        forall|k: ParamKind|
            #![trigger opening(k)]
            opening(k).len() >= 3 && !is_gap(opening(k)[0]) && kinds()[kind_index(k)] == k,
        forall|k: ParamKind|
            #![trigger closing(k)]
            closing(k).len() >= 2 && closing(k).last() == '\n' && forall|j: int|
                0 <= j < closing(k).len() - 1 ==> closing(k)[j] != '\n',
        forall|k1: ParamKind, k2: ParamKind|
            #![trigger opening(k1), opening(k2)]
            k1 != k2 ==> (opening(k1)[0] != opening(k2)[0] || opening(k1)[1] != opening(k2)[1]
                || opening(k1)[2] != opening(k2)[2] || (opening(k1).len() > 6 && opening(k2).len() > 6
                && opening(k1)[6] != opening(k2)[6])),
{
    reveal_strlit("file(");
    reveal_strlit("at(");
    reveal_strlit("below(");
    reveal_strlit("above(");
    reveal_strlit("select(");
    reveal_strlit("select[[");
    reveal_strlit("note(");
    reveal_strlit("ifdef(");
    reveal_strlit("ifndef(");
    reveal_strlit("define(");
    reveal_strlit("export(");
    reveal_strlit("use(");
    reveal_strlit("]]\n");
    reveal_strlit(")\n");
}

proof fn lemma_skip_nothing(s: Seq<char>, i: int)
    requires
        0 <= i,
        i >= s.len() || !is_gap(s[i]),
    ensures
        skip_gap(s, i) == i,
{
}

proof fn lemma_try_kinds_hit(s: Seq<char>, j: int, n: int, k: ParamKind)
    requires
        0 <= n <= kind_index(k),
        kinds()[kind_index(k)] == k,
        param_of_kind(s, j, k) is Some,
        forall|m: int| 0 <= m < 12 && kinds()[m] != k ==> param_of_kind(s, j, #[trigger] kinds()[m]) is None,
    ensures
        try_kinds(s, j, n) == param_of_kind(s, j, k),
    decreases kind_index(k) - n,
{
    if n < kind_index(k) {
        assert(kinds()[n] != k);
        lemma_try_kinds_hit(s, j, n + 1, k);
    }
}

proof fn lemma_param_written(pre: Seq<char>, p: ParamModel, post: Seq<char>)
    requires
        writable(p),
        post.len() == 0 || !is_gap(post[0]),
    ensures
        param_at(pre + write_param(p) + post, pre.len() as int) == Some(
            (p, (pre.len() + write_param(p).len()) as int),
        ),
{
    lemma_openings();
    let s = pre + write_param(p) + post;
    let o = opening(p.0);
    let c = closing(p.0);
    let v = p.1;
    let j = pre.len() as int;
    let open = j + o.len();
    let e = open + v.len();
    let end = e + c.len();
    assert(s[j] == o[0]);
    lemma_skip_nothing(s, j);
    assert(s.subrange(j, open) =~= o);
    assert(s.subrange(open, e) =~= v);
    assert(s.subrange(e, end) =~= c);
    lemma_find_from(v, 0, c);
    assert forall|t: int| open <= t < e implies #[trigger] s.subrange(t, t + c.len()) != c by {
        if t + c.len() <= e {
            assert(s.subrange(t, t + c.len()) =~= v.subrange(t - open, t - open + c.len()));
        } else {
            let last = c.len() - 1;
            assert(s.subrange(t, t + c.len())[last] == c[t + last - e]);
            assert(c[t + last - e] != '\n');
        }
    }
    lemma_find_exact(s, open, c, e);
    if end < s.len() {
        assert(s[end] == post[0]);
    }
    lemma_skip_nothing(s, end);
    if p.0 != ParamKind::MultilineSelect {
        assert(strip_leading_quotes(v) == v);
        assert(strip_trailing_quotes(v) == v);
    }
    assert(param_of_kind(s, j, p.0) == Some((p, end)));
    assert forall|m: int| 0 <= m < 12 && kinds()[m] != p.0 implies param_of_kind(s, j, #[trigger] kinds()[m]) is None by {
        let k2 = kinds()[m];
        let o2 = opening(k2);
        if has_at(s, j, o2) {
            assert(s.subrange(j, j + o2.len()) == o2);
            if o2.len() > 6 && o.len() > 6 {
                assert(s[j + 6] == o2[6] && s[j + 6] == o[6]);
            }
            assert(s[j] == o2[0] && s[j] == o[0]);
            assert(s[j + 1] == o2[1] && s[j + 1] == o[1]);
            assert(s[j + 2] == o2[2] && s[j + 2] == o[2]);
        }
    }
    lemma_try_kinds_hit(s, j, 0, p.0);
}

/// A written parameter list starts with the opening of its first parameter.
proof fn lemma_written_start(ps: Seq<ParamModel>)
    requires
        ps.len() > 0,
    ensures
        write_params(ps).len() > 0,
        write_params(ps)[0] == opening(ps[0].0)[0],
{
    lemma_openings();
    lemma_write_params_concat(seq![ps[0]], ps.drop_first());
    assert(seq![ps[0]] + ps.drop_first() =~= ps);
    let one = seq![ps[0]];
    assert(one.drop_last() =~= Seq::<ParamModel>::empty());
    assert(one.last() == ps[0]);
    assert(write_params(one) == write_params(one.drop_last()) + write_param(ps[0]));
    assert(write_params(one) =~= write_param(ps[0]));
}

proof fn lemma_params_from_written(ps: Seq<ParamModel>, k: int)
    requires
        0 <= k <= ps.len(),
        forall|i: int| 0 <= i < ps.len() ==> writable(#[trigger] ps[i]),
    ensures
        params_from(write_params(ps), write_params(ps.subrange(0, k)).len() as int) == (
            ps.subrange(k, ps.len() as int),
            write_params(ps).len() as int,
        ),
    decreases ps.len() - k,
{
    let s = write_params(ps);
    let at = write_params(ps.subrange(0, k)).len() as int;
    lemma_openings();
    if k == ps.len() {
        assert(ps.subrange(0, k) =~= ps);
        assert(try_kinds(s, at, 0) is None) by {
            lemma_skip_nothing(s, at);
            assert forall|n: int| 0 <= n < 12 implies param_of_kind(s, at, #[trigger] kinds()[n]) is None by {
                assert(opening(kinds()[n]).len() >= 3);
            }
            lemma_try_kinds_none(s, at, 0);
        }
        assert(ps.subrange(k, ps.len() as int) =~= Seq::<ParamModel>::empty());
    } else {
        let pre = ps.subrange(0, k);
        let rest = ps.subrange(k + 1, ps.len() as int);
        lemma_write_params_concat(pre.push(ps[k]), rest);
        assert(pre.push(ps[k]) + rest =~= ps);
        assert(pre.push(ps[k]).drop_last() =~= pre);
        let post = write_params(rest);
        if rest.len() > 0 {
            lemma_written_start(rest);
        }
        assert(s == write_params(pre) + write_param(ps[k]) + post);
        lemma_param_written(write_params(pre), ps[k], post);
        assert(ps.subrange(0, k + 1) =~= pre.push(ps[k]));
        lemma_params_from_written(ps, k + 1);
        assert(ps.subrange(k, ps.len() as int) =~= seq![ps[k]] + ps.subrange(k + 1, ps.len() as int));
    }
}

proof fn lemma_try_kinds_none(s: Seq<char>, j: int, n: int)
    requires
        0 <= n,
        forall|m: int| 0 <= m < 12 ==> param_of_kind(s, j, #[trigger] kinds()[m]) is None,
    ensures
        try_kinds(s, j, n) is None,
    decreases 12 - n,
{
    if n < 12 {
        assert(param_of_kind(s, j, kinds()[n]) is None);
        lemma_try_kinds_none(s, j, n + 1);
    }
}

/// A parameter list written out, each payload as the grammar reads it back,
/// parses back into the same list, and the parse takes the whole text.
pub proof fn lemma_parse_written(ps: Seq<ParamModel>)
    requires
        forall|i: int| 0 <= i < ps.len() ==> writable(#[trigger] ps[i]),
    ensures
        params_block(write_params(ps), 0) == (ps, write_params(ps).len() as int),
{
    let s = write_params(ps);
    lemma_openings();
    if ps.len() > 0 {
        lemma_written_start(ps);
    }
    lemma_skip_nothing(s, 0);
    assert(ps.subrange(0, 0) =~= Seq::<ParamModel>::empty());
    lemma_params_from_written(ps, 0);
    assert(ps.subrange(0, ps.len() as int) =~= ps);
    lemma_skip_nothing(s, s.len() as int);
}

impl Parameters {
    /// The parameters as a recipe writes them: `name(value)` and a line feed
    /// each, or `select[[lines]]` and a line feed for a multi-line selection.
    pub fn to_recipe(&self) -> (r: String)
        ensures
            r@ == write_params(self@),
    {
        let all = self.all();
        let mut out: Vec<char> = Vec::new();
        let mut i: usize = 0;
        while i < all.len()
            invariant
                i <= all@.len(),
                all@.map_values(|p: Parameter| p@) == self@,
                out@ == write_params(self@.subrange(0, i as int)),
            decreases all@.len() - i,
        {
            let p = &all[i];
            let o = chars_of(opening_text(p.kind()));
            let v = chars_of(p.value().as_str());
            let c = chars_of(closing_text(p.kind()));
            let ghost before = out@;
            crate::text::extend_from(&mut out, &o, 0, o.len());
            crate::text::extend_from(&mut out, &v, 0, v.len());
            crate::text::extend_from(&mut out, &c, 0, c.len());
            assert(o@.subrange(0, o@.len() as int) =~= o@);
            assert(v@.subrange(0, v@.len() as int) =~= v@);
            assert(c@.subrange(0, c@.len() as int) =~= c@);
            assert(self@.subrange(0, i + 1).drop_last() =~= self@.subrange(0, i as int));
            assert(self@[i as int] == p@);
            assert(out@ =~= before + write_param(p@));
            i = i + 1;
        }
        assert(self@.subrange(0, all@.len() as int) =~= self@);
        string_of(&out)
    }
}

} // verus!
