//! The emitter: it splices a snippet into a text at the cursor, with the
//! indentation of the surrounding code.
use vstd::prelude::*;

use crate::codegen::cursor::{
    lemma_line_locators_at_line_start, start_position, walk, CodeCursor, CursorPosition,
};
use crate::parser::parameters::{has_kind, ParamKind, ParamModel, Parameters};
use crate::text::{
    chars_of, extend_from, is_whitespace, is_ws, lines_of, slice_of, split_lines, string_of,
    texts_view, trim, trim_blank_tail, trim_blanks_end, trimmed,
};

verus! {

/// The position of the last line feed before `end` in `s`, or -1.
pub open spec fn last_newline(s: Seq<char>, end: int) -> int
    decreases end,
{
    if end <= 0 {
        -1
    } else if s[end - 1] == '\n' {
        end - 1
    } else {
        last_newline(s, end - 1)
    }
}

proof fn lemma_last_newline(s: Seq<char>, end: int)
    ensures
        -1 <= last_newline(s, end) < end || (end <= 0 && last_newline(s, end) == -1),
    decreases end,
{
    if end > 0 && s[end - 1] != '\n' {
        lemma_last_newline(s, end - 1);
    }
}

/// The white space that starts `s`.
pub open spec fn leading_ws(s: Seq<char>) -> Seq<char>
    decreases s.len(),
{
    if s.len() > 0 && is_ws(s[0]) {
        seq![s[0]] + leading_ws(s.drop_first())
    } else {
        Seq::empty()
    }
}

/// The indentation of the last complete line of `left`: the white space
/// that starts it. Empty when `left` holds no line feed. For an insertion at
/// a line start this is the line before the insertion, not the line after
/// it: a snippet placed below `class A {` takes that line's indentation.
pub open spec fn indentation(left: Seq<char>) -> Seq<char> {
    let p = last_newline(left, left.len() as int);
    if p < 0 {
        Seq::empty()
    } else {
        leading_ws(left.subrange(last_newline(left, p) + 1, p))
    }
}

/// Each line of `lines`, trimmed, after `indent` and followed by a line
/// feed.
pub open spec fn indent_lines(lines: Seq<Seq<char>>, indent: Seq<char>) -> Seq<char>
    decreases lines.len(),
{
    if lines.len() == 0 {
        Seq::empty()
    } else {
        indent_lines(lines.drop_last(), indent) + indent + trim(lines.last()) + seq!['\n']
    }
}

/// The snippet `code` re-indented like the last complete line of
/// `surrounding`.
pub open spec fn reindent(code: Seq<char>, surrounding: Seq<char>) -> Seq<char> {
    indent_lines(lines_of(code), indentation(surrounding))
}

/// The text `t` with the snippet `code` spliced at the cursor `c`, or `None`
/// when the cursor found no location inside `t`.
pub open spec fn emit_text(t: Seq<char>, code: Seq<char>, c: CursorPosition) -> Option<
    Seq<char>,
> {
    if !c.found || c.idx > t.len() || c.idx + c.selection_len > t.len() {
        None
    } else {
        let left = t.subrange(0, c.idx as int);
        Some(
            trim_blank_tail(left) + reindent(code, left) + t.subrange(
                c.idx + c.selection_len,
                t.len() as int,
            ),
        )
    }
}

/// The text `t` with the snippet `code` spliced where the parameters `ps`
/// lead the cursor, or `None` when they lead nowhere.
pub open spec fn emit_model(t: Seq<char>, ps: Seq<ParamModel>, code: Seq<char>) -> Option<
    Seq<char>,
> {
    emit_text(t, code, walk(t, start_position(), ps))
}

/// Splicing an empty snippet with nothing selected leaves the text as it
/// was, but for the spaces and tabs that end the text before the cursor;
/// where none do, the text is unchanged.
pub proof fn lemma_empty_snippet_identity(t: Seq<char>, c: CursorPosition)
    requires
        c.found,
        c.idx <= t.len(),
        c.selection_len == 0,
    ensures
        emit_text(t, Seq::empty(), c) == Some(
            trim_blank_tail(t.subrange(0, c.idx as int)) + t.subrange(c.idx as int, t.len() as int),
        ),
        c.idx == 0 || (t[c.idx - 1] != ' ' && t[c.idx - 1] != '\t') ==> emit_text(
            t,
            Seq::empty(),
            c,
        ) == Some(t),
{
    let left = t.subrange(0, c.idx as int);
    assert(lines_of(Seq::<char>::empty()) =~= Seq::<Seq<char>>::empty());
    assert(reindent(Seq::empty(), left) =~= Seq::<char>::empty());
    assert(trim_blank_tail(left) + Seq::<char>::empty() =~= trim_blank_tail(left));
    if c.idx == 0 || (t[c.idx - 1] != ' ' && t[c.idx - 1] != '\t') {
        assert(trim_blank_tail(left) == left);
        assert(left + t.subrange(c.idx as int, t.len() as int) =~= t);
    }
}

/// An empty snippet spliced where line locators lead leaves the file as it
/// is: with no `select` among the parameters, the result is the file itself
/// when a location is found, and `None` otherwise.
pub proof fn lemma_empty_snippet_keeps_file(t: Seq<char>, ps: Seq<ParamModel>)
    requires
        t.len() <= usize::MAX,
        !has_kind(ps, ParamKind::Select),
        !has_kind(ps, ParamKind::MultilineSelect),
    ensures
        walk(t, start_position(), ps).found ==> emit_model(t, ps, Seq::empty()) == Some(t),
        !walk(t, start_position(), ps).found ==> emit_model(t, ps, Seq::empty()) is None,
{
    lemma_line_locators_at_line_start(t, ps);
    let c = walk(t, start_position(), ps);
    if c.found {
        lemma_empty_snippet_identity(t, c);
    }
}

/// The white space that starts `s`.
fn leading_whitespace(s: &Vec<char>) -> (r: Vec<char>)
    ensures
        r@ == leading_ws(s@),
{
    let mut k: usize = 0;
    assert(s@.subrange(0, 0) + s@.subrange(0, s@.len() as int) =~= s@);
    while k < s.len() && is_whitespace(s[k])
        invariant
            k <= s@.len(),
            leading_ws(s@) == s@.subrange(0, k as int) + leading_ws(
                s@.subrange(k as int, s@.len() as int),
            ),
        decreases s@.len() - k,
    {
        let ghost rest = s@.subrange(k as int, s@.len() as int);
        assert(rest.drop_first() =~= s@.subrange(k + 1, s@.len() as int));
        assert(s@.subrange(0, k + 1) =~= s@.subrange(0, k as int) + seq![rest[0]]);
        k = k + 1;
    }
    assert(leading_ws(s@.subrange(k as int, s@.len() as int)) =~= Seq::<char>::empty());
    assert(s@.subrange(0, k as int) + Seq::<char>::empty() =~= s@.subrange(0, k as int));
    slice_of(s, 0, k)
}

/// The position just after the last line feed before `end` in `s`, or 0.
fn line_start_before(s: &Vec<char>, end: usize) -> (r: usize)
    requires
        end <= s@.len(),
    ensures
        r == last_newline(s@, end as int) + 1,
        r <= end,
{
    proof {
        lemma_last_newline(s@, end as int);
    }
    let mut p = end;
    while p > 0 && s[p - 1] != '\n'
        invariant
            p <= end,
            end <= s@.len(),
            last_newline(s@, p as int) == last_newline(s@, end as int),
        decreases p,
    {
        p = p - 1;
    }
    p
}

/// The indentation of the last complete line of `left`.
fn indentation_of(left: &Vec<char>) -> (r: Vec<char>)
    ensures
        r@ == indentation(left@),
{
    let p = line_start_before(left, left.len());
    if p == 0 {
        return Vec::new();
    }
    let nl = p - 1;
    let b = line_start_before(left, nl);
    let line = slice_of(left, b, nl);
    leading_whitespace(&line)
}

/// Generates the snippet `code` with each line trimmed and indented like the
/// last complete line of `surrounding`, each followed by a line feed. At a
/// line start that is the line before the insertion point.
pub fn match_line_indentation(code: &Vec<char>, surrounding: &Vec<char>) -> (r: Vec<char>)
    ensures
        r@ == reindent(code@, surrounding@),
{
    let indent = indentation_of(surrounding);
    let lines = split_lines(code);
    let ghost ls = texts_view(lines@);
    let mut out: Vec<char> = Vec::new();
    let mut i: usize = 0;
    while i < lines.len()
        invariant
            i <= lines@.len(),
            ls == texts_view(lines@),
            ls == lines_of(code@),
            out@ == indent_lines(ls.subrange(0, i as int), indent@),
        decreases lines@.len() - i,
    {
        let ghost before = out@;
        extend_from(&mut out, &indent, 0, indent.len());
        let t = trimmed(&lines[i]);
        extend_from(&mut out, &t, 0, t.len());
        out.push('\n');
        assert(ls.subrange(0, i + 1).drop_last() =~= ls.subrange(0, i as int));
        assert(indent@.subrange(0, indent@.len() as int) =~= indent@);
        assert(t@.subrange(0, t@.len() as int) =~= t@);
        assert(out@ =~= before + indent@ + trim(ls[i as int]) + seq!['\n']);
        i = i + 1;
    }
    assert(ls.subrange(0, lines@.len() as int) =~= ls);
    out
}

/// The text `t` with the snippet `code` spliced at the cursor `c`, or `None`
/// when the cursor found no location inside `t`.
pub fn emit_at(t: &Vec<char>, code: &Vec<char>, c: CursorPosition) -> (r: Option<Vec<char>>)
    ensures
        match r {
            Some(o) => emit_text(t@, code@, c) == Some(o@),
            None => emit_text(t@, code@, c) is None,
        },
{
    if !c.found || c.idx > t.len() || c.selection_len > t.len() - c.idx {
        return None;
    }
    let left = slice_of(t, 0, c.idx);
    let kept = trim_blanks_end(t, c.idx);
    let mut out = slice_of(t, 0, kept);
    let snippet = match_line_indentation(code, &left);
    extend_from(&mut out, &snippet, 0, snippet.len());
    extend_from(&mut out, t, c.idx + c.selection_len, t.len());
    assert(snippet@.subrange(0, snippet@.len() as int) =~= snippet@);
    Some(out)
}

/// A directive kind that emits code: it owns parameters, and splices its
/// snippet where they lead the cursor.
pub trait CodeEmitter {
    /// The parameters, as a model.
    spec fn spec_parameters(&self) -> Seq<ParamModel>;

    /// The parameters.
    fn parameters(&self) -> (r: &Parameters)
        ensures
            r@ == self.spec_parameters(),
    ;

    /// The contents `file` with the snippet `code` spliced where the
    /// parameters lead the cursor; the contents unchanged, as an error, when
    /// they lead nowhere.
    fn emit(&self, file: String, code: &str) -> (r: Result<String, String>)
        ensures
            match r {
                Ok(o) => emit_model(file@, self.spec_parameters(), code@) == Some(o@),
                Err(e) => e@ == file@ && emit_model(file@, self.spec_parameters(), code@) is None,
            },
    {
        let text = chars_of(file.as_str());
        let snippet = chars_of(code);
        let cursor = CodeCursor::from_parameters(self.parameters(), &text);
        match emit_at(&text, &snippet, cursor.pos) {
            Some(out) => Ok(string_of(&out)),
            None => Err(file),
        }
    }
}

} // verus!
