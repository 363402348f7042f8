//! Contexts: parameters that a recipe places before those of every later
//! directive, and the reading of a recipe form by form.
use vstd::prelude::*;

use crate::parser::directives::{Directive, DirectiveModel};
use crate::parser::grammar::{context_form, parse_form, parse_form_head, read_forms, recipe_forms, form_end, FormModel};
use crate::parser::parameters::{ParamModel, Parameters};
use crate::text::{chars_of, find_pattern, lemma_find_from, slice_of};

verus! {

/// A form that does not parse.
#[derive(Clone, Copy, PartialEq, Eq, Structural, Debug)]
pub struct SyntaxError;

/// The parameters gathered from the context forms read so far.
#[derive(Debug)]
pub struct Context(pub Parameters);

/// A form: a directive, or a context.
#[derive(Debug)]
pub enum DirectiveOrContext {
    Directive(Directive),
    Context(Context),
}

impl Context {
    /// The context of a recipe before any form.
    pub fn empty() -> (r: Context)
        ensures
            r.0@ == Seq::<ParamModel>::empty(),
    {
        Context(Parameters::empty())
    }

    /// The context written as the form `form`: `@context(`, parameters and
    /// `)`; what follows is ignored.
    pub fn parse(form: &Vec<char>) -> (r: Option<Context>)
        ensures
            match r {
                Some(c) => context_form(form@) == Some(c.0@),
                None => context_form(form@) is None,
            },
    {
        match parse_form_head(form, "@context(") {
            None => None,
            Some((params, _)) => Some(Context(params)),
        }
    }

    /// Places the parameters of `other` after those of this context.
    pub fn merge(&mut self, other: Context)
        ensures
            final(self).0@ == old(self).0@ + other.0@,
    {
        self.0.append(other.0);
    }

    /// Reads the form `form`: a context form extends this context and yields
    /// no directive; a directive form yields its directive, with the
    /// parameters of this context placed first.
    pub fn parse_with_context(&mut self, form: &Vec<char>) -> (r: Result<Option<Directive>, SyntaxError>)
        ensures
            match parse_form(form@) {
                None => r is Err && final(self).0@ == old(self).0@,
                Some(FormModel::Context(ps)) => r == Ok::<Option<Directive>, SyntaxError>(None)
                    && final(self).0@ == old(self).0@ + ps,
                Some(FormModel::Insert(ps, code)) => final(self).0@ == old(self).0@ && match r {
                    Ok(Some(d)) => d@ == (DirectiveModel { id: 0, params: old(self).0@ + ps, code }),
                    _ => false,
                },
            },
    {
        match DirectiveOrContext::parse(form) {
            None => Err(SyntaxError),
            Some(DirectiveOrContext::Directive(d)) => Ok(Some(d.with_context(self.0.duplicate()))),
            Some(DirectiveOrContext::Context(c)) => {
                self.merge(c);
                Ok(None)
            },
        }
    }
}

impl DirectiveOrContext {
    /// The form `form`, read as a context or else as a directive.
    pub fn parse(form: &Vec<char>) -> (r: Option<DirectiveOrContext>)
        ensures
            match parse_form(form@) {
                None => r is None,
                Some(FormModel::Context(ps)) => r matches Some(DirectiveOrContext::Context(c))
                    && c.0@ == ps,
                Some(FormModel::Insert(ps, code)) => r matches Some(DirectiveOrContext::Directive(d))
                    && d@ == (DirectiveModel { id: 0, params: ps, code }),
            },
    {
        match Context::parse(form) {
            Some(c) => Some(DirectiveOrContext::Context(c)),
            None => match Directive::parse(form) {
                Some(d) => Some(DirectiveOrContext::Directive(d)),
                None => None,
            },
        }
    }
}

/// The models of the directives read from a recipe: id 0, the parameters and
/// the snippet.
pub open spec fn read_directives(s: Seq<char>) -> Seq<DirectiveModel> {
    read_forms(recipe_forms(s)).0.map_values(
        |d: (Seq<ParamModel>, Seq<char>)| DirectiveModel { id: 0, params: d.0, code: d.1 },
    )
}

/// Reads the recipe `input`: the directives of its forms in order, each with
/// the context gathered before it placed first, and the number of forms that
/// did not parse and were skipped.
pub fn parse_directive_file(input: &str) -> (r: (Vec<Directive>, usize))
    ensures
        r.0@.map_values(|d: Directive| d@) == read_directives(input@),
        r.1 == read_forms(recipe_forms(input@)).2,
{
    let s = chars_of(input);
    let at = chars_of("@");
    let size = s.len();
    proof {
        reveal_strlit("@");
    }
    let mut output: Vec<Directive> = Vec::new();
    let mut errors: usize = 0;
    let mut context = Context::empty();
    let ghost mut done: Seq<Seq<char>> = Seq::empty();
    proof {
        lemma_find_from(s@, 0, at@);
    }
    let mut cur = find_pattern(&s, 0, &at);
    assert(recipe_forms(s@) == done + match cur {
        Some(i) => crate::parser::grammar::forms_from(s@, i as int),
        None => Seq::<Seq<char>>::empty(),
    });
    loop
        invariant
            recipe_forms(s@) == done + match cur {
                Some(i) => crate::parser::grammar::forms_from(s@, i as int),
                None => Seq::<Seq<char>>::empty(),
            },
            cur matches Some(i) ==> i < s@.len(),
            s@ == input@,
            at@ == "@"@,
            read_forms(done).0.map_values(
                |d: (Seq<ParamModel>, Seq<char>)| DirectiveModel { id: 0, params: d.0, code: d.1 },
            ) == output@.map_values(|d: Directive| d@),
            read_forms(done).1 == context.0@,
            read_forms(done).2 == errors,
            errors <= done.len(),
            size == s@.len(),
            cur matches Some(i) ==> done.len() <= i,
            cur is None ==> done.len() <= s@.len(),
        ensures
            recipe_forms(s@) == done,
            s@ == input@,
            read_forms(done).0.map_values(
                |d: (Seq<ParamModel>, Seq<char>)| DirectiveModel { id: 0, params: d.0, code: d.1 },
            ) == output@.map_values(|d: Directive| d@),
            read_forms(done).2 == errors,
        decreases s@.len() - match cur {
            Some(i) => i as int,
            None => s@.len() as int,
        },
    {
        match cur {
            None => {
                assert(done + Seq::<Seq<char>>::empty() =~= done);
                break;
            },
            Some(i) => {
                proof {
                    lemma_find_from(s@, i + 1, at@);
                }
                let e = match find_pattern(&s, i + 1, &at) {
                    Some(n) => n,
                    None => s.len(),
                };
                assert(e == form_end(s@, i as int));
                assert(crate::parser::grammar::forms_from(s@, i as int) == seq![s@.subrange(i as int, e as int)] + crate::parser::grammar::forms_from(s@, e as int));
                let form = slice_of(&s, i, e);
                let ghost prev = done;
                proof {
                    done = done.push(form@);
                    assert(done.drop_last() =~= prev);
                }
                let ghost before = output@.map_values(|d: Directive| d@);
                match context.parse_with_context(&form) {
                    Err(_) => {
                        errors = errors + 1;
                    },
                    Ok(None) => {},
                    Ok(Some(d)) => {
                        output.push(d);
                        assert(output@.map_values(|d: Directive| d@) =~= before.push(output@.last()@));
                    },
                }
                cur = if e < s.len() { Some(e) } else { None };
                assert(recipe_forms(s@) =~= done + match cur {
                    Some(i) => crate::parser::grammar::forms_from(s@, i as int),
                    None => Seq::<Seq<char>>::empty(),
                });
            },
        }
    }
    (output, errors)
}

} // verus!
