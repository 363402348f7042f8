//! Directives: a parameter list and a snippet, under a stable id.
use vstd::prelude::*;

use crate::codegen::emitter::CodeEmitter;
use crate::parser::grammar::{insert_form, parse_form_head};
use crate::parser::parameters::{strings_view, values_of, ParamKind, ParamModel, Parameters};
use crate::text::{slice_of, string_of, trimmed};

verus! {

/// The id of a directive, unique within one build.
#[derive(Clone, Copy, PartialEq, Eq, Structural, Debug, Hash)]
pub struct DirectiveId(pub usize);

impl DirectiveId {
    /// The id `num`.
    pub fn new(num: usize) -> (r: DirectiveId)
        ensures
            r.0 == num,
    {
        DirectiveId(num)
    }
}

impl Default for DirectiveId {
    fn default() -> (r: DirectiveId)
        ensures
            r.0 == 0,
    {
        DirectiveId::new(0)
    }
}

/// The `insert` block of a directive: its parameters.
#[derive(Debug)]
pub struct InsertDirective(pub Parameters);

impl InsertDirective {
    /// The block with the parameters `params`.
    pub fn new(params: Parameters) -> (r: InsertDirective)
        ensures
            r.0@ == params@,
    {
        InsertDirective(params)
    }

    /// The block with the context's `parameters` placed before its own.
    pub fn with_context(self, parameters: Parameters) -> (r: InsertDirective)
        ensures
            r.0@ == parameters@ + self.0@,
    {
        let mut parameters = parameters;
        parameters.append(self.0);
        InsertDirective(parameters)
    }
}

impl CodeEmitter for InsertDirective {
    open spec fn spec_parameters(&self) -> Seq<ParamModel> {
        self.0@
    }

    fn parameters(&self) -> (r: &Parameters) {
        &self.0
    }
}

/// The model of a directive: its id, its parameters and its snippet.
pub struct DirectiveModel {
    pub id: usize,
    pub params: Seq<ParamModel>,
    pub code: Seq<char>,
}

/// A parsed recipe unit: the parameters of its `insert` block and the
/// snippet to splice.
#[derive(Debug)]
pub struct Directive {
    pub id: DirectiveId,
    pub insert: InsertDirective,
    pub code: String,
}

impl View for Directive {
    type V = DirectiveModel;

    open spec fn view(&self) -> DirectiveModel {
        DirectiveModel { id: self.id.0, params: self.insert.0@, code: self.code@ }
    }
}

/// The models of a sequence of directives.
pub open spec fn directives_view(v: Seq<Directive>) -> Seq<DirectiveModel> {
    v.map_values(|d: Directive| d@)
}

impl Directive {
    /// A directive with id 0.
    pub fn new(params: Parameters, code: String) -> (r: Directive)
        ensures
            r@ == (DirectiveModel { id: 0, params: params@, code: code@ }),
    {
        Directive { id: DirectiveId::new(0), insert: InsertDirective::new(params), code }
    }

    /// The directive written as the form `form`: `@insert(`, parameters,
    /// `)` and the snippet, trimmed.
    pub fn parse(form: &Vec<char>) -> (r: Option<Directive>)
        ensures
            match r {
                Some(d) => insert_form(form@) == Some((d@.params, d@.code)) && d@.id == 0,
                None => insert_form(form@) is None,
            },
    {
        match parse_form_head(form, "@insert(") {
            None => None,
            Some((params, e)) => {
                let size = form.len();
                let code = trimmed(&slice_of(form, e + 1, size));
                Some(Directive::new(params, string_of(&code)))
            },
        }
    }

    /// The directive with the context's `parameters` placed before its own.
    pub fn with_context(self, parameters: Parameters) -> (r: Directive)
        ensures
            r@ == (DirectiveModel { params: parameters@ + self@.params, ..self@ }),
    {
        let Directive { id, insert, code } = self;
        Directive { id, insert: insert.with_context(parameters), code }
    }

    /// The path suffixes of the files the directive targets, in order.
    pub fn file_suffixes(&self) -> (r: Vec<String>)
        ensures
            strings_view(r@) == values_of(self@.params, ParamKind::File),
    {
        self.insert.0.files()
    }

    /// The parameters.
    pub fn parameters(&self) -> (r: &Parameters)
        ensures
            r@ == self@.params,
    {
        &self.insert.0
    }
}

/// Numbers the directives: the one at position `i` gets id `i`; parameters
/// and snippets stay as they are.
pub fn assign_ids(directives: &mut Vec<Directive>)
    ensures
        final(directives)@.len() == old(directives)@.len(),
        forall|i: int|
            0 <= i < old(directives)@.len() ==> (#[trigger] final(directives)@[i])@ == (DirectiveModel {
                id: i as usize,
                ..old(directives)@[i]@
            }),
{
    let ghost orig = old(directives)@;
    let count = directives.len();
    let mut all: Vec<Directive> = Vec::new();
    std::mem::swap(directives, &mut all);
    let mut index: usize = 0;
    while all.len() > 0
        invariant
            count == orig.len(),
            index <= orig.len(),
            all@ == orig.subrange(index as int, orig.len() as int),
            directives@.len() == index,
            forall|i: int|
                0 <= i < index ==> (#[trigger] directives@[i])@ == (DirectiveModel {
                    id: i as usize,
                    ..orig[i]@
                }),
        decreases all@.len(),
    {
        assert(orig.subrange(index as int, orig.len() as int)[0] == orig[index as int]);
        let mut d = all.remove(0);
        assert(all@ =~= orig.subrange(index + 1, orig.len() as int));
        d.id = DirectiveId::new(index);
        directives.push(d);
        index = index + 1;
    }
}

} // verus!
