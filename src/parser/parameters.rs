//! The tagged parameters of a recipe directive, and queries over a list of
//! them.
use vstd::prelude::*;

verus! {

/// The tag of a parameter.
#[derive(Clone, Copy, PartialEq, Eq, Structural, Debug)]
pub enum ParamKind {
    File,
    At,
    Below,
    Above,
    Select,
    MultilineSelect,
    Note,
    IfDef,
    IfNotDef,
    Define,
    Export,
    Use,
}

/// A parameter: a tag and its textual payload.
#[derive(Clone, Debug)]
pub enum Parameter {
    /// A target file, as a path suffix relative to the scripts root.
    File(String),
    /// Moves the cursor to the first line that contains the pattern.
    At(String),
    /// Moves the cursor to the line after the first line that contains the
    /// pattern.
    Below(String),
    /// Moves the cursor to the line right before the next line that contains
    /// the pattern.
    Above(String),
    /// Selects the first occurrence of the pattern from the cursor on.
    Select(String),
    /// Selects a run of lines that match, once trimmed, the pattern's lines.
    MultilineSelect(String),
    /// A note for the operator, shown when no location is found.
    Note(String),
    /// The directive runs only once the name is defined.
    IfDef(String),
    /// The directive runs only while the name is not defined.
    IfNotDef(String),
    /// The name becomes defined once the directive has run.
    Define(String),
    /// Registers the directive's parameters under a key.
    Export(String),
    /// Stands for the parameters exported under a key.
    Use(String),
}

/// The model of one parameter: its tag and its payload.
pub type ParamModel = (ParamKind, Seq<char>);

impl View for Parameter {
    type V = ParamModel;

    open spec fn view(&self) -> ParamModel {
        match self {
            Parameter::File(s) => (ParamKind::File, s@),
            Parameter::At(s) => (ParamKind::At, s@),
            Parameter::Below(s) => (ParamKind::Below, s@),
            Parameter::Above(s) => (ParamKind::Above, s@),
            Parameter::Select(s) => (ParamKind::Select, s@),
            Parameter::MultilineSelect(s) => (ParamKind::MultilineSelect, s@),
            Parameter::Note(s) => (ParamKind::Note, s@),
            Parameter::IfDef(s) => (ParamKind::IfDef, s@),
            Parameter::IfNotDef(s) => (ParamKind::IfNotDef, s@),
            Parameter::Define(s) => (ParamKind::Define, s@),
            Parameter::Export(s) => (ParamKind::Export, s@),
            Parameter::Use(s) => (ParamKind::Use, s@),
        }
    }
}

/// The views of a sequence of strings.
pub open spec fn strings_view(v: Seq<String>) -> Seq<Seq<char>> {
    v.map_values(|s: String| s@)
}

/// The payloads of the parameters tagged `k`, in order.
pub open spec fn values_of(ps: Seq<ParamModel>, k: ParamKind) -> Seq<Seq<char>>
    decreases ps.len(),
{
    if ps.len() == 0 {
        Seq::empty()
    } else {
        let rest = values_of(ps.drop_last(), k);
        if ps.last().0 == k {
            rest.push(ps.last().1)
        } else {
            rest
        }
    }
}

/// Whether some parameter is tagged `k`.
pub open spec fn has_kind(ps: Seq<ParamModel>, k: ParamKind) -> bool {
    exists|i: int| 0 <= i < ps.len() && #[trigger] ps[i].0 == k
}

/// The payload of the first parameter tagged `k`, if any.
pub open spec fn first_of(ps: Seq<ParamModel>, k: ParamKind) -> Option<Seq<char>>
    decreases ps.len(),
{
    if ps.len() == 0 {
        None
    } else if ps[0].0 == k {
        Some(ps[0].1)
    } else {
        first_of(ps.drop_first(), k)
    }
}

/// A payload is among the payloads tagged `k` exactly when some parameter
/// carries it under that tag; there are some exactly when a parameter has the
/// tag.
pub proof fn lemma_values_of(ps: Seq<ParamModel>, k: ParamKind)
    ensures
        forall|v: Seq<char>|
            values_of(ps, k).contains(v) <==> exists|i: int|
                0 <= i < ps.len() && #[trigger] ps[i] == (k, v),
        has_kind(ps, k) <==> values_of(ps, k).len() > 0,
    decreases ps.len(),
{
    if ps.len() > 0 {
        let rest = ps.drop_last();
        lemma_values_of(rest, k);
        let vs = values_of(ps, k);
        let rv = values_of(rest, k);
        assert forall|v: Seq<char>|
            vs.contains(v) <==> exists|i: int| 0 <= i < ps.len() && #[trigger] ps[i] == (k, v) by {
            if vs.contains(v) {
                let j = choose|j: int| 0 <= j < vs.len() && vs[j] == v;
                if j < rv.len() {
                    assert(rv[j] == v);
                    assert(rv.contains(v));
                    let i = choose|i: int| 0 <= i < rest.len() && #[trigger] rest[i] == (k, v);
                    assert(ps[i] == (k, v));
                } else {
                    assert(ps[ps.len() - 1] == (k, v));
                }
            }
            if exists|i: int| 0 <= i < ps.len() && #[trigger] ps[i] == (k, v) {
                let i = choose|i: int| 0 <= i < ps.len() && #[trigger] ps[i] == (k, v);
                if i < ps.len() - 1 {
                    assert(rest[i] == (k, v));
                    assert(rv.contains(v));
                    let j = choose|j: int| 0 <= j < rv.len() && rv[j] == v;
                    assert(vs[j] == v);
                } else {
                    assert(vs[vs.len() - 1] == v);
                }
            }
        }
        if has_kind(ps, k) {
            let i = choose|i: int| 0 <= i < ps.len() && #[trigger] ps[i].0 == k;
            if i < ps.len() - 1 {
                assert(rest[i].0 == k);
            }
        }
        if has_kind(rest, k) {
            let i = choose|i: int| 0 <= i < rest.len() && #[trigger] rest[i].0 == k;
            assert(ps[i].0 == k);
        }
    }
}

impl Parameter {
    /// Builds the parameter with the given tag and payload.
    pub fn from_parts(kind: ParamKind, value: String) -> (r: Parameter)
        ensures
            r@ == (kind, value@),
    {
        match kind {
            ParamKind::File => Parameter::File(value),
            ParamKind::At => Parameter::At(value),
            ParamKind::Below => Parameter::Below(value),
            ParamKind::Above => Parameter::Above(value),
            ParamKind::Select => Parameter::Select(value),
            ParamKind::MultilineSelect => Parameter::MultilineSelect(value),
            ParamKind::Note => Parameter::Note(value),
            ParamKind::IfDef => Parameter::IfDef(value),
            ParamKind::IfNotDef => Parameter::IfNotDef(value),
            ParamKind::Define => Parameter::Define(value),
            ParamKind::Export => Parameter::Export(value),
            ParamKind::Use => Parameter::Use(value),
        }
    }

    /// The tag of this parameter.
    pub fn kind(&self) -> (r: ParamKind)
        ensures
            r == self@.0,
    {
        match self {
            Parameter::File(_) => ParamKind::File,
            Parameter::At(_) => ParamKind::At,
            Parameter::Below(_) => ParamKind::Below,
            Parameter::Above(_) => ParamKind::Above,
            Parameter::Select(_) => ParamKind::Select,
            Parameter::MultilineSelect(_) => ParamKind::MultilineSelect,
            Parameter::Note(_) => ParamKind::Note,
            Parameter::IfDef(_) => ParamKind::IfDef,
            Parameter::IfNotDef(_) => ParamKind::IfNotDef,
            Parameter::Define(_) => ParamKind::Define,
            Parameter::Export(_) => ParamKind::Export,
            Parameter::Use(_) => ParamKind::Use,
        }
    }

    /// The payload of this parameter.
    pub fn value(&self) -> (r: &String)
        ensures
            r@ == self@.1,
    {
        match self {
            Parameter::File(s) => s,
            Parameter::At(s) => s,
            Parameter::Below(s) => s,
            Parameter::Above(s) => s,
            Parameter::Select(s) => s,
            Parameter::MultilineSelect(s) => s,
            Parameter::Note(s) => s,
            Parameter::IfDef(s) => s,
            Parameter::IfNotDef(s) => s,
            Parameter::Define(s) => s,
            Parameter::Export(s) => s,
            Parameter::Use(s) => s,
        }
    }

    /// A copy of this parameter.
    pub fn duplicate(&self) -> (r: Parameter)
        ensures
            r@ == self@,
    {
        Parameter::from_parts(self.kind(), self.value().clone())
    }
}

/// An ordered list of parameters; the order is significant.
#[derive(Clone, Debug)]
pub struct Parameters(pub Vec<Parameter>);

impl View for Parameters {
    type V = Seq<ParamModel>;

    open spec fn view(&self) -> Seq<ParamModel> {
        self.0@.map_values(|p: Parameter| p@)
    }
}

impl Parameters {
    /// The empty list.
    pub fn empty() -> (r: Parameters)
        ensures
            r@ == Seq::<ParamModel>::empty(),
    {
        let r = Parameters(Vec::new());
        assert(r@ =~= Seq::<ParamModel>::empty());
        r
    }

    /// Builds a list from its parameters.
    pub fn from_vec(v: Vec<Parameter>) -> (r: Parameters)
        ensures
            r@ == v@.map_values(|p: Parameter| p@),
    {
        Parameters(v)
    }

    /// The parameters, in order.
    pub fn into_inner(self) -> (r: Vec<Parameter>)
        ensures
            r@.map_values(|p: Parameter| p@) == self@,
    {
        self.0
    }

    /// The parameters, in order.
    pub fn all(&self) -> (r: &Vec<Parameter>)
        ensures
            r@.map_values(|p: Parameter| p@) == self@,
    {
        &self.0
    }

    /// The number of parameters.
    pub fn len(&self) -> (r: usize)
        ensures
            r == self@.len(),
    {
        self.0.len()
    }

    /// Appends a parameter at the end.
    pub fn push(&mut self, p: Parameter)
        ensures
            final(self)@ == old(self)@.push(p@),
    {
        let ghost added = p@;
        self.0.push(p);
        assert(self@ =~= old(self)@.push(added));
    }

    /// Moves every parameter of `other` to the end of this list.
    pub fn append(&mut self, other: Parameters)
        ensures
            final(self)@ == old(self)@ + other@,
    {
        let ghost added = other@;
        let mut other = other;
        self.0.append(&mut other.0);
        assert(self@ =~= old(self)@ + added);
    }

    /// A copy of this list.
    pub fn duplicate(&self) -> (r: Parameters)
        ensures
            r@ == self@,
    {
        let mut out = Parameters::empty();
        let mut i: usize = 0;
        while i < self.0.len()
            invariant
                i <= self@.len(),
                out@ == self@.subrange(0, i as int),
            decreases self@.len() - i,
        {
            out.push(self.0[i].duplicate());
            assert(self@.subrange(0, i + 1) =~= self@.subrange(0, i as int).push(self@[i as int]));
            i = i + 1;
        }
        assert(self@.subrange(0, self@.len() as int) =~= self@);
        out
    }

    /// The payloads of the parameters tagged `k`, in order.
    pub fn values(&self, k: ParamKind) -> (r: Vec<String>)
        ensures
            strings_view(r@) == values_of(self@, k),
    {
        let mut out: Vec<String> = Vec::new();
        let mut i: usize = 0;
        while i < self.0.len()
            invariant
                i <= self@.len(),
                strings_view(out@) == values_of(self@.subrange(0, i as int), k),
            decreases self@.len() - i,
        {
            let p = &self.0[i];
            assert(self@.subrange(0, i + 1).drop_last() =~= self@.subrange(0, i as int));
            if p.kind() == k {
                out.push(p.value().clone());
                assert(strings_view(out@) =~= values_of(self@.subrange(0, i as int), k).push(
                    p@.1,
                ));
            }
            i = i + 1;
        }
        assert(self@.subrange(0, self@.len() as int) =~= self@);
        out
    }

    /// Whether some parameter is tagged `k`.
    pub fn has(&self, k: ParamKind) -> (r: bool)
        ensures
            r == has_kind(self@, k),
    {
        let mut i: usize = 0;
        while i < self.0.len()
            invariant
                i <= self@.len(),
                forall|j: int| 0 <= j < i ==> self@[j].0 != k,
            decreases self@.len() - i,
        {
            if self.0[i].kind() == k {
                assert(self@[i as int].0 == k);
                return true;
            }
            i = i + 1;
        }
        false
    }

    /// The payloads of the `at` parameters.
    pub fn ats(&self) -> (r: Vec<String>)
        ensures
            strings_view(r@) == values_of(self@, ParamKind::At),
    {
        self.values(ParamKind::At)
    }

    /// The payloads of the `file` parameters.
    pub fn files(&self) -> (r: Vec<String>)
        ensures
            strings_view(r@) == values_of(self@, ParamKind::File),
    {
        self.values(ParamKind::File)
    }

    /// The payloads of the `below` parameters.
    pub fn belows(&self) -> (r: Vec<String>)
        ensures
            strings_view(r@) == values_of(self@, ParamKind::Below),
    {
        self.values(ParamKind::Below)
    }

    /// The payloads of the `above` parameters.
    pub fn aboves(&self) -> (r: Vec<String>)
        ensures
            strings_view(r@) == values_of(self@, ParamKind::Above),
    {
        self.values(ParamKind::Above)
    }

    /// The payloads of the `note` parameters.
    pub fn notes(&self) -> (r: Vec<String>)
        ensures
            strings_view(r@) == values_of(self@, ParamKind::Note),
    {
        self.values(ParamKind::Note)
    }

    /// The payloads of the `define` parameters.
    pub fn defines(&self) -> (r: Vec<String>)
        ensures
            strings_view(r@) == values_of(self@, ParamKind::Define),
    {
        self.values(ParamKind::Define)
    }

    /// The payloads of the `ifdef` parameters.
    pub fn ifdefs(&self) -> (r: Vec<String>)
        ensures
            strings_view(r@) == values_of(self@, ParamKind::IfDef),
    {
        self.values(ParamKind::IfDef)
    }

    /// The payloads of the `ifndef` parameters.
    pub fn ifndefs(&self) -> (r: Vec<String>)
        ensures
            strings_view(r@) == values_of(self@, ParamKind::IfNotDef),
    {
        self.values(ParamKind::IfNotDef)
    }

    /// The key of the first `export` parameter, if any.
    pub fn exports_first(&self) -> (r: Option<&String>)
        ensures
            match r {
                Some(s) => first_of(self@, ParamKind::Export) == Some(s@),
                None => first_of(self@, ParamKind::Export) is None,
            },
    {
        let mut i: usize = 0;
        assert(self@.subrange(0, self@.len() as int) =~= self@);
        while i < self.0.len()
            invariant
                i <= self@.len(),
                first_of(self@, ParamKind::Export) == first_of(
                    self@.subrange(i as int, self@.len() as int),
                    ParamKind::Export,
                ),
            decreases self@.len() - i,
        {
            let p = &self.0[i];
            assert(self@.subrange(i as int, self@.len() as int).drop_first() =~= self@.subrange(
                i + 1,
                self@.len() as int,
            ));
            if p.kind() == ParamKind::Export {
                return Some(p.value());
            }
            i = i + 1;
        }
        None
    }

    /// Whether some parameter is an `ifndef`.
    pub fn has_ifndefs(&self) -> (r: bool)
        ensures
            r == has_kind(self@, ParamKind::IfNotDef),
    {
        self.has(ParamKind::IfNotDef)
    }

    /// Whether some parameter is an `ifdef` or an `ifndef`.
    pub fn has_ifndef_or_ifdef(&self) -> (r: bool)
        ensures
            r == (has_kind(self@, ParamKind::IfNotDef) || has_kind(self@, ParamKind::IfDef)),
    {
        self.has(ParamKind::IfNotDef) || self.has(ParamKind::IfDef)
    }

    /// Whether some parameter is an `export`.
    pub fn has_export(&self) -> (r: bool)
        ensures
            r == has_kind(self@, ParamKind::Export),
    {
        self.has(ParamKind::Export)
    }
}

} // verus!
