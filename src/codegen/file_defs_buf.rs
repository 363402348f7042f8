//! A record of the names defined pass after pass and of the directives
//! already run, so that a pass runs only directives not run before.
use vstd::prelude::*;

use crate::codegen::names::NameSet;
use crate::parser::directives::{Directive, DirectiveId};
use crate::parser::parameters::{strings_view, values_of, ParamKind};

verus! {

/// Which directives a pass considers.
#[derive(Clone, Copy, PartialEq, Eq, Structural, Debug)]
pub enum FileDefsMode {
    /// Every directive whose `ifdef` names are defined.
    All,
    /// Only the directives not run before whose `ifdef` names are defined.
    OnlyNew,
}

/// The model of a [`FileDefsBuf`].
pub struct FileDefsModel {
    pub variables: Set<Seq<char>>,
    pub current_pass: Set<Seq<char>>,
    pub executed: Set<usize>,
    pub mode: FileDefsMode,
}

/// The names defined in every pass so far, those defined in the current
/// pass, and the ids of the directives run.
#[derive(Debug)]
pub struct FileDefsBuf {
    variables: NameSet,
    current_pass: NameSet,
    executed_directives: Vec<DirectiveId>,
    mode: FileDefsMode,
}

impl View for FileDefsBuf {
    type V = FileDefsModel;

    closed spec fn view(&self) -> FileDefsModel {
        FileDefsModel {
            variables: self.variables@,
            current_pass: self.current_pass@,
            executed: Set::new(
                |id: usize| exists|i: int| 0 <= i < self.executed_directives@.len() && self.executed_directives@[i].0 == id,
            ),
            mode: self.mode,
        }
    }
}

/// Whether every `ifdef` name of `d` is in `names`.
pub open spec fn requirements_met(d: &Directive, names: Set<Seq<char>>) -> bool {
    forall|n: Seq<char>| #[trigger] values_of(d@.params, ParamKind::IfDef).contains(n) ==> names.contains(n)
}

impl FileDefsBuf {
    /// A record with no name and no directive, considering every directive.
    pub fn new() -> (r: FileDefsBuf)
        ensures
            r@.variables == Set::<Seq<char>>::empty(),
            r@.current_pass == Set::<Seq<char>>::empty(),
            r@.executed == Set::<usize>::empty(),
            r@.mode == FileDefsMode::All,
    {
        let mut out = FileDefsBuf {
            variables: NameSet::new(),
            current_pass: NameSet::new(),
            executed_directives: Vec::new(),
            mode: FileDefsMode::All,
        };
        out.next_pass(FileDefsMode::All);
        assert(out@.executed =~= Set::<usize>::empty());
        out
    }

    /// Whether every `ifdef` name of `directive` is defined.
    fn has_all_variable_requirements(&self, directive: &Directive) -> (r: bool)
        ensures
            r == requirements_met(directive, self@.variables),
    {
        let ifdefs = directive.parameters().ifdefs();
        let ghost vals = values_of(directive@.params, ParamKind::IfDef);
        let mut i: usize = 0;
        while i < ifdefs.len()
            invariant
                i <= ifdefs@.len(),
                strings_view(ifdefs@) == vals,
                vals == values_of(directive@.params, ParamKind::IfDef),
                forall|j: int| 0 <= j < i ==> self@.variables.contains(#[trigger] vals[j]),
            decreases ifdefs@.len() - i,
        {
            assert(vals[i as int] == ifdefs@[i as int]@);
            if !self.variables.contains(&ifdefs[i]) {
                assert(vals.contains(vals[i as int]));
                return false;
            }
            i = i + 1;
        }
        true
    }

    /// Whether the directive `id` has run.
    fn was_executed(&self, id: DirectiveId) -> (r: bool)
        ensures
            r == self@.executed.contains(id.0),
    {
        let mut i: usize = 0;
        while i < self.executed_directives.len()
            invariant
                i <= self.executed_directives@.len(),
                forall|j: int| 0 <= j < i ==> self.executed_directives@[j].0 != id.0,
            decreases self.executed_directives@.len() - i,
        {
            if self.executed_directives[i].0 == id.0 {
                return true;
            }
            i = i + 1;
        }
        false
    }

    /// Whether `directive` may run in this pass: its `ifdef` names are
    /// defined and, when only new directives are considered, it has not run.
    pub fn can_execute_directive(&self, directive: &Directive) -> (r: bool)
        ensures
            r == (requirements_met(directive, self@.variables) && (self@.mode == FileDefsMode::OnlyNew
                ==> !self@.executed.contains(directive@.id))),
    {
        match self.mode {
            FileDefsMode::All => self.has_all_variable_requirements(directive),
            FileDefsMode::OnlyNew => {
                if self.was_executed(directive.id) {
                    false
                } else {
                    self.has_all_variable_requirements(directive)
                }
            },
        }
    }

    /// Defines `var` in this pass; says whether it was not defined before.
    fn register(&mut self, var: &String) -> (r: bool)
        ensures
            final(self)@ == (FileDefsModel {
                variables: old(self)@.variables.insert(var@),
                current_pass: old(self)@.current_pass.insert(var@),
                ..old(self)@
            }),
            r == !old(self)@.variables.contains(var@),
    {
        self.current_pass.insert(var);
        self.variables.insert(var)
    }

    /// Records that `directive` ran, and defines its `define` names.
    pub fn mark_as_executed(&mut self, directive: &Directive)
        ensures
            final(self)@ == (FileDefsModel {
                variables: old(self)@.variables.union(values_of(directive@.params, ParamKind::Define).to_set()),
                current_pass: old(self)@.current_pass.union(values_of(directive@.params, ParamKind::Define).to_set()),
                executed: old(self)@.executed.insert(directive@.id),
                mode: old(self)@.mode,
            }),
    {
        let ghost before = self@;
        let ghost ov = self.executed_directives@;
        self.executed_directives.push(directive.id);
        assert(self@.executed =~= before.executed.insert(directive@.id)) by {
            let v = self.executed_directives@;
            assert(v[v.len() - 1].0 == directive@.id);
            assert forall|id: usize| before.executed.contains(id) implies #[trigger] self@.executed.contains(id) by {
                let i = choose|i: int| 0 <= i < ov.len() && #[trigger] ov[i].0 == id;
                assert(v[i].0 == id);
            }
            assert forall|id: usize| #[trigger] self@.executed.contains(id) implies before.executed.insert(directive@.id).contains(id) by {
                let i = choose|i: int| 0 <= i < v.len() && #[trigger] v[i].0 == id;
                if i < ov.len() {
                    assert(ov[i].0 == id);
                }
            }
        }
        self.register_defines(directive);
    }

    /// Defines the `define` names of `directive`.
    fn register_defines(&mut self, directive: &Directive)
        ensures
            final(self)@ == (FileDefsModel {
                variables: old(self)@.variables.union(values_of(directive@.params, ParamKind::Define).to_set()),
                current_pass: old(self)@.current_pass.union(values_of(directive@.params, ParamKind::Define).to_set()),
                ..old(self)@
            }),
    {
        let defines = directive.parameters().defines();
        let ghost vals = values_of(directive@.params, ParamKind::Define);
        let mut i: usize = 0;
        assert(vals.subrange(0, 0).to_set() =~= Set::<Seq<char>>::empty());
        assert(self@.variables.union(Set::<Seq<char>>::empty()) =~= self@.variables);
        assert(self@.current_pass.union(Set::<Seq<char>>::empty()) =~= self@.current_pass);
        while i < defines.len()
            invariant
                i <= defines@.len(),
                strings_view(defines@) == vals,
                vals == values_of(directive@.params, ParamKind::Define),
                self@ == (FileDefsModel {
                    variables: old(self)@.variables.union(vals.subrange(0, i as int).to_set()),
                    current_pass: old(self)@.current_pass.union(vals.subrange(0, i as int).to_set()),
                    ..old(self)@
                }),
            decreases defines@.len() - i,
        {
            assert(vals[i as int] == defines@[i as int]@);
            self.register(&defines[i]);
            assert(vals.subrange(0, i + 1).to_set() =~= vals.subrange(0, i as int).to_set().insert(vals[i as int])) by {
                assert forall|n: Seq<char>| #[trigger] vals.subrange(0, i + 1).to_set().contains(n) implies vals.subrange(0, i as int).to_set().insert(vals[i as int]).contains(n) by {
                    let j = choose|j: int| 0 <= j < i + 1 && #[trigger] vals.subrange(0, i + 1)[j] == n;
                    if j < i {
                        assert(vals.subrange(0, i as int)[j] == n);
                    }
                }
                assert forall|n: Seq<char>| #[trigger] vals.subrange(0, i as int).to_set().contains(n) implies vals.subrange(0, i + 1).to_set().contains(n) by {
                    let j = choose|j: int| 0 <= j < i && #[trigger] vals.subrange(0, i as int)[j] == n;
                    assert(vals.subrange(0, i + 1)[j] == n);
                }
                assert(vals.subrange(0, i + 1)[i as int] == vals[i as int]);
            }
            assert(self@.variables =~= old(self)@.variables.union(vals.subrange(0, i + 1).to_set()));
            assert(self@.current_pass =~= old(self)@.current_pass.union(vals.subrange(0, i + 1).to_set()));
            i = i + 1;
        }
        assert(vals.subrange(0, defines@.len() as int) =~= vals);
    }

    /// Starts the next pass in `mode`; says whether the pass that ends
    /// defined any name, which is when another pass is needed.
    pub fn next_pass(&mut self, mode: FileDefsMode) -> (r: bool)
        ensures
            r == (old(self)@.current_pass != Set::<Seq<char>>::empty()),
            final(self)@ == (FileDefsModel {
                current_pass: Set::<Seq<char>>::empty(),
                mode,
                ..old(self)@
            }),
    {
        let next_pass_needed = !self.current_pass.is_empty();
        self.current_pass.clear();
        self.mode = mode;
        next_pass_needed
    }
}

} // verus!
