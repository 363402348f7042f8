//! Named exports: directives that lend their parameters, under a key, to the
//! directives that `use` that key.
use vstd::prelude::*;

use crate::parser::directives::{directives_view, Directive, DirectiveModel};
use crate::parser::parameters::{
    first_of, has_kind, strings_view, ParamKind, ParamModel, Parameter, Parameters,
};

verus! {

/// The directives of `ds` that export nothing, in order.
pub open spec fn non_exporters(ds: Seq<DirectiveModel>) -> Seq<DirectiveModel>
    decreases ds.len(),
{
    if ds.len() == 0 {
        Seq::empty()
    } else if has_kind(ds.last().params, ParamKind::Export) {
        non_exporters(ds.drop_last())
    } else {
        non_exporters(ds.drop_last()).push(ds.last())
    }
}

/// The exporter registered under `key` in `entries`: the first one.
pub open spec fn lookup(entries: Seq<(Seq<char>, DirectiveModel)>, key: Seq<char>) -> Option<
    DirectiveModel,
>
    decreases entries.len(),
{
    if entries.len() == 0 {
        None
    } else if entries[0].0 == key {
        Some(entries[0].1)
    } else {
        lookup(entries.drop_first(), key)
    }
}

/// The exporters of `ds` under the key of their first `export`, in order;
/// an exporter whose key is taken already is left out.
pub open spec fn export_entries(ds: Seq<DirectiveModel>) -> Seq<(Seq<char>, DirectiveModel)>
    decreases ds.len(),
{
    if ds.len() == 0 {
        Seq::empty()
    } else {
        let e = export_entries(ds.drop_last());
        match first_of(ds.last().params, ParamKind::Export) {
            Some(k) => if lookup(e, k) is Some {
                e
            } else {
                e.push((k, ds.last()))
            },
            None => e,
        }
    }
}

/// The parameters `ps` without their `export` parameters.
pub open spec fn without_exports(ps: Seq<ParamModel>) -> Seq<ParamModel>
    decreases ps.len(),
{
    if ps.len() == 0 {
        Seq::empty()
    } else if ps.last().0 == ParamKind::Export {
        without_exports(ps.drop_last())
    } else {
        without_exports(ps.drop_last()).push(ps.last())
    }
}

/// Whether `p` is a `use` of a key registered in `entries`.
pub open spec fn resolves(p: ParamModel, entries: Seq<(Seq<char>, DirectiveModel)>) -> bool {
    p.0 == ParamKind::Use && lookup(entries, p.1) is Some
}

/// The parameters `ps` with each `use` of a registered key replaced, in
/// place, by the exporter's parameters but its `export` ones, themselves
/// expanded in turn. `chain` holds the keys being expanded around `ps`; a
/// `use` of one of them, which would never end, is dropped, as is a `use`
/// nested deeper than `depth`. A `use` of a key not registered stays.
pub open spec fn expand_in(
    ps: Seq<ParamModel>,
    entries: Seq<(Seq<char>, DirectiveModel)>,
    chain: Seq<Seq<char>>,
    depth: nat,
) -> Seq<ParamModel>
    decreases depth, ps.len(),
{
    if ps.len() == 0 {
        Seq::empty()
    } else {
        let head = expand_in(ps.drop_last(), entries, chain, depth);
        let p = ps.last();
        if resolves(p, entries) {
            if depth == 0 || chain.contains(p.1) {
                head
            } else {
                head + expand_in(
                    without_exports(lookup(entries, p.1)->0.params),
                    entries,
                    chain.push(p.1),
                    (depth - 1) as nat,
                )
            }
        } else {
            head.push(p)
        }
    }
}

/// The parameters `ps` with their exports expanded: each `use` of a
/// registered key replaced by what it stands for, down to parameters that
/// are no such `use`. The nesting goes no deeper than the number of
/// exporters.
pub open spec fn expand(ps: Seq<ParamModel>, entries: Seq<(Seq<char>, DirectiveModel)>) -> Seq<
    ParamModel,
> {
    expand_in(ps, entries, Seq::empty(), entries.len())
}

/// After expansion no `use` of a registered key is left.
pub proof fn lemma_expand_in_resolved(
    ps: Seq<ParamModel>,
    entries: Seq<(Seq<char>, DirectiveModel)>,
    chain: Seq<Seq<char>>,
    depth: nat,
)
    ensures
        forall|q: int|
            0 <= q < expand_in(ps, entries, chain, depth).len() ==> !resolves(
                #[trigger] expand_in(ps, entries, chain, depth)[q],
                entries,
            ),
    decreases depth, ps.len(),
{
    if ps.len() > 0 {
        let head = expand_in(ps.drop_last(), entries, chain, depth);
        let p = ps.last();
        lemma_expand_in_resolved(ps.drop_last(), entries, chain, depth);
        let r = expand_in(ps, entries, chain, depth);
        if resolves(p, entries) {
            if !(depth == 0 || chain.contains(p.1)) {
                let inner = without_exports(lookup(entries, p.1)->0.params);
                lemma_expand_in_resolved(inner, entries, chain.push(p.1), (depth - 1) as nat);
                let tail = expand_in(inner, entries, chain.push(p.1), (depth - 1) as nat);
                assert forall|q: int| 0 <= q < r.len() implies !resolves(#[trigger] r[q], entries) by {
                    if q < head.len() {
                        assert(r[q] == head[q]);
                    } else {
                        assert(r[q] == tail[q - head.len()]);
                    }
                }
            }
        } else {
            assert forall|q: int| 0 <= q < r.len() implies !resolves(#[trigger] r[q], entries) by {
                if q < head.len() {
                    assert(r[q] == head[q]);
                }
            }
        }
    }
}

proof fn lemma_expand_identity(
    ps: Seq<ParamModel>,
    entries: Seq<(Seq<char>, DirectiveModel)>,
    chain: Seq<Seq<char>>,
    depth: nat,
)
    requires
        forall|q: int| 0 <= q < ps.len() ==> !resolves(#[trigger] ps[q], entries),
    ensures
        expand_in(ps, entries, chain, depth) == ps,
    decreases ps.len(),
{
    if ps.len() > 0 {
        lemma_expand_identity(ps.drop_last(), entries, chain, depth);
        assert(!resolves(ps[ps.len() - 1], entries));
        assert(expand_in(ps, entries, chain, depth) =~= ps);
    }
}

/// Expanding exports twice gives what expanding them once gives.
pub proof fn lemma_expand_idempotent(
    ps: Seq<ParamModel>,
    entries: Seq<(Seq<char>, DirectiveModel)>,
)
    ensures
        expand(expand(ps, entries), entries) == expand(ps, entries),
{
    lemma_expand_in_resolved(ps, entries, Seq::empty(), entries.len());
    lemma_expand_identity(expand(ps, entries), entries, Seq::empty(), entries.len());
}

/// The exporters, by key.
#[derive(Debug)]
pub struct ExportDatabase {
    keys: Vec<String>,
    exporters: Vec<Directive>,
}

impl View for ExportDatabase {
    type V = Seq<(Seq<char>, DirectiveModel)>;

    closed spec fn view(&self) -> Seq<(Seq<char>, DirectiveModel)> {
        Seq::new(self.keys@.len(), |i: int| (self.keys@[i]@, self.exporters@[i]@))
    }
}

impl ExportDatabase {
    /// Whether the keys and the exporters pair up.
    pub closed spec fn wf(&self) -> bool {
        self.keys@.len() == self.exporters@.len()
    }

    /// The empty database.
    pub fn new() -> (r: ExportDatabase)
        ensures
            r.wf(),
            r@ == Seq::<(Seq<char>, DirectiveModel)>::empty(),
    {
        let r = ExportDatabase { keys: Vec::new(), exporters: Vec::new() };
        assert(r@ =~= Seq::<(Seq<char>, DirectiveModel)>::empty());
        r
    }

    /// The position of the exporter registered under `key`.
    fn position(&self, key: &String) -> (r: Option<usize>)
        requires
            self.wf(),
        ensures
            match r {
                Some(i) => i < self@.len() && lookup(self@, key@) == Some(self@[i as int].1),
                None => lookup(self@, key@) is None,
            },
    {
        let mut i: usize = 0;
        assert(self@.subrange(0, self@.len() as int) =~= self@);
        while i < self.keys.len()
            invariant
                self.wf(),
                i <= self@.len(),
                lookup(self@, key@) == lookup(self@.subrange(i as int, self@.len() as int), key@),
            decreases self@.len() - i,
        {
            assert(self@.subrange(i as int, self@.len() as int).drop_first() =~= self@.subrange(
                i + 1,
                self@.len() as int,
            ));
            if self.keys[i] == *key {
                return Some(i);
            }
            i = i + 1;
        }
        None
    }

    /// The exporter registered under `key`.
    pub fn get(&self, key: &String) -> (r: Option<&Directive>)
        requires
            self.wf(),
        ensures
            match r {
                Some(d) => lookup(self@, key@) == Some(d@),
                None => lookup(self@, key@) is None,
            },
    {
        match self.position(key) {
            Some(i) => Some(&self.exporters[i]),
            None => None,
        }
    }

    /// Takes the exporters out of `directives`, keeping the others in order,
    /// and registers each under the key of its first `export`; on a key
    /// exported twice the first exporter is kept.
    pub fn collect_named_exports(directives: &mut Vec<Directive>) -> (r: ExportDatabase)
        ensures
            r.wf(),
            r@ == export_entries(directives_view(old(directives)@)),
            directives_view(final(directives)@) == non_exporters(directives_view(old(directives)@)),
    {
        let ghost orig = directives_view(directives@);
        let mut all: Vec<Directive> = Vec::new();
        std::mem::swap(directives, &mut all);
        let mut db = ExportDatabase::new();
        let ghost mut k: int = 0;
        while all.len() > 0
            invariant
                db.wf(),
                0 <= k <= orig.len(),
                directives_view(all@) == orig.subrange(k, orig.len() as int),
                db@ == export_entries(orig.subrange(0, k)),
                directives_view(directives@) == non_exporters(orig.subrange(0, k)),
            decreases all@.len(),
        {
            let ghost before_all = all@;
            assert(directives_view(before_all).len() == before_all.len());
            assert(directives_view(before_all)[0] == before_all[0]@);
            assert(orig.subrange(k, orig.len() as int)[0] == orig[k]);
            let d = all.remove(0);
            assert(orig[k] == d@);
            assert(orig.subrange(0, k + 1).drop_last() =~= orig.subrange(0, k));
            assert(directives_view(all@) =~= directives_view(before_all).drop_first());
            assert(orig.subrange(k, orig.len() as int).drop_first() =~= orig.subrange(k + 1, orig.len() as int));
            proof {
                lemma_first_export(d@.params);
            }
            if d.parameters().has_export() {
                let key = d.parameters().exports_first().unwrap().clone();
                assert(first_of(d@.params, ParamKind::Export) == Some(key@));
                if db.position(&key).is_none() {
                    let ghost before = db@;
                    db.keys.push(key);
                    db.exporters.push(d);
                    assert(db@ =~= before.push((key@, d@)));
                }
            } else {
                let ghost before = directives_view(directives@);
                directives.push(d);
                assert(directives_view(directives@) =~= before.push(d@));
            }
            proof {
                k = k + 1;
            }
        }
        assert(orig.subrange(0, k) =~= orig);
        db
    }

    /// Expands the `use` parameters of every directive of `directives`.
    pub fn feed_exports(&self, directives: &mut Vec<Directive>)
        requires
            self.wf(),
        ensures
            final(directives)@.len() == old(directives)@.len(),
            forall|i: int|
                0 <= i < old(directives)@.len() ==> (#[trigger] final(directives)@[i])@ == (
                DirectiveModel { params: expand(old(directives)@[i]@.params, self@), ..old(
                    directives,
                )@[i]@ }),
    {
        let ghost orig = old(directives)@;
        let mut all: Vec<Directive> = Vec::new();
        std::mem::swap(directives, &mut all);
        let ghost mut k: int = 0;
        while all.len() > 0
            invariant
                self.wf(),
                0 <= k <= orig.len(),
                all@ == orig.subrange(k, orig.len() as int),
                directives@.len() == k,
                forall|i: int|
                    0 <= i < k ==> (#[trigger] directives@[i])@ == (DirectiveModel {
                        params: expand(orig[i]@.params, self@),
                        ..orig[i]@
                    }),
            decreases all@.len(),
        {
            let ghost before_all = all@;
            assert(orig.subrange(k, orig.len() as int)[0] == orig[k]);
            let mut d = all.remove(0);
            assert(orig[k] == d);
            assert(all@ =~= orig.subrange(k + 1, orig.len() as int));
            d.insert.0.feed_exports(self);
            directives.push(d);
            proof {
                k = k + 1;
            }
        }
    }
}

/// An exporter has a first export key.
proof fn lemma_first_export(ps: Seq<ParamModel>)
    ensures
        has_kind(ps, ParamKind::Export) <==> first_of(ps, ParamKind::Export) is Some,
    decreases ps.len(),
{
    if ps.len() > 0 && ps[0].0 == ParamKind::Export {
        assert(ps[0].0 == ParamKind::Export);
    }
    if ps.len() > 0 && ps[0].0 != ParamKind::Export {
        lemma_first_export(ps.drop_first());
        if has_kind(ps.drop_first(), ParamKind::Export) {
            let i = choose|i: int| 0 <= i < ps.len() - 1 && #[trigger] ps.drop_first()[i].0 == ParamKind::Export;
            assert(ps[i + 1].0 == ParamKind::Export);
        }
        if has_kind(ps, ParamKind::Export) {
            let i = choose|i: int| 0 <= i < ps.len() && #[trigger] ps[i].0 == ParamKind::Export;
            assert(ps.drop_first()[i - 1].0 == ParamKind::Export);
        }
    }
}

/// The parameters `ps` but the `export` ones.
fn strip_exports(ps: &Parameters) -> (r: Vec<Parameter>)
    ensures
        r@.map_values(|p: Parameter| p@) == without_exports(ps@),
{
    let all = ps.all();
    let mut out: Vec<Parameter> = Vec::new();
    let mut i: usize = 0;
    while i < all.len()
        invariant
            i <= all@.len(),
            all@.map_values(|p: Parameter| p@) == ps@,
            out@.map_values(|p: Parameter| p@) == without_exports(ps@.subrange(0, i as int)),
        decreases all@.len() - i,
    {
        assert(ps@.subrange(0, i + 1).drop_last() =~= ps@.subrange(0, i as int));
        if all[i].kind() != ParamKind::Export {
            let ghost before = out@.map_values(|p: Parameter| p@);
            out.push(all[i].duplicate());
            assert(out@.map_values(|p: Parameter| p@) =~= before.push(ps@[i as int]));
        }
        i = i + 1;
    }
    assert(ps@.subrange(0, all@.len() as int) =~= ps@);
    out
}

/// Whether `key` is among the keys `chain`.
fn in_chain(chain: &Vec<String>, key: &String) -> (r: bool)
    ensures
        r == strings_view(chain@).contains(key@),
{
    let mut i: usize = 0;
    while i < chain.len()
        invariant
            i <= chain@.len(),
            forall|j: int| 0 <= j < i ==> chain@[j]@ != key@,
        decreases chain@.len() - i,
    {
        if chain[i] == *key {
            assert(strings_view(chain@)[i as int] == key@);
            return true;
        }
        i = i + 1;
    }
    assert forall|j: int| 0 <= j < strings_view(chain@).len() implies strings_view(chain@)[j] != key@ by {
        assert(strings_view(chain@)[j] == chain@[j]@);
    }
    false
}

/// The parameters `ps` with their exports expanded inside the keys `chain`,
/// at most `depth` deep.
fn expand_params(ps: &Vec<Parameter>, db: &ExportDatabase, chain: &Vec<String>, depth: usize) -> (r:
    Vec<Parameter>)
    requires
        db.wf(),
    ensures
        r@.map_values(|p: Parameter| p@) == expand_in(
            ps@.map_values(|p: Parameter| p@),
            db@,
            strings_view(chain@),
            depth as nat,
        ),
    decreases depth,
{
    let ghost pv = ps@.map_values(|p: Parameter| p@);
    let ghost cv = strings_view(chain@);
    let mut out: Vec<Parameter> = Vec::new();
    let mut i: usize = 0;
    while i < ps.len()
        invariant
            db.wf(),
            i <= ps@.len(),
            pv == ps@.map_values(|p: Parameter| p@),
            cv == strings_view(chain@),
            out@.map_values(|p: Parameter| p@) == expand_in(pv.subrange(0, i as int), db@, cv, depth as nat),
        decreases ps@.len() - i,
    {
        let p = &ps[i];
        assert(pv.subrange(0, i + 1).drop_last() =~= pv.subrange(0, i as int));
        assert(pv[i as int] == p@);
        let ghost before = out@.map_values(|p: Parameter| p@);
        let mut handled = false;
        if p.kind() == ParamKind::Use {
            match db.get(p.value()) {
                Some(exporter) => {
                    handled = true;
                    if depth > 0 && !in_chain(chain, p.value()) {
                        let lent = strip_exports(exporter.parameters());
                        let mut inner_chain = crate::game::paths::copy_path(chain);
                        let ghost ic = strings_view(inner_chain@);
                        inner_chain.push(p.value().clone());
                        assert(strings_view(inner_chain@) =~= cv.push(p@.1));
                        let mut inner = expand_params(&lent, db, &inner_chain, depth - 1);
                        let ghost added = inner@.map_values(|p: Parameter| p@);
                        out.append(&mut inner);
                        assert(out@.map_values(|p: Parameter| p@) =~= before + added);
                    }
                },
                None => {},
            }
        }
        if !handled {
            out.push(p.duplicate());
            assert(out@.map_values(|p: Parameter| p@) =~= before.push(p@));
        }
        i = i + 1;
    }
    assert(pv.subrange(0, ps@.len() as int) =~= pv);
    out
}

impl Parameters {
    /// Expands, in place, each `use` of a key registered in `export_db`: the
    /// exporter's parameters but its `export` ones take its place, and any
    /// `use` among them is expanded in turn; a `use` that would reach its
    /// own key again is dropped.
    pub fn feed_exports(&mut self, export_db: &ExportDatabase)
        requires
            export_db.wf(),
        ensures
            final(self)@ == expand(old(self)@, export_db@),
    {
        let depth = export_db.keys.len();
        let chain: Vec<String> = Vec::new();
        assert(strings_view(chain@) =~= Seq::<Seq<char>>::empty());
        let expanded = expand_params(&self.0, export_db, &chain, depth);
        self.0 = expanded;
    }
}

} // verus!
