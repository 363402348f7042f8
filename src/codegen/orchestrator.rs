//! The orchestrator: it splits the directives still pending into those that
//! run in the current wave and those that wait, by their guards.
use vstd::prelude::*;

use crate::codegen::names::NameSet;
use crate::parser::directives::{directives_view, Directive, DirectiveModel};
use crate::parser::parameters::{
    has_kind, lemma_values_of, strings_view, values_of, ParamKind, ParamModel,
};

verus! {

/// Whether the guards of the parameters `ps` hold under the defined `names`:
/// every `ifdef` name is defined and no `ifndef` name is.
pub open spec fn eligible(ps: Seq<ParamModel>, names: Set<Seq<char>>) -> bool {
    &&& forall|n: Seq<char>|
        #[trigger] values_of(ps, ParamKind::IfDef).contains(n) ==> names.contains(n)
    &&& forall|n: Seq<char>|
        #[trigger] values_of(ps, ParamKind::IfNotDef).contains(n) ==> !names.contains(n)
}

/// Splits the candidates `cands`, in order, into those without `ifndef`
/// whose guards hold, those without `ifndef` whose guards do not hold, and
/// those with an `ifndef`.
pub open spec fn partition(ds: Seq<DirectiveModel>, cands: Seq<usize>, names: Set<Seq<char>>) -> (
    Seq<usize>,
    Seq<usize>,
    Seq<usize>,
)
    decreases cands.len(),
{
    if cands.len() == 0 {
        (Seq::empty(), Seq::empty(), Seq::empty())
    } else {
        let (r, s, g) = partition(ds, cands.drop_last(), names);
        let i = cands.last();
        if has_kind(ds[i as int].params, ParamKind::IfNotDef) {
            (r, s, g.push(i))
        } else if eligible(ds[i as int].params, names) {
            (r.push(i), s, g)
        } else {
            (r, s.push(i), g)
        }
    }
}

/// Splits the candidates `cands`, in order, into those whose guards hold and
/// the others.
pub open spec fn split_eligible(ds: Seq<DirectiveModel>, cands: Seq<usize>, names: Set<Seq<char>>) -> (
    Seq<usize>,
    Seq<usize>,
)
    decreases cands.len(),
{
    if cands.len() == 0 {
        (Seq::empty(), Seq::empty())
    } else {
        let (r, s) = split_eligible(ds, cands.drop_last(), names);
        let i = cands.last();
        if eligible(ds[i as int].params, names) {
            (r.push(i), s)
        } else {
            (r, s.push(i))
        }
    }
}

/// One wave over the candidates `cands`: the directives that run, and those
/// carried to the next wave. Directives with an `ifndef` are considered only
/// when no other directive can run.
pub open spec fn wave(ds: Seq<DirectiveModel>, cands: Seq<usize>, names: Set<Seq<char>>) -> (
    Seq<usize>,
    Seq<usize>,
) {
    let (r, s, g) = partition(ds, cands, names);
    if r.len() > 0 {
        (r, s + g)
    } else {
        let (r2, s2) = split_eligible(ds, g, names);
        (r2, s + s2)
    }
}

/// The positions `0..n`.
pub open spec fn all_positions(n: nat) -> Seq<usize> {
    Seq::new(n, |i: int| i as usize)
}

/// Whether every candidate is a position of `ds`.
pub open spec fn in_range(ds: Seq<DirectiveModel>, cands: Seq<usize>) -> bool {
    forall|j: int| 0 <= j < cands.len() ==> cands[j] < ds.len()
}

/// What `partition` yields: each part is drawn from the candidates, the
/// first holds exactly the candidates without `ifndef` whose guards hold, the
/// third exactly those with an `ifndef`, and together they count as many as
/// the candidates.
pub proof fn lemma_partition(ds: Seq<DirectiveModel>, cands: Seq<usize>, names: Set<Seq<char>>)
    ensures
        ({
            let (r, s, g) = partition(ds, cands, names);
            &&& r.len() + s.len() + g.len() == cands.len()
            &&& forall|x: usize| #[trigger] r.contains(x) ==> cands.contains(x)
            &&& forall|x: usize| #[trigger] s.contains(x) ==> cands.contains(x)
            &&& forall|x: usize| #[trigger] g.contains(x) ==> cands.contains(x)
            &&& forall|x: usize|
                #[trigger] r.contains(x) <==> cands.contains(x) && !has_kind(
                    ds[x as int].params,
                    ParamKind::IfNotDef,
                ) && eligible(ds[x as int].params, names)
            &&& forall|x: usize|
                #[trigger] g.contains(x) <==> cands.contains(x) && has_kind(
                    ds[x as int].params,
                    ParamKind::IfNotDef,
                )
        }),
    decreases cands.len(),
{
    if cands.len() > 0 {
        let rest = cands.drop_last();
        lemma_partition(ds, rest, names);
        let (r0, s0, g0) = partition(ds, rest, names);
        let (r, s, g) = partition(ds, cands, names);
        let i = cands.last();
        assert forall|x: usize| #[trigger] rest.contains(x) implies cands.contains(x) by {
            let j = choose|j: int| 0 <= j < rest.len() && rest[j] == x;
            assert(cands[j] == x);
        }
        assert(cands.contains(i)) by {
            assert(cands[cands.len() - 1] == i);
        }
        assert forall|x: usize| #[trigger] cands.contains(x) implies rest.contains(x) || x == i by {
            let j = choose|j: int| 0 <= j < cands.len() && cands[j] == x;
            if j < cands.len() - 1 {
                assert(rest[j] == x);
            }
        }
        assert forall|x: usize| #[trigger] r.contains(x) implies r0.contains(x) || x == i by {
            let j = choose|j: int| 0 <= j < r.len() && r[j] == x;
            if j < r0.len() {
                assert(r0[j] == x);
            }
        }
        assert forall|x: usize| #[trigger] s.contains(x) implies s0.contains(x) || x == i by {
            let j = choose|j: int| 0 <= j < s.len() && s[j] == x;
            if j < s0.len() {
                assert(s0[j] == x);
            }
        }
        assert forall|x: usize| #[trigger] g.contains(x) implies g0.contains(x) || x == i by {
            let j = choose|j: int| 0 <= j < g.len() && g[j] == x;
            if j < g0.len() {
                assert(g0[j] == x);
            }
        }
        assert forall|x: usize| #[trigger] r0.contains(x) implies r.contains(x) by {
            let j = choose|j: int| 0 <= j < r0.len() && r0[j] == x;
            assert(r[j] == x);
        }
        assert forall|x: usize| #[trigger] g0.contains(x) implies g.contains(x) by {
            let j = choose|j: int| 0 <= j < g0.len() && g0[j] == x;
            assert(g[j] == x);
        }
        if has_kind(ds[i as int].params, ParamKind::IfNotDef) {
            assert(g[g.len() - 1] == i);
        } else if eligible(ds[i as int].params, names) {
            assert(r[r.len() - 1] == i);
        }
        assert forall|x: usize|
            #[trigger] r.contains(x) <==> cands.contains(x) && !has_kind(
                ds[x as int].params,
                ParamKind::IfNotDef,
            ) && eligible(ds[x as int].params, names) by {
            if x != i {
                assert(r.contains(x) <==> r0.contains(x));
                assert(cands.contains(x) <==> rest.contains(x));
            }
        }
        assert forall|x: usize|
            #[trigger] g.contains(x) <==> cands.contains(x) && has_kind(
                ds[x as int].params,
                ParamKind::IfNotDef,
            ) by {
            if x != i {
                assert(g.contains(x) <==> g0.contains(x));
                assert(cands.contains(x) <==> rest.contains(x));
            }
        }
    }
}

/// What `split_eligible` yields: both parts are drawn from the candidates,
/// the first holds exactly the candidates whose guards hold, and together
/// they count as many as the candidates.
pub proof fn lemma_split_eligible(ds: Seq<DirectiveModel>, cands: Seq<usize>, names: Set<Seq<char>>)
    ensures
        ({
            let (r, s) = split_eligible(ds, cands, names);
            &&& r.len() + s.len() == cands.len()
            &&& forall|x: usize| #[trigger] s.contains(x) ==> cands.contains(x)
            &&& forall|x: usize|
                #[trigger] r.contains(x) <==> cands.contains(x) && eligible(ds[x as int].params, names)
        }),
    decreases cands.len(),
{
    if cands.len() > 0 {
        let rest = cands.drop_last();
        lemma_split_eligible(ds, rest, names);
        let (r0, s0) = split_eligible(ds, rest, names);
        let (r, s) = split_eligible(ds, cands, names);
        let i = cands.last();
        assert forall|x: usize| #[trigger] rest.contains(x) implies cands.contains(x) by {
            let j = choose|j: int| 0 <= j < rest.len() && rest[j] == x;
            assert(cands[j] == x);
        }
        assert(cands.contains(i)) by {
            assert(cands[cands.len() - 1] == i);
        }
        assert forall|x: usize| #[trigger] cands.contains(x) implies rest.contains(x) || x == i by {
            let j = choose|j: int| 0 <= j < cands.len() && cands[j] == x;
            if j < cands.len() - 1 {
                assert(rest[j] == x);
            }
        }
        assert forall|x: usize| #[trigger] r.contains(x) implies r0.contains(x) || x == i by {
            let j = choose|j: int| 0 <= j < r.len() && r[j] == x;
            if j < r0.len() {
                assert(r0[j] == x);
            }
        }
        assert forall|x: usize| #[trigger] s.contains(x) implies s0.contains(x) || x == i by {
            let j = choose|j: int| 0 <= j < s.len() && s[j] == x;
            if j < s0.len() {
                assert(s0[j] == x);
            }
        }
        assert forall|x: usize| #[trigger] r0.contains(x) implies r.contains(x) by {
            let j = choose|j: int| 0 <= j < r0.len() && r0[j] == x;
            assert(r[j] == x);
        }
        if eligible(ds[i as int].params, names) {
            assert(r[r.len() - 1] == i);
        }
        assert forall|x: usize|
            #[trigger] r.contains(x) <==> cands.contains(x) && eligible(ds[x as int].params, names) by {
            if x != i {
                assert(r.contains(x) <==> r0.contains(x));
                assert(cands.contains(x) <==> rest.contains(x));
            }
        }
    }
}

/// The names that the directives at the positions `run` define.
pub open spec fn defined_by(ds: Seq<DirectiveModel>, run: Seq<usize>) -> Set<Seq<char>> {
    Set::new(
        |n: Seq<char>|
            exists|j: int|
                0 <= j < run.len() && #[trigger] values_of(ds[run[j] as int].params, ParamKind::Define).contains(n),
    )
}

/// The directives still pending and the names defined before wave `k`, when
/// the build starts with the names `seed`.
pub open spec fn state_before(ds: Seq<DirectiveModel>, seed: Set<Seq<char>>, k: nat) -> (
    Seq<usize>,
    Set<Seq<char>>,
)
    decreases k,
{
    if k == 0 {
        (all_positions(ds.len()), seed)
    } else {
        let (c, names) = state_before(ds, seed, (k - 1) as nat);
        let (run, skip) = wave(ds, c, names);
        (skip, names.union(defined_by(ds, run)))
    }
}

/// The positions of the directives that run in wave `k`.
pub open spec fn run_in(ds: Seq<DirectiveModel>, seed: Set<Seq<char>>, k: nat) -> Seq<usize> {
    wave(ds, state_before(ds, seed, k).0, state_before(ds, seed, k).1).0
}

/// Every directive of a wave has its guards hold, and the wave and the
/// directives it carries over are drawn from the candidates and count as
/// many.
pub proof fn lemma_wave(ds: Seq<DirectiveModel>, cands: Seq<usize>, names: Set<Seq<char>>)
    ensures
        ({
            let (run, skip) = wave(ds, cands, names);
            &&& run.len() + skip.len() == cands.len()
            &&& forall|x: usize| #[trigger] run.contains(x) ==> cands.contains(x) && eligible(
                ds[x as int].params,
                names,
            )
            &&& forall|x: usize| #[trigger] skip.contains(x) ==> cands.contains(x)
        }),
{
    lemma_partition(ds, cands, names);
    let (r, s, g) = partition(ds, cands, names);
    lemma_split_eligible(ds, g, names);
    let (r2, s2) = split_eligible(ds, g, names);
    assert forall|x: usize| #[trigger] (s + g).contains(x) implies s.contains(x) || g.contains(x) by {
        let j = choose|j: int| 0 <= j < (s + g).len() && (s + g)[j] == x;
        if j < s.len() {
            assert(s[j] == x);
        } else {
            assert(g[j - s.len()] == x);
        }
    }
    assert forall|x: usize| #[trigger] (s + s2).contains(x) implies s.contains(x) || s2.contains(x) by {
        let j = choose|j: int| 0 <= j < (s + s2).len() && (s + s2)[j] == x;
        if j < s.len() {
            assert(s[j] == x);
        } else {
            assert(s2[j - s.len()] == x);
        }
    }
}

/// Each directive still pending is a position of `ds`.
pub proof fn lemma_state_in_range(ds: Seq<DirectiveModel>, seed: Set<Seq<char>>, k: nat)
    ensures
        in_range(ds, state_before(ds, seed, k).0),
    decreases k,
{
    if k > 0 {
        let (c, names) = state_before(ds, seed, (k - 1) as nat);
        lemma_state_in_range(ds, seed, (k - 1) as nat);
        lemma_wave(ds, c, names);
        let skip = wave(ds, c, names).1;
        assert forall|j: int| 0 <= j < skip.len() implies skip[j] < ds.len() by {
            assert(skip.contains(skip[j]));
            let m = choose|m: int| 0 <= m < c.len() && c[m] == skip[j];
        }
    }
}

/// A directive with neither `ifdef` nor `ifndef` runs in the first wave.
pub proof fn lemma_unguarded_runs_first(ds: Seq<DirectiveModel>, seed: Set<Seq<char>>, i: usize)
    requires
        i < ds.len(),
        !has_kind(ds[i as int].params, ParamKind::IfDef),
        !has_kind(ds[i as int].params, ParamKind::IfNotDef),
    ensures
        run_in(ds, seed, 0).contains(i),
{
    let cands = all_positions(ds.len());
    assert(cands[i as int] == i);
    assert(cands.contains(i));
    lemma_values_of(ds[i as int].params, ParamKind::IfDef);
    lemma_values_of(ds[i as int].params, ParamKind::IfNotDef);
    assert(eligible(ds[i as int].params, seed));
    lemma_partition(ds, cands, seed);
    let r = partition(ds, cands, seed).0;
    assert(r.contains(i));
    assert(state_before(ds, seed, 0) == (cands, seed));
    assert(run_in(ds, seed, 0) == r);
}

/// Every name defined before wave `k` is a seed name or is defined by a
/// directive of an earlier wave.
pub proof fn lemma_names_origin(ds: Seq<DirectiveModel>, seed: Set<Seq<char>>, k: nat, n: Seq<char>)
    requires
        state_before(ds, seed, k).1.contains(n),
    ensures
        seed.contains(n) || exists|w: nat, j: int|
            w < k && 0 <= j < run_in(ds, seed, w).len() && #[trigger] values_of(
                ds[run_in(ds, seed, w)[j] as int].params,
                ParamKind::Define,
            ).contains(n),
    decreases k,
{
    if k > 0 {
        let w = (k - 1) as nat;
        let (c, names) = state_before(ds, seed, w);
        if names.contains(n) {
            lemma_names_origin(ds, seed, w, n);
        } else {
            let run = run_in(ds, seed, w);
            assert(defined_by(ds, run).contains(n));
            let j = choose|j: int|
                0 <= j < run.len() && #[trigger] values_of(ds[run[j] as int].params, ParamKind::Define).contains(n);
            assert(w < k && 0 <= j < run_in(ds, seed, w).len() && values_of(
                ds[run_in(ds, seed, w)[j] as int].params,
                ParamKind::Define,
            ).contains(n));
        }
    }
}

/// A directive that runs in wave `k` runs after every name of its `ifdef`s
/// was defined: each is a seed name or is defined by a directive of an
/// earlier wave.
pub proof fn lemma_ifdef_defined_before(
    ds: Seq<DirectiveModel>,
    seed: Set<Seq<char>>,
    k: nat,
    i: usize,
    n: Seq<char>,
)
    requires
        run_in(ds, seed, k).contains(i),
        values_of(ds[i as int].params, ParamKind::IfDef).contains(n),
    ensures
        seed.contains(n) || exists|w: nat, j: int|
            w < k && 0 <= j < run_in(ds, seed, w).len() && #[trigger] values_of(
                ds[run_in(ds, seed, w)[j] as int].params,
                ParamKind::Define,
            ).contains(n),
{
    let (c, names) = state_before(ds, seed, k);
    lemma_wave(ds, c, names);
    assert(eligible(ds[i as int].params, names));
    lemma_names_origin(ds, seed, k, n);
}

proof fn lemma_push_distinct(a: Seq<usize>, x: usize)
    requires
        a.no_duplicates(),
        !a.contains(x),
    ensures
        a.push(x).no_duplicates(),
        forall|y: usize| #[trigger] a.push(x).contains(y) <==> a.contains(y) || y == x,
{
    assert forall|y: usize| #[trigger] a.push(x).contains(y) implies a.contains(y) || y == x by {
        let j = choose|j: int| 0 <= j < a.push(x).len() && a.push(x)[j] == y;
        if j < a.len() {
            assert(a[j] == y);
        }
    }
    assert forall|y: usize| a.contains(y) || y == x implies #[trigger] a.push(x).contains(y) by {
        if y == x {
            assert(a.push(x)[a.len() as int] == x);
        } else {
            let j = choose|j: int| 0 <= j < a.len() && a[j] == y;
            assert(a.push(x)[j] == y);
        }
    }
    assert forall|i: int, j: int| 0 <= i < j < a.push(x).len() implies a.push(x)[i] != a.push(x)[j] by {
        if j == a.len() {
            assert(a.contains(a[i]));
        }
    }
}

proof fn lemma_concat_distinct(a: Seq<usize>, b: Seq<usize>)
    requires
        a.no_duplicates(),
        b.no_duplicates(),
        forall|x: usize| #[trigger] a.contains(x) ==> !b.contains(x),
    ensures
        (a + b).no_duplicates(),
        forall|y: usize| #[trigger] (a + b).contains(y) <==> a.contains(y) || b.contains(y),
{
    assert forall|y: usize| #[trigger] (a + b).contains(y) implies a.contains(y) || b.contains(y) by {
        let j = choose|j: int| 0 <= j < (a + b).len() && (a + b)[j] == y;
        if j < a.len() {
            assert(a[j] == y);
        } else {
            assert(b[j - a.len()] == y);
        }
    }
    assert forall|y: usize| a.contains(y) || b.contains(y) implies #[trigger] (a + b).contains(y) by {
        if a.contains(y) {
            let j = choose|j: int| 0 <= j < a.len() && a[j] == y;
            assert((a + b)[j] == y);
        } else {
            let j = choose|j: int| 0 <= j < b.len() && b[j] == y;
            assert((a + b)[a.len() + j] == y);
        }
    }
    assert forall|i: int, j: int| 0 <= i < j < (a + b).len() implies (a + b)[i] != (a + b)[j] by {
        if i < a.len() && j >= a.len() {
            assert(a.contains(a[i]));
            assert(b.contains(b[j - a.len()]));
        }
    }
}

/// Over candidates without repeats, the parts of `partition` have no
/// repeats and share no directive.
proof fn lemma_partition_distinct(ds: Seq<DirectiveModel>, cands: Seq<usize>, names: Set<Seq<char>>)
    requires
        cands.no_duplicates(),
    ensures
        ({
            let (r, s, g) = partition(ds, cands, names);
            &&& r.no_duplicates() && s.no_duplicates() && g.no_duplicates()
            &&& forall|x: usize| #[trigger] r.contains(x) ==> !s.contains(x) && !g.contains(x)
            &&& forall|x: usize| #[trigger] s.contains(x) ==> !g.contains(x)
        }),
    decreases cands.len(),
{
    if cands.len() > 0 {
        let rest = cands.drop_last();
        let i = cands.last();
        assert(rest.no_duplicates());
        lemma_partition_distinct(ds, rest, names);
        lemma_partition(ds, rest, names);
        let (r0, s0, g0) = partition(ds, rest, names);
        assert(!rest.contains(i)) by {
            if rest.contains(i) {
                let j = choose|j: int| 0 <= j < rest.len() && rest[j] == i;
                assert(cands[j] == cands[cands.len() - 1]);
            }
        }
        if has_kind(ds[i as int].params, ParamKind::IfNotDef) {
            lemma_push_distinct(g0, i);
        } else if eligible(ds[i as int].params, names) {
            lemma_push_distinct(r0, i);
        } else {
            lemma_push_distinct(s0, i);
        }
    }
}

/// Over candidates without repeats, the parts of `split_eligible` have no
/// repeats and share no directive.
proof fn lemma_split_distinct(ds: Seq<DirectiveModel>, cands: Seq<usize>, names: Set<Seq<char>>)
    requires
        cands.no_duplicates(),
    ensures
        ({
            let (r, s) = split_eligible(ds, cands, names);
            &&& r.no_duplicates() && s.no_duplicates()
            &&& forall|x: usize| #[trigger] r.contains(x) ==> !s.contains(x)
        }),
    decreases cands.len(),
{
    if cands.len() > 0 {
        let rest = cands.drop_last();
        let i = cands.last();
        assert(rest.no_duplicates());
        lemma_split_distinct(ds, rest, names);
        lemma_split_eligible(ds, rest, names);
        let (r0, s0) = split_eligible(ds, rest, names);
        assert(!rest.contains(i)) by {
            if rest.contains(i) {
                let j = choose|j: int| 0 <= j < rest.len() && rest[j] == i;
                assert(cands[j] == cands[cands.len() - 1]);
            }
        }
        if eligible(ds[i as int].params, names) {
            lemma_push_distinct(r0, i);
        } else {
            lemma_push_distinct(s0, i);
        }
    }
}

/// Over candidates without repeats, a wave and what it carries over have no
/// repeats and share no directive.
proof fn lemma_wave_distinct(ds: Seq<DirectiveModel>, cands: Seq<usize>, names: Set<Seq<char>>)
    requires
        cands.no_duplicates(),
    ensures
        ({
            let (run, skip) = wave(ds, cands, names);
            &&& run.no_duplicates() && skip.no_duplicates()
            &&& forall|x: usize| #[trigger] run.contains(x) ==> !skip.contains(x)
        }),
{
    lemma_partition_distinct(ds, cands, names);
    lemma_partition(ds, cands, names);
    let (r, s, g) = partition(ds, cands, names);
    if r.len() > 0 {
        lemma_concat_distinct(s, g);
    } else {
        lemma_split_distinct(ds, g, names);
        lemma_split_eligible(ds, g, names);
        let (r2, s2) = split_eligible(ds, g, names);
        lemma_concat_distinct(s, s2);
    }
}

proof fn lemma_pending_distinct(ds: Seq<DirectiveModel>, seed: Set<Seq<char>>, k: nat)
    requires
        ds.len() <= usize::MAX,
    ensures
        state_before(ds, seed, k).0.no_duplicates(),
        forall|w: nat, x: usize|
            w < k && #[trigger] run_in(ds, seed, w).contains(x) ==> !state_before(ds, seed, k).0.contains(x),
    decreases k,
{
    if k == 0 {
        let all = all_positions(ds.len());
        assert forall|i: int, j: int| 0 <= i < j < all.len() implies all[i] != all[j] by {
            assert(all[i] == i as usize && all[j] == j as usize);
        }
    } else {
        let p = (k - 1) as nat;
        lemma_pending_distinct(ds, seed, p);
        let (c, names) = state_before(ds, seed, p);
        lemma_wave_distinct(ds, c, names);
        lemma_wave(ds, c, names);
        let skip = state_before(ds, seed, k).0;
        assert forall|w: nat, x: usize| w < k && #[trigger] run_in(ds, seed, w).contains(x) implies !skip.contains(x) by {
            if w < p {
                assert(!c.contains(x));
            }
        }
    }
}

/// Every name that a directive of wave `k` defines is defined before wave
/// `k + 1`, and a defined name stays defined.
pub proof fn lemma_defines_visible_next_wave(
    ds: Seq<DirectiveModel>,
    seed: Set<Seq<char>>,
    k: nat,
    j: int,
    n: Seq<char>,
)
    requires
        0 <= j < run_in(ds, seed, k).len(),
        values_of(ds[run_in(ds, seed, k)[j] as int].params, ParamKind::Define).contains(n),
    ensures
        state_before(ds, seed, k + 1).1.contains(n),
        state_before(ds, seed, k).1.subset_of(state_before(ds, seed, k + 1).1),
{
    let run = run_in(ds, seed, k);
    assert(defined_by(ds, run).contains(n));
}

/// No directive runs twice: a wave holds each directive once, and a
/// directive that ran in one wave runs in no later wave.
pub proof fn lemma_runs_once(ds: Seq<DirectiveModel>, seed: Set<Seq<char>>, w1: nat, w2: nat, x: usize)
    requires
        ds.len() <= usize::MAX,
        w1 < w2,
        run_in(ds, seed, w1).contains(x),
    ensures
        !run_in(ds, seed, w2).contains(x),
        run_in(ds, seed, w1).no_duplicates(),
{
    lemma_pending_distinct(ds, seed, w2);
    lemma_pending_distinct(ds, seed, w1);
    let (c, names) = state_before(ds, seed, w2);
    lemma_wave(ds, c, names);
    let (c1, names1) = state_before(ds, seed, w1);
    lemma_wave_distinct(ds, c1, names1);
}

/// Sorts the directive at `i` into the triple of `partition`.
fn sort_into(
    directives: &Vec<Directive>,
    i: usize,
    defs: &NameSet,
    run: &mut Vec<usize>,
    skip: &mut Vec<usize>,
    guarded: &mut Vec<usize>,
)
    requires
        i < directives@.len(),
    ensures
        ({
            let ds = directives_view(directives@);
            if has_kind(ds[i as int].params, ParamKind::IfNotDef) {
                final(run)@ == old(run)@ && final(skip)@ == old(skip)@ && final(guarded)@ == old(
                    guarded,
                )@.push(i)
            } else if eligible(ds[i as int].params, defs@) {
                final(run)@ == old(run)@.push(i) && final(skip)@ == old(skip)@ && final(guarded)@
                    == old(guarded)@
            } else {
                final(run)@ == old(run)@ && final(skip)@ == old(skip)@.push(i) && final(guarded)@
                    == old(guarded)@
            }
        }),
{
    let d = &directives[i];
    if d.parameters().has_ifndefs() {
        guarded.push(i);
    } else if fits_requirements(d, defs) {
        run.push(i);
    } else {
        skip.push(i);
    }
}

/// Whether the guards of `directive` hold under the defined names `defs`.
pub fn fits_requirements(directive: &Directive, defs: &NameSet) -> (r: bool)
    ensures
        r == eligible(directive@.params, defs@),
{
    let ifdefs = directive.parameters().ifdefs();
    let ghost ps = directive@.params;
    let mut i: usize = 0;
    while i < ifdefs.len()
        invariant
            i <= ifdefs@.len(),
            ps == directive@.params,
            strings_view(ifdefs@) == values_of(ps, ParamKind::IfDef),
            forall|j: int| 0 <= j < i ==> defs@.contains(#[trigger] ifdefs@[j]@),
        decreases ifdefs@.len() - i,
    {
        if !defs.contains(&ifdefs[i]) {
            assert(strings_view(ifdefs@)[i as int] == ifdefs@[i as int]@);
            assert(values_of(ps, ParamKind::IfDef).contains(ifdefs@[i as int]@));
            return false;
        }
        i = i + 1;
    }
    assert forall|n: Seq<char>| values_of(ps, ParamKind::IfDef).contains(n) implies defs@.contains(n) by {
        let j = choose|j: int| 0 <= j < values_of(ps, ParamKind::IfDef).len() && values_of(ps, ParamKind::IfDef)[j] == n;
        assert(strings_view(ifdefs@)[j] == ifdefs@[j]@);
    }
    let ifndefs = directive.parameters().ifndefs();
    let mut i: usize = 0;
    while i < ifndefs.len()
        invariant
            i <= ifndefs@.len(),
            ps == directive@.params,
            strings_view(ifndefs@) == values_of(ps, ParamKind::IfNotDef),
            forall|j: int| 0 <= j < i ==> !defs@.contains(#[trigger] ifndefs@[j]@),
        decreases ifndefs@.len() - i,
    {
        if defs.contains(&ifndefs[i]) {
            assert(strings_view(ifndefs@)[i as int] == ifndefs@[i as int]@);
            assert(values_of(ps, ParamKind::IfNotDef).contains(ifndefs@[i as int]@));
            return false;
        }
        i = i + 1;
    }
    assert forall|n: Seq<char>| values_of(ps, ParamKind::IfNotDef).contains(n) implies !defs@.contains(n) by {
        let j = choose|j: int| 0 <= j < values_of(ps, ParamKind::IfNotDef).len() && values_of(ps, ParamKind::IfNotDef)[j] == n;
        assert(strings_view(ifndefs@)[j] == ifndefs@[j]@);
    }
    true
}

/// Runs the directives in waves: each wave holds the directives whose guards
/// hold under the names defined so far.
pub struct ExecutionOrchestrator {
    /// The positions of the directives that run in the current wave.
    pub to_run: Vec<usize>,
    /// The positions of the directives carried to the next wave.
    pub to_skip: Vec<usize>,
    /// The number of the current wave, from 0.
    pub iteration: usize,
    /// Whether the current wave is empty; no later wave runs anything.
    pub finished: bool,
}

impl ExecutionOrchestrator {
    /// The first wave over all of `directives`.
    pub fn new(directives: &Vec<Directive>, defs: &NameSet) -> (r: ExecutionOrchestrator)
        ensures
            (r.to_run@, r.to_skip@) == wave(
                directives_view(directives@),
                all_positions(directives@.len()),
                defs@,
            ),
            r.iteration == 0,
            r.finished == (r.to_run@.len() == 0),
    {
        let mut all: Vec<usize> = Vec::new();
        let mut i: usize = 0;
        while i < directives.len()
            invariant
                i <= directives@.len(),
                all@ == all_positions(i as nat),
            decreases directives@.len() - i,
        {
            all.push(i);
            assert(all@ =~= all_positions((i + 1) as nat));
            i = i + 1;
        }
        Self::next_iteration(0, directives, &all, defs)
    }

    /// Starts the next wave from the directives carried over, under the
    /// defined names `defs`.
    pub fn next(&mut self, directives: &Vec<Directive>, defs: &NameSet)
        requires
            in_range(directives_view(directives@), old(self).to_skip@),
            old(self).iteration < usize::MAX,
        ensures
            (final(self).to_run@, final(self).to_skip@) == wave(
                directives_view(directives@),
                old(self).to_skip@,
                defs@,
            ),
            final(self).iteration == old(self).iteration + 1,
            final(self).finished == (final(self).to_run@.len() == 0),
    {
        let new = Self::next_iteration(self.iteration + 1, directives, &self.to_skip, defs);
        *self = new;
    }

    /// The wave numbered `iteration` over the candidates `candidates`, under
    /// the defined names `defs`.
    pub fn next_iteration(
        iteration: usize,
        directives: &Vec<Directive>,
        candidates: &Vec<usize>,
        defs: &NameSet,
    ) -> (r: ExecutionOrchestrator)
        requires
            in_range(directives_view(directives@), candidates@),
        ensures
            (r.to_run@, r.to_skip@) == wave(directives_view(directives@), candidates@, defs@),
            r.iteration == iteration,
            r.finished == (r.to_run@.len() == 0),
    {
        let ghost ds = directives_view(directives@);
        let mut to_run: Vec<usize> = Vec::new();
        let mut to_skip: Vec<usize> = Vec::new();
        let mut second_pass: Vec<usize> = Vec::new();
        let mut k: usize = 0;
        while k < candidates.len()
            invariant
                k <= candidates@.len(),
                ds == directives_view(directives@),
                in_range(ds, candidates@),
                (to_run@, to_skip@, second_pass@) == partition(
                    ds,
                    candidates@.subrange(0, k as int),
                    defs@,
                ),
            decreases candidates@.len() - k,
        {
            sort_into(directives, candidates[k], defs, &mut to_run, &mut to_skip, &mut second_pass);
            assert(candidates@.subrange(0, k + 1).drop_last() =~= candidates@.subrange(0, k as int));
            k = k + 1;
        }
        assert(candidates@.subrange(0, candidates@.len() as int) =~= candidates@);
        proof {
            lemma_partition(ds, candidates@, defs@);
            assert forall|j: int| 0 <= j < second_pass@.len() implies second_pass@[j] < ds.len() by {
                assert(second_pass@.contains(second_pass@[j]));
                let c = choose|c: int| 0 <= c < candidates@.len() && candidates@[c] == second_pass@[j];
            }
        }
        if to_run.len() == 0 {
            let mut later: Vec<usize> = Vec::new();
            let mut k: usize = 0;
            while k < second_pass.len()
                invariant
                    k <= second_pass@.len(),
                    ds == directives_view(directives@),
                    in_range(ds, candidates@),
                    partition(ds, candidates@, defs@).2 == second_pass@,
                    in_range(ds, second_pass@),
                    (to_run@, later@) == split_eligible(ds, second_pass@.subrange(0, k as int), defs@),
                decreases second_pass@.len() - k,
            {
                let i = second_pass[k];
                if fits_requirements(&directives[i], defs) {
                    to_run.push(i);
                } else {
                    later.push(i);
                }
                assert(second_pass@.subrange(0, k + 1).drop_last() =~= second_pass@.subrange(0, k as int));
                k = k + 1;
            }
            assert(second_pass@.subrange(0, second_pass@.len() as int) =~= second_pass@);
            to_skip.append(&mut later);
        } else {
            to_skip.append(&mut second_pass);
        }
        let finished = to_run.len() == 0;
        ExecutionOrchestrator { to_run, to_skip, iteration, finished }
    }
}

} // verus!
