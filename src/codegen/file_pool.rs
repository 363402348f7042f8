//! The pool of files: the contents of every target file, held once each, and
//! the build passes that patch them.
use vstd::prelude::*;

use crate::codegen::emitter::{emit_model, CodeEmitter};
use crate::codegen::names::NameSet;
use crate::codegen::orchestrator::{
    in_range, lemma_state_in_range, lemma_wave, run_in, state_before, wave, defined_by,
    ExecutionOrchestrator,
};
use crate::parser::directives::{directives_view, Directive, DirectiveModel};
use crate::parser::parameters::{strings_view, values_of, ParamKind};
use crate::text::{chars_of, extend_from, string_of};

verus! {

/// A file of the pool: its path suffix and its contents.
pub type FileModel = (Seq<char>, Seq<char>);

/// The position of the file with suffix `f` in `files`, or -1.
pub open spec fn file_index(files: Seq<FileModel>, f: Seq<char>) -> int
    decreases files.len(),
{
    if files.len() == 0 {
        -1
    } else if files.last().0 == f {
        files.len() - 1
    } else {
        file_index(files.drop_last(), f)
    }
}

/// `file_index` finds the file with suffix `f`, and finds none only when no
/// file has it.
pub proof fn lemma_file_index_absent(files: Seq<FileModel>, f: Seq<char>)
    ensures
        -1 <= file_index(files, f) < files.len(),
        file_index(files, f) >= 0 ==> files[file_index(files, f)].0 == f,
        file_index(files, f) == -1 ==> forall|i: int| 0 <= i < files.len() ==> files[i].0 != f,
    decreases files.len(),
{
    if files.len() > 0 && files.last().0 != f {
        lemma_file_index_absent(files.drop_last(), f);
        assert forall|i: int| 0 <= i < files.len() - 1 implies files[i] == files.drop_last()[i] by {}
    }
}

/// The files after `insert_file` of each of `found`, in order: a file whose
/// suffix the pool holds already is skipped.
pub open spec fn add_files(files: Seq<FileModel>, found: Seq<FileModel>) -> Seq<FileModel>
    decreases found.len(),
{
    if found.len() == 0 {
        files
    } else {
        let cur = add_files(files, found.drop_last());
        if file_index(cur, found.last().0) == -1 {
            cur.push(found.last())
        } else {
            cur
        }
    }
}

/// Filling a pool file by file keeps one entry per suffix: the files held
/// before stay as they were, every suffix of `found` gets an entry, a suffix
/// new to the pool holds the contents of its first occurrence in `found`,
/// and every entry added comes from `found`.
pub proof fn lemma_add_files(files: Seq<FileModel>, found: Seq<FileModel>)
    requires
        unique_suffixes(files),
    ensures
        unique_suffixes(add_files(files, found)),
        files.len() <= add_files(files, found).len(),
        forall|k: int| 0 <= k < files.len() ==> #[trigger] add_files(files, found)[k] == files[k],
        forall|i: int| 0 <= i < found.len() ==> file_index(add_files(files, found), #[trigger] found[i].0) >= 0,
        forall|i: int|
            0 <= i < found.len() && file_index(files, #[trigger] found[i].0) == -1 && (forall|j: int|
                0 <= j < i ==> found[j].0 != found[i].0) ==> add_files(files, found)[file_index(
                add_files(files, found),
                found[i].0,
            )] == found[i],
        forall|k: int|
            files.len() <= k < add_files(files, found).len() ==> exists|j: int|
                0 <= j < found.len() && #[trigger] add_files(files, found)[k] == found[j],
    decreases found.len(),
{
    if found.len() > 0 {
        let init = found.drop_last();
        let e = found.last();
        lemma_add_files(files, init);
        let cur = add_files(files, init);
        let res = add_files(files, found);
        lemma_file_index_absent(cur, e.0);
        if file_index(cur, e.0) == -1 {
            assert forall|a: int, b: int| 0 <= a < b < res.len() implies res[a].0 != res[b].0 by {
                if b == cur.len() {
                    assert(res[a] == cur[a]);
                }
            }
        }
        lemma_file_index_absent(res, e.0);
        assert forall|i: int| 0 <= i < found.len() implies file_index(res, #[trigger] found[i].0) >= 0 by {
            if i < init.len() {
                assert(found[i] == init[i]);
                lemma_file_index_absent(cur, init[i].0);
                lemma_file_index_absent(res, init[i].0);
                if file_index(res, init[i].0) == -1 {
                    let k = file_index(cur, init[i].0);
                    assert(res[k] == cur[k]);
                }
            }
        }
        assert forall|i: int|
            0 <= i < found.len() && file_index(files, #[trigger] found[i].0) == -1 && (forall|j: int|
                0 <= j < i ==> found[j].0 != found[i].0) implies res[file_index(res, found[i].0)]
            == found[i] by {
            if i < init.len() {
                let f = init[i].0;
                assert(found[i] == init[i]);
                assert forall|j: int| 0 <= j < i implies init[j].0 != init[i].0 by {
                    assert(found[j] == init[j]);
                }
                assert(file_index(files, init[i].0) == -1);
                assert(file_index(cur, f) >= 0);
                lemma_file_index_absent(cur, f);
                let k = file_index(cur, f);
                assert(cur[k] == init[i]);
                if file_index(cur, e.0) == -1 {
                    assert(f != e.0);
                    assert(res.drop_last() =~= cur);
                    assert(file_index(res, f) == file_index(cur, f));
                    assert(res[k] == cur[k]);
                }
            } else {
                lemma_file_index_absent(files, e.0);
                if file_index(cur, e.0) == -1 {
                    assert(res.last() == e);
                    assert(file_index(res, e.0) == cur.len());
                }
                if file_index(cur, e.0) != -1 {
                    let k = file_index(cur, e.0);
                    if k < files.len() {
                        assert(cur[k] == files[k]);
                    } else {
                        let j = choose|j: int| 0 <= j < init.len() && #[trigger] cur[k] == init[j];
                        assert(found[j] == init[j]);
                    }
                }
            }
        }
        assert forall|k: int| files.len() <= k < res.len() implies exists|j: int|
            0 <= j < found.len() && #[trigger] res[k] == found[j] by {
            if k < cur.len() {
                let j = choose|j: int| 0 <= j < init.len() && #[trigger] cur[k] == init[j];
                assert(res[k] == found[j]);
            } else {
                assert(res[k] == found[found.len() - 1]);
            }
        }
    }
}

/// Whether no two files of `files` share a suffix.
pub open spec fn unique_suffixes(files: Seq<FileModel>) -> bool {
    forall|i: int, j: int| 0 <= i < j < files.len() ==> files[i].0 != files[j].0
}

/// The files after the directive `d` has emitted into those of `fs`, in
/// order, and the suffixes where it found no location. A suffix with no file
/// in the pool is passed over.
pub open spec fn apply_files(files: Seq<FileModel>, d: DirectiveModel, fs: Seq<Seq<char>>) -> (
    Seq<FileModel>,
    Seq<Seq<char>>,
)
    decreases fs.len(),
{
    if fs.len() == 0 {
        (files, Seq::empty())
    } else {
        let (cur, miss) = apply_files(files, d, fs.drop_last());
        let f = fs.last();
        let j = file_index(cur, f);
        if j < 0 {
            (cur, miss)
        } else {
            match emit_model(cur[j].1, d.params, d.code) {
                Some(o) => (cur.update(j, (f, o)), miss),
                None => (cur, miss.push(f)),
            }
        }
    }
}

/// The misses `fs` of the directive at position `i`.
pub open spec fn tag_misses(i: usize, fs: Seq<Seq<char>>) -> Seq<(usize, Seq<char>)> {
    fs.map_values(|f: Seq<char>| (i, f))
}

/// The files after the directives at the positions `run` have emitted, in
/// order, and the misses, each with the position of its directive.
pub open spec fn apply_run(files: Seq<FileModel>, ds: Seq<DirectiveModel>, run: Seq<usize>) -> (
    Seq<FileModel>,
    Seq<(usize, Seq<char>)>,
)
    decreases run.len(),
{
    if run.len() == 0 {
        (files, Seq::empty())
    } else {
        let (cur, misses) = apply_run(files, ds, run.drop_last());
        let i = run.last();
        let (next, miss) = apply_files(cur, ds[i as int], values_of(ds[i as int].params, ParamKind::File));
        (next, misses + tag_misses(i, miss))
    }
}

/// The files and the misses after the waves before wave `k`.
pub open spec fn files_after(
    files: Seq<FileModel>,
    ds: Seq<DirectiveModel>,
    seed: Set<Seq<char>>,
    k: nat,
) -> (Seq<FileModel>, Seq<(usize, Seq<char>)>)
    decreases k,
{
    if k == 0 {
        (files, Seq::empty())
    } else {
        let (cur, misses) = files_after(files, ds, seed, (k - 1) as nat);
        let (next, more) = apply_run(cur, ds, run_in(ds, seed, (k - 1) as nat));
        (next, misses + more)
    }
}

/// The names an installed mod of each of `mods` defines from the start.
pub open spec fn seed_names(mods: Seq<Seq<char>>) -> Set<Seq<char>> {
    Set::new(|n: Seq<char>| exists|i: int| 0 <= i < mods.len() && n == "installed."@ + #[trigger] mods[i])
}

/// The models of the misses of a build.
pub open spec fn misses_view(v: Seq<(usize, String)>) -> Seq<(usize, Seq<char>)> {
    v.map_values(|m: (usize, String)| (m.0, m.1@))
}

/// What a build reports: how many waves ran, and each file where a
/// directive found no location, with the directive's position.
#[derive(Debug)]
pub struct EmitReport {
    pub waves: usize,
    pub misses: Vec<(usize, String)>,
}

/// The directives of a build and the contents of their target files, each
/// file held once.
#[derive(Debug)]
pub struct FilePool {
    directives: Vec<Directive>,
    suffixes: Vec<String>,
    contents: Vec<String>,
}

impl FilePool {
    /// The files, in the order they were added.
    pub closed spec fn files(&self) -> Seq<FileModel> {
        Seq::new(self.suffixes@.len(), |i: int| (self.suffixes@[i]@, self.contents@[i]@))
    }

    /// The directives.
    pub closed spec fn spec_directives(&self) -> Seq<DirectiveModel> {
        directives_view(self.directives@)
    }

    /// The suffixes and the contents pair up.
    pub closed spec fn paired(&self) -> bool {
        self.suffixes@.len() == self.contents@.len()
    }

    /// Each file is held once.
    pub open spec fn wf(&self) -> bool {
        &&& self.paired()
        &&& unique_suffixes(self.files())
    }

    /// A pool of the directives `directives`, with no file yet.
    pub fn new(directives: Vec<Directive>) -> (r: FilePool)
        ensures
            r.wf(),
            r.files() == Seq::<FileModel>::empty(),
            r.spec_directives() == directives_view(directives@),
    {
        let r = FilePool { directives, suffixes: Vec::new(), contents: Vec::new() };
        assert(r.files() =~= Seq::<FileModel>::empty());
        r
    }

    /// The directives.
    pub fn directives(&self) -> (r: &Vec<Directive>)
        ensures
            directives_view(r@) == self.spec_directives(),
    {
        &self.directives
    }

    /// The position of the file with suffix `suffix`.
    fn position(&self, suffix: &String) -> (r: Option<usize>)
        requires
            self.wf(),
        ensures
            match r {
                Some(j) => j == file_index(self.files(), suffix@) && j < self.files().len(),
                None => file_index(self.files(), suffix@) == -1,
            },
    {
        let mut j = self.suffixes.len();
        assert(self.files().subrange(0, j as int) =~= self.files());
        while j > 0
            invariant
                j <= self.suffixes@.len(),
                self.wf(),
                file_index(self.files(), suffix@) == file_index(self.files().subrange(0, j as int), suffix@),
            decreases j,
        {
            assert(self.files().subrange(0, j as int).drop_last() =~= self.files().subrange(0, j - 1));
            if self.suffixes[j - 1] == *suffix {
                return Some(j - 1);
            }
            j = j - 1;
        }
        None
    }

    /// The contents of the file with suffix `suffix`, when the pool holds it.
    pub fn contents_of(&self, suffix: &String) -> (r: Option<&String>)
        requires
            self.wf(),
        ensures
            match r {
                Some(c) => file_index(self.files(), suffix@) >= 0 && c@ == self.files()[file_index(
                    self.files(),
                    suffix@,
                )].1,
                None => file_index(self.files(), suffix@) == -1,
            },
    {
        match self.position(suffix) {
            Some(j) => Some(&self.contents[j]),
            None => None,
        }
    }

    /// Adds the file `suffix` with `contents`, unless the pool holds it
    /// already; says whether it was added.
    pub fn insert_file(&mut self, suffix: String, contents: String) -> (r: bool)
        requires
            old(self).wf(),
        ensures
            final(self).wf(),
            final(self).spec_directives() == old(self).spec_directives(),
            r == (file_index(old(self).files(), suffix@) == -1),
            final(self).files() == if r {
                old(self).files().push((suffix@, contents@))
            } else {
                old(self).files()
            },
    {
        if self.position(&suffix).is_some() {
            return false;
        }
        proof {
            lemma_file_index_absent(self.files(), suffix@);
        }
        let ghost before = self.files();
        self.suffixes.push(suffix);
        self.contents.push(contents);
        assert(self.files() =~= before.push((suffix@, contents@)));
        true
    }

    /// The files, handed out for writing: suffix and contents.
    pub fn into_files(self) -> (r: Vec<(String, String)>)
        requires
            self.wf(),
        ensures
            r@.map_values(|e: (String, String)| (e.0@, e.1@)) == self.files(),
    {
        let FilePool { directives: _, suffixes, contents } = self;
        let ghost files = Seq::new(suffixes@.len(), |i: int| (suffixes@[i]@, contents@[i]@));
        let mut out: Vec<(String, String)> = Vec::new();
        let mut suffixes = suffixes;
        let mut contents = contents;
        let ghost mut k: int = 0;
        while suffixes.len() > 0
            invariant
                suffixes@.len() == contents@.len(),
                0 <= k <= files.len(),
                suffixes@.len() == files.len() - k,
                forall|i: int| 0 <= i < suffixes@.len() ==> (suffixes@[i]@, contents@[i]@) == files[k + i],
                out@.map_values(|e: (String, String)| (e.0@, e.1@)) == files.subrange(0, k),
            decreases suffixes@.len(),
        {
            assert((suffixes@[0]@, contents@[0]@) == files[k]);
            let ghost os = suffixes@;
            let ghost oc = contents@;
            let s = suffixes.remove(0);
            let c = contents.remove(0);
            let ghost before = out@.map_values(|e: (String, String)| (e.0@, e.1@));
            out.push((s, c));
            assert(out@.map_values(|e: (String, String)| (e.0@, e.1@)) =~= before.push(files[k]));
            assert(files.subrange(0, k + 1) =~= files.subrange(0, k).push(files[k]));
            assert forall|i: int| 0 <= i < suffixes@.len() implies (suffixes@[i]@, contents@[i]@)
                == files[k + 1 + i] by {
                assert(suffixes@[i] == os[i + 1]);
                assert(contents@[i] == oc[i + 1]);
            }
            proof {
                k = k + 1;
            }
        }
        assert(files.subrange(0, k) =~= files);
        out
    }

    /// Emits the directive at position `i` into each of its target files
    /// that the pool holds; returns the suffixes where it found no location.
    fn emit_directive(&mut self, i: usize) -> (r: Vec<String>)
        requires
            old(self).wf(),
            i < old(self).spec_directives().len(),
        ensures
            final(self).wf(),
            final(self).spec_directives() == old(self).spec_directives(),
            (final(self).files(), strings_view(r@)) == apply_files(
                old(self).files(),
                old(self).spec_directives()[i as int],
                values_of(old(self).spec_directives()[i as int].params, ParamKind::File),
            ),
    {
        let ghost d = self.spec_directives()[i as int];
        let ghost start = self.files();
        let suffixes = self.directives[i].file_suffixes();
        let ghost fs = values_of(d.params, ParamKind::File);
        let mut miss: Vec<String> = Vec::new();
        let mut q: usize = 0;
        while q < suffixes.len()
            invariant
                self.wf(),
                i < self.directives@.len(),
                self.spec_directives()[i as int] == d,
                self.spec_directives() == old(self).spec_directives(),
                strings_view(suffixes@) == fs,
                q <= suffixes@.len(),
                (self.files(), strings_view(miss@)) == apply_files(start, d, fs.subrange(0, q as int)),
            decreases suffixes@.len() - q,
        {
            let ghost cur = self.files();
            assert(fs.subrange(0, q + 1).drop_last() =~= fs.subrange(0, q as int));
            assert(fs[q as int] == suffixes@[q as int]@);
            proof {
                lemma_file_index_absent(cur, fs[q as int]);
            }
            match self.position(&suffixes[q]) {
                None => {},
                Some(j) => {
                    let current = self.contents[j].clone();
                    let directive = &self.directives[i];
                    assert(directive@ == d);
                    match directive.insert.emit(current, directive.code.as_str()) {
                        Ok(out) => {
                            let ghost before = self.files();
                            self.contents.set(j, out);
                            assert(self.files() =~= before.update(j as int, (fs[q as int], out@)));
                            assert forall|a: int, b: int|
                                0 <= a < b < self.files().len() implies self.files()[a].0 != self.files()[b].0 by {
                                assert(self.files()[a].0 == before[a].0);
                                assert(self.files()[b].0 == before[b].0);
                            }
                        },
                        Err(_) => {
                            let ghost before = strings_view(miss@);
                            miss.push(suffixes[q].clone());
                            assert(strings_view(miss@) =~= before.push(fs[q as int]));
                        },
                    }
                },
            }
            q = q + 1;
        }
        assert(fs.subrange(0, suffixes@.len() as int) =~= fs);
        miss
    }

    /// Emits the directives at the positions `run`, in order; appends each
    /// miss, with its directive's position, to `misses`.
    fn emit_wave(&mut self, run: &Vec<usize>, misses: &mut Vec<(usize, String)>)
        requires
            old(self).wf(),
            in_range(old(self).spec_directives(), run@),
        ensures
            final(self).wf(),
            final(self).spec_directives() == old(self).spec_directives(),
            final(self).files() == apply_run(old(self).files(), old(self).spec_directives(), run@).0,
            misses_view(final(misses)@) == misses_view(old(misses)@) + apply_run(
                old(self).files(),
                old(self).spec_directives(),
                run@,
            ).1,
    {
        let ghost ds = self.spec_directives();
        let ghost start = self.files();
        let ghost start_misses = misses_view(misses@);
        let mut m: usize = 0;
        while m < run.len()
            invariant
                self.wf(),
                self.spec_directives() == ds,
                in_range(ds, run@),
                m <= run@.len(),
                self.files() == apply_run(start, ds, run@.subrange(0, m as int)).0,
                misses_view(misses@) == start_misses + apply_run(start, ds, run@.subrange(0, m as int)).1,
            decreases run@.len() - m,
        {
            let i = run[m];
            assert(run@.subrange(0, m + 1).drop_last() =~= run@.subrange(0, m as int));
            let ghost before = misses_view(misses@);
            let miss = self.emit_directive(i);
            let mut q: usize = 0;
            while q < miss.len()
                invariant
                    q <= miss@.len(),
                    misses_view(misses@) == before + tag_misses(i, strings_view(miss@).subrange(0, q as int)),
                decreases miss@.len() - q,
            {
                let ghost b2 = misses_view(misses@);
                misses.push((i, miss[q].clone()));
                assert(misses_view(misses@) =~= b2.push((i, miss@[q as int]@)));
                assert(tag_misses(i, strings_view(miss@).subrange(0, q + 1)) =~= tag_misses(
                    i,
                    strings_view(miss@).subrange(0, q as int),
                ).push((i, miss@[q as int]@)));
                q = q + 1;
            }
            assert(strings_view(miss@).subrange(0, miss@.len() as int) =~= strings_view(miss@));
            assert(misses_view(misses@) =~= start_misses + apply_run(start, ds, run@.subrange(0, m + 1)).1);
            m = m + 1;
        }
        assert(run@.subrange(0, run@.len() as int) =~= run@);
    }
}

/// Adds to `names` every name that the directives at the positions `run`
/// define.
fn define_wave(directives: &Vec<Directive>, run: &Vec<usize>, names: &mut NameSet)
    requires
        in_range(directives_view(directives@), run@),
    ensures
        final(names)@ == old(names)@.union(defined_by(directives_view(directives@), run@)),
{
    let ghost ds = directives_view(directives@);
    let mut m: usize = 0;
    while m < run.len()
        invariant
            in_range(ds, run@),
            ds == directives_view(directives@),
            m <= run@.len(),
            names@ == old(names)@.union(defined_by(ds, run@.subrange(0, m as int))),
        decreases run@.len() - m,
    {
        let i = run[m];
        let defines = directives[i].parameters().defines();
        let ghost vals = values_of(ds[i as int].params, ParamKind::Define);
        let mut q: usize = 0;
        while q < defines.len()
            invariant
                q <= defines@.len(),
                strings_view(defines@) == vals,
                names@ == old(names)@.union(defined_by(ds, run@.subrange(0, m as int))).union(
                    vals.subrange(0, q as int).to_set(),
                ),
            decreases defines@.len() - q,
        {
            names.insert(&defines[q]);
            assert(vals.subrange(0, q + 1).to_set() =~= vals.subrange(0, q as int).to_set().insert(
                vals[q as int],
            )) by {
                assert forall|n: Seq<char>| #[trigger] vals.subrange(0, q + 1).to_set().contains(n) implies vals.subrange(0, q as int).to_set().insert(vals[q as int]).contains(n) by {
                    let j = choose|j: int| 0 <= j < q + 1 && #[trigger] vals.subrange(0, q + 1)[j] == n;
                    if j < q {
                        assert(vals.subrange(0, q as int)[j] == n);
                    }
                }
                assert forall|n: Seq<char>| #[trigger] vals.subrange(0, q as int).to_set().contains(n) implies vals.subrange(0, q + 1).to_set().contains(n) by {
                    let j = choose|j: int| 0 <= j < q && #[trigger] vals.subrange(0, q as int)[j] == n;
                    assert(vals.subrange(0, q + 1)[j] == n);
                }
                assert(vals.subrange(0, q + 1)[q as int] == vals[q as int]);
            }
            q = q + 1;
        }
        assert(vals.subrange(0, defines@.len() as int) =~= vals);
        assert(defined_by(ds, run@.subrange(0, m + 1)) =~= defined_by(ds, run@.subrange(0, m as int)).union(vals.to_set())) by {
            let prev = run@.subrange(0, m as int);
            let next = run@.subrange(0, m + 1);
            assert forall|n: Seq<char>| #[trigger] defined_by(ds, next).contains(n) implies defined_by(ds, prev).union(vals.to_set()).contains(n) by {
                let j = choose|j: int| 0 <= j < next.len() && #[trigger] values_of(ds[next[j] as int].params, ParamKind::Define).contains(n);
                if j < m {
                    assert(prev[j] == next[j]);
                    assert(values_of(ds[prev[j] as int].params, ParamKind::Define).contains(n));
                } else {
                    assert(next[j] == i);
                }
            }
            assert forall|n: Seq<char>| #[trigger] defined_by(ds, prev).union(vals.to_set()).contains(n) implies defined_by(ds, next).contains(n) by {
                if defined_by(ds, prev).contains(n) {
                    let j = choose|j: int| 0 <= j < prev.len() && #[trigger] values_of(ds[prev[j] as int].params, ParamKind::Define).contains(n);
                    assert(prev[j] == next[j]);
                    assert(values_of(ds[next[j] as int].params, ParamKind::Define).contains(n));
                } else {
                    assert(next[m as int] == i);
                    assert(values_of(ds[next[m as int] as int].params, ParamKind::Define).contains(n));
                }
            }
        }
        m = m + 1;
    }
    assert(run@.subrange(0, run@.len() as int) =~= run@);
}

/// The names that the installed mods `mod_names` define from the start.
fn seed(mod_names: &Vec<String>) -> (r: NameSet)
    ensures
        r@ == seed_names(strings_view(mod_names@)),
{
    let ghost mods = strings_view(mod_names@);
    let mut names = NameSet::new();
    let mut i: usize = 0;
    while i < mod_names.len()
        invariant
            i <= mod_names@.len(),
            mods == strings_view(mod_names@),
            names@ == seed_names(mods.subrange(0, i as int)),
        decreases mod_names@.len() - i,
    {
        let mut v = chars_of("installed.");
        let nm = chars_of(mod_names[i].as_str());
        extend_from(&mut v, &nm, 0, nm.len());
        assert(nm@.subrange(0, nm@.len() as int) =~= nm@);
        let name = string_of(&v);
        names.insert(&name);
        let ghost prev = mods.subrange(0, i as int);
        let ghost next = mods.subrange(0, i + 1);
        assert(seed_names(next) =~= seed_names(prev).insert(name@)) by {
            assert(next[i as int] == mods[i as int]);
            assert forall|n: Seq<char>| #[trigger] seed_names(next).contains(n) implies seed_names(prev).insert(name@).contains(n) by {
                let j = choose|j: int| 0 <= j < next.len() && n == "installed."@ + #[trigger] next[j];
                if j < i {
                    assert(prev[j] == next[j]);
                }
            }
            assert forall|n: Seq<char>| #[trigger] seed_names(prev).contains(n) implies seed_names(next).contains(n) by {
                let j = choose|j: int| 0 <= j < prev.len() && n == "installed."@ + #[trigger] prev[j];
                assert(prev[j] == next[j]);
            }
            assert(name@ == "installed."@ + next[i as int]);
        }
        i = i + 1;
    }
    assert(mods.subrange(0, mod_names@.len() as int) =~= mods);
    names
}

impl FilePool {
    /// Runs the build: from the names that the installed mods `mod_names`
    /// define, runs the directives wave by wave, each wave holding the
    /// directives whose guards hold under the names defined so far, until a
    /// wave is empty. Each directive emits into its target files in the pool;
    /// where it finds no location the file stays as it is and the miss is
    /// reported.
    pub fn emit(&mut self, mod_names: &Vec<String>) -> (r: EmitReport)
        requires
            old(self).wf(),
        ensures
            final(self).wf(),
            final(self).spec_directives() == old(self).spec_directives(),
            ({
                let ds = old(self).spec_directives();
                let seed = seed_names(strings_view(mod_names@));
                &&& forall|w: nat| w < r.waves ==> run_in(ds, seed, w).len() > 0
                &&& run_in(ds, seed, r.waves as nat).len() == 0
                &&& final(self).files() == files_after(old(self).files(), ds, seed, r.waves as nat).0
                &&& misses_view(r.misses@) == files_after(
                    old(self).files(),
                    ds,
                    seed,
                    r.waves as nat,
                ).1
            }),
    {
        let ghost ds = self.spec_directives();
        let ghost start = self.files();
        let mut names = seed(mod_names);
        let ghost seed_set = names@;
        let count = self.directives.len();
        let mut orch = ExecutionOrchestrator::new(&self.directives, &names);
        let mut misses: Vec<(usize, String)> = Vec::new();
        let mut waves: usize = 0;
        proof {
            all_positions_len_holds(ds.len());
        }
        assert(misses_view(misses@) =~= Seq::<(usize, Seq<char>)>::empty());
        while !orch.finished
            invariant
                self.wf(),
                self.spec_directives() == ds,
                count == ds.len(),
                names@ == state_before(ds, seed_set, waves as nat).1,
                (orch.to_run@, orch.to_skip@) == wave(
                    ds,
                    state_before(ds, seed_set, waves as nat).0,
                    state_before(ds, seed_set, waves as nat).1,
                ),
                orch.finished == (orch.to_run@.len() == 0),
                orch.iteration == waves,
                waves + state_before(ds, seed_set, waves as nat).0.len() <= ds.len(),
                forall|w: nat| w < waves ==> run_in(ds, seed_set, w).len() > 0,
                self.files() == files_after(start, ds, seed_set, waves as nat).0,
                misses_view(misses@) == files_after(start, ds, seed_set, waves as nat).1,
            decreases orch.to_run@.len() + orch.to_skip@.len(),
        {
            let ghost cands = state_before(ds, seed_set, waves as nat).0;
            proof {
                lemma_wave(ds, cands, names@);
                lemma_state_in_range(ds, seed_set, waves as nat);
                assert forall|j: int| 0 <= j < orch.to_run@.len() implies orch.to_run@[j] < ds.len() by {
                    assert(orch.to_run@.contains(orch.to_run@[j]));
                    let c = choose|c: int| 0 <= c < cands.len() && cands[c] == orch.to_run@[j];
                }
                assert forall|j: int| 0 <= j < orch.to_skip@.len() implies orch.to_skip@[j] < ds.len() by {
                    assert(orch.to_skip@.contains(orch.to_skip@[j]));
                    let c = choose|c: int| 0 <= c < cands.len() && cands[c] == orch.to_skip@[j];
                }
            }
            self.emit_wave(&orch.to_run, &mut misses);
            define_wave(&self.directives, &orch.to_run, &mut names);
            let ghost carried = orch.to_skip@;
            orch.next(&self.directives, &names);
            proof {
                lemma_wave(ds, carried, names@);
            }
            waves = waves + 1;
        }
        EmitReport { waves, misses }
    }
}

/// The positions `0..n` count `n`.
proof fn all_positions_len_holds(n: nat)
    ensures
        crate::codegen::orchestrator::all_positions(n).len() == n,
{
}

} // verus!
