//! Paths inside the game folder, as lists of components, and the places
//! where a target file is looked for.
use vstd::prelude::*;

use crate::parser::directives::Directive;
use crate::parser::parameters::strings_view;

verus! {

/// The components of `p` followed by `name`.
fn joined(p: &Vec<String>, name: &str) -> (r: Vec<String>)
    ensures
        strings_view(r@) == strings_view(p@).push(name@),
{
    let mut out = copy_path(p);
    let ghost before = strings_view(out@);
    out.push(name.to_owned());
    assert(strings_view(out@) =~= before.push(name@));
    out
}

/// A copy of the path `p`.
pub fn copy_path(p: &Vec<String>) -> (r: Vec<String>)
    ensures
        strings_view(r@) == strings_view(p@),
{
    let mut out: Vec<String> = Vec::new();
    let mut i: usize = 0;
    while i < p.len()
        invariant
            i <= p@.len(),
            strings_view(out@) == strings_view(p@).subrange(0, i as int),
        decreases p@.len() - i,
    {
        let ghost before = strings_view(out@);
        out.push(p[i].clone());
        assert(strings_view(out@) =~= before.push(p@[i as int]@));
        assert(strings_view(p@).subrange(0, i + 1) =~= strings_view(p@).subrange(0, i as int).push(p@[i as int]@));
        i = i + 1;
    }
    assert(strings_view(p@).subrange(0, p@.len() as int) =~= strings_view(p@));
    out
}

/// Whether the paths `a` and `b` have the same components.
pub fn same_path(a: &Vec<String>, b: &Vec<String>) -> (r: bool)
    ensures
        r == (strings_view(a@) == strings_view(b@)),
{
    if a.len() != b.len() {
        assert(strings_view(a@).len() != strings_view(b@).len());
        return false;
    }
    let mut i: usize = 0;
    while i < a.len()
        invariant
            a@.len() == b@.len(),
            i <= a@.len(),
            forall|j: int| 0 <= j < i ==> a@[j]@ == b@[j]@,
        decreases a@.len() - i,
    {
        if a[i] != b[i] {
            assert(strings_view(a@)[i as int] != strings_view(b@)[i as int]);
            return false;
        }
        i = i + 1;
    }
    assert(strings_view(a@) =~= strings_view(b@));
    true
}

/// The scripts folder of the mod folder `module`.
pub fn to_scripts(module: Vec<String>) -> (r: Vec<String>)
    ensures
        strings_view(r@) == strings_view(module@).push("content"@).push("scripts"@),
{
    joined(&joined(&module, "content"), "scripts")
}

/// The folder of the mods.
pub fn mods_folder(game_root: &Vec<String>) -> (r: Vec<String>)
    ensures
        strings_view(r@) == strings_view(game_root@).push("mods"@),
{
    joined(game_root, "mods")
}

/// The mod folder that the build writes.
pub fn cahirp_mod(game_root: &Vec<String>) -> (r: Vec<String>)
    ensures
        strings_view(r@) == strings_view(game_root@).push("mods"@).push("mod00000_Cahirp"@),
{
    joined(&mods_folder(game_root), "mod00000_Cahirp")
}

/// The scripts folder that the build writes by default.
pub fn cahirp_scripts(game_root: &Vec<String>) -> (r: Vec<String>)
    ensures
        strings_view(r@) == strings_view(game_root@).push("mods"@).push("mod00000_Cahirp"@).push(
            "content"@,
        ).push("scripts"@),
{
    to_scripts(cahirp_mod(game_root))
}

/// The scripts folder of the pre-merged files.
pub fn merge_scripts(game_root: &Vec<String>) -> (r: Vec<String>)
    ensures
        strings_view(r@) == strings_view(game_root@).push("mods"@).push("mod0000_MergedFiles"@).push(
            "content"@,
        ).push("scripts"@),
{
    to_scripts(joined(&mods_folder(game_root), "mod0000_MergedFiles"))
}

/// The scripts folder of the game's pristine content.
pub fn content_scripts(game_root: &Vec<String>) -> (r: Vec<String>)
    ensures
        strings_view(r@) == strings_view(game_root@).push("content"@).push("content0"@).push(
            "scripts"@,
        ),
{
    joined(&joined(&joined(game_root, "content"), "content0"), "scripts")
}

impl Directive {
    /// The scripts folder that the build writes by default.
    pub fn cahirp_merge_path(game_root: &Vec<String>) -> (r: Vec<String>)
        ensures
            strings_view(r@) == strings_view(game_root@).push("mods"@).push("mod00000_Cahirp"@).push(
                "content"@,
            ).push("scripts"@),
    {
        cahirp_scripts(game_root)
    }
}

/// Whether the mod folder named `name` is enabled: its name does not start
/// with `~`.
pub open spec fn enabled(name: Seq<char>) -> bool {
    !(name.len() > 0 && name[0] == '~')
}

/// The scripts folder of the mod named `name`.
pub open spec fn mod_scripts(game_root: Seq<Seq<char>>, name: Seq<char>) -> Seq<Seq<char>> {
    game_root.push("mods"@).push(name).push("content"@).push("scripts"@)
}

/// Whether the mod named `name` lends its scripts to the search: it is
/// enabled, and its scripts folder is neither the build's own, nor the
/// pre-merged one, nor `out`.
pub open spec fn searched_mod(game_root: Seq<Seq<char>>, out: Seq<Seq<char>>, name: Seq<char>) -> bool {
    &&& enabled(name)
    &&& mod_scripts(game_root, name) != mod_scripts(game_root, "mod00000_Cahirp"@)
    &&& mod_scripts(game_root, name) != mod_scripts(game_root, "mod0000_MergedFiles"@)
    &&& mod_scripts(game_root, name) != out
}

/// The scripts folders of the mods among `names` that lend their scripts to
/// the search, in order.
pub open spec fn searched_mods(game_root: Seq<Seq<char>>, out: Seq<Seq<char>>, names: Seq<Seq<char>>) -> Seq<Seq<Seq<char>>>
    decreases names.len(),
{
    if names.len() == 0 {
        Seq::empty()
    } else if searched_mod(game_root, out, names.last()) {
        searched_mods(game_root, out, names.drop_last()).push(mod_scripts(game_root, names.last()))
    } else {
        searched_mods(game_root, out, names.drop_last())
    }
}

/// The views of a list of paths.
pub open spec fn paths_view(v: Seq<Vec<String>>) -> Seq<Seq<Seq<char>>> {
    v.map_values(|p: Vec<String>| strings_view(p@))
}

/// The scripts folders of the mods named `names` that the search for target
/// files goes through, in order: enabled mods other than the build's own
/// output and the pre-merged files.
pub fn mod_folders(game_root: &Vec<String>, out: &Vec<String>, names: &Vec<String>) -> (r: Vec<Vec<String>>)
    ensures
        paths_view(r@) == searched_mods(strings_view(game_root@), strings_view(out@), strings_view(names@)),
{
    let ghost root = strings_view(game_root@);
    let ghost ns = strings_view(names@);
    let cahirp = cahirp_scripts(game_root);
    let merged = merge_scripts(game_root);
    let mut found: Vec<Vec<String>> = Vec::new();
    let mut i: usize = 0;
    while i < names.len()
        invariant
            i <= names@.len(),
            ns == strings_view(names@),
            root == strings_view(game_root@),
            strings_view(cahirp@) == mod_scripts(root, "mod00000_Cahirp"@),
            strings_view(merged@) == mod_scripts(root, "mod0000_MergedFiles"@),
            paths_view(found@) == searched_mods(root, strings_view(out@), ns.subrange(0, i as int)),
        decreases names@.len() - i,
    {
        assert(ns.subrange(0, i + 1).drop_last() =~= ns.subrange(0, i as int));
        assert(ns[i as int] == names@[i as int]@);
        let name = &names[i];
        let disabled = starts_with_tilde(name);
        let folder = to_scripts(joined(&mods_folder(game_root), name.as_str()));
        if !disabled && !same_path(&folder, &cahirp) && !same_path(&folder, &merged) && !same_path(&folder, out) {
            let ghost before = paths_view(found@);
            found.push(folder);
            assert(paths_view(found@) =~= before.push(mod_scripts(root, ns[i as int])));
        }
        i = i + 1;
    }
    assert(ns.subrange(0, names@.len() as int) =~= ns);
    found
}

/// Whether the name `name` starts with `~`.
fn starts_with_tilde(name: &String) -> (r: bool)
    ensures
        r == !enabled(name@),
{
    let cs = crate::text::chars_of(name.as_str());
    cs.len() > 0 && cs[0] == '~'
}

/// The places where the target file `suffix` is looked for, in order: the
/// output folder, the pre-merged scripts, the scripts of each searched mod,
/// and the game's pristine scripts.
pub open spec fn search_order(
    game_root: Seq<Seq<char>>,
    out: Seq<Seq<char>>,
    mods: Seq<Seq<Seq<char>>>,
    suffix: Seq<char>,
) -> Seq<Seq<Seq<char>>> {
    seq![out.push(suffix), mod_scripts(game_root, "mod0000_MergedFiles"@).push(suffix)] + mods.map_values(
        |m: Seq<Seq<char>>| m.push(suffix),
    ) + seq![game_root.push("content"@).push("content0"@).push("scripts"@).push(suffix)]
}

/// The places where the target file `suffix` is looked for, in order.
pub fn search_paths(game_root: &Vec<String>, out: &Vec<String>, mods: &Vec<Vec<String>>, suffix: &String) -> (r: Vec<Vec<String>>)
    ensures
        paths_view(r@) == search_order(strings_view(game_root@), strings_view(out@), paths_view(mods@), suffix@),
{
    let ghost root = strings_view(game_root@);
    let ghost ms = paths_view(mods@);
    let mut r: Vec<Vec<String>> = Vec::new();
    r.push(joined(out, suffix.as_str()));
    r.push(joined(&merge_scripts(game_root), suffix.as_str()));
    let ghost head = seq![strings_view(out@).push(suffix@), mod_scripts(root, "mod0000_MergedFiles"@).push(suffix@)];
    assert(paths_view(r@) =~= head);
    let mut i: usize = 0;
    while i < mods.len()
        invariant
            i <= mods@.len(),
            ms == paths_view(mods@),
            paths_view(r@) == head + ms.subrange(0, i as int).map_values(|m: Seq<Seq<char>>| m.push(suffix@)),
        decreases mods@.len() - i,
    {
        let ghost before = paths_view(r@);
        r.push(joined(&mods[i], suffix.as_str()));
        assert(ms[i as int] == strings_view(mods@[i as int]@));
        assert(paths_view(r@) =~= before.push(ms[i as int].push(suffix@)));
        assert(ms.subrange(0, i + 1).map_values(|m: Seq<Seq<char>>| m.push(suffix@)) =~= ms.subrange(0, i as int).map_values(|m: Seq<Seq<char>>| m.push(suffix@)).push(ms[i as int].push(suffix@)));
        i = i + 1;
    }
    let ghost before = paths_view(r@);
    r.push(joined(&content_scripts(game_root), suffix.as_str()));
    assert(ms.subrange(0, mods@.len() as int) =~= ms);
    assert(paths_view(r@) =~= before.push(root.push("content"@).push("content0"@).push("scripts"@).push(suffix@)));
    r
}

} // verus!
