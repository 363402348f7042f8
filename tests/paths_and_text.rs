use cahirp::encoding::strip_carriage_returns;
use cahirp::game::paths::{
    cahirp_mod, cahirp_scripts, content_scripts, merge_scripts, mod_folders, mods_folder,
    search_paths, to_scripts,
};
use cahirp::parser::directives::Directive;

fn path(parts: &[&str]) -> Vec<String> {
    parts.iter().map(|p| p.to_string()).collect()
}

#[test]
fn carriage_returns_are_removed() {
    assert_eq!(strip_carriage_returns("a\r\nb\r\n"), "a\nb\n");
    assert_eq!(strip_carriage_returns("\r"), "");
    assert_eq!(strip_carriage_returns("plain"), "plain");
}

#[test]
fn game_folders() {
    let root = path(&["game"]);
    assert_eq!(mods_folder(&root), path(&["game", "mods"]));
    assert_eq!(cahirp_mod(&root), path(&["game", "mods", "mod00000_Cahirp"]));
    assert_eq!(
        cahirp_scripts(&root),
        path(&["game", "mods", "mod00000_Cahirp", "content", "scripts"])
    );
    assert_eq!(Directive::cahirp_merge_path(&root), cahirp_scripts(&root));
    assert_eq!(
        merge_scripts(&root),
        path(&["game", "mods", "mod0000_MergedFiles", "content", "scripts"])
    );
    assert_eq!(content_scripts(&root), path(&["game", "content", "content0", "scripts"]));
    assert_eq!(to_scripts(path(&["m"])), path(&["m", "content", "scripts"]));
}

#[test]
fn searched_mod_folders_skip_disabled_and_own() {
    let root = path(&["g"]);
    let out = path(&["g", "mods", "modOut", "content", "scripts"]);
    let names = path(&["modA", "~modB", "mod00000_Cahirp", "mod0000_MergedFiles", "modOut", "modC"]);
    assert_eq!(
        mod_folders(&root, &out, &names),
        vec![
            path(&["g", "mods", "modA", "content", "scripts"]),
            path(&["g", "mods", "modC", "content", "scripts"])
        ]
    );
}

#[test]
fn search_order_for_a_file() {
    let root = path(&["g"]);
    let out = path(&["o"]);
    let mods = vec![path(&["m1"]), path(&["m2"])];
    let found = search_paths(&root, &out, &mods, &"x/y.ws".to_string());
    assert_eq!(
        found,
        vec![
            path(&["o", "x/y.ws"]),
            path(&["g", "mods", "mod0000_MergedFiles", "content", "scripts", "x/y.ws"]),
            path(&["m1", "x/y.ws"]),
            path(&["m2", "x/y.ws"]),
            path(&["g", "content", "content0", "scripts", "x/y.ws"])
        ]
    );
}
