use pycycle::imports::RawImport;
use pycycle::names::NameMap;
use pycycle::paths::FilePath;
use pycycle::resolve::{
    compute_relative_base, find_longest_prefix, resolve_import, try_resolve_module,
};
use std::path::PathBuf;

fn file(text: &str) -> FilePath {
    FilePath::from_path(&PathBuf::from(text))
}

fn known(names: &[&str]) -> NameMap<FilePath> {
    let mut map = NameMap::new();
    for name in names {
        map.insert(name.to_string(), file("x.py"));
    }
    map
}

fn strings(names: &[&str]) -> Vec<String> {
    names.iter().map(|name| name.to_string()).collect()
}

#[test]
fn one_dot_is_the_package() {
    let init = file("pkg/sub/__init__.py");
    let module = file("pkg/sub/mod.py");
    assert_eq!(compute_relative_base("pkg.sub", &init, 1), Some("pkg.sub".to_string()));
    assert_eq!(compute_relative_base("pkg.sub.mod", &module, 1), Some("pkg.sub".to_string()));
}

#[test]
fn further_dots_lead_outwards() {
    let init = file("pkg/sub/__init__.py");
    let module = file("pkg/sub/mod.py");
    assert_eq!(compute_relative_base("pkg.sub", &init, 2), Some("pkg".to_string()));
    assert_eq!(compute_relative_base("pkg.sub.mod", &module, 2), Some("pkg".to_string()));
    assert_eq!(compute_relative_base("pkg.sub", &init, 3), None);
    assert_eq!(compute_relative_base("pkg.sub.mod", &module, 3), None);
    assert_eq!(compute_relative_base("mod", &file("mod.py"), 1), None);
    assert_eq!(compute_relative_base("mod", &file("mod.py"), 0), Some("mod".to_string()));
    assert_eq!(compute_relative_base("", &file("__init__.py"), 1), None);
}

#[test]
fn longest_enclosing_module_is_found() {
    let map = known(&["pkg", "pkg.sub", "pk", "other"]);
    let mut found = strings(&["first"]);
    find_longest_prefix("pkg.sub.name.deep", &map, &mut found);
    find_longest_prefix("pkg.subway", &map, &mut found);
    find_longest_prefix("pkgs", &map, &mut found);
    find_longest_prefix("other", &map, &mut found);
    assert_eq!(found, strings(&["first", "pkg.sub", "pkg", "other"]));
}

#[test]
fn member_is_a_submodule_or_belongs_to_the_module() {
    let map = known(&["pkg", "pkg.sub", "a"]);
    let mut found = Vec::new();
    try_resolve_module("pkg", &strings(&["sub", "name"]), &map, &mut found);
    assert_eq!(found, strings(&["pkg.sub", "pkg"]));
    found.clear();
    try_resolve_module("a.b", &strings(&["c"]), &map, &mut found);
    assert_eq!(found, strings(&["a"]));
    found.clear();
    try_resolve_module("os", &strings(&["path"]), &map, &mut found);
    assert_eq!(found, strings(&[]));
}

#[test]
fn module_without_names_is_resolved_whole() {
    let map = known(&["pkg", "pkg.sub"]);
    let mut found = Vec::new();
    try_resolve_module("pkg.sub", &Vec::new(), &map, &mut found);
    try_resolve_module("pkg.other", &Vec::new(), &map, &mut found);
    try_resolve_module("sys", &Vec::new(), &map, &mut found);
    assert_eq!(found, strings(&["pkg.sub", "pkg"]));
}

fn relative(base: &str, names: &[&str], dots: usize) -> RawImport {
    RawImport { base: base.to_string(), names: strings(names), is_relative: dots > 0, dot_count: dots }
}

#[test]
fn relative_imports_are_resolved_in_the_package() {
    let map = known(&["pkg", "pkg.a", "pkg.b", "pkg.sub", "pkg.sub.c"]);
    let module = file("pkg/a.py");
    assert_eq!(resolve_import("pkg.a", &module, &relative("", &["b"], 1), &map), strings(&["pkg.b"]));
    assert_eq!(resolve_import("pkg.a", &module, &relative("sub", &["c", "d"], 1), &map), strings(&["pkg.sub.c", "pkg.sub"]));
    assert_eq!(resolve_import("pkg.a", &module, &relative("b", &["x"], 2), &map), strings(&[]));
    let init = file("pkg/sub/__init__.py");
    assert_eq!(resolve_import("pkg.sub", &init, &relative("", &["c"], 1), &map), strings(&["pkg.sub.c"]));
    assert_eq!(resolve_import("pkg.sub", &init, &relative("b", &["x"], 2), &map), strings(&["pkg.b"]));
}

#[test]
fn absolute_imports_are_resolved_from_the_root() {
    let map = known(&["pkg", "pkg.a"]);
    let module = file("pkg/b.py");
    assert_eq!(resolve_import("pkg.b", &module, &relative("pkg.a", &[], 0), &map), strings(&["pkg.a"]));
    assert_eq!(resolve_import("pkg.b", &module, &relative("a", &[], 0), &map), strings(&[]));
}
