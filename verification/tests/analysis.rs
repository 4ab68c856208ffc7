use pycycle::analysis::analyze;
use pycycle::dependencies::{
    build_module_map, collect_dependencies, extract_all_dependencies, SourceFile,
};
use pycycle::import_graph::{build_graph, checked_graph};
use pycycle::imports::extract_imports;
use pycycle::paths::FilePath;
use std::path::PathBuf;

fn path(text: &str) -> FilePath {
    FilePath::from_path(&PathBuf::from(text))
}

fn files(list: &[(&str, &str)]) -> Vec<SourceFile> {
    list.iter()
        .map(|file| SourceFile { path: path(file.0), content: Some(file.1.to_string()) })
        .collect()
}

fn strings(names: &[&str]) -> Vec<String> {
    names.iter().map(|name| name.to_string()).collect()
}

#[test]
fn modules_are_mapped_to_their_files() {
    let map = build_module_map(&files(&[("/r/pkg.py", ""), ("/r/a.py", ""), ("/r/pkg/__init__.py", "")]), &path("/r"));
    assert_eq!(map.len(), 2);
    assert_eq!(map.name_at(0), "pkg");
    assert_eq!(map.get("pkg"), Some(&path("/r/pkg/__init__.py")));
    assert_eq!(map.get("a"), Some(&path("/r/a.py")));
}

#[test]
fn dependencies_are_other_modules_listed_once() {
    let sources = files(&[
        ("/r/a.py", "import a, b\nfrom b import x, y\nimport os\nfrom pkg import m, n\n"),
        ("/r/b.py", ""),
        ("/r/pkg/__init__.py", "from . import m\nfrom .m import z\n"),
        ("/r/pkg/m.py", "from . import n\nfrom .. import b\n"),
    ]);
    let map = build_module_map(&sources, &path("/r"));
    let dependencies = extract_all_dependencies(&sources, &map, &path("/r"));
    assert_eq!(dependencies.get("a"), Some(&strings(&["b", "pkg.m", "pkg"])));
    assert_eq!(dependencies.get("b"), Some(&strings(&[])));
    assert_eq!(dependencies.get("pkg"), Some(&strings(&["pkg.m"])));
    assert_eq!(dependencies.get("pkg.m"), Some(&strings(&["pkg"])));
    let raw = extract_imports("from . import m\nimport pkg\n");
    assert_eq!(
        collect_dependencies(&"pkg".to_string(), &path("/r/pkg/__init__.py"), &raw, &map),
        strings(&["pkg.m"])
    );
}

#[test]
fn unreadable_file_has_no_dependencies() {
    let mut sources = files(&[("/r/a.py", "import b\n"), ("/r/b.py", "")]);
    sources[0].content = None;
    let map = build_module_map(&sources, &path("/r"));
    let dependencies = extract_all_dependencies(&sources, &map, &path("/r"));
    assert_eq!(dependencies.get("a"), Some(&strings(&[])));
}

#[test]
fn later_file_decides_for_a_module() {
    let sources = files(&[("/r/a.py", "import b\n"), ("/r/b.py", ""), ("/r/a/__init__.py", "")]);
    let map = build_module_map(&sources, &path("/r"));
    let dependencies = extract_all_dependencies(&sources, &map, &path("/r"));
    assert_eq!(dependencies.len(), 2);
    assert_eq!(dependencies.get("a"), Some(&strings(&[])));
}

#[test]
fn graph_has_a_node_for_each_module_and_an_edge_for_each_dependency() {
    let sources = files(&[("/r/a.py", "import b, c\n"), ("/r/b.py", "import c\n"), ("/r/c.py", "")]);
    let map = build_module_map(&sources, &path("/r"));
    let dependencies = extract_all_dependencies(&sources, &map, &path("/r"));
    let (graph, nodes, names) = build_graph(&dependencies, &map);
    let weights: Vec<String> = graph.node_weights().cloned().collect();
    assert_eq!(weights, strings(&["a", "b", "c"]));
    let edges: Vec<(usize, usize)> = graph
        .edge_indices()
        .map(|edge| graph.edge_endpoints(edge).unwrap())
        .map(|ends| (ends.0.index(), ends.1.index()))
        .collect();
    assert_eq!(edges, vec![(0, 1), (0, 2), (1, 2)]);
    assert_eq!(nodes.get("b"), Some(&1));
    assert_eq!(names.get(&2), Some(&"c".to_string()));
    assert!(checked_graph(&dependencies, &map).is_some());
}

#[test]
fn project_with_a_cycle_fails() {
    let sources = files(&[
        ("/r/pkg/__init__.py", ""),
        ("/r/pkg/a.py", "from .b import f\n"),
        ("/r/pkg/b.py", "from pkg import a\n"),
        ("/r/main.py", "import pkg.a\n"),
    ]);
    let report = analyze(&sources, &path("/r"), true).unwrap();
    assert_eq!(report.cycles, vec![strings(&["pkg.a", "pkg.b"])]);
    assert_eq!(report.exit_code, 1);
    assert_eq!(report.verdict, "\n✗ 检测到 1 个循环依赖链。");
    assert!(report.cycles_text.ends_with("  pkg.a -> pkg.b -> pkg.a\n\n"));
    assert!(report.dot.contains("    \"pkg.a\" -> \"pkg.b\" [color=red, penwidth=2];\n"));
    assert!(!report.dot.contains("\"main\""));
    assert!(report.degrees_text.contains("| main "));
}

#[test]
fn import_of_something_in_a_module_closes_a_cycle() {
    let sources = files(&[("/r/a.py", "import b\n"), ("/r/b.py", "import a.x.y, sys\n# import a\n")]);
    let report = analyze(&sources, &path("/r"), false).unwrap();
    assert_eq!(report.cycles, vec![strings(&["a", "b"])]);
    assert_eq!(report.exit_code, 1);
}

#[test]
fn each_group_of_modules_with_a_cycle_is_reported() {
    let sources = files(&[
        ("/r/a.py", "import b\n"),
        ("/r/b.py", "import a, c\n"),
        ("/r/c.py", "import d\n"),
        ("/r/d.py", "import c\n"),
    ]);
    let report = analyze(&sources, &path("/r"), false).unwrap();
    assert_eq!(report.cycles, vec![strings(&["a", "b"]), strings(&["c", "d"])]);
}

#[test]
fn every_module_on_a_cycle_is_marked() {
    let sources = files(&[
        ("/r/a.py", "import b, c\n"),
        ("/r/b.py", "import c\n"),
        ("/r/c.py", "import a\n"),
        ("/r/main.py", "import a\n"),
    ]);
    let report = analyze(&sources, &path("/r"), true).unwrap();
    assert_eq!(report.cycles, vec![strings(&["a", "c"]), strings(&["a", "b", "c"])]);
    for name in ["a", "b", "c"] {
        let line = format!("    \"{}\" [fillcolor=salmon, color=red, penwidth=2];\n", name);
        assert!(report.dot.contains(&line));
    }
    assert!(report.dot.contains("    \"b\" -> \"c\" [color=red, penwidth=2];\n"));
    assert!(!report.dot.contains("\"main\""));
    assert_eq!(report.verdict, "\n✗ 检测到 2 个循环依赖链。");
}

#[test]
fn project_without_a_cycle_passes() {
    let sources = files(&[("/r/a.py", "import b\n"), ("/r/b.py", "import sys\n# import a\n")]);
    let report = analyze(&sources, &path("/r"), false).unwrap();
    assert_eq!(report.cycles.len(), 0);
    assert_eq!(report.cycles_text, "");
    assert_eq!(report.exit_code, 0);
    assert_eq!(report.verdict, "\n✓ 未检测到循环导入。");
    assert!(report.dot.contains("    \"a\" -> \"b\";\n"));
}
