use pycycle::imports::{extract_imports, imports_from_captures, RawImport};

fn fields(imports: &[RawImport]) -> Vec<(String, Vec<String>, bool, usize)> {
    imports
        .iter()
        .map(|i| (i.base.clone(), i.names.clone(), i.is_relative, i.dot_count))
        .collect()
}

fn expected(list: &[(&str, &[&str], bool, usize)]) -> Vec<(String, Vec<String>, bool, usize)> {
    list.iter()
        .map(|i| (i.0.to_string(), i.1.iter().map(|n| n.to_string()).collect(), i.2, i.3))
        .collect()
}

#[test]
fn import_statements_come_first() {
    let content = "from . import x\nimport os, sys\n    import a.b\nimport numpy as np\n";
    assert_eq!(
        fields(&extract_imports(content)),
        expected(&[
            ("os", &[], false, 0),
            ("sys", &[], false, 0),
            ("a.b", &[], false, 0),
            ("numpy", &[], false, 0),
            ("", &["x"], true, 1),
        ])
    );
}

#[test]
fn from_statements_are_read_up_to_a_comment() {
    let content = "from ..pkg.mod import y as z, w  # and more, here\nfrom pkg import *\n";
    assert_eq!(
        fields(&extract_imports(content)),
        expected(&[("pkg.mod", &["y", "w"], true, 2), ("pkg", &[], false, 0)])
    );
}

#[test]
fn parenthesised_names_are_read_to_the_end_of_the_line() {
    let content = "from m import (a,\n    b)\n";
    assert_eq!(fields(&extract_imports(content)), expected(&[("m", &["(a"], false, 0)]));
}

#[test]
fn other_lines_hold_no_import() {
    let content = "x = 'import y'\n# import z\nimportant = 1\nfromage = 2\n";
    assert_eq!(extract_imports(content).len(), 0);
    assert_eq!(extract_imports("").len(), 0);
}

#[test]
fn module_names_may_hold_any_letters() {
    assert_eq!(fields(&extract_imports("import 包.模块\n")), expected(&[("包.模块", &[], false, 0)]));
}

#[test]
fn clones_say_the_same() {
    let imports = extract_imports("from ...a import b\n");
    assert_eq!(fields(&imports.clone()), expected(&[("a", &["b"], true, 3)]));
}

fn group(text: &str) -> Option<String> {
    Some(text.to_string())
}

#[test]
fn captured_groups_are_split_into_words() {
    let plain = vec![vec![None, group(" a , b.c x,, ")], vec![None, group("d")]];
    let from = vec![vec![None, group(" ..p.q "), group(" u as v ,*, w,")]];
    assert_eq!(
        fields(&imports_from_captures(&plain, &from)),
        expected(&[
            ("a", &[], false, 0),
            ("b.c", &[], false, 0),
            ("d", &[], false, 0),
            ("p.q", &["u", "w"], true, 2),
        ])
    );
}
