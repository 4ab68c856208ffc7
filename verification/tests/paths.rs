use pycycle::paths::{is_package_init, is_python_file, path_to_module, starts_with, FilePath};
use std::path::PathBuf;

fn path(text: &str) -> FilePath {
    FilePath::from_path(&PathBuf::from(text))
}

#[test]
fn components_are_those_of_std() {
    let expected: Vec<Vec<u8>> = vec![b"/".to_vec(), b"srv".to_vec(), b"..".to_vec(), b"a.py".to_vec()];
    assert_eq!(path("/srv//./../a.py").parts, expected);
    assert_eq!(path("").parts, Vec::<Vec<u8>>::new());
    assert_eq!(path("./a").parts, vec![b".".to_vec(), b"a".to_vec()]);
}

#[test]
fn module_is_named_by_its_path() {
    assert_eq!(path_to_module(&path("/r/pkg/sub/mod.py"), &path("/r")), "pkg.sub.mod");
    assert_eq!(path_to_module(&path("/r/mod.py"), &path("/r")), "mod");
    assert_eq!(path_to_module(&path("/r/包/模块.py"), &path("/r")), "包.模块");
}

#[test]
fn package_is_named_like_module() {
    assert_eq!(path_to_module(&path("/r/pkg/__init__.py"), &path("/r")), "pkg");
    assert_eq!(path_to_module(&path("/r/pkg.py"), &path("/r")), "pkg");
    assert_eq!(path_to_module(&path("/r/a/b/__init__.py"), &path("/r")), "a.b");
}

#[test]
fn package_marker_is_stripped_repeatedly() {
    assert_eq!(path_to_module(&path("/r/a/__init__/__init__.py"), &path("/r")), "a");
}

#[test]
fn marker_at_the_root_stays() {
    assert_eq!(path_to_module(&path("/r/__init__.py"), &path("/r")), "__init__");
}

#[test]
fn path_outside_the_root_is_taken_whole() {
    assert_eq!(path_to_module(&path("x/y.py"), &path("/r")), "x.y");
    assert_eq!(path_to_module(&path("/rx/y.py"), &path("/r")), "/.rx.y");
}

#[test]
fn root_itself_has_no_name() {
    assert_eq!(path_to_module(&path("/r/a.py"), &path("/r/a.py")), "");
}

#[test]
fn other_extension_stays() {
    assert_eq!(path_to_module(&path("/r/a.pyc"), &path("/r")), "a.pyc");
}

#[test]
fn component_that_is_not_text_has_no_name() {
    let file = FilePath { parts: vec![b"r".to_vec(), vec![0xff, 0xfe], b"m.py".to_vec()] };
    let root = FilePath { parts: vec![b"r".to_vec()] };
    assert_eq!(path_to_module(&file, &root), ".m");
}

#[test]
fn initialisation_file_is_recognised() {
    assert!(is_package_init(&path("/r/pkg/__init__.py")));
    assert!(!is_package_init(&path("/r/pkg/init.py")));
    assert!(!is_package_init(&path("/r/__init__.py/x")));
    assert!(!is_package_init(&path("")));
}

#[test]
fn python_file_is_recognised_as_std_does() {
    for text in ["a.py", ".py", "..py", "a.b.py", "py", "a.PY", "a.pyc", "a", "x/.py", "x/b.py"] {
        let expected = PathBuf::from(text).extension().map_or(false, |ext| ext == "py");
        assert_eq!(is_python_file(&path(text)), expected);
    }
    assert!(is_python_file(&FilePath { parts: vec![vec![0xff, b'.', b'p', b'y']] }));
    assert!(!is_python_file(&FilePath { parts: vec![] }));
}

#[test]
fn prefix_is_tested_by_components() {
    assert!(starts_with(&path("/a/b/c"), &path("/a/b")));
    assert!(starts_with(&path("/a/b"), &path("/a/b")));
    assert!(!starts_with(&path("/a/bc"), &path("/a/b")));
    assert!(!starts_with(&path("/a"), &path("/a/b")));
}

#[test]
fn clone_of_a_path_is_the_same() {
    let file = path("/r/pkg/a.py");
    assert_eq!(file.clone(), file);
}
