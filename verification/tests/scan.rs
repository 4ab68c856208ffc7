use pycycle::paths::FilePath;
use pycycle::scan::{default_ignore_names, enters, takes};
use std::path::PathBuf;

fn path(text: &str) -> FilePath {
    FilePath::from_path(&PathBuf::from(text))
}

#[test]
fn usual_directories_are_skipped() {
    let names = default_ignore_names();
    assert_eq!(names.len(), 21);
    for name in ["venv", "ENV", ".git", "__pycache__", "dist", ".hg"] {
        assert!(!enters(true, name, &names, &path("/r/d"), &Vec::new()));
    }
    for name in ["src", "Venv", "builds", ""] {
        assert!(enters(true, name, &names, &path("/r/d"), &Vec::new()));
    }
}

#[test]
fn ignored_directories_are_skipped_with_what_lies_in_them() {
    let names = default_ignore_names();
    let ignored = vec![path("/r/old"), path("/r/a/b")];
    assert!(!enters(true, "old", &names, &path("/r/old"), &ignored));
    assert!(!enters(true, "c", &names, &path("/r/a/b/c"), &ignored));
    assert!(enters(true, "a", &names, &path("/r/a"), &ignored));
    assert!(enters(true, "older", &names, &path("/r/older"), &ignored));
}

/// Those of the files that a walk from `/r` takes.
fn collect(files: &[&'static str], ignored: &Vec<FilePath>) -> Vec<&'static str> {
    let names = default_ignore_names();
    files
        .iter()
        .copied()
        .filter(|file| {
            PathBuf::from(file).ancestors().skip(1).filter(|at| at.starts_with("/r")).all(|at| {
                let name = at.file_name().unwrap().to_str().unwrap();
                enters(true, name, &names, &FilePath::from_path(&at.to_path_buf()), ignored)
            }) && takes(true, &path(file))
        })
        .collect()
}

#[test]
fn one_more_ignored_directory_takes_away_what_lies_in_it() {
    let files = ["/r/x.py", "/r/ab/y.py", "/r/abc/z.py", "/r/ab/c/w.py", "/r/old/v.py", "/r/ab/t.txt"];
    let mut ignored = vec![path("/r/old")];
    let before = collect(&files, &ignored);
    assert_eq!(before, ["/r/x.py", "/r/ab/y.py", "/r/abc/z.py", "/r/ab/c/w.py"]);
    for (directory, left) in [
        ("/r/ab", vec!["/r/x.py", "/r/abc/z.py"]),
        ("/r/a", before.clone()),
        ("/", vec![]),
        ("/r", vec![]),
    ] {
        ignored.push(path(directory));
        assert_eq!(collect(&files, &ignored), left);
        ignored.pop();
    }
}

#[test]
fn files_are_never_skipped() {
    let names = default_ignore_names();
    assert!(enters(false, "build", &names, &path("/r/old/x"), &vec![path("/r/old")]));
}

#[test]
fn python_files_are_taken() {
    assert!(takes(true, &path("/r/a.py")));
    assert!(!takes(false, &path("/r/a.py")));
    assert!(!takes(true, &path("/r/a.txt")));
}
