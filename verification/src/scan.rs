//! Which directories are searched for source files, and which files are taken.
use crate::paths::{is_python, is_python_file, starts_with, FilePath};
use crate::text::{same_text, texts};
use vstd::prelude::*;

verus! {

/// The names of directories that are never searched.
pub open spec fn default_names() -> Seq<Seq<char>> {
    seq![
        "venv"@,
        ".venv"@,
        "env"@,
        ".env"@,
        "ENV"@,
        "virtualenv"@,
        "__pycache__"@,
        ".git"@,
        ".svn"@,
        "node_modules"@,
        ".tox"@,
        ".nox"@,
        ".mypy_cache"@,
        ".pytest_cache"@,
        ".ruff_cache"@,
        "site-packages"@,
        "dist-packages"@,
        ".eggs"@,
        "build"@,
        "dist"@,
        ".hg"@,
    ]
}

/// The names of directories that are never searched.
pub fn default_ignore_names() -> (names: Vec<String>)
    ensures
        texts(names@) == default_names(),
{
    let mut names: Vec<String> = Vec::new();
    names.push("venv".to_owned());
    names.push(".venv".to_owned());
    names.push("env".to_owned());
    names.push(".env".to_owned());
    names.push("ENV".to_owned());
    names.push("virtualenv".to_owned());
    names.push("__pycache__".to_owned());
    names.push(".git".to_owned());
    names.push(".svn".to_owned());
    names.push("node_modules".to_owned());
    names.push(".tox".to_owned());
    names.push(".nox".to_owned());
    names.push(".mypy_cache".to_owned());
    names.push(".pytest_cache".to_owned());
    names.push(".ruff_cache".to_owned());
    names.push("site-packages".to_owned());
    names.push("dist-packages".to_owned());
    names.push(".eggs".to_owned());
    names.push("build".to_owned());
    names.push("dist".to_owned());
    names.push(".hg".to_owned());
    names
}

/// The paths as sequences of components.
pub open spec fn path_views(paths: Seq<FilePath>) -> Seq<Seq<Seq<u8>>> {
    paths.map_values(|path: FilePath| path@)
}

/// Whether a path is one of the directories, or lies in one of them.
pub open spec fn is_inside(path: Seq<Seq<u8>>, directories: Seq<Seq<Seq<u8>>>) -> bool {
    exists|i: int| 0 <= i < directories.len() && (#[trigger] directories[i]).is_prefix_of(path)
}

/// Whether a search goes into an entry: into every one but the directories with one of the names,
/// and those that are one of the ignored directories or lie in one.
pub open spec fn is_entered(
    is_directory: bool,
    name: Seq<char>,
    names: Seq<Seq<char>>,
    path: Seq<Seq<u8>>,
    ignored: Seq<Seq<Seq<u8>>>,
) -> bool {
    is_directory ==> !names.contains(name) && !is_inside(path, ignored)
}

/// Whether a search goes into an entry. The paths are absolute and without symbolic links.
pub fn enters(
    is_directory: bool,
    name: &str,
    default_names: &Vec<String>,
    path: &FilePath,
    ignored: &Vec<FilePath>,
) -> (entered: bool)
    ensures
        entered == is_entered(
            is_directory,
            name@,
            texts(default_names@),
            path@,
            path_views(ignored@),
        ),
{
    if !is_directory {
        return true;
    }
    let mut i: usize = 0;
    while i < default_names.len()
        invariant
            is_directory,
            i <= default_names.len(),
            forall|j: int| 0 <= j < i ==> texts(default_names@)[j] != name@,
        decreases default_names.len() - i,
    {
        if same_text(default_names[i].as_str(), name) {
            assert(texts(default_names@)[i as int] == name@);
            return false;
        }
        i += 1;
    }
    i = 0;
    while i < ignored.len()
        invariant
            is_directory,
            i <= ignored.len(),
            forall|j: int| 0 <= j < i ==> !(#[trigger] path_views(ignored@)[j]).is_prefix_of(path@),
        decreases ignored.len() - i,
    {
        if starts_with(path, &ignored[i]) {
            assert(path_views(ignored@)[i as int].is_prefix_of(path@));
            return false;
        }
        i += 1;
    }
    true
}

/// Whether an entry is taken: a file that holds Python source, by its extension.
pub fn takes(is_file: bool, path: &FilePath) -> (taken: bool)
    ensures
        taken == (is_file && is_python(path@)),
{
    is_file && is_python_file(path)
}

/// Whether a walk from the root that does not go into the directories it is told to leave out comes
/// to the file below the root and takes it: it enters the root and every directory on the way. The
/// paths are absolute and without symbolic links, and `name` gives the name that a directory goes by.
pub open spec fn is_collected(
    root: Seq<Seq<u8>>,
    file: Seq<Seq<u8>>,
    name: spec_fn(Seq<Seq<u8>>) -> Seq<char>,
    names: Seq<Seq<char>>,
    ignored: Seq<Seq<Seq<u8>>>,
) -> bool {
    &&& forall|k: int|
        root.len() <= k < file.len() ==> is_entered(
            true,
            name(file.take(k)),
            names,
            #[trigger] file.take(k),
            ignored,
        )
    &&& is_python(file)
}

/// Those of the files below the root that a walk takes.
pub open spec fn collected(
    root: Seq<Seq<u8>>,
    files: Set<Seq<Seq<u8>>>,
    name: spec_fn(Seq<Seq<u8>>) -> Seq<char>,
    names: Seq<Seq<char>>,
    ignored: Seq<Seq<Seq<u8>>>,
) -> Set<Seq<Seq<u8>>> {
    files.filter(|file: Seq<Seq<u8>>| is_collected(root, file, name, names, ignored))
}

/// One more ignored directory adds the paths that are the directory or lie in it.
pub proof fn law_one_more_ignored(
    path: Seq<Seq<u8>>,
    ignored: Seq<Seq<Seq<u8>>>,
    directory: Seq<Seq<u8>>,
)
    ensures
        is_inside(path, ignored.push(directory)) <==> is_inside(path, ignored)
            || directory.is_prefix_of(path),
{
    let more = ignored.push(directory);
    if is_inside(path, ignored) {
        let i = choose|i: int|
            0 <= i < ignored.len() && (#[trigger] ignored[i]).is_prefix_of(path);
        assert(more[i].is_prefix_of(path));
    }
    if directory.is_prefix_of(path) {
        assert(more.last().is_prefix_of(path));
    }
}

/// One more ignored directory takes away exactly the files that lie in it, by whole components of
/// their paths. The files lie below the root, and none of them is the directory.
pub proof fn law_ignored_files_are_left_out(
    root: Seq<Seq<u8>>,
    files: Set<Seq<Seq<u8>>>,
    name: spec_fn(Seq<Seq<u8>>) -> Seq<char>,
    names: Seq<Seq<char>>,
    ignored: Seq<Seq<Seq<u8>>>,
    directory: Seq<Seq<u8>>,
)
    requires
        forall|file: Seq<Seq<u8>>| #[trigger]
            files.contains(file) ==> root.is_prefix_of(file) && root != file && file != directory,
    ensures
        collected(root, files, name, names, ignored.push(directory)) == collected(
            root,
            files,
            name,
            names,
            ignored,
        ).filter(|file: Seq<Seq<u8>>| !directory.is_prefix_of(file)),
{
    let more = ignored.push(directory);
    assert forall|file: Seq<Seq<u8>>| #[trigger] files.contains(file) implies (is_collected(
        root,
        file,
        name,
        names,
        more,
    ) <==> is_collected(root, file, name, names, ignored) && !directory.is_prefix_of(file)) by {
        assert forall|k: int| root.len() <= k < file.len() implies (is_inside(
            #[trigger] file.take(k),
            more,
        ) <==> is_inside(file.take(k), ignored) || directory.is_prefix_of(file.take(k))) by {
            law_one_more_ignored(file.take(k), ignored, directory);
        }
        if directory.is_prefix_of(file) {
            let k = if directory.len() < root.len() {
                root.len() as int
            } else {
                directory.len() as int
            };
            assert(k < file.len()) by {
                assert(root.len() == file.len() ==> root =~= file);
                assert(directory.len() == file.len() ==> directory =~= file);
            }
            assert(directory.is_prefix_of(file.take(k)));
        }
    }
}

/// A directory in an ignored one is ignored too.
pub proof fn law_ignored_below(
    path: Seq<Seq<u8>>,
    below: Seq<Seq<u8>>,
    ignored: Seq<Seq<Seq<u8>>>,
)
    requires
        is_inside(path, ignored),
    ensures
        is_inside(path + below, ignored),
{
}

/// Directories with the usual names of environments, caches, version control and build results are
/// not entered, and no others are left out by name.
pub proof fn law_usual_directories_are_left_out(
    name: Seq<char>,
    path: Seq<Seq<u8>>,
    ignored: Seq<Seq<Seq<u8>>>,
)
    ensures
        name == "venv"@ || name == ".venv"@ || name == "env"@ || name == ".env"@ || name == "ENV"@
            || name == "virtualenv"@ || name == "__pycache__"@ || name == ".git"@ || name == ".svn"@
            || name == "node_modules"@ || name == ".tox"@ || name == ".nox"@ || name
            == ".mypy_cache"@ || name == ".pytest_cache"@ || name == ".ruff_cache"@ || name
            == "site-packages"@ || name == "dist-packages"@ || name == ".eggs"@ || name == "build"@
            || name == "dist"@ || name == ".hg"@ || is_inside(path, ignored) <==> !is_entered(
            true,
            name,
            default_names(),
            path,
            ignored,
        ),
{
    let names = default_names();
    assert(names[0] == "venv"@ && names[1] == ".venv"@ && names[2] == "env"@ && names[3] == ".env"@
        && names[4] == "ENV"@ && names[5] == "virtualenv"@ && names[6] == "__pycache__"@
        && names[7] == ".git"@ && names[8] == ".svn"@ && names[9] == "node_modules"@ && names[10]
        == ".tox"@ && names[11] == ".nox"@ && names[12] == ".mypy_cache"@ && names[13]
        == ".pytest_cache"@ && names[14] == ".ruff_cache"@ && names[15] == "site-packages"@
        && names[16] == "dist-packages"@ && names[17] == ".eggs"@ && names[18] == "build"@
        && names[19] == "dist"@ && names[20] == ".hg"@);
}

/// Everything but a directory is entered, and a directory unless a name or an ignored directory
/// stops it: without any, every one is, and one more name stops those of that name alone.
pub proof fn law_one_more_name(
    is_directory: bool,
    name: Seq<char>,
    names: Seq<Seq<char>>,
    more: Seq<char>,
    path: Seq<Seq<u8>>,
    ignored: Seq<Seq<Seq<u8>>>,
)
    ensures
        is_entered(false, name, names, path, ignored),
        is_entered(true, name, Seq::empty(), path, Seq::empty()),
        !is_inside(path, Seq::empty()),
        is_entered(is_directory, name, names.push(more), path, ignored) <==> is_entered(
            is_directory,
            name,
            names,
            path,
            ignored,
        ) && (is_directory ==> name != more),
{
    let longer = names.push(more);
    assert(longer[names.len() as int] == more);
    if names.contains(name) {
        let k = names.index_of(name);
        assert(longer[k] == name);
    }
}

/// Each path is read in its place.
pub proof fn law_paths_stay_in_place(paths: Seq<FilePath>)
    ensures
        path_views(paths).len() == paths.len(),
        forall|i: int| 0 <= i < paths.len() ==> #[trigger] path_views(paths)[i] == paths[i]@,
{
}

} // verus!
