//! Paths of source files, and the names of the modules that they hold.
use crate::text::{
    join, join_first, law_join_in_groups, law_split_undoes_join, law_suffixes_are_stripped, split,
    strip_all_suffixes, strip_suffix_text, strip_suffixes, texts,
};
use std::path::PathBuf;
use vstd::prelude::*;
use vstd::utf8::{decode_utf8, valid_utf8};

verus! {

/// A path, as the bytes of its components from the outermost to the innermost. A root directory
/// is a component of its own.
#[derive(Debug, PartialEq, Eq)]
pub struct FilePath {
    pub parts: Vec<Vec<u8>>,
}

impl View for FilePath {
    type V = Seq<Seq<u8>>;

    open spec fn view(&self) -> Seq<Seq<u8>> {
        self.parts@.map_values(|part: Vec<u8>| part@)
    }
}

impl DeepView for FilePath {
    type V = Seq<Seq<u8>>;

    open spec fn deep_view(&self) -> Seq<Seq<u8>> {
        self@
    }
}

impl Clone for FilePath {
    fn clone(&self) -> (path: Self)
        ensures
            path@ == self@,
    {
        let mut parts: Vec<Vec<u8>> = Vec::new();
        let mut i: usize = 0;
        while i < self.parts.len()
            invariant
                i <= self.parts.len(),
                parts@.len() == i,
                forall|j: int| 0 <= j < i ==> (#[trigger] parts@[j])@ == self.parts@[j]@,
            decreases self.parts.len() - i,
        {
            let part: Vec<u8> = self.parts[i].clone();
            parts.push(part);
            i += 1;
        }
        let path = FilePath { parts };
        path
    }
}

/// `std::path::PathBuf`, held as an opaque value.
#[verifier::external_type_specification]
#[verifier::external_body]
pub struct ExPathBuf(std::path::PathBuf);

/// The bytes of the components of a path.
pub uninterp spec fn path_components(path: PathBuf) -> Seq<Seq<u8>>;

/// `std::path::Path::components`: the components of a path, from the outermost to the innermost,
/// each as the bytes that encode it.
#[verifier::external_body]
fn components(path: &PathBuf) -> (parts: Vec<Vec<u8>>)
    ensures
        parts@.map_values(|part: Vec<u8>| part@) == path_components(*path),
{
    path.components().map(|part| part.as_os_str().as_encoded_bytes().to_vec()).collect()
}

impl FilePath {
    /// The components of a path of the file system.
    pub fn from_path(path: &PathBuf) -> (file: FilePath)
        ensures
            file@ == path_components(*path),
    {
        FilePath { parts: components(path) }
    }
}

/// The text of a component; empty where its bytes are not UTF-8.
pub open spec fn part_text(part: Seq<u8>) -> Seq<char> {
    if valid_utf8(part) {
        decode_utf8(part)
    } else {
        Seq::empty()
    }
}

/// The path below the root; the whole path where it does not lie there.
pub open spec fn relative_to(path: Seq<Seq<u8>>, root: Seq<Seq<u8>>) -> Seq<Seq<u8>> {
    if root.is_prefix_of(path) {
        path.skip(root.len() as int)
    } else {
        path
    }
}

/// The text without the ending of a Python file.
pub open spec fn without_extension(name: Seq<char>) -> Seq<char> {
    if ".py"@.is_suffix_of(name) {
        name.take(name.len() - ".py"@.len())
    } else {
        name
    }
}

/// The names of the packages around a module, and its own.
pub open spec fn module_parts(path: Seq<Seq<u8>>) -> Seq<Seq<char>> {
    let names = path.map_values(|part: Seq<u8>| part_text(part));
    if names.len() == 0 {
        names
    } else {
        names.drop_last().push(without_extension(names.last()))
    }
}

/// The dotted name of the module that a file holds: the names on the way from the root to the
/// file, without the file's extension, and without the name that marks a package.
pub open spec fn module_name(path: Seq<Seq<u8>>, root: Seq<Seq<u8>>) -> Seq<char> {
    strip_suffixes(join(module_parts(relative_to(path, root)), "."@), ".__init__"@)
}

/// Whether a file is the initialisation file of a package.
pub open spec fn is_init(path: Seq<Seq<u8>>) -> bool {
    path.len() > 0 && part_text(path.last()) == "__init__.py"@
}

/// Whether the name of a file has something in front of the extension of Python files.
pub open spec fn is_python(path: Seq<Seq<u8>>) -> bool {
    path.len() > 0 && path.last().len() > 3 && seq![0x2eu8, 0x70u8, 0x79u8].is_suffix_of(
        path.last(),
    )
}

/// The name of a module depends on the way from the root to its file alone.
pub proof fn law_module_name_below_root(root: Seq<Seq<u8>>, below: Seq<Seq<u8>>)
    ensures
        module_name(root + below, root) == module_name(below, Seq::empty()),
{
    assert((root + below).skip(root.len() as int) =~= below);
    assert(below.skip(0) =~= below);
}

/// The initialisation file of a package holds the module with the name of the package: the same
/// module that a file with the package's name would hold.
pub proof fn law_package_is_named_like_module(
    directory: Seq<Seq<u8>>,
    package: Seq<u8>,
    file: Seq<u8>,
    init: Seq<u8>,
)
    requires
        part_text(file) == part_text(package) + ".py"@,
        part_text(init) == "__init__.py"@,
    ensures
        module_name(directory.push(package).push(init), Seq::empty()) == module_name(
            directory.push(file),
            Seq::empty(),
        ),
{
    let inner = directory.push(package).push(init);
    let plain = directory.push(file);
    assert(inner.skip(0) =~= inner);
    assert(plain.skip(0) =~= plain);
    reveal_strlit(".py");
    reveal_strlit("__init__.py");
    reveal_strlit(".__init__");
    reveal_strlit(".");
    let name = part_text(package);
    assert(without_extension(part_text(file)) =~= name);
    let joined = join(module_parts(plain), "."@);
    let long = join(module_parts(inner), "."@);
    assert(module_parts(inner).drop_last() =~= module_parts(plain));
    assert(long.take(joined.len() as int) =~= joined);
}

/// `std::str::from_utf8`: the text that the bytes encode, where they are UTF-8.
#[verifier::external_body]
fn utf8_text(bytes: &[u8]) -> (text: Option<&str>)
    ensures
        match text {
            Some(t) => valid_utf8(bytes@) && t@ == decode_utf8(bytes@),
            None => !valid_utf8(bytes@),
        },
{
    std::str::from_utf8(bytes).ok()
}

/// The text of a component; empty where its bytes are not UTF-8.
fn text_of(part: &Vec<u8>) -> (text: String)
    ensures
        text@ == part_text(part@),
{
    match utf8_text(part.as_slice()) {
        Some(text) => text.to_owned(),
        None => String::new(),
    }
}

/// Whether two components are the same.
fn same_bytes(a: &Vec<u8>, b: &Vec<u8>) -> (same: bool)
    ensures
        same == (a@ == b@),
{
    if a.len() != b.len() {
        return false;
    }
    let mut i: usize = 0;
    while i < a.len()
        invariant
            a.len() == b.len(),
            i <= a.len(),
            forall|j: int| 0 <= j < i ==> a@[j] == b@[j],
        decreases a.len() - i,
    {
        if a[i] != b[i] {
            return false;
        }
        i += 1;
    }
    assert(a@ =~= b@);
    true
}

/// Whether a path is a directory, or lies in it.
pub fn starts_with(path: &FilePath, directory: &FilePath) -> (inside: bool)
    ensures
        inside == directory@.is_prefix_of(path@),
{
    if directory.parts.len() > path.parts.len() {
        return false;
    }
    let mut i: usize = 0;
    while i < directory.parts.len()
        invariant
            directory.parts.len() <= path.parts.len(),
            i <= directory.parts.len(),
            forall|j: int| 0 <= j < i ==> directory@[j] == path@[j],
        decreases directory.parts.len() - i,
    {
        if !same_bytes(&directory.parts[i], &path.parts[i]) {
            assert(directory@[i as int] != path@[i as int]);
            return false;
        }
        i += 1;
    }
    true
}

/// The dotted name of the module that a file holds.
pub fn path_to_module(path: &FilePath, root: &FilePath) -> (module: String)
    ensures
        module@ == module_name(path@, root@),
{
    let skipped: usize = if starts_with(path, root) {
        root.parts.len()
    } else {
        0
    };
    let ghost below = relative_to(path@, root@);
    let ghost names = below.map_values(|part: Seq<u8>| part_text(part));
    let mut parts: Vec<String> = Vec::new();
    let mut i: usize = skipped;
    while i < path.parts.len()
        invariant
            skipped <= i <= path.parts.len(),
            below == path@.skip(skipped as int),
            names == below.map_values(|part: Seq<u8>| part_text(part)),
            texts(parts@) == names.take(i - skipped),
        decreases path.parts.len() - i,
    {
        let ghost before = texts(parts@);
        let text: String = text_of(&path.parts[i]);
        parts.push(text);
        assert(texts(parts@) =~= before.push(text@));
        i += 1;
    }
    assert(names.take(i - skipped) =~= names);
    if parts.len() > 0 {
        let last: usize = parts.len() - 1;
        let stripped: Option<String> = strip_suffix_text(parts[last].as_str(), ".py");
        let name: String = match stripped {
            Some(name) => name,
            None => parts[last].clone(),
        };
        parts.set(last, name);
        assert(texts(parts@) =~= names.drop_last().push(name@));
    }
    let module: String = join_first(&parts, parts.len(), ".");
    assert(texts(parts@).take(parts@.len() as int) =~= texts(parts@));
    proof {
        reveal_strlit(".__init__");
    }
    strip_all_suffixes(module.as_str(), ".__init__")
}

/// Whether a file is the initialisation file of a package.
pub fn is_package_init(path: &FilePath) -> (init: bool)
    ensures
        init == is_init(path@),
{
    if path.parts.len() == 0 {
        return false;
    }
    let last: usize = path.parts.len() - 1;
    let name: String = text_of(&path.parts[last]);
    name == "__init__.py".to_owned()
}

/// Whether a file holds Python source, by its extension.
pub fn is_python_file(path: &FilePath) -> (python: bool)
    ensures
        python == is_python(path@),
{
    if path.parts.len() == 0 {
        return false;
    }
    let last: usize = path.parts.len() - 1;
    let name: &Vec<u8> = &path.parts[last];
    let len: usize = name.len();
    let python: bool = len > 3 && name[len - 3] == 0x2e && name[len - 2] == 0x70 && name[len - 1]
        == 0x79;
    python
}

/// The text of a component is the one that its bytes encode; a component whose bytes encode none
/// has the empty text.
pub proof fn law_text_of_component(text: Seq<char>, part: Seq<u8>)
    ensures
        part_text(vstd::utf8::encode_utf8(text)) == text,
        !valid_utf8(part) ==> part_text(part).len() == 0,
{
    vstd::utf8::encode_utf8_valid_utf8(text);
    vstd::utf8::encode_utf8_decode_utf8(text);
}

/// A file is an initialisation file exactly where its name is `__init__.py`.
pub proof fn law_init_by_name(directory: Seq<Seq<u8>>, name: Seq<u8>)
    ensures
        !is_init(Seq::empty()),
        is_init(directory.push(name)) <==> name == vstd::utf8::encode_utf8("__init__.py"@),
{
    reveal_strlit("__init__.py");
    law_text_of_component("__init__.py"@, name);
    if valid_utf8(name) {
        vstd::utf8::decode_utf8_encode_utf8(name);
    }
}

/// A file holds Python source exactly where its name is something, and behind it `.py`.
pub proof fn law_python_by_extension(directory: Seq<Seq<u8>>, stem: Seq<u8>, name: Seq<u8>)
    ensures
        !is_python(Seq::empty()),
        is_python(directory.push(stem + seq![0x2eu8, 0x70u8, 0x79u8])) <==> stem.len() > 0,
        is_python(directory.push(name)) ==> name.len() > 3 && name == name.take(name.len() - 3)
            + seq![0x2eu8, 0x70u8, 0x79u8],
{
    assert(is_python(directory.push(name)) ==> name =~= name.take(name.len() - 3)
        + seq![0x2eu8, 0x70u8, 0x79u8]);
}

/// A file that does not lie below the root is named by its whole path.
pub proof fn law_module_name_outside_root(path: Seq<Seq<u8>>, root: Seq<Seq<u8>>)
    requires
        !root.is_prefix_of(path),
    ensures
        module_name(path, root) == module_name(path, Seq::empty()),
{
    assert(path.skip(0) =~= path);
}

/// A text behind a dot loses the marks of a package at its end as it does alone, unless nothing but
/// the name of an initialisation file is left of it.
proof fn lemma_strip_behind_dot(front: Seq<char>, text: Seq<char>)
    requires
        strip_suffixes(text, ".__init__"@) != "__init__"@,
    ensures
        strip_suffixes(front + "."@ + text, ".__init__"@) == front + "."@ + strip_suffixes(
            text,
            ".__init__"@,
        ),
    decreases text.len(),
{
    reveal_strlit(".__init__");
    reveal_strlit("__init__");
    reveal_strlit(".");
    let mark = ".__init__"@;
    let whole = front + "."@ + text;
    if mark.is_suffix_of(text) {
        let shorter = text.take(text.len() - mark.len());
        lemma_strip_behind_dot(front, shorter);
        assert(mark.is_suffix_of(whole)) by {
            assert forall|i: int| 0 <= i < mark.len() implies whole[whole.len() - mark.len() + i]
                == #[trigger] mark[i] by {
                assert(text[text.len() - mark.len() + i] == mark[i]);
            }
        }
        assert(whole.take(whole.len() - mark.len()) =~= front + "."@ + shorter);
    } else if mark.is_suffix_of(whole) {
        let from = whole.len() - mark.len();
        assert forall|i: int| 0 <= i < mark.len() implies whole[from + i] == #[trigger] mark[i] by {}
        if text.len() >= mark.len() {
            assert forall|i: int| 0 <= i < mark.len() implies text[text.len() - mark.len() + i]
                == #[trigger] mark[i] by {
                assert(whole[from + i] == mark[i]);
            }
            assert(mark.is_suffix_of(text));
        } else {
            let dot = mark.len() - 1 - text.len();
            assert(whole[from + dot] == '.');
            assert(mark[dot] == '.');
            assert(dot == 0);
            assert forall|i: int| 0 <= i < text.len() implies #[trigger] text[i]
                == "__init__"@[i] by {
                assert(whole[from + i + 1] == mark[i + 1]);
            }
            assert(text =~= "__init__"@);
        }
    }
}

/// A directory around a file puts its name and a dot in front of the name of the file's module,
/// however deep the file lies. The one exception is what would be named like an initialisation
/// file: in a directory that is the package itself.
pub proof fn law_directory_goes_in_front(directory: Seq<u8>, below: Seq<Seq<u8>>)
    requires
        below.len() > 0,
        module_name(below, Seq::empty()) != "__init__"@,
    ensures
        module_name(seq![directory] + below, Seq::empty()) == part_text(directory) + "."@
            + module_name(below, Seq::empty()),
{
    let path = seq![directory] + below;
    assert(path.skip(0) =~= path);
    assert(below.skip(0) =~= below);
    let front = part_text(directory);
    let inner = module_parts(below);
    assert(module_parts(path) =~= seq![front] + inner);
    law_join_in_groups(front, seq![front], inner, "."@);
    lemma_strip_behind_dot(front, join(inner, "."@));
}

/// A module is named by all directories on the way from the root to its file, in their order, and
/// by the file's own name without the extension: split at the dots, the name gives them all back.
/// The file is no initialisation file of a package, and no name on the way holds a dot.
pub proof fn law_module_is_named_by_the_way(
    root: Seq<Seq<u8>>,
    way: Seq<Seq<u8>>,
    file: Seq<u8>,
    stem: Seq<char>,
)
    requires
        forall|i: int| 0 <= i < way.len() ==> !part_text(#[trigger] way[i]).contains('.'),
        part_text(file) == stem + ".py"@,
        !stem.contains('.'),
        way.len() == 0 || stem != "__init__"@,
    ensures
        ({
            let pieces = split(module_name(root + way.push(file), root), '.');
            &&& pieces.len() == way.len() + 1
            &&& forall|i: int| 0 <= i < way.len() ==> #[trigger] pieces[i] == part_text(way[i])
            &&& pieces.last() == stem
        }),
{
    reveal_strlit(".py");
    reveal_strlit(".");
    reveal_strlit(".__init__");
    let below = way.push(file);
    law_module_name_below_root(root, below);
    assert(below.skip(0) =~= below);
    let names = way.map_values(|part: Seq<u8>| part_text(part));
    let parts = names.push(stem);
    assert(without_extension(part_text(file)) =~= stem);
    assert(module_parts(below) =~= parts);
    assert("."@ =~= seq!['.']);
    assert(!".__init__"@.is_suffix_of(stem)) by {
        if ".__init__"@.is_suffix_of(stem) {
            assert(stem[stem.len() - 9] == ".__init__"@[0]);
        }
    }
    let joined = join(parts, "."@);
    if way.len() > 0 {
        assert(parts.drop_last() =~= names);
        lemma_strip_behind_dot(join(names, "."@), stem);
        assert(joined == join(names, "."@) + "."@ + stem);
    }
    assert(module_name(below, Seq::empty()) == joined);
    assert forall|i: int| 0 <= i < parts.len() implies !(#[trigger] parts[i]).contains('.') by {
        if i < way.len() {
            assert(!part_text(way[i]).contains('.'));
        }
    }
    law_split_undoes_join(parts, '.');
}

/// Each component of a path is read in its place.
pub proof fn law_components_stay_in_place(path: FilePath)
    ensures
        path@.len() == path.parts@.len(),
        forall|i: int| 0 <= i < path.parts@.len() ==> #[trigger] path@[i] == path.parts@[i]@,
        path.deep_view() == path@,
{
}

/// A file in the root is named by its name without the extension, and without the marks of a package
/// at its end; the root itself has the empty name.
pub proof fn law_file_in_root(file: Seq<u8>, stem: Seq<char>)
    ensures
        module_name(Seq::empty(), Seq::empty()).len() == 0,
        part_text(file) == stem + ".py"@ ==> module_name(seq![file], Seq::empty())
            == strip_suffixes(stem, ".__init__"@),
        !".py"@.is_suffix_of(part_text(file)) ==> module_name(seq![file], Seq::empty())
            == strip_suffixes(part_text(file), ".__init__"@),
{
    reveal_strlit(".py");
    reveal_strlit(".__init__");
    let nothing = Seq::<Seq<u8>>::empty();
    assert(nothing.skip(0) =~= nothing);
    assert(module_parts(nothing) =~= Seq::empty());
    let path = seq![file];
    assert(path.skip(0) =~= path);
    if part_text(file) == stem + ".py"@ {
        assert(without_extension(part_text(file)) =~= stem);
    }
    assert(module_parts(path) =~= seq![without_extension(part_text(file))]);
}

proof fn lemma_strip_whole_mark(front: Seq<char>, text: Seq<char>)
    requires
        strip_suffixes(text, ".__init__"@) == "__init__"@,
    ensures
        strip_suffixes(front + "."@ + text, ".__init__"@) == strip_suffixes(front, ".__init__"@),
    decreases text.len(),
{
    reveal_strlit(".__init__");
    reveal_strlit("__init__");
    reveal_strlit(".");
    let mark = ".__init__"@;
    let whole = front + "."@ + text;
    if mark.is_suffix_of(text) {
        let shorter = text.take(text.len() - mark.len());
        lemma_strip_whole_mark(front, shorter);
        let inner = front + "."@ + shorter;
        assert(text =~= shorter + mark);
        assert(whole =~= inner + mark);
        law_suffixes_are_stripped(inner, mark);
    } else {
        assert("."@ + text =~= mark);
        assert(whole =~= front + mark);
        law_suffixes_are_stripped(front, mark);
    }
}

/// What would be named like an initialisation file is, in a directory, named like the directory.
pub proof fn law_package_is_named_by_directory(directory: Seq<u8>, below: Seq<Seq<u8>>)
    requires
        below.len() > 0,
        module_name(below, Seq::empty()) == "__init__"@,
    ensures
        module_name(seq![directory] + below, Seq::empty()) == strip_suffixes(
            part_text(directory),
            ".__init__"@,
        ),
{
    let path = seq![directory] + below;
    assert(path.skip(0) =~= path);
    assert(below.skip(0) =~= below);
    let front = part_text(directory);
    let inner = module_parts(below);
    assert(module_parts(path) =~= seq![front] + inner);
    law_join_in_groups(front, seq![front], inner, "."@);
    lemma_strip_whole_mark(front, join(inner, "."@));
}

} // verus!
