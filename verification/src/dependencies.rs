//! The modules of a project, and which of them each one imports.
use crate::import_graph::depends_on;
use crate::imports::{
    extract_imports, import_views, module_imports, plain_imports, source_imports,
    Import, RawImport,
};
use crate::names::{keys, law_lookup_after_put, lemma_put, lookup, put, NameMap};
use crate::paths::{is_init, module_name, path_to_module, FilePath};
use crate::resolve::{law_resolved_modules_are_known, resolve_import, resolved};
use crate::text::{split, texts};
use vstd::prelude::*;

verus! {

/// A source file, with its text where it could be read.
pub struct SourceFile {
    pub path: FilePath,
    pub content: Option<String>,
}

/// What a source file holds.
pub struct Source {
    pub path: Seq<Seq<u8>>,
    pub content: Option<Seq<char>>,
}

impl View for SourceFile {
    type V = Source;

    open spec fn view(&self) -> Source {
        Source {
            path: self.path@,
            content: match self.content {
                Some(text) => Some(text@),
                None => None,
            },
        }
    }
}

/// What each source file holds.
pub open spec fn sources(files: Seq<SourceFile>) -> Seq<Source> {
    files.map_values(|file: SourceFile| file@)
}

/// The modules that the files hold, each with its file; the later one where two files hold
/// modules of the same name.
pub open spec fn modules(files: Seq<Source>, root: Seq<Seq<u8>>) -> Seq<(Seq<char>, Seq<Seq<u8>>)>
    decreases files.len(),
{
    if files.len() == 0 {
        Seq::empty()
    } else {
        let file = files.last();
        put(modules(files.drop_last(), root), module_name(file.path, root), file.path)
    }
}

/// The names that are neither the given one nor in the list yet, added to the list.
pub open spec fn add_others(
    list: Seq<Seq<char>>,
    module: Seq<char>,
    found: Seq<Seq<char>>,
) -> Seq<Seq<char>>
    decreases found.len(),
{
    if found.len() == 0 {
        list
    } else {
        let before = add_others(list, module, found.drop_last());
        let name = found.last();
        if name == module || before.contains(name) {
            before
        } else {
            before.push(name)
        }
    }
}

/// The other modules that the imports of a module refer to, each once, in the order of their
/// first mention.
pub open spec fn dependencies_of(
    module: Seq<char>,
    init: bool,
    imports: Seq<Import>,
    known: Seq<Seq<char>>,
) -> Seq<Seq<char>>
    decreases imports.len(),
{
    if imports.len() == 0 {
        Seq::empty()
    } else {
        add_others(
            dependencies_of(module, init, imports.drop_last(), known),
            module,
            resolved(module, init, imports.last(), known),
        )
    }
}

/// What a file imports; nothing where it could not be read.
pub open spec fn file_imports(file: Source) -> Seq<Import> {
    match file.content {
        Some(text) => source_imports(text),
        None => Seq::empty(),
    }
}

/// The dependencies of the modules that the files hold; those of the later file where two files
/// hold modules of the same name.
pub open spec fn all_dependencies(
    files: Seq<Source>,
    root: Seq<Seq<u8>>,
    known: Seq<Seq<char>>,
) -> Seq<(Seq<char>, Seq<Seq<char>>)>
    decreases files.len(),
{
    if files.len() == 0 {
        Seq::empty()
    } else {
        let file = files.last();
        let module = module_name(file.path, root);
        put(
            all_dependencies(files.drop_last(), root, known),
            module,
            dependencies_of(module, is_init(file.path), file_imports(file), known),
        )
    }
}

/// Whether every relative import has a dot.
pub open spec fn dots_agree(imports: Seq<Import>) -> bool {
    forall|i: int|
        0 <= i < imports.len() ==> ((#[trigger] imports[i]).is_relative ==> imports[i].dot_count
            >= 1)
}

/// The relative imports of a source text are those with a dot.
pub proof fn lemma_source_dots(content: Seq<char>)
    ensures
        dots_agree(source_imports(content)),
{
    let plain = crate::imports::regex_captures(crate::imports::IMPORT_PATTERN@, content);
    lemma_plain_dots(plain);
}

proof fn lemma_plain_dots(matches: Seq<Seq<Option<Seq<char>>>>)
    ensures
        dots_agree(plain_imports(matches)),
    decreases matches.len(),
{
    if matches.len() > 0 {
        lemma_plain_dots(matches.drop_last());
        lemma_module_dots(split(matches.last()[1]->0, ','));
    }
}

proof fn lemma_module_dots(pieces: Seq<Seq<char>>)
    ensures
        dots_agree(module_imports(pieces)),
    decreases pieces.len(),
{
    if pieces.len() > 0 {
        lemma_module_dots(pieces.drop_last());
    }
}

/// The modules that the files hold, each with its file.
pub fn build_module_map(files: &Vec<SourceFile>, root: &FilePath) -> (map: NameMap<FilePath>)
    ensures
        map@ == modules(sources(files@), root@),
{
    let ghost all = sources(files@);
    let mut map: NameMap<FilePath> = NameMap::new();
    let mut i: usize = 0;
    while i < files.len()
        invariant
            all == sources(files@),
            i <= files.len(),
            map@ == modules(all.take(i as int), root@),
        decreases files.len() - i,
    {
        assert(all.take(i + 1).drop_last() =~= all.take(i as int));
        let module: String = path_to_module(&files[i].path, root);
        map.insert(module, files[i].path.clone());
        i += 1;
    }
    assert(all.take(i as int) =~= all);
    map
}

/// Whether a text is in the list.
fn has_text(list: &Vec<String>, text: &String) -> (found: bool)
    ensures
        found == texts(list@).contains(text@),
{
    let mut i: usize = 0;
    while i < list.len()
        invariant
            i <= list.len(),
            forall|j: int| 0 <= j < i ==> texts(list@)[j] != text@,
        decreases list.len() - i,
    {
        if list[i] == *text {
            assert(texts(list@)[i as int] == text@);
            return true;
        }
        i += 1;
    }
    false
}

/// The other modules that the imports of a module refer to, each once.
pub fn collect_dependencies(
    module: &String,
    file: &FilePath,
    raw_imports: &Vec<RawImport>,
    module_map: &NameMap<FilePath>,
) -> (dependencies: Vec<String>)
    requires
        is_init(file@) ==> dots_agree(import_views(raw_imports@)),
    ensures
        texts(dependencies@) == dependencies_of(
            module@,
            is_init(file@),
            import_views(raw_imports@),
            keys(module_map@),
        ),
{
    let ghost imports = import_views(raw_imports@);
    let ghost known = keys(module_map@);
    let ghost init = is_init(file@);
    let mut dependencies: Vec<String> = Vec::new();
    let mut i: usize = 0;
    while i < raw_imports.len()
        invariant
            imports == import_views(raw_imports@),
            known == keys(module_map@),
            init == is_init(file@),
            init ==> dots_agree(imports),
            i <= raw_imports.len(),
            texts(dependencies@) == dependencies_of(module@, init, imports.take(i as int), known),
        decreases raw_imports.len() - i,
    {
        assert(imports.take(i + 1).drop_last() =~= imports.take(i as int));
        assert(imports[i as int] == raw_imports@[i as int]@);
        let found: Vec<String> = resolve_import(module.as_str(), file, &raw_imports[i], module_map);
        let ghost names = texts(found@);
        let ghost before = texts(dependencies@);
        let mut j: usize = 0;
        while j < found.len()
            invariant
                names == texts(found@),
                j <= found.len(),
                texts(dependencies@) == add_others(before, module@, names.take(j as int)),
            decreases found.len() - j,
        {
            assert(names.take(j + 1).drop_last() =~= names.take(j as int));
            if found[j] != *module && !has_text(&dependencies, &found[j]) {
                let name: String = found[j].clone();
                dependencies.push(name);
            }
            j += 1;
        }
        assert(names.take(j as int) =~= names);
        i += 1;
    }
    assert(imports.take(i as int) =~= imports);
    dependencies
}

/// The dependencies of the modules that the files hold.
pub fn extract_all_dependencies(
    files: &Vec<SourceFile>,
    module_map: &NameMap<FilePath>,
    root: &FilePath,
) -> (dependencies: NameMap<Vec<String>>)
    ensures
        dependencies@ == all_dependencies(sources(files@), root@, keys(module_map@)),
{
    let ghost all = sources(files@);
    let ghost known = keys(module_map@);
    let mut dependencies: NameMap<Vec<String>> = NameMap::new();
    let mut i: usize = 0;
    while i < files.len()
        invariant
            all == sources(files@),
            known == keys(module_map@),
            i <= files.len(),
            dependencies@ == all_dependencies(all.take(i as int), root@, known),
        decreases files.len() - i,
    {
        assert(all.take(i + 1).drop_last() =~= all.take(i as int));
        let module: String = path_to_module(&files[i].path, root);
        let raw_imports: Vec<RawImport> = match &files[i].content {
            Some(text) => {
                proof {
                    lemma_source_dots(text@);
                }
                extract_imports(text.as_str())
            },
            None => Vec::new(),
        };
        let found: Vec<String> = collect_dependencies(
            &module,
            &files[i].path,
            &raw_imports,
            module_map,
        );
        assert(found.deep_view() =~= texts(found@));
        dependencies.insert(module, found);
        i += 1;
    }
    assert(all.take(i as int) =~= all);
    dependencies
}

/// Adding names keeps a list free of the module itself and of repetitions, and adds nothing but
/// what was found.
proof fn lemma_add_others(
    list: Seq<Seq<char>>,
    module: Seq<char>,
    found: Seq<Seq<char>>,
    known: Seq<Seq<char>>,
)
    requires
        list.no_duplicates(),
        !list.contains(module),
        forall|i: int| 0 <= i < list.len() ==> known.contains(#[trigger] list[i]),
        forall|i: int| 0 <= i < found.len() ==> known.contains(#[trigger] found[i]),
    ensures
        ({
            let after = add_others(list, module, found);
            &&& after.no_duplicates()
            &&& !after.contains(module)
            &&& forall|i: int| 0 <= i < after.len() ==> known.contains(#[trigger] after[i])
            &&& forall|name: Seq<char>|
                #![trigger after.contains(name)]
                after.contains(name) <==> list.contains(name) || (found.contains(name) && name
                    != module)
        }),
    decreases found.len(),
{
    let after = add_others(list, module, found);
    if found.len() > 0 {
        let shorter = found.drop_last();
        let name = found.last();
        lemma_add_others(list, module, shorter, known);
        let before = add_others(list, module, shorter);
        assert(found =~= shorter.push(name));
        if name != module && !before.contains(name) {
            assert forall|n: Seq<char>| #[trigger] after.contains(n) <==> before.contains(n) || n
                == name by {
                if before.contains(n) {
                    let k = before.index_of(n);
                    assert(after[k] == n);
                }
                if n == name {
                    assert(after[before.len() as int] == n);
                }
            }
        }
    }
}

/// The dependencies of a module are known modules other than itself, without repetition: exactly
/// those that one of its imports is resolved to.
pub proof fn law_dependencies_are_resolved_imports(
    module: Seq<char>,
    init: bool,
    imports: Seq<Import>,
    known: Seq<Seq<char>>,
)
    ensures
        ({
            let list = dependencies_of(module, init, imports, known);
            &&& list.no_duplicates()
            &&& !list.contains(module)
            &&& forall|i: int| 0 <= i < list.len() ==> known.contains(#[trigger] list[i])
            &&& forall|name: Seq<char>|
                #![trigger list.contains(name)]
                list.contains(name) <==> name != module && exists|i: int|
                    0 <= i < imports.len() && resolved(
                        module,
                        init,
                        #[trigger] imports[i],
                        known,
                    ).contains(name)
        }),
    decreases imports.len(),
{
    if imports.len() > 0 {
        let shorter = imports.drop_last();
        let found = resolved(module, init, imports.last(), known);
        law_dependencies_are_resolved_imports(module, init, shorter, known);
        assert forall|i: int| 0 <= i < found.len() implies known.contains(#[trigger] found[i]) by {
            law_resolved_modules_are_known(module, init, imports.last(), known, i);
        }
        let before = dependencies_of(module, init, shorter, known);
        lemma_add_others(before, module, found, known);
        let list = dependencies_of(module, init, imports, known);
        assert forall|name: Seq<char>| #[trigger] list.contains(name) <==> name != module
            && exists|i: int|
            0 <= i < imports.len() && resolved(
                module,
                init,
                #[trigger] imports[i],
                known,
            ).contains(name) by {
            if name != module && exists|i: int|
                0 <= i < imports.len() && resolved(
                    module,
                    init,
                    #[trigger] imports[i],
                    known,
                ).contains(name) {
                let k = choose|k: int|
                    0 <= k < imports.len() && resolved(
                        module,
                        init,
                        #[trigger] imports[k],
                        known,
                    ).contains(name);
                if k < shorter.len() {
                    assert(resolved(module, init, shorter[k], known).contains(name));
                }
            }
        }
    }
}

/// The names of the modules are distinct, and so are those of the modules with dependencies;
/// both are the names of the files.
pub proof fn law_modules_have_dependencies(
    files: Seq<Source>,
    root: Seq<Seq<u8>>,
    known: Seq<Seq<char>>,
)
    ensures
        keys(modules(files, root)).no_duplicates(),
        keys(all_dependencies(files, root, known)) == keys(modules(files, root)),
    decreases files.len(),
{
    if files.len() > 0 {
        law_modules_have_dependencies(files.drop_last(), root, known);
        let file = files.last();
        let module = module_name(file.path, root);
        lemma_put(modules(files.drop_last(), root), module, file.path);
    }
}

/// A name belongs to a module exactly where a file holds a module of that name.
pub proof fn law_modules_are_those_of_files(
    files: Seq<Source>,
    root: Seq<Seq<u8>>,
    name: Seq<char>,
)
    ensures
        keys(modules(files, root)).contains(name) <==> exists|i: int|
            0 <= i < files.len() && module_name((#[trigger] files[i]).path, root) == name,
    decreases files.len(),
{
    if files.len() > 0 {
        let shorter = files.drop_last();
        let file = files.last();
        let module = module_name(file.path, root);
        law_modules_are_those_of_files(shorter, root, name);
        law_modules_have_dependencies(shorter, root, Seq::empty());
        let before = modules(shorter, root);
        lemma_put(before, module, file.path);
        if name == module {
            if !keys(before).contains(module) {
                assert(keys(before).push(module)[before.len() as int] == name);
            }
        } else {
            if keys(before).contains(name) {
                let k = keys(before).index_of(name);
                assert(keys(modules(files, root))[k] == name);
            }
            if exists|i: int|
                0 <= i < files.len() && module_name((#[trigger] files[i]).path, root) == name {
                let i = choose|i: int|
                    0 <= i < files.len() && module_name((#[trigger] files[i]).path, root) == name;
                assert(shorter[i] == files[i]);
            }
        }
    }
}

/// Whatever a module of the project depends on is another module of the project, listed once.
pub proof fn law_dependencies_are_modules(
    files: Seq<Source>,
    root: Seq<Seq<u8>>,
    known: Seq<Seq<char>>,
    i: int,
)
    requires
        0 <= i < all_dependencies(files, root, known).len(),
    ensures
        ({
            let entry = all_dependencies(files, root, known)[i];
            &&& entry.1.no_duplicates()
            &&& !entry.1.contains(entry.0)
            &&& forall|j: int| 0 <= j < entry.1.len() ==> known.contains(#[trigger] entry.1[j])
        }),
    decreases files.len(),
{
    let file = files.last();
    let module = module_name(file.path, root);
    let before = all_dependencies(files.drop_last(), root, known);
    law_dependencies_are_resolved_imports(module, is_init(file.path), file_imports(file), known);
    if keys(before).contains(module) {
        let at = keys(before).index_of(module);
        if i != at {
            law_dependencies_are_modules(files.drop_last(), root, known, i);
        }
    } else if i < before.len() {
        law_dependencies_are_modules(files.drop_last(), root, known, i);
    }
}

/// The last file that holds a module of a name decides for it: the module belongs to that file, and
/// depends on another module exactly where one of the imports in that file is resolved to it. A
/// module of a file that could not be read depends on nothing.
pub proof fn law_last_file_decides(
    files: Seq<Source>,
    root: Seq<Seq<u8>>,
    known: Seq<Seq<char>>,
    k: int,
    other: Seq<char>,
)
    requires
        0 <= k < files.len(),
        forall|j: int|
            k < j < files.len() ==> module_name((#[trigger] files[j]).path, root) != module_name(
                files[k].path,
                root,
            ),
    ensures
        ({
            let module = module_name(files[k].path, root);
            &&& lookup(modules(files, root), module) == Some(files[k].path)
            &&& depends_on(all_dependencies(files, root, known), module, other) <==> {
                &&& other != module
                &&& files[k].content matches Some(text)
                &&& exists|i: int|
                    0 <= i < source_imports(text).len() && resolved(
                        module,
                        is_init(files[k].path),
                        #[trigger] source_imports(text)[i],
                        known,
                    ).contains(other)
            }
        }),
    decreases files.len(),
{
    let shorter = files.drop_last();
    let file = files.last();
    let module = module_name(files[k].path, root);
    let last = module_name(file.path, root);
    let list = dependencies_of(last, is_init(file.path), file_imports(file), known);
    law_modules_have_dependencies(shorter, root, known);
    law_lookup_after_put(modules(shorter, root), last, file.path, module);
    law_lookup_after_put(all_dependencies(shorter, root, known), last, list, module);
    if k < shorter.len() {
        assert(shorter[k] == files[k]);
        assert(module_name(files[files.len() - 1].path, root) != module);
        assert forall|j: int| k < j < shorter.len() implies module_name(
            (#[trigger] shorter[j]).path,
            root,
        ) != module_name(shorter[k].path, root) by {
            assert(shorter[j] == files[j]);
        }
        law_last_file_decides(shorter, root, known, k, other);
    } else {
        law_dependencies_are_resolved_imports(
            last,
            is_init(file.path),
            file_imports(file),
            known,
        );
        assert(depends_on(all_dependencies(files, root, known), module, other) <==> list.contains(
            other,
        ));
    }
}

/// What each file holds is read in its place.
pub proof fn law_sources_stay_in_place(files: Seq<SourceFile>)
    ensures
        sources(files).len() == files.len(),
        forall|i: int|
            0 <= i < files.len() ==> (#[trigger] sources(files)[i]).path == files[i].path@ && (
            sources(files)[i].content is Some <==> files[i].content is Some),
        forall|i: int|
            0 <= i < files.len() && files[i].content is Some ==> (
            #[trigger] sources(files)[i]).content->0 == files[i].content->0@,
{
}

} // verus!
