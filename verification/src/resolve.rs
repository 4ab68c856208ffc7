//! Which modules of the project an import refers to.
use crate::imports::{Import, RawImport};
use crate::names::{keys, NameMap};
use crate::paths::{is_init, is_package_init, FilePath};
use crate::text::{
    chars_of, join, join_first, law_join_undoes_split, law_split_appends, law_split_undoes_join,
    split, split_text, texts,
};
use vstd::prelude::*;

verus! {

/// The package that the leading dots of a relative import lead to. One dot stands for the package
/// that the importing file belongs to, which for an initialisation file is the module itself, and
/// each further dot for the package around it. There is none outside the outermost package.
pub open spec fn relative_base(module: Seq<char>, init: bool, dots: nat) -> Option<Seq<char>> {
    let parts = split(module, '.');
    let levels = if init {
        dots - 1
    } else {
        dots as int
    };
    if levels >= parts.len() {
        None
    } else {
        let base = join(parts.take(parts.len() - levels), "."@);
        if base.len() == 0 {
            None
        } else {
            Some(base)
        }
    }
}

/// Whether a dotted name is the given one, or that of a package around it.
pub open spec fn encloses(module: Seq<char>, target: Seq<char>) -> bool {
    &&& module.is_prefix_of(target)
    &&& module.len() == target.len() || target[module.len() as int] == '.'
}

/// The longest of the known names that enclose a name.
pub open spec fn longest_prefix(target: Seq<char>, known: Seq<Seq<char>>) -> Option<Seq<char>>
    decreases known.len(),
{
    if known.len() == 0 {
        None
    } else {
        let best = longest_prefix(target, known.drop_last());
        let module = known.last();
        if encloses(module, target) && (best is None || module.len() > best->0.len()) {
            Some(module)
        } else {
            best
        }
    }
}

/// The one value, or none.
pub open spec fn at_most_one(value: Option<Seq<char>>) -> Seq<Seq<char>> {
    match value {
        Some(text) => seq![text],
        None => Seq::empty(),
    }
}

/// The module that a name refers to: the one of that name, or else the innermost around it.
pub open spec fn resolve_whole(base: Seq<char>, known: Seq<Seq<char>>) -> Seq<Seq<char>> {
    if known.contains(base) {
        seq![base]
    } else {
        at_most_one(longest_prefix(base, known))
    }
}

/// The module that a name imported from a module refers to: the submodule of that name, or else
/// the module itself, or else the innermost known module around them.
pub open spec fn resolve_member(
    base: Seq<char>,
    name: Seq<char>,
    known: Seq<Seq<char>>,
) -> Seq<Seq<char>> {
    let full = base + "."@ + name;
    if known.contains(full) {
        seq![full]
    } else if known.contains(base) {
        seq![base]
    } else {
        at_most_one(longest_prefix(full, known))
    }
}

/// The modules that the imported names refer to, one after another.
pub open spec fn resolve_members(
    base: Seq<char>,
    names: Seq<Seq<char>>,
    known: Seq<Seq<char>>,
) -> Seq<Seq<char>>
    decreases names.len(),
{
    if names.len() == 0 {
        Seq::empty()
    } else {
        resolve_members(base, names.drop_last(), known) + resolve_member(base, names.last(), known)
    }
}

/// The modules that an import of names from a module refers to, or of the module itself where
/// there are no names.
pub open spec fn resolve_module(
    base: Seq<char>,
    names: Seq<Seq<char>>,
    known: Seq<Seq<char>>,
) -> Seq<Seq<char>> {
    if names.len() == 0 {
        resolve_whole(base, known)
    } else {
        resolve_members(base, names, known)
    }
}

/// The modules that an import refers to, by the module that it stands in.
pub open spec fn resolved(
    module: Seq<char>,
    init: bool,
    import: Import,
    known: Seq<Seq<char>>,
) -> Seq<Seq<char>> {
    if import.is_relative {
        match relative_base(module, init, import.dot_count) {
            Some(base) => {
                let full = if import.base.len() == 0 {
                    base
                } else {
                    base + "."@ + import.base
                };
                resolve_module(full, import.names, known)
            },
            None => Seq::empty(),
        }
    } else {
        resolve_module(import.base, import.names, known)
    }
}

/// The longest prefix is one of the known names, encloses the name, and is as long as any known
/// name that does; there is none only where no known name does.
pub proof fn law_longest_prefix(target: Seq<char>, known: Seq<Seq<char>>)
    ensures
        match longest_prefix(target, known) {
            Some(best) => {
                &&& known.contains(best)
                &&& encloses(best, target)
                &&& forall|i: int|
                    0 <= i < known.len() && encloses(#[trigger] known[i], target) ==> known[i].len()
                        <= best.len()
            },
            None => forall|i: int|
                0 <= i < known.len() ==> !encloses(#[trigger] known[i], target),
        },
    decreases known.len(),
{
    if known.len() > 0 {
        let shorter = known.drop_last();
        law_longest_prefix(target, shorter);
        assert(forall|i: int| 0 <= i < shorter.len() ==> #[trigger] known[i] == shorter[i]);
    }
}

/// Every module that an import is resolved to is a known one.
pub proof fn law_resolved_modules_are_known(
    module: Seq<char>,
    init: bool,
    import: Import,
    known: Seq<Seq<char>>,
    i: int,
)
    requires
        0 <= i < resolved(module, init, import, known).len(),
    ensures
        known.contains(resolved(module, init, import, known)[i]),
{
    if import.is_relative {
        let base = relative_base(module, init, import.dot_count)->0;
        let full = if import.base.len() == 0 {
            base
        } else {
            base + "."@ + import.base
        };
        lemma_module_known(full, import.names, known, i);
    } else {
        lemma_module_known(import.base, import.names, known, i);
    }
}

proof fn lemma_module_known(
    base: Seq<char>,
    names: Seq<Seq<char>>,
    known: Seq<Seq<char>>,
    i: int,
)
    requires
        0 <= i < resolve_module(base, names, known).len(),
    ensures
        known.contains(resolve_module(base, names, known)[i]),
{
    if names.len() == 0 {
        law_longest_prefix(base, known);
    } else {
        lemma_members_known(base, names, known, i);
    }
}

proof fn lemma_members_known(
    base: Seq<char>,
    names: Seq<Seq<char>>,
    known: Seq<Seq<char>>,
    i: int,
)
    requires
        0 <= i < resolve_members(base, names, known).len(),
    ensures
        known.contains(resolve_members(base, names, known)[i]),
    decreases names.len(),
{
    let before = resolve_members(base, names.drop_last(), known);
    if i < before.len() {
        lemma_members_known(base, names.drop_last(), known, i);
    } else {
        law_longest_prefix(base + "."@ + names.last(), known);
    }
}

/// In the initialisation file of a package, one dot stands for the package itself.
pub proof fn law_one_dot_in_package(package: Seq<char>)
    requires
        package.len() > 0,
    ensures
        relative_base(package, true, 1) == Some(package),
{
    let parts = split(package, '.');
    law_join_undoes_split(package, '.');
    reveal_strlit(".");
    assert("."@ =~= seq!['.']);
    assert(parts.take(parts.len() as int) =~= parts);
}

/// What dots mean in any other module is what they mean in the initialisation file of the package
/// that it belongs to.
pub proof fn law_dots_in_module(package: Seq<char>, name: Seq<char>, dots: nat)
    requires
        !name.contains('.'),
        dots >= 1,
    ensures
        relative_base(package + "."@ + name, false, dots) == relative_base(package, true, dots),
{
    reveal_strlit(".");
    assert("."@ =~= seq!['.']);
    law_split_appends(package, '.', name);
    let parts = split(package, '.');
    let kept = parts.len() - (dots - 1);
    if kept > 0 {
        assert(parts.push(name).take(kept) =~= parts.take(kept));
    }
}

/// In any other module, one dot stands for the package that the module belongs to.
pub proof fn law_one_dot_in_module(package: Seq<char>, name: Seq<char>)
    requires
        package.len() > 0,
        !name.contains('.'),
    ensures
        relative_base(package + "."@ + name, false, 1) == Some(package),
{
    law_dots_in_module(package, name, 1);
    law_one_dot_in_package(package);
}

/// One more dot stands for the package around: what it means in a package is what one dot less
/// means in the package around it.
pub proof fn law_further_dot(package: Seq<char>, name: Seq<char>, dots: nat)
    requires
        !name.contains('.'),
        dots >= 1,
    ensures
        relative_base(package + "."@ + name, true, dots + 1) == relative_base(package, true, dots),
{
    reveal_strlit(".");
    assert("."@ =~= seq!['.']);
    law_split_appends(package, '.', name);
    let parts = split(package, '.');
    let kept = parts.len() - (dots - 1);
    if kept > 0 {
        assert(parts.push(name).take(kept) =~= parts.take(kept));
    }
}

/// The package that the leading dots of a relative import lead to.
pub fn compute_relative_base(
    importing_module: &str,
    importing_file: &FilePath,
    dot_count: usize,
) -> (base: Option<String>)
    requires
        is_init(importing_file@) ==> dot_count >= 1,
    ensures
        match base {
            Some(text) => relative_base(importing_module@, is_init(importing_file@), dot_count as nat)
                == Some(text@),
            None => relative_base(importing_module@, is_init(importing_file@), dot_count as nat) is None,
        },
{
    let parts: Vec<String> = split_text(importing_module, '.');
    let levels: usize = if is_package_init(importing_file) {
        dot_count - 1
    } else {
        dot_count
    };
    if levels >= parts.len() {
        return None;
    }
    let base: String = join_first(&parts, parts.len() - levels, ".");
    if base.as_str().is_empty() {
        None
    } else {
        Some(base)
    }
}

/// Whether a dotted name is the given one, or that of a package around it.
fn is_enclosing(module: &Vec<char>, target: &Vec<char>) -> (enclosing: bool)
    ensures
        enclosing == encloses(module@, target@),
{
    if module.len() > target.len() {
        return false;
    }
    let mut i: usize = 0;
    while i < module.len()
        invariant
            module.len() <= target.len(),
            i <= module.len(),
            forall|j: int| 0 <= j < i ==> module@[j] == target@[j],
        decreases module.len() - i,
    {
        if module[i] != target[i] {
            return false;
        }
        i += 1;
    }
    module.len() == target.len() || target[module.len()] == '.'
}

/// Adds the longest of the known names that enclose a name, if there is one.
pub fn find_longest_prefix(
    target: &str,
    known_modules: &NameMap<FilePath>,
    resolved: &mut Vec<String>,
)
    ensures
        texts(final(resolved)@) == texts(old(resolved)@) + at_most_one(
            longest_prefix(target@, keys(known_modules@)),
        ),
{
    let ghost known = keys(known_modules@);
    let wanted: Vec<char> = chars_of(target);
    let mut best: Option<usize> = None;
    let mut best_len: usize = 0;
    let mut i: usize = 0;
    while i < known_modules.len()
        invariant
            known == keys(known_modules@),
            wanted@ == target@,
            i <= known_modules@.len(),
            match best {
                Some(position) => position < known.len() && longest_prefix(
                    target@,
                    known.take(i as int),
                ) == Some(known[position as int]) && best_len == known[position as int].len(),
                None => longest_prefix(target@, known.take(i as int)) is None,
            },
        decreases known_modules@.len() - i,
    {
        assert(known.take(i + 1).drop_last() =~= known.take(i as int));
        let module: Vec<char> = chars_of(known_modules.name_at(i).as_str());
        if is_enclosing(&module, &wanted) && (best.is_none() || module.len() > best_len) {
            best = Some(i);
            best_len = module.len();
        }
        i += 1;
    }
    assert(known.take(i as int) =~= known);
    match best {
        Some(position) => {
            let module: String = known_modules.name_at(position).clone();
            resolved.push(module);
        },
        None => {},
    }
}

/// Adds the modules that an import of names from a module refers to, or of the module itself
/// where there are no names.
pub fn try_resolve_module(
    full_base: &str,
    names: &Vec<String>,
    known_modules: &NameMap<FilePath>,
    resolved: &mut Vec<String>,
)
    ensures
        texts(final(resolved)@) == texts(old(resolved)@) + resolve_module(
            full_base@,
            texts(names@),
            keys(known_modules@),
        ),
{
    let ghost known = keys(known_modules@);
    let ghost start = texts(resolved@);
    if names.len() == 0 {
        if known_modules.contains(full_base) {
            let module: String = full_base.to_owned();
            resolved.push(module);
        } else {
            find_longest_prefix(full_base, known_modules, resolved);
        }
        return;
    }
    let mut i: usize = 0;
    while i < names.len()
        invariant
            known == keys(known_modules@),
            i <= names.len(),
            texts(resolved@) == start + resolve_members(
                full_base@,
                texts(names@).take(i as int),
                known,
            ),
        decreases names.len() - i,
    {
        let ghost before = texts(resolved@);
        assert(texts(names@).take(i + 1).drop_last() =~= texts(names@).take(i as int));
        let mut full_path: String = full_base.to_owned();
        full_path.append(".");
        full_path.append(names[i].as_str());
        if known_modules.contains(full_path.as_str()) {
            resolved.push(full_path);
            assert(texts(resolved@) =~= before + seq![full_path@]);
        } else if known_modules.contains(full_base) {
            let module: String = full_base.to_owned();
            resolved.push(module);
            assert(texts(resolved@) =~= before + seq![module@]);
        } else {
            find_longest_prefix(full_path.as_str(), known_modules, resolved);
        }
        i += 1;
    }
    assert(texts(names@).take(i as int) =~= texts(names@));
}

/// The modules of the project that an import refers to.
pub fn resolve_import(
    importing_module: &str,
    importing_file: &FilePath,
    raw: &RawImport,
    module_map: &NameMap<FilePath>,
) -> (modules: Vec<String>)
    requires
        raw.is_relative && is_init(importing_file@) ==> raw.dot_count >= 1,
    ensures
        texts(modules@) == resolved(
            importing_module@,
            is_init(importing_file@),
            raw@,
            keys(module_map@),
        ),
{
    let mut modules: Vec<String> = Vec::new();
    if raw.is_relative {
        match compute_relative_base(importing_module, importing_file, raw.dot_count) {
            Some(base) => {
                let mut full_base: String = base;
                if !raw.base.as_str().is_empty() {
                    full_base.append(".");
                    full_base.append(raw.base.as_str());
                }
                try_resolve_module(full_base.as_str(), &raw.names, module_map, &mut modules);
            },
            None => {},
        }
    } else {
        try_resolve_module(raw.base.as_str(), &raw.names, module_map, &mut modules);
    }
    modules
}

/// A name encloses itself, and every name that goes on from it behind a dot, and no other.
pub proof fn law_enclosing_names(module: Seq<char>, target: Seq<char>, rest: Seq<char>)
    ensures
        encloses(target, target),
        encloses(module, module + seq!['.'] + rest),
        encloses(module, target) ==> target == module || target == module + seq!['.']
            + target.skip(module.len() as int + 1),
{
    if encloses(module, target) {
        if module.len() == target.len() {
            assert(target =~= module);
        } else {
            assert(target =~= module + seq!['.'] + target.skip(module.len() as int + 1));
        }
    }
}

/// No dots lead out of the outermost package.
pub proof fn law_no_package_outside(name: Seq<char>, dots: nat)
    requires
        !name.contains('.'),
    ensures
        dots >= 1 ==> relative_base(name, false, dots) is None,
        dots >= 2 ==> relative_base(name, true, dots) is None,
        dots >= 1 ==> relative_base(Seq::empty(), true, dots) is None,
{
    assert(join(seq![name], seq!['.']) == name);
    law_split_undoes_join(seq![name], '.');
    let empty = Seq::<char>::empty();
    reveal_strlit(".");
    assert(split(empty, '.') =~= seq![empty]);
    if dots == 1 {
        assert(seq![empty].take(1) =~= seq![empty]);
    }
}

/// A relative import refers to what the absolute import from the package that its dots lead to
/// refers to, with the same imported names, wherever that absolute import stands: from the package
/// itself where nothing but dots is written, else from the module of the written name in the
/// package. Where the dots lead to no package, it refers to nothing.
pub proof fn law_relative_import_is_absolute_in_package(
    module: Seq<char>,
    init: bool,
    import: Import,
    known: Seq<Seq<char>>,
    elsewhere: Seq<char>,
    elsewhere_init: bool,
)
    requires
        import.is_relative,
    ensures
        match relative_base(module, init, import.dot_count) {
            Some(package) => resolved(module, init, import, known) == resolved(
                elsewhere,
                elsewhere_init,
                (Import {
                    base: if import.base.len() > 0 {
                        package + "."@ + import.base
                    } else {
                        package
                    },
                    names: import.names,
                    is_relative: false,
                    dot_count: 0,
                }),
                known,
            ),
            None => resolved(module, init, import, known).len() == 0,
        },
{
}

/// An absolute import of a module, or of everything in it, refers to exactly that module where it
/// is known. Else it refers to the one known module that encloses the name and is as long as any
/// other that does, or to nothing where none does.
pub proof fn law_import_of_module(
    module: Seq<char>,
    init: bool,
    import: Import,
    known: Seq<Seq<char>>,
)
    requires
        !import.is_relative,
        import.names.len() == 0,
    ensures
        ({
            let found = resolved(module, init, import, known);
            &&& known.contains(import.base) ==> found == seq![import.base]
            &&& !known.contains(import.base) ==> is_nearest(found, import.base, known)
        }),
{
    law_longest_prefix(import.base, known);
}

/// Whether the list holds the one known module that encloses the name and is as long as any other
/// that does, or nothing where none does.
pub open spec fn is_nearest(
    found: Seq<Seq<char>>,
    target: Seq<char>,
    known: Seq<Seq<char>>,
) -> bool {
    &&& found.len() <= 1
    &&& found.len() == 1 ==> known.contains(found[0]) && encloses(found[0], target)
    &&& forall|i: int|
        0 <= i < known.len() && encloses(#[trigger] known[i], target) ==> found.len() == 1
            && known[i].len() <= found[0].len()
}

/// An absolute import of one name from a module refers to the submodule of that name where it is
/// known, else to the module where that is known, else to the nearest known module around.
pub proof fn law_import_of_name(
    module: Seq<char>,
    init: bool,
    import: Import,
    known: Seq<Seq<char>>,
)
    requires
        !import.is_relative,
        import.names.len() == 1,
    ensures
        ({
            let found = resolved(module, init, import, known);
            let full = import.base + "."@ + import.names[0];
            &&& known.contains(full) ==> found == seq![full]
            &&& !known.contains(full) && known.contains(import.base) ==> found == seq![import.base]
            &&& !known.contains(full) && !known.contains(import.base) ==> is_nearest(
                found,
                full,
                known,
            )
        }),
{
    let full = import.base + "."@ + import.names[0];
    law_longest_prefix(full, known);
    assert(import.names.drop_last() =~= Seq::empty());
    assert(resolve_members(import.base, import.names.drop_last(), known) =~= Seq::empty());
    assert(resolved(module, init, import, known) =~= resolve_member(
        import.base,
        import.names[0],
        known,
    ));
}

/// An import of many names refers to what the imports of its first names and of the others refer
/// to, one after the other.
pub proof fn law_names_one_by_one(
    module: Seq<char>,
    init: bool,
    import: Import,
    known: Seq<Seq<char>>,
    count: int,
)
    requires
        0 < count < import.names.len(),
    ensures
        resolved(module, init, import, known) == resolved(
            module,
            init,
            (Import {
                base: import.base,
                names: import.names.take(count),
                is_relative: import.is_relative,
                dot_count: import.dot_count,
            }),
            known,
        ) + resolved(
            module,
            init,
            (Import {
                base: import.base,
                names: import.names.skip(count),
                is_relative: import.is_relative,
                dot_count: import.dot_count,
            }),
            known,
        ),
{
    let first = import.names.take(count);
    let second = import.names.skip(count);
    assert(first + second =~= import.names);
    if import.is_relative {
        match relative_base(module, init, import.dot_count) {
            Some(base) => {
                if import.base.len() == 0 {
                    lemma_members_append(base, first, second, known);
                } else {
                    lemma_members_append(base + "."@ + import.base, first, second, known);
                }
            },
            None => {
                assert(Seq::<Seq<char>>::empty() + Seq::<Seq<char>>::empty() =~= Seq::empty());
            },
        }
    } else {
        lemma_members_append(import.base, first, second, known);
    }
}

proof fn lemma_members_append(
    base: Seq<char>,
    first: Seq<Seq<char>>,
    second: Seq<Seq<char>>,
    known: Seq<Seq<char>>,
)
    ensures
        resolve_members(base, first + second, known) == resolve_members(base, first, known)
            + resolve_members(base, second, known),
    decreases second.len(),
{
    if second.len() == 0 {
        assert(first + second =~= first);
        assert(resolve_members(base, second, known) =~= Seq::empty());
        assert(resolve_members(base, first + second, known) =~= resolve_members(base, first, known)
            + resolve_members(base, second, known));
    } else {
        lemma_members_append(base, first, second.drop_last(), known);
        assert((first + second).drop_last() =~= first + second.drop_last());
        assert(resolve_members(base, first + second, known) =~= resolve_members(base, first, known)
            + resolve_members(base, second, known));
    }
}

} // verus!
