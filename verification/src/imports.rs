//! The import statements of a source text.
use crate::text::{
    count_leading, first_word, first_word_text, is_space, law_leading_characters,
    law_words_hold_no_space, leading, skip_chars, split, split_text, texts, trim_end, trim_start,
    trim_text,
};
use vstd::prelude::*;

verus! {

/// A statement `import a.b, c`, from the start of its line. Group 1 holds the modules.
pub const IMPORT_PATTERN: &'static str = r"(?m)^\s*import\s+([\w.]+(?:\s*,\s*[\w.]+)*)";

/// A statement `from a.b import c, d`, from the start of its line up to a comment. Group 1 holds
/// the module, with its leading dots, and group 2 the imported names.
pub const FROM_PATTERN: &'static str =
    r"(?m)^\s*from\s+(\.+[\w.]*|[\w.]+)\s+import\s+([^#\n]+)";

/// One import, as it is written.
#[derive(Debug, Clone)]
pub struct RawImport {
    /// The dotted name, without leading dots.
    pub base: String,
    /// The names behind `import` in a `from` statement.
    pub names: Vec<String>,
    /// Whether the name starts with a dot.
    pub is_relative: bool,
    /// How many dots the name starts with.
    pub dot_count: usize,
}

/// What an import says.
pub struct Import {
    pub base: Seq<char>,
    pub names: Seq<Seq<char>>,
    pub is_relative: bool,
    pub dot_count: nat,
}

impl View for RawImport {
    type V = Import;

    open spec fn view(&self) -> Import {
        Import {
            base: self.base@,
            names: texts(self.names@),
            is_relative: self.is_relative,
            dot_count: self.dot_count as nat,
        }
    }
}

/// What each import says.
pub open spec fn import_views(imports: Seq<RawImport>) -> Seq<Import> {
    imports.map_values(|import: RawImport| import@)
}

/// The import of a module by its full name.
pub open spec fn absolute_import(module: Seq<char>) -> Import {
    Import { base: module, names: Seq::empty(), is_relative: false, dot_count: 0 }
}

/// The imports that the pieces between the commas of an `import` statement stand for: the first
/// word of each piece, if there is one.
pub open spec fn module_imports(pieces: Seq<Seq<char>>) -> Seq<Import>
    decreases pieces.len(),
{
    if pieces.len() == 0 {
        Seq::empty()
    } else {
        let before = module_imports(pieces.drop_last());
        let module = first_word(pieces.last());
        if module.len() == 0 {
            before
        } else {
            before.push(absolute_import(module))
        }
    }
}

/// The names that the pieces between the commas of a `from` statement stand for: the first word of
/// each piece, if there is one and it is no star.
pub open spec fn imported_names(pieces: Seq<Seq<char>>) -> Seq<Seq<char>>
    decreases pieces.len(),
{
    if pieces.len() == 0 {
        Seq::empty()
    } else {
        let before = imported_names(pieces.drop_last());
        let name = first_word(pieces.last());
        if name.len() == 0 || name == "*"@ {
            before
        } else {
            before.push(name)
        }
    }
}

/// The import that a `from` statement stands for.
pub open spec fn from_import(source: Seq<char>, names: Seq<char>) -> Import {
    let module = trim_end(trim_start(source));
    let dots = leading(module, '.');
    Import {
        base: module.skip(dots as int),
        names: imported_names(split(names, ',')),
        is_relative: dots > 0,
        dot_count: dots,
    }
}

/// The import of an `import` statement names a module by its full name, and nothing in it.
pub proof fn law_plain_imports_are_absolute(pieces: Seq<Seq<char>>, i: int)
    requires
        0 <= i < module_imports(pieces).len(),
    ensures
        ({
            let import = module_imports(pieces)[i];
            &&& import == absolute_import(import.base)
            &&& import.base.len() > 0
            &&& forall|k: int| 0 <= k < import.base.len() ==> !is_space(#[trigger] import.base[k])
        }),
    decreases pieces.len(),
{
    let before = module_imports(pieces.drop_last());
    if i < before.len() {
        law_plain_imports_are_absolute(pieces.drop_last(), i);
    } else {
        law_words_hold_no_space(pieces.last());
    }
}

/// The import of a `from` statement is relative exactly where it has a dot, its name starts with no
/// further dot, and none of the imported names is empty or a star.
pub proof fn law_from_imports_are_read(source: Seq<char>, names: Seq<char>)
    ensures
        ({
            let import = from_import(source, names);
            &&& import.is_relative <==> import.dot_count > 0
            &&& trim_end(trim_start(source)) == Seq::new(import.dot_count, |i: int| '.')
                + import.base
            &&& import.base.len() > 0 ==> import.base[0] != '.'
            &&& forall|k: int|
                0 <= k < import.names.len() ==> (#[trigger] import.names[k]).len() > 0
                    && import.names[k] != "*"@
        }),
{
    let module = trim_end(trim_start(source));
    law_leading_characters(module, '.');
    lemma_names(split(names, ','));
}

proof fn lemma_names(pieces: Seq<Seq<char>>)
    ensures
        forall|k: int|
            0 <= k < imported_names(pieces).len() ==> (#[trigger] imported_names(pieces)[k]).len()
                > 0 && imported_names(pieces)[k] != "*"@,
    decreases pieces.len(),
{
    if pieces.len() > 0 {
        lemma_names(pieces.drop_last());
        let before = imported_names(pieces.drop_last());
        let after = imported_names(pieces);
        assert forall|k: int| 0 <= k < after.len() implies (#[trigger] after[k]).len() > 0 && after[k]
            != "*"@ by {
            if k < before.len() {
                assert(after[k] == before[k]);
            }
        }
    }
}

/// The text of each group of each match.
pub open spec fn group_texts(matches: Seq<Vec<Option<String>>>) -> Seq<Seq<Option<Seq<char>>>> {
    matches.map_values(|groups: Vec<Option<String>>| groups.deep_view())
}

/// Whether each match has a text in each group from the first to the last.
pub open spec fn has_groups(matches: Seq<Seq<Option<Seq<char>>>>, last: nat) -> bool {
    forall|i: int, group: int|
        0 <= i < matches.len() && 1 <= group <= last ==> last < matches[i].len()
            && #[trigger] matches[i][group] is Some
}

/// The imports of the `import` statements, in their order.
pub open spec fn plain_imports(matches: Seq<Seq<Option<Seq<char>>>>) -> Seq<Import>
    decreases matches.len(),
{
    if matches.len() == 0 {
        Seq::empty()
    } else {
        plain_imports(matches.drop_last()) + module_imports(split(matches.last()[1]->0, ','))
    }
}

/// The imports of the `from` statements, in their order.
pub open spec fn from_imports(matches: Seq<Seq<Option<Seq<char>>>>) -> Seq<Import> {
    matches.map_values(|groups: Seq<Option<Seq<char>>>| from_import(groups[1]->0, groups[2]->0))
}

/// For each match of a pattern in a text, from the first to the last, the text of the whole match
/// and of each group, where the group took part in the match.
pub uninterp spec fn regex_captures(pattern: Seq<char>, text: Seq<char>) -> Seq<
    Seq<Option<Seq<char>>>,
>;

/// `regex::Regex::captures_iter`, with the pattern compiled by `regex::Regex::new`: the matches of
/// one of the two patterns in a text. Both patterns are well formed, and no group of theirs is
/// optional, so that each takes part in every match.
#[verifier::external_body]
fn captures(pattern: &str, text: &str) -> (matches: Vec<Vec<Option<String>>>)
    requires
        pattern@ == IMPORT_PATTERN@ || pattern@ == FROM_PATTERN@,
    ensures
        group_texts(matches@) == regex_captures(pattern@, text@),
        pattern@ == IMPORT_PATTERN@ ==> has_groups(group_texts(matches@), 1),
        pattern@ == FROM_PATTERN@ ==> has_groups(group_texts(matches@), 2),
{
    let regex = regex::Regex::new(pattern).unwrap();
    regex.captures_iter(text).map(
        |groups| groups.iter().map(|group| group.map(|m| m.as_str().to_string())).collect(),
    ).collect()
}

/// Adds the imports of one `import` statement.
fn add_module_imports(modules: &str, imports: &mut Vec<RawImport>)
    ensures
        import_views(final(imports)@) == import_views(old(imports)@) + module_imports(
            split(modules@, ','),
        ),
{
    let pieces: Vec<String> = split_text(modules, ',');
    let ghost before = import_views(imports@);
    let mut i: usize = 0;
    while i < pieces.len()
        invariant
            i <= pieces.len(),
            import_views(imports@) == before + module_imports(texts(pieces@).take(i as int)),
        decreases pieces.len() - i,
    {
        let ghost now = import_views(imports@);
        assert(texts(pieces@).take(i + 1).drop_last() =~= texts(pieces@).take(i as int));
        let module: String = first_word_text(pieces[i].as_str());
        if !module.as_str().is_empty() {
            let import = RawImport {
                base: module,
                names: Vec::new(),
                is_relative: false,
                dot_count: 0,
            };
            imports.push(import);
            assert(import@.names =~= Seq::empty());
            assert(import_views(imports@) =~= now.push(import@));
        }
        i += 1;
    }
    assert(texts(pieces@).take(i as int) =~= texts(pieces@));
}

/// The names behind `import` in a `from` statement.
fn collect_names(list: &str) -> (names: Vec<String>)
    ensures
        texts(names@) == imported_names(split(list@, ',')),
{
    let pieces: Vec<String> = split_text(list, ',');
    let star: String = "*".to_owned();
    let mut names: Vec<String> = Vec::new();
    let mut i: usize = 0;
    while i < pieces.len()
        invariant
            i <= pieces.len(),
            star@ == "*"@,
            texts(names@) == imported_names(texts(pieces@).take(i as int)),
        decreases pieces.len() - i,
    {
        assert(texts(pieces@).take(i + 1).drop_last() =~= texts(pieces@).take(i as int));
        let name: String = first_word_text(pieces[i].as_str());
        if !name.as_str().is_empty() && name != star {
            names.push(name);
        }
        i += 1;
    }
    assert(texts(pieces@).take(i as int) =~= texts(pieces@));
    names
}

/// The import that a `from` statement stands for.
fn read_from_import(source: &str, list: &str) -> (import: RawImport)
    ensures
        import@ == from_import(source@, list@),
{
    let module: String = trim_text(source);
    let dot_count: usize = count_leading(module.as_str(), '.');
    RawImport {
        base: skip_chars(module.as_str(), dot_count),
        names: collect_names(list),
        is_relative: dot_count > 0,
        dot_count,
    }
}

/// The imports that the matches of the two patterns stand for: first those of the `import`
/// statements, then those of the `from` statements.
pub fn imports_from_captures(
    plain: &Vec<Vec<Option<String>>>,
    from: &Vec<Vec<Option<String>>>,
) -> (imports: Vec<RawImport>)
    requires
        has_groups(group_texts(plain@), 1),
        has_groups(group_texts(from@), 2),
    ensures
        import_views(imports@) == plain_imports(group_texts(plain@)) + from_imports(
            group_texts(from@),
        ),
{
    let ghost plain_groups = group_texts(plain@);
    let ghost from_groups = group_texts(from@);
    let mut imports: Vec<RawImport> = Vec::new();
    let mut i: usize = 0;
    while i < plain.len()
        invariant
            plain_groups == group_texts(plain@),
            has_groups(plain_groups, 1),
            i <= plain.len(),
            import_views(imports@) == plain_imports(plain_groups.take(i as int)),
        decreases plain.len() - i,
    {
        assert(plain_groups[i as int][1] is Some);
        assert(plain_groups.take(i + 1).drop_last() =~= plain_groups.take(i as int));
        let modules: &String = plain[i][1].as_ref().unwrap();
        add_module_imports(modules.as_str(), &mut imports);
        i += 1;
    }
    assert(plain_groups.take(i as int) =~= plain_groups);
    let ghost before = import_views(imports@);
    i = 0;
    while i < from.len()
        invariant
            from_groups == group_texts(from@),
            has_groups(from_groups, 2),
            i <= from.len(),
            import_views(imports@) == before + from_imports(from_groups).take(i as int),
        decreases from.len() - i,
    {
        let ghost now = import_views(imports@);
        assert(from_groups[i as int][1] is Some);
        assert(from_groups[i as int][2] is Some);
        let source: &String = from[i][1].as_ref().unwrap();
        let list: &String = from[i][2].as_ref().unwrap();
        let import: RawImport = read_from_import(source.as_str(), list.as_str());
        imports.push(import);
        assert(import_views(imports@) =~= now.push(import@));
        i += 1;
    }
    imports
}

/// What the import statements of a source text say: first the `import` statements, then the
/// `from` statements, each in the order of the text.
pub open spec fn source_imports(content: Seq<char>) -> Seq<Import> {
    plain_imports(regex_captures(IMPORT_PATTERN@, content)) + from_imports(
        regex_captures(FROM_PATTERN@, content),
    )
}

/// The imports of a source text.
pub fn extract_imports(content: &str) -> (imports: Vec<RawImport>)
    ensures
        import_views(imports@) == source_imports(content@),
{
    let plain: Vec<Vec<Option<String>>> = captures(IMPORT_PATTERN, content);
    let from: Vec<Vec<Option<String>>> = captures(FROM_PATTERN, content);
    imports_from_captures(&plain, &from)
}

/// The imported names are the first words of the pieces between the commas, in their order, but for
/// the empty ones and the stars. So a name is imported exactly where it is the first word of a
/// piece and neither empty nor a star.
pub proof fn law_every_name_is_read(pieces: Seq<Seq<char>>, name: Seq<char>)
    ensures
        imported_names(pieces) == pieces.map_values(
            |piece: Seq<char>| first_word(piece),
        ).filter(|word: Seq<char>| word.len() > 0 && word != "*"@),
        imported_names(pieces).contains(name) <==> name.len() > 0 && name != "*"@ && exists|i: int|
            0 <= i < pieces.len() && first_word(#[trigger] pieces[i]) == name,
    decreases pieces.len(),
{
    reveal(Seq::filter);
    let words = pieces.map_values(|piece: Seq<char>| first_word(piece));
    let kept = |word: Seq<char>| word.len() > 0 && word != "*"@;
    if pieces.len() > 0 {
        let shorter = pieces.drop_last();
        law_every_name_is_read(shorter, name);
        assert(words.drop_last() =~= shorter.map_values(|piece: Seq<char>| first_word(piece)));
        let before = imported_names(shorter);
        let after = imported_names(pieces);
        if before.contains(name) {
            let k = before.index_of(name);
            assert(after[k] == name);
            let i = choose|i: int|
                0 <= i < shorter.len() && first_word(#[trigger] shorter[i]) == name;
            assert(first_word(pieces[i]) == name);
        }
        if first_word(pieces.last()) == name && kept(name) {
            assert(after.last() == name);
            assert(first_word(pieces[pieces.len() - 1]) == name);
        }
        if exists|i: int| 0 <= i < pieces.len() && first_word(#[trigger] pieces[i]) == name {
            let i = choose|i: int|
                0 <= i < pieces.len() && first_word(#[trigger] pieces[i]) == name;
            if i < shorter.len() {
                assert(first_word(shorter[i]) == name);
            }
        }
        if after.contains(name) && !before.contains(name) {
            let k = after.index_of(name);
            if k < before.len() {
                assert(before[k] == name);
            }
        }
    } else {
        assert(words =~= Seq::empty());
    }
}

/// The modules of an `import` statement are the first words of the pieces between the commas, in
/// their order, but for the empty ones, each imported by its full name and without dots.
pub proof fn law_every_module_is_read(pieces: Seq<Seq<char>>)
    ensures
        ({
            let words = pieces.map_values(|piece: Seq<char>| first_word(piece)).filter(
                |word: Seq<char>| word.len() > 0,
            );
            &&& module_imports(pieces).len() == words.len()
            &&& forall|i: int|
                0 <= i < words.len() ==> (#[trigger] module_imports(pieces)[i]).base == words[i]
                    && module_imports(pieces)[i].names.len() == 0
                    && !module_imports(pieces)[i].is_relative
                    && module_imports(pieces)[i].dot_count == 0
        }),
    decreases pieces.len(),
{
    reveal(Seq::filter);
    let words = pieces.map_values(|piece: Seq<char>| first_word(piece));
    if pieces.len() > 0 {
        let shorter = pieces.drop_last();
        law_every_module_is_read(shorter);
        assert(words.drop_last() =~= shorter.map_values(|piece: Seq<char>| first_word(piece)));
        let before = module_imports(shorter);
        assert forall|i: int| 0 <= i < before.len() implies module_imports(pieces)[i]
            == #[trigger] before[i] by {}
    } else {
        assert(words =~= Seq::empty());
    }
}

/// The imports of `import` statements in two groups, one after the other, are those of all of them,
/// and those of one statement are what stands between its commas.
pub proof fn law_statements_one_by_one(
    first: Seq<Seq<Option<Seq<char>>>>,
    second: Seq<Seq<Option<Seq<char>>>>,
    groups: Seq<Option<Seq<char>>>,
)
    ensures
        plain_imports(first + second) == plain_imports(first) + plain_imports(second),
        plain_imports(seq![groups]) == module_imports(split(groups[1]->0, ',')),
    decreases second.len(),
{
    assert(seq![groups].drop_last() =~= Seq::empty());
    assert(plain_imports(seq![groups].drop_last()) =~= Seq::empty());
    assert(plain_imports(seq![groups]) =~= module_imports(split(groups[1]->0, ',')));
    if second.len() == 0 {
        assert(first + second =~= first);
        assert(plain_imports(second) =~= Seq::empty());
        assert(plain_imports(first + second) =~= plain_imports(first) + plain_imports(second));
    } else {
        law_statements_one_by_one(first, second.drop_last(), groups);
        assert((first + second).drop_last() =~= first + second.drop_last());
        assert(plain_imports(first + second) =~= plain_imports(first) + plain_imports(second));
    }
}

/// A source text says what its statements say, and nothing else: each `from` statement stands for
/// one import, behind all those of the `import` statements. The import of a `from` statement has
/// the names that stand between the commas of its second group.
pub proof fn law_every_statement_is_read(content: Seq<char>, k: int)
    ensures
        ({
            let plain = plain_imports(regex_captures(IMPORT_PATTERN@, content));
            let matches = regex_captures(FROM_PATTERN@, content);
            let imports = source_imports(content);
            &&& imports.len() == plain.len() + matches.len()
            &&& 0 <= k < plain.len() ==> imports[k] == plain[k]
            &&& 0 <= k < matches.len() ==> {
                let import = imports[plain.len() + k];
                &&& import == from_import(matches[k][1]->0, matches[k][2]->0)
                &&& import.names == imported_names(split(matches[k][2]->0, ','))
            }
        }),
{
}

/// Each import and each group is read in its place.
pub proof fn law_imports_stay_in_place(imports: Seq<RawImport>, matches: Seq<Vec<Option<String>>>)
    ensures
        import_views(imports).len() == imports.len(),
        forall|i: int|
            0 <= i < imports.len() ==> (#[trigger] import_views(imports)[i]).base == imports[i].base@
                && import_views(imports)[i].names == texts(imports[i].names@)
                && import_views(imports)[i].is_relative == imports[i].is_relative
                && import_views(imports)[i].dot_count == imports[i].dot_count,
        group_texts(matches).len() == matches.len(),
        forall|i: int|
            0 <= i < matches.len() ==> #[trigger] group_texts(matches)[i] == matches[i].deep_view(),
{
}

/// Both kinds of statements start at the start of a line, behind white space at most. An `import`
/// statement lists dotted names, with commas between them. A `from` statement has a dotted name,
/// which dots may lead, and reads on to a comment or to the end of the line.
pub proof fn law_patterns_of_statements()
    ensures
        IMPORT_PATTERN@ == r"(?m)^\s*import\s+([\w.]+(?:\s*,\s*[\w.]+)*)"@,
        FROM_PATTERN@ == r"(?m)^\s*from\s+(\.+[\w.]*|[\w.]+)\s+import\s+([^#\n]+)"@,
{
}

} // verus!
