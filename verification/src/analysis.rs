//! The analysis of a whole project.
use crate::cycles::{cycles_to_node_set, find_all_cycles, nodes_of};
use crate::dependencies::{
    all_dependencies, build_module_map, extract_all_dependencies, law_dependencies_are_modules,
    law_last_file_decides, law_modules_are_those_of_files, law_modules_have_dependencies, modules,
    sources, Source, SourceFile,
};
use crate::import_graph::{
    adjacency, checked_graph, cyclic_nodes, dependency_edges, depends_on, fits, is_module_cycle,
    law_each_dependency_is_one_edge, law_marked_nodes_lie_on_cycles, law_reports_module_cycles,
    node_names, numbered, within,
};
use crate::imports::source_imports;
use crate::names::{keys, NameMap};
use crate::paths::{is_init, module_name, FilePath};
use crate::report::{
    all_cells, cycles_section, degree_header, dot_text, drawn_table, format_cycles, format_degrees,
    generate_dot, sort_rows, touched_rows, verdict, verdict_line,
};
use crate::resolve::resolved;
use crate::rotation::canonical;
use crate::search::{found_cycles, is_listed};
use crate::text::text_lists;
use std::collections::HashSet;
use vstd::prelude::*;

verus! {

/// The names of the modules of a project.
pub open spec fn project_names(files: Seq<Source>, root: Seq<Seq<u8>>) -> Seq<Seq<char>> {
    keys(modules(files, root))
}

/// Which module of a project depends on which.
pub open spec fn project_dependencies(files: Seq<Source>, root: Seq<Seq<u8>>) -> Seq<
    (Seq<char>, Seq<Seq<char>>),
> {
    all_dependencies(files, root, project_names(files, root))
}

/// The edges of the import graph of a project.
pub open spec fn project_edges(files: Seq<Source>, root: Seq<Seq<u8>>) -> Seq<(u32, u32)> {
    dependency_edges(numbered(project_names(files, root)), project_dependencies(files, root))
}

/// The import cycles that are reported of a project.
pub open spec fn project_cycles(files: Seq<Source>, root: Seq<Seq<u8>>) -> Seq<Seq<Seq<char>>> {
    let names = project_names(files, root);
    found_cycles(
        adjacency(names.len(), project_edges(files, root)),
        node_names(names),
        nodes_of(numbered(names)),
    )
}

/// What is reported of a project.
pub struct Report {
    /// The import cycles.
    pub cycles: Vec<Vec<String>>,
    /// The report on the cycles.
    pub cycles_text: String,
    /// The report on the degrees of the modules.
    pub degrees_text: String,
    /// The import graph in the DOT language.
    pub dot: String,
    /// The last line of the report.
    pub verdict: String,
    /// The exit status: 1 where there is an import cycle, else 0.
    pub exit_code: i32,
}

/// The modules of a project depend on nothing but other modules of the project.
pub proof fn law_project_is_closed(files: Seq<Source>, root: Seq<Seq<u8>>)
    ensures
        within(project_names(files, root), project_dependencies(files, root)),
{
    let names = project_names(files, root);
    let dependencies = project_dependencies(files, root);
    law_modules_have_dependencies(files, root, names);
    assert forall|a: Seq<char>, b: Seq<char>| #[trigger] depends_on(
        dependencies,
        a,
        b,
    ) implies names.contains(a) && names.contains(b) && a != b by {
        let k = keys(dependencies).index_of(a);
        law_dependencies_are_modules(files, root, names, k);
    }
}

/// Analyses the files of a project; nothing where there are more modules or dependencies than
/// the import graph can number.
pub fn analyze(files: &Vec<SourceFile>, root: &FilePath, cycles_only: bool) -> (report: Option<
    Report,
>)
    ensures
        report is Some <==> fits(
            project_names(sources(files@), root@),
            project_dependencies(sources(files@), root@),
        ),
        report matches Some(r) ==> {
            let names = project_names(sources(files@), root@);
            let edges = project_edges(sources(files@), root@);
            let cycles = project_cycles(sources(files@), root@);
            &&& text_lists(r.cycles@) == cycles
            &&& r.cycles_text@ == cycles_section(cycles)
            &&& r.degrees_text@ == "\n=== 模块依赖度统计 ===\n\n"@ + drawn_table(
                degree_header(),
                all_cells(sort_rows(touched_rows(node_names(names), edges, names.len()))),
            ) + "\n"@
            &&& r.dot@ == dot_text(
                names.len(),
                edges,
                node_names(names),
                cyclic_nodes(names, project_dependencies(sources(files@), root@)),
                cycles_only,
            )
            &&& r.verdict@ == verdict(cycles.len())
            &&& r.exit_code == (if cycles.len() > 0 {
                1i32
            } else {
                0
            })
        },
        report matches Some(r) ==> {
            let dependencies = project_dependencies(sources(files@), root@);
            let cycles = text_lists(r.cycles@);
            &&& forall|i: int|
                0 <= i < cycles.len() ==> is_module_cycle(dependencies, #[trigger] cycles[i])
                    && cycles[i].no_duplicates()
            &&& forall|cycle: Seq<Seq<char>>| #[trigger]
                is_module_cycle(dependencies, cycle) && cycle.no_duplicates() ==> is_listed(
                    cycles,
                    cycle,
                )
            &&& forall|i: int, j: int|
                0 <= i < j < cycles.len() ==> canonical(#[trigger] cycles[i]) != canonical(
                    #[trigger] cycles[j],
                )
            &&& r.exit_code == 1 <==> exists|cycle: Seq<Seq<char>>|
                is_module_cycle(dependencies, cycle)
        },
{
    let ghost all = sources(files@);
    let ghost names = project_names(all, root@);
    let module_map: NameMap<FilePath> = build_module_map(files, root);
    let dependencies: NameMap<Vec<String>> = extract_all_dependencies(files, &module_map, root);
    match checked_graph(&dependencies, &module_map) {
        Some((graph, node_indices, index_to_name)) => {
            proof {
                law_project_is_closed(all, root@);
                law_reports_module_cycles(names, project_dependencies(all, root@));
                law_marked_nodes_lie_on_cycles(names, project_dependencies(all, root@));
            }
            let cycles: Vec<Vec<String>> = find_all_cycles(&graph, &node_indices, &index_to_name);
            let cycle_nodes: HashSet<u32> = cycles_to_node_set(&cycles, &node_indices);
            let cycles_text: String = format_cycles(&cycles);
            let degrees_text: String = format_degrees(&graph, &index_to_name);
            let dot: String = generate_dot(&graph, &index_to_name, &cycle_nodes, cycles_only);
            let verdict: String = verdict_line(cycles.len());
            let exit_code: i32 = if cycles.len() > 0 {
                1
            } else {
                0
            };
            Some(Report { cycles, cycles_text, degrees_text, dot, verdict, exit_code })
        },
        None => None,
    }
}

/// The modules of a project are those that its files hold, each once. The last file of a name
/// decides what its module depends on: the other modules that its imports are resolved to.
pub proof fn law_project_follows_its_files(
    files: Seq<Source>,
    root: Seq<Seq<u8>>,
    k: int,
    other: Seq<char>,
)
    requires
        0 <= k < files.len(),
        forall|j: int|
            k < j < files.len() ==> module_name((#[trigger] files[j]).path, root) != module_name(
                files[k].path,
                root,
            ),
    ensures
        project_names(files, root).no_duplicates(),
        project_names(files, root).contains(other) <==> exists|i: int|
            0 <= i < files.len() && module_name((#[trigger] files[i]).path, root) == other,
        ({
            let module = module_name(files[k].path, root);
            depends_on(project_dependencies(files, root), module, other) <==> {
                &&& other != module
                &&& files[k].content matches Some(text)
                &&& exists|i: int|
                    0 <= i < source_imports(text).len() && resolved(
                        module,
                        is_init(files[k].path),
                        #[trigger] source_imports(text)[i],
                        project_names(files, root),
                    ).contains(other)
            }
        }),
{
    let names = project_names(files, root);
    law_modules_have_dependencies(files, root, names);
    law_modules_are_those_of_files(files, root, other);
    law_last_file_decides(files, root, names, k, other);
}

/// The edges of a project's import graph are its dependencies, each once.
pub proof fn law_project_edges_are_dependencies(
    files: Seq<Source>,
    root: Seq<Seq<u8>>,
    a: u32,
    b: u32,
)
    requires
        project_names(files, root).len() <= u32::MAX,
    ensures
        project_edges(files, root).no_duplicates(),
        project_edges(files, root).contains((a, b)) <==> {
            let names = project_names(files, root);
            a < names.len() && b < names.len() && depends_on(
                project_dependencies(files, root),
                names[a as int],
                names[b as int],
            )
        },
{
    let names = project_names(files, root);
    let dependencies = project_dependencies(files, root);
    law_project_is_closed(files, root);
    assert forall|i: int| 0 <= i < dependencies.len() implies (
    #[trigger] dependencies[i]).1.no_duplicates() by {
        law_dependencies_are_modules(files, root, names, i);
    }
    law_each_dependency_is_one_edge(names, dependencies, a, b);
}

} // verus!
