//! The import graph of a project.
use crate::cycles::{nodes_of, nodes_on};
use crate::graph::{
    add_edge, add_node, graph_edges, graph_nodes, graph_successors, new_graph, targets_from,
};
use crate::names::{keys, lookup, NameMap};
use crate::paths::FilePath;
use crate::rotation::{canonical, is_rotation, rotate};
use crate::search::{
    found_cycles, has_edge, is_cycle, is_listed, is_name_in, is_named_in, is_reached,
    is_simple_cycle, labels, law_cycles_reported_once, law_every_cycle_is_reported,
    law_every_part_is_told_of, law_reported_cycles_exist, law_silence_means_no_cycle,
    lemma_rotated_cycle, lemma_simple_cycle, lemma_start_is_reached,
};
use crate::text::{name_texts, texts};
use petgraph::graph::DiGraph;
use std::collections::HashMap;
use vstd::prelude::*;

verus! {

broadcast use vstd::std_specs::hash::group_hash_axioms;

/// Each name with its position.
pub open spec fn numbered(names: Seq<Seq<char>>) -> Seq<(Seq<char>, u32)> {
    Seq::new(names.len(), |i: int| (names[i], i as u32))
}

/// The edges from a node to the nodes of the names, other than the node itself.
pub open spec fn edges_from(
    nodes: Seq<(Seq<char>, u32)>,
    source: u32,
    imports: Seq<Seq<char>>,
) -> Seq<(u32, u32)>
    decreases imports.len(),
{
    if imports.len() == 0 {
        Seq::empty()
    } else {
        let before = edges_from(nodes, source, imports.drop_last());
        match lookup(nodes, imports.last()) {
            Some(target) => if source != target {
                before.push((source, target))
            } else {
                before
            },
            None => before,
        }
    }
}

/// The edges from the node of each module to the nodes of the modules that it depends on.
pub open spec fn dependency_edges(
    nodes: Seq<(Seq<char>, u32)>,
    dependencies: Seq<(Seq<char>, Seq<Seq<char>>)>,
) -> Seq<(u32, u32)>
    decreases dependencies.len(),
{
    if dependencies.len() == 0 {
        Seq::empty()
    } else {
        let before = dependency_edges(nodes, dependencies.drop_last());
        match lookup(nodes, dependencies.last().0) {
            Some(source) => before + edges_from(nodes, source, dependencies.last().1),
            None => before,
        }
    }
}

/// For each node the targets of its edges, from the last edge to the first.
pub open spec fn adjacency(count: nat, edges: Seq<(u32, u32)>) -> Seq<Seq<u32>> {
    Seq::new(count, |i: int| targets_from(edges, i as u32).reverse())
}

/// The names by their positions.
pub open spec fn node_names(names: Seq<Seq<char>>) -> Map<u32, Seq<char>> {
    Map::new(|node: u32| node < names.len(), |node: u32| names[node as int])
}

/// Whether the nodes and the edges can be numbered.
pub open spec fn fits(
    names: Seq<Seq<char>>,
    dependencies: Seq<(Seq<char>, Seq<Seq<char>>)>,
) -> bool {
    &&& names.len() <= u32::MAX
    &&& dependency_edges(numbered(names), dependencies).len() <= u32::MAX
}

/// A numbered name has its position as its number.
pub proof fn lemma_numbered(names: Seq<Seq<char>>, name: Seq<char>)
    requires
        names.no_duplicates(),
        names.len() <= u32::MAX,
    ensures
        keys(numbered(names)) == names,
        match lookup(numbered(names), name) {
            Some(node) => node < names.len() && names[node as int] == name,
            None => !names.contains(name),
        },
{
    assert(keys(numbered(names)) =~= names);
}

/// A part of the imports makes no more edges than all of them.
proof fn lemma_edges_from_grow(
    nodes: Seq<(Seq<char>, u32)>,
    source: u32,
    imports: Seq<Seq<char>>,
    count: int,
)
    requires
        0 <= count <= imports.len(),
    ensures
        edges_from(nodes, source, imports.take(count)).len() <= edges_from(
            nodes,
            source,
            imports,
        ).len(),
    decreases imports.len(),
{
    if count < imports.len() {
        lemma_edges_from_grow(nodes, source, imports.drop_last(), count);
        assert(imports.drop_last().take(count) =~= imports.take(count));
    } else {
        assert(imports.take(count) =~= imports);
    }
}

/// A part of the dependencies makes no more edges than all of them.
proof fn lemma_dependency_edges_grow(
    nodes: Seq<(Seq<char>, u32)>,
    dependencies: Seq<(Seq<char>, Seq<Seq<char>>)>,
    count: int,
)
    requires
        0 <= count <= dependencies.len(),
    ensures
        dependency_edges(nodes, dependencies.take(count)).len() <= dependency_edges(
            nodes,
            dependencies,
        ).len(),
    decreases dependencies.len(),
{
    if count < dependencies.len() {
        lemma_dependency_edges_grow(nodes, dependencies.drop_last(), count);
        assert(dependencies.drop_last().take(count) =~= dependencies.take(count));
    } else {
        assert(dependencies.take(count) =~= dependencies);
    }
}

/// A new edge stands first in the list of its source.
proof fn lemma_adjacency_push(count: nat, edges: Seq<(u32, u32)>, source: u32, target: u32)
    requires
        source < count,
        count <= u32::MAX,
    ensures
        adjacency(count, edges.push((source, target))) == adjacency(count, edges).update(
            source as int,
            seq![target] + adjacency(count, edges)[source as int],
        ),
{
    let more = edges.push((source, target));
    let after = adjacency(count, more);
    let before = adjacency(count, edges);
    assert(more.drop_last() =~= edges);
    assert(forall|i: int|
        0 <= i < count ==> #[trigger] after[i] == before.update(
            source as int,
            seq![target] + before[source as int],
        )[i]);
}

/// Whether one module depends on another.
pub open spec fn depends_on(
    dependencies: Seq<(Seq<char>, Seq<Seq<char>>)>,
    module: Seq<char>,
    other: Seq<char>,
) -> bool {
    lookup(dependencies, module) matches Some(list) && list.contains(other)
}

/// Whether each module depends on the next.
pub open spec fn is_module_walk(
    dependencies: Seq<(Seq<char>, Seq<Seq<char>>)>,
    walk: Seq<Seq<char>>,
) -> bool {
    forall|i: int, j: int|
        0 <= i && j == i + 1 && j < walk.len() ==> #[trigger] depends_on(
            dependencies,
            walk[i],
            walk[j],
        )
}

/// Whether all modules belong to a set.
pub open spec fn are_among(modules: Seq<Seq<char>>, set: Set<Seq<char>>) -> bool {
    forall|i: int| 0 <= i < modules.len() ==> set.contains(#[trigger] modules[i])
}

/// Whether each module depends on the next, and the last on the first.
pub open spec fn is_module_cycle(
    dependencies: Seq<(Seq<char>, Seq<Seq<char>>)>,
    cycle: Seq<Seq<char>>,
) -> bool {
    &&& cycle.len() > 0
    &&& is_module_walk(dependencies, cycle)
    &&& depends_on(dependencies, cycle.last(), cycle[0])
}

/// Whether a cycle of modules leads through the module.
pub open spec fn lies_on_cycle(
    dependencies: Seq<(Seq<char>, Seq<Seq<char>>)>,
    module: Seq<char>,
) -> bool {
    exists|cycle: Seq<Seq<char>>| #[trigger]
        is_module_cycle(dependencies, cycle) && cycle.contains(module)
}

/// The nodes of the modules that lie on a cycle.
pub open spec fn cyclic_nodes(
    names: Seq<Seq<char>>,
    dependencies: Seq<(Seq<char>, Seq<Seq<char>>)>,
) -> Set<u32> {
    Set::new(
        |node: u32| node < names.len() && lies_on_cycle(dependencies, names[node as int]),
    )
}

/// Whether the modules with dependencies, and what they depend on, are among the names, and no
/// module depends on itself.
pub open spec fn within(
    names: Seq<Seq<char>>,
    dependencies: Seq<(Seq<char>, Seq<Seq<char>>)>,
) -> bool {
    &&& names.no_duplicates()
    &&& keys(dependencies).no_duplicates()
    &&& forall|a: Seq<char>, b: Seq<char>| #[trigger]
        depends_on(dependencies, a, b) ==> names.contains(a) && names.contains(b) && a != b
}

proof fn lemma_edges_from(
    names: Seq<Seq<char>>,
    source: u32,
    imports: Seq<Seq<char>>,
    a: u32,
    b: u32,
)
    requires
        names.no_duplicates(),
        names.len() <= u32::MAX,
    ensures
        edges_from(numbered(names), source, imports).contains((a, b)) <==> a == source && a != b
            && b < names.len() && imports.contains(names[b as int]),
    decreases imports.len(),
{
    let nodes = numbered(names);
    let edges = edges_from(nodes, source, imports);
    if imports.len() > 0 {
        let shorter = imports.drop_last();
        let before = edges_from(nodes, source, shorter);
        lemma_edges_from(names, source, shorter, a, b);
        lemma_numbered(names, imports.last());
        if before.contains((a, b)) {
            let k = before.index_of((a, b));
            assert(edges[k] == (a, b));
        }
        if imports.contains(names[b as int]) && !shorter.contains(names[b as int]) {
            let k = imports.index_of(names[b as int]);
            assert(k == imports.len() - 1) by {
                if k < shorter.len() {
                    assert(shorter[k] == names[b as int]);
                }
            }
            if a == source && a != b && b < names.len() {
                assert(edges[before.len() as int] == (a, b));
            }
        }
    }
}

proof fn lemma_dependency_edges(
    names: Seq<Seq<char>>,
    dependencies: Seq<(Seq<char>, Seq<Seq<char>>)>,
    a: u32,
    b: u32,
)
    requires
        names.no_duplicates(),
        names.len() <= u32::MAX,
        keys(dependencies).no_duplicates(),
    ensures
        dependency_edges(numbered(names), dependencies).contains((a, b)) <==> a < names.len() && b
            < names.len() && a != b && depends_on(
            dependencies,
            names[a as int],
            names[b as int],
        ),
    decreases dependencies.len(),
{
    let nodes = numbered(names);
    let edges = dependency_edges(nodes, dependencies);
    if dependencies.len() > 0 {
        let shorter = dependencies.drop_last();
        let entry = dependencies.last();
        let before = dependency_edges(nodes, shorter);
        assert(keys(shorter) =~= keys(dependencies).drop_last());
        lemma_dependency_edges(names, shorter, a, b);
        lemma_numbered(names, entry.0);
        lemma_lookup_last(dependencies, names[a as int]);
        match lookup(nodes, entry.0) {
            Some(source) => {
                let added = edges_from(nodes, source, entry.1);
                lemma_edges_from(names, source, entry.1, a, b);
                if before.contains((a, b)) {
                    let k = before.index_of((a, b));
                    assert(edges[k] == (a, b));
                }
                if added.contains((a, b)) {
                    let k = added.index_of((a, b));
                    assert(edges[before.len() + k] == (a, b));
                }
            },
            None => {},
        }
    }
}

/// A look-up among entries with distinct names finds the last entry, or an earlier one.
proof fn lemma_lookup_last<T>(entries: Seq<(Seq<char>, T)>, name: Seq<char>)
    requires
        entries.len() > 0,
        keys(entries).no_duplicates(),
    ensures
        lookup(entries, name) == (if name == entries.last().0 {
            Some(entries.last().1)
        } else {
            lookup(entries.drop_last(), name)
        }),
{
    let names = keys(entries);
    let shorter = keys(entries.drop_last());
    let last = entries.len() - 1;
    assert(names[last] == entries.last().0);
    if name != entries.last().0 {
        if shorter.contains(name) {
            let k = shorter.index_of(name);
            assert(names[k] == name);
        } else if names.contains(name) {
            let k = names.index_of(name);
            assert(shorter[k] == name);
        }
    }
}

proof fn lemma_targets(edges: Seq<(u32, u32)>, a: u32, b: u32)
    ensures
        targets_from(edges, a).contains(b) <==> edges.contains((a, b)),
    decreases edges.len(),
{
    if edges.len() > 0 {
        let shorter = edges.drop_last();
        lemma_targets(shorter, a, b);
        let before = targets_from(shorter, a);
        let after = targets_from(edges, a);
        if before.contains(b) {
            let k = before.index_of(b);
            assert(after[k] == b);
        }
        if edges.last() == (a, b) {
            assert(after[before.len() as int] == b);
        }
        if edges.contains((a, b)) && edges.last() != (a, b) {
            let k = edges.index_of((a, b));
            assert(shorter[k] == (a, b));
        }
    }
}

/// The graph has an edge exactly where one module depends on another.
pub proof fn law_edges_are_dependencies(
    names: Seq<Seq<char>>,
    dependencies: Seq<(Seq<char>, Seq<Seq<char>>)>,
    a: u32,
    b: u32,
)
    requires
        names.no_duplicates(),
        names.len() <= u32::MAX,
        keys(dependencies).no_duplicates(),
    ensures
        has_edge(
            adjacency(names.len(), dependency_edges(numbered(names), dependencies)),
            a,
            b,
        ) <==> a < names.len() && b < names.len() && a != b && depends_on(
            dependencies,
            names[a as int],
            names[b as int],
        ),
{
    let edges = dependency_edges(numbered(names), dependencies);
    lemma_dependency_edges(names, dependencies, a, b);
    lemma_targets(edges, a, b);
    let list = targets_from(edges, a);
    if a < names.len() {
        if list.contains(b) {
            let k = list.index_of(b);
            assert(list.reverse()[list.len() - 1 - k] == b);
        }
    }
}

/// What the search reports on the graph of a project are the cycles of its modules that meet no
/// module twice, all of them, and each once for all its rotations. It reports something exactly
/// where there is a cycle.
pub proof fn law_reports_module_cycles(
    names: Seq<Seq<char>>,
    dependencies: Seq<(Seq<char>, Seq<Seq<char>>)>,
)
    requires
        within(names, dependencies),
        names.len() <= u32::MAX,
    ensures
        ({
            let lists = adjacency(names.len(), dependency_edges(numbered(names), dependencies));
            let found = found_cycles(lists, node_names(names), nodes_of(numbered(names)));
            &&& forall|i: int|
                0 <= i < found.len() ==> is_module_cycle(dependencies, #[trigger] found[i])
                    && found[i].no_duplicates()
            &&& forall|cycle: Seq<Seq<char>>| #[trigger]
                is_module_cycle(dependencies, cycle) && cycle.no_duplicates() ==> is_listed(
                    found,
                    cycle,
                )
            &&& forall|i: int, j: int|
                0 <= i < j < found.len() ==> canonical(#[trigger] found[i]) != canonical(
                    #[trigger] found[j],
                )
            &&& found.len() > 0 <==> exists|cycle: Seq<Seq<char>>|
                is_module_cycle(dependencies, cycle)
        }),
{
    let lists = adjacency(names.len(), dependency_edges(numbered(names), dependencies));
    let starts = nodes_of(numbered(names));
    let found = found_cycles(lists, node_names(names), starts);
    assert forall|i: int| 0 <= i < found.len() implies is_module_cycle(
        dependencies,
        #[trigger] found[i],
    ) && found[i].no_duplicates() by {
        law_reported_cycles_exist(lists, node_names(names), starts, i);
        let nodes = choose|nodes: Seq<u32>|
            is_simple_cycle(lists, nodes) && found[i] == #[trigger] labels(
                node_names(names),
                nodes,
            );
        lemma_named_cycle(names, dependencies, nodes);
    }
    assert forall|cycle: Seq<Seq<char>>| #[trigger]
        is_module_cycle(dependencies, cycle) && cycle.no_duplicates() implies is_listed(
        found,
        cycle,
    ) by {
        let nodes = numbers(names, cycle);
        lemma_numbered_cycle(names, dependencies, cycle);
        assert forall|i: int, j: int|
            0 <= i < nodes.len() && 0 <= j < nodes.len() && i != j implies nodes[i] != nodes[j] by {
            assert(cycle[i] != cycle[j]);
        }
        lemma_node_is_reached(names, lists, nodes[0]);
        law_every_cycle_is_reported(lists, node_names(names), starts, nodes);
        assert(labels(node_names(names), nodes) =~= cycle);
    }
    assert forall|i: int, j: int| 0 <= i < j < found.len() implies canonical(#[trigger] found[i])
        != canonical(#[trigger] found[j]) by {
        law_cycles_reported_once(lists, node_names(names), starts, i, j);
    }
    assert forall|node: u32| node < lists.len() implies #[trigger] starts.contains(node) by {
        assert(starts[node as int] == node);
    }
    law_silence_means_no_cycle(lists, node_names(names), starts);
    if exists|cycle: Seq<Seq<char>>| is_module_cycle(dependencies, cycle) {
        let cycle = choose|cycle: Seq<Seq<char>>| is_module_cycle(dependencies, cycle);
        lemma_numbered_cycle(names, dependencies, cycle);
        assert(is_cycle(lists, numbers(names, cycle)));
    }
    if found.len() > 0 {
        assert(is_module_cycle(dependencies, found[0]));
    }
}

/// The search reaches every node.
proof fn lemma_node_is_reached(names: Seq<Seq<char>>, lists: Seq<Seq<u32>>, node: u32)
    requires
        node < names.len() <= u32::MAX,
    ensures
        is_reached(lists, nodes_of(numbered(names)), node),
{
    assert(nodes_of(numbered(names))[node as int] == node);
    lemma_start_is_reached(lists, nodes_of(numbered(names)), node);
}

/// The nodes of the modules.
spec fn numbers(names: Seq<Seq<char>>, modules: Seq<Seq<char>>) -> Seq<u32> {
    modules.map_values(|module: Seq<char>| names.index_of(module) as u32)
}

/// The nodes along a cycle of modules are a cycle of the graph.
proof fn lemma_numbered_cycle(
    names: Seq<Seq<char>>,
    dependencies: Seq<(Seq<char>, Seq<Seq<char>>)>,
    cycle: Seq<Seq<char>>,
)
    requires
        within(names, dependencies),
        names.len() <= u32::MAX,
        is_module_cycle(dependencies, cycle),
    ensures
        is_cycle(
            adjacency(names.len(), dependency_edges(numbered(names), dependencies)),
            numbers(names, cycle),
        ),
        forall|i: int|
            0 <= i < cycle.len() ==> (#[trigger] numbers(names, cycle)[i]) < names.len()
                && names[numbers(names, cycle)[i] as int] == cycle[i],
{
    let lists = adjacency(names.len(), dependency_edges(numbered(names), dependencies));
    let nodes = numbers(names, cycle);
    assert forall|i: int| 0 <= i < cycle.len() implies (#[trigger] nodes[i]) < names.len()
        && names[nodes[i] as int] == cycle[i] by {
        if i + 1 < cycle.len() {
            assert(depends_on(dependencies, cycle[i], cycle[i + 1]));
        }
    }
    assert forall|i: int, j: int|
        0 <= i < cycle.len() && 0 <= j < cycle.len() && depends_on(
            dependencies,
            cycle[i],
            cycle[j],
        ) implies #[trigger] has_edge(lists, nodes[i], nodes[j]) by {
        law_edges_are_dependencies(names, dependencies, nodes[i], nodes[j]);
    }
}

/// Of every group of modules with a cycle in it, also one that meets modules twice, a cycle is
/// reported.
pub proof fn law_every_group_is_told_of(
    names: Seq<Seq<char>>,
    dependencies: Seq<(Seq<char>, Seq<Seq<char>>)>,
    group: Set<Seq<char>>,
    cycle: Seq<Seq<char>>,
)
    requires
        within(names, dependencies),
        names.len() <= u32::MAX,
        is_module_cycle(dependencies, cycle),
        are_among(cycle, group),
    ensures
        ({
            let lists = adjacency(names.len(), dependency_edges(numbered(names), dependencies));
            let found = found_cycles(lists, node_names(names), nodes_of(numbered(names)));
            exists|i: int|
                0 <= i < found.len() && is_module_cycle(dependencies, #[trigger] found[i])
                    && are_among(found[i], group)
        }),
{
    let lists = adjacency(names.len(), dependency_edges(numbered(names), dependencies));
    let starts = nodes_of(numbered(names));
    let found = found_cycles(lists, node_names(names), starts);
    let part = Set::new(|node: u32| node < names.len() && group.contains(names[node as int]));
    let nodes = numbers(names, cycle);
    lemma_numbered_cycle(names, dependencies, cycle);
    lemma_node_is_reached(names, lists, nodes[0]);
    law_every_part_is_told_of(lists, node_names(names), starts, part, nodes);
    law_reports_module_cycles(names, dependencies);
    let i = choose|i: int|
        0 <= i < found.len() && is_named_in(node_names(names), part, #[trigger] found[i]);
    assert forall|j: int| 0 <= j < found[i].len() implies group.contains(
        #[trigger] found[i][j],
    ) by {
        assert(is_name_in(node_names(names), part, found[i][j]));
    }
}

/// The names along a cycle of the graph are a cycle of modules.
proof fn lemma_named_cycle(
    names: Seq<Seq<char>>,
    dependencies: Seq<(Seq<char>, Seq<Seq<char>>)>,
    nodes: Seq<u32>,
)
    requires
        within(names, dependencies),
        names.len() <= u32::MAX,
        is_cycle(
            adjacency(names.len(), dependency_edges(numbered(names), dependencies)),
            nodes,
        ),
        nodes.no_duplicates(),
    ensures
        is_module_cycle(dependencies, labels(node_names(names), nodes)),
        labels(node_names(names), nodes).no_duplicates(),
        forall|i: int| 0 <= i < nodes.len() ==> (#[trigger] nodes[i]) < names.len(),
{
    let cycle = labels(node_names(names), nodes);
    assert forall|i: int| 0 <= i < nodes.len() implies (#[trigger] nodes[i]) < names.len() by {
        if i + 1 < nodes.len() {
            law_edges_are_dependencies(names, dependencies, nodes[i], nodes[i + 1]);
        }
    }
    assert forall|i: int, j: int|
        0 <= i && j == i + 1 && j < cycle.len() implies #[trigger] depends_on(
        dependencies,
        cycle[i],
        cycle[j],
    ) by {
        law_edges_are_dependencies(names, dependencies, nodes[i], nodes[j]);
    }
    law_edges_are_dependencies(names, dependencies, nodes.last(), nodes[0]);
}

/// The nodes that the reported cycles mark are exactly those of the modules that lie on a cycle.
pub proof fn law_marked_nodes_lie_on_cycles(
    names: Seq<Seq<char>>,
    dependencies: Seq<(Seq<char>, Seq<Seq<char>>)>,
)
    requires
        within(names, dependencies),
        names.len() <= u32::MAX,
    ensures
        ({
            let lists = adjacency(names.len(), dependency_edges(numbered(names), dependencies));
            let found = found_cycles(lists, node_names(names), nodes_of(numbered(names)));
            nodes_on(numbered(names), found) == cyclic_nodes(names, dependencies)
        }),
{
    let lists = adjacency(names.len(), dependency_edges(numbered(names), dependencies));
    let starts = nodes_of(numbered(names));
    let found = found_cycles(lists, node_names(names), starts);
    let marked = nodes_on(numbered(names), found);
    law_reports_module_cycles(names, dependencies);
    assert forall|node: u32| marked.contains(node) <==> cyclic_nodes(names, dependencies).contains(
        node,
    ) by {
        if marked.contains(node) {
            let (i, j) = choose|i: int, j: int|
                0 <= i < found.len() && 0 <= j < found[i].len() && lookup(
                    numbered(names),
                    #[trigger] found[i][j],
                ) == Some(node);
            lemma_numbered(names, found[i][j]);
            assert(is_module_cycle(dependencies, found[i]));
            assert(found[i].contains(names[node as int]));
        }
        if cyclic_nodes(names, dependencies).contains(node) {
            let module = names[node as int];
            let cycle = choose|cycle: Seq<Seq<char>>| #[trigger]
                is_module_cycle(dependencies, cycle) && cycle.contains(module);
            let at = cycle.index_of(module);
            let nodes = numbers(names, cycle);
            lemma_numbered_cycle(names, dependencies, cycle);
            lemma_rotated_cycle(lists, nodes, at);
            assert(nodes[at] == node);
            let simple = lemma_simple_cycle(lists, rotate(nodes, at));
            let told = labels(node_names(names), simple);
            lemma_node_is_reached(names, lists, node);
            law_every_cycle_is_reported(lists, node_names(names), starts, simple);
            let i = choose|i: int| 0 <= i < found.len() && is_rotation(#[trigger] found[i], told);
            let start = choose|start: int|
                0 <= start < told.len() && found[i] == #[trigger] rotate(told, start);
            let j = if start == 0 {
                0
            } else {
                told.len() - start
            };
            assert(found[i][j] == told[0]);
            lemma_numbered(names, module);
            assert(lookup(numbered(names), found[i][j]) == Some(node));
        }
    }
    assert(marked =~= cyclic_nodes(names, dependencies));
}

/// Every module of a reported cycle is marked.
pub proof fn law_reported_modules_are_marked(
    names: Seq<Seq<char>>,
    dependencies: Seq<(Seq<char>, Seq<Seq<char>>)>,
    i: int,
    j: int,
)
    requires
        within(names, dependencies),
        names.len() <= u32::MAX,
        ({
            let lists = adjacency(names.len(), dependency_edges(numbered(names), dependencies));
            let found = found_cycles(lists, node_names(names), nodes_of(numbered(names)));
            0 <= i < found.len() && 0 <= j < found[i].len()
        }),
    ensures
        ({
            let lists = adjacency(names.len(), dependency_edges(numbered(names), dependencies));
            let found = found_cycles(lists, node_names(names), nodes_of(numbered(names)));
            &&& lookup(numbered(names), found[i][j]) matches Some(node)
            &&& nodes_on(numbered(names), found).contains(node)
        }),
{
    let lists = adjacency(names.len(), dependency_edges(numbered(names), dependencies));
    let starts = nodes_of(numbered(names));
    let found = found_cycles(lists, node_names(names), starts);
    law_reported_cycles_exist(lists, node_names(names), starts, i);
    let nodes = choose|nodes: Seq<u32>|
        is_simple_cycle(lists, nodes) && found[i] == #[trigger] labels(node_names(names), nodes);
    lemma_named_cycle(names, dependencies, nodes);
    lemma_numbered(names, found[i][j]);
}

/// The import graph, where its nodes and edges can be numbered: a node for each module, in the
/// order of the modules, and an edge from each module to each other module that it depends on.
/// Beside it stand the node of each name and the name of each node.
pub fn checked_graph(
    dependencies: &NameMap<Vec<String>>,
    module_map: &NameMap<FilePath>,
) -> (built: Option<(DiGraph<String, ()>, NameMap<u32>, HashMap<u32, String>)>)
    ensures
        built is Some <==> fits(keys(module_map@), dependencies@),
        built matches Some(parts) ==> {
            let names = keys(module_map@);
            let edges = dependency_edges(numbered(names), dependencies@);
            &&& graph_nodes(parts.0) == names
            &&& graph_edges(parts.0) == edges
            &&& graph_successors(parts.0) == adjacency(names.len(), edges)
            &&& parts.1@ == numbered(names)
            &&& name_texts(parts.2@) == node_names(names)
        },
{
    let ghost names = keys(module_map@);
    let count: usize = module_map.len();
    if count > u32::MAX as usize {
        return None;
    }
    let mut graph: DiGraph<String, ()> = new_graph();
    let mut node_indices: NameMap<u32> = NameMap::new();
    let mut index_to_name: HashMap<u32, String> = HashMap::new();
    let mut i: usize = 0;
    while i < count
        invariant
            names == keys(module_map@),
            names.no_duplicates(),
            count == module_map@.len(),
            count <= u32::MAX,
            i <= count,
            graph_nodes(graph) == names.take(i as int),
            graph_edges(graph) == Seq::<(u32, u32)>::empty(),
            graph_successors(graph) == adjacency(i as nat, Seq::empty()),
            node_indices@ == numbered(names.take(i as int)),
            name_texts(index_to_name@) == node_names(names.take(i as int)),
        decreases count - i,
    {
        assert(names[i as int] == module_map@[i as int].0);
        let module: &String = module_map.name_at(i);
        let node: u32 = add_node(&mut graph, module.clone());
        node_indices.insert(module.clone(), node);
        let ghost named = name_texts(index_to_name@);
        index_to_name.insert(node, module.clone());
        assert(name_texts(index_to_name@) =~= named.insert(node, module@));
        i += 1;
    }
    let ghost nodes = numbered(names);
    let ghost entries = dependencies@;
    let ghost all = dependency_edges(nodes, entries);
    let mut edge_count: u32 = 0;
    i = 0;
    while i < dependencies.len()
        invariant
            names == keys(module_map@),
            names.no_duplicates(),
            names.len() <= u32::MAX,
            nodes == numbered(names),
            entries == dependencies@,
            all == dependency_edges(nodes, entries),
            i <= entries.len(),
            node_indices@ == nodes,
            graph_nodes(graph) == names,
            graph_edges(graph) == dependency_edges(nodes, entries.take(i as int)),
            graph_successors(graph) == adjacency(names.len(), graph_edges(graph)),
            edge_count == graph_edges(graph).len(),
        decreases entries.len() - i,
    {
        let ghost before = graph_edges(graph);
        let ghost entry = entries[i as int];
        proof {
            assert(entries.take(i + 1).drop_last() =~= entries.take(i as int));
            lemma_dependency_edges_grow(nodes, entries, i + 1);
        }
        match node_indices.get(dependencies.name_at(i).as_str()) {
            Some(source) => {
                let imports: &Vec<String> = dependencies.value_at(i);
                let from: u32 = *source;
                let mut j: usize = 0;
                while j < imports.len()
                    invariant
                        names == keys(module_map@),
                        names.no_duplicates(),
                        names.len() <= u32::MAX,
                        nodes == numbered(names),
                        all.len() >= before.len() + edges_from(nodes, from, entry.1).len(),
                        all == dependency_edges(nodes, entries),
                        entries == dependencies@,
                        from < names.len(),
                        texts(imports@) == entry.1,
                        j <= imports.len(),
                        node_indices@ == nodes,
                        graph_nodes(graph) == names,
                        graph_edges(graph) == before + edges_from(
                            nodes,
                            from,
                            entry.1.take(j as int),
                        ),
                        graph_successors(graph) == adjacency(names.len(), graph_edges(graph)),
                        edge_count == graph_edges(graph).len(),
                    decreases imports.len() - j,
                {
                    let ghost now = graph_edges(graph);
                    proof {
                        assert(entry.1.take(j + 1).drop_last() =~= entry.1.take(j as int));
                        lemma_edges_from_grow(nodes, from, entry.1, j + 1);
                    }
                    match node_indices.get(imports[j].as_str()) {
                        Some(target) => {
                            let to: u32 = *target;
                            if from != to {
                                if edge_count == u32::MAX {
                                    return None;
                                }
                                proof {
                                    lemma_adjacency_push(names.len(), now, from, to);
                                }
                                add_edge(&mut graph, from, to);
                                edge_count += 1;
                            }
                        },
                        None => {},
                    }
                    j += 1;
                }
                assert(entry.1.take(j as int) =~= entry.1);
            },
            None => {},
        }
        i += 1;
    }
    assert(entries.take(i as int) =~= entries);
    Some((graph, node_indices, index_to_name))
}

/// The import graph: a node for each module, in the order of the modules, and an edge from each
/// module to each other module that it depends on. Beside it stand the node of each name and the
/// name of each node.
pub fn build_graph(
    dependencies: &NameMap<Vec<String>>,
    module_map: &NameMap<FilePath>,
) -> (parts: (DiGraph<String, ()>, NameMap<u32>, HashMap<u32, String>))
    requires
        fits(keys(module_map@), dependencies@),
    ensures
        ({
            let names = keys(module_map@);
            let edges = dependency_edges(numbered(names), dependencies@);
            &&& graph_nodes(parts.0) == names
            &&& graph_edges(parts.0) == edges
            &&& graph_successors(parts.0) == adjacency(names.len(), edges)
            &&& parts.1@ == numbered(names)
            &&& name_texts(parts.2@) == node_names(names)
        }),
{
    checked_graph(dependencies, module_map).unwrap()
}

/// The nodes are the positions of the modules: each module is found under its name, each node reads
/// as its module, and there is a start for every node.
pub proof fn law_nodes_are_positions(names: Seq<Seq<char>>, node: u32)
    requires
        names.no_duplicates(),
        node < names.len() <= u32::MAX,
    ensures
        numbered(names).len() == names.len(),
        lookup(numbered(names), names[node as int]) == Some(node),
        node_names(names).contains_key(node) && node_names(names)[node] == names[node as int],
        nodes_of(numbered(names)).len() == names.len(),
        nodes_of(numbered(names))[node as int] == node,
        forall|other: u32| other >= names.len() ==> !#[trigger] node_names(names).contains_key(other),
{
    lemma_numbered(names, names[node as int]);
}

/// The edges that are drawn and counted are the dependencies, each once.
pub proof fn law_each_dependency_is_one_edge(
    names: Seq<Seq<char>>,
    dependencies: Seq<(Seq<char>, Seq<Seq<char>>)>,
    a: u32,
    b: u32,
)
    requires
        names.no_duplicates(),
        names.len() <= u32::MAX,
        keys(dependencies).no_duplicates(),
        forall|i: int|
            0 <= i < dependencies.len() ==> (#[trigger] dependencies[i]).1.no_duplicates(),
    ensures
        dependency_edges(numbered(names), dependencies).no_duplicates(),
        dependency_edges(numbered(names), dependencies).contains((a, b)) <==> a < names.len() && b
            < names.len() && a != b && depends_on(
            dependencies,
            names[a as int],
            names[b as int],
        ),
{
    lemma_dependency_edges(names, dependencies, a, b);
    lemma_edges_are_distinct(names, dependencies);
}

proof fn lemma_edges_from_are_distinct(
    names: Seq<Seq<char>>,
    source: u32,
    imports: Seq<Seq<char>>,
)
    requires
        names.no_duplicates(),
        names.len() <= u32::MAX,
        imports.no_duplicates(),
    ensures
        edges_from(numbered(names), source, imports).no_duplicates(),
    decreases imports.len(),
{
    if imports.len() > 0 {
        let shorter = imports.drop_last();
        let before = edges_from(numbered(names), source, shorter);
        lemma_edges_from_are_distinct(names, source, shorter);
        lemma_numbered(names, imports.last());
        match lookup(numbered(names), imports.last()) {
            Some(target) => {
                lemma_edges_from(names, source, shorter, source, target);
                if before.contains((source, target)) {
                    let k = shorter.index_of(names[target as int]);
                    assert(imports[k] == imports[imports.len() - 1]);
                }
                assert(!before.contains((source, target)));
            },
            None => {},
        }
    }
}

proof fn lemma_edges_are_distinct(
    names: Seq<Seq<char>>,
    dependencies: Seq<(Seq<char>, Seq<Seq<char>>)>,
)
    requires
        names.no_duplicates(),
        names.len() <= u32::MAX,
        keys(dependencies).no_duplicates(),
        forall|i: int|
            0 <= i < dependencies.len() ==> (#[trigger] dependencies[i]).1.no_duplicates(),
    ensures
        dependency_edges(numbered(names), dependencies).no_duplicates(),
    decreases dependencies.len(),
{
    if dependencies.len() > 0 {
        let shorter = dependencies.drop_last();
        let entry = dependencies.last();
        let before = dependency_edges(numbered(names), shorter);
        assert(keys(shorter) =~= keys(dependencies).drop_last());
        assert forall|i: int| 0 <= i < shorter.len() implies (
        #[trigger] shorter[i]).1.no_duplicates() by {
            assert(shorter[i] == dependencies[i]);
        }
        lemma_edges_are_distinct(names, shorter);
        lemma_numbered(names, entry.0);
        match lookup(numbered(names), entry.0) {
            Some(source) => {
                let added = edges_from(numbered(names), source, entry.1);
                assert(dependencies[dependencies.len() - 1] == entry);
                lemma_edges_from_are_distinct(names, source, entry.1);
                assert forall|i: int, j: int|
                    0 <= i < before.len() && 0 <= j < added.len() implies before[i] != added[j] by {
                    if before[i] == added[j] {
                        let edge = added[j];
                        assert(added.contains(edge));
                        assert(before.contains(edge));
                        lemma_edges_from(names, source, entry.1, edge.0, edge.1);
                        lemma_dependency_edges(names, shorter, edge.0, edge.1);
                        let k = keys(shorter).index_of(entry.0);
                        assert(keys(dependencies)[k] == keys(dependencies)[shorter.len() as int]);
                    }
                }
            },
            None => {},
        }
    }
}

/// Modules are a cycle exactly where there are some and each depends on the one behind it, and the
/// last on the first.
pub proof fn law_cycle_by_dependencies(
    dependencies: Seq<(Seq<char>, Seq<Seq<char>>)>,
    cycle: Seq<Seq<char>>,
)
    ensures
        is_module_cycle(dependencies, cycle) <==> cycle.len() > 0 && forall|i: int|
            0 <= i < cycle.len() ==> depends_on(
                dependencies,
                #[trigger] cycle[i],
                cycle[if i + 1 < cycle.len() {
                    i + 1
                } else {
                    0
                }],
            ),
{
    if is_module_cycle(dependencies, cycle) {
        assert forall|i: int| 0 <= i < cycle.len() implies depends_on(
            dependencies,
            #[trigger] cycle[i],
            cycle[if i + 1 < cycle.len() {
                i + 1
            } else {
                0
            }],
        ) by {
            if i + 1 < cycle.len() {
                assert(depends_on(dependencies, cycle[i], cycle[i + 1]));
            }
        }
    } else if cycle.len() > 0 && forall|i: int|
        0 <= i < cycle.len() ==> depends_on(
            dependencies,
            #[trigger] cycle[i],
            cycle[if i + 1 < cycle.len() {
                i + 1
            } else {
                0
            }],
        ) {
        assert(depends_on(dependencies, cycle[cycle.len() - 1], cycle[0]));
        assert forall|i: int, j: int|
            0 <= i && j == i + 1 && j < cycle.len() implies #[trigger] depends_on(
            dependencies,
            cycle[i],
            cycle[j],
        ) by {
            assert(depends_on(dependencies, cycle[i], cycle[i + 1]));
        }
    }
}

/// A graph can be numbered as long as there are fewer than two to the power of thirty-two modules,
/// and as many dependencies between them.
pub proof fn law_graph_can_be_numbered(
    names: Seq<Seq<char>>,
    dependencies: Seq<(Seq<char>, Seq<Seq<char>>)>,
)
    ensures
        fits(names, dependencies) <==> names.len() < 0x1_0000_0000 && dependency_edges(
            numbered(names),
            dependencies,
        ).len() < 0x1_0000_0000,
{
}

} // verus!
