//! The search for import cycles.
use crate::graph::{graph_successors, incoming_neighbors, neighbors, successors_of};
use crate::names::{lookup, NameMap};
use crate::rotation::{canonical, canonicalize_cycle};
use crate::search::{
    cycles_in_order, cycles_through, cycles_via, found_cycles, has_edge, holds_sources, is_listed,
    is_reached, is_reported, is_simple_cycle, is_walk, label, labels, law_cycles_reported_once,
    law_every_cycle_is_reported, law_reported_cycles_exist, lemma_distinct_below,
    lemma_no_way_back, lemma_reaches_on, lemma_record_all_appends, lemma_start_is_reached,
    lemma_walk_stays, names_a_cycle, reached_nodes, reaches, record, record_all,
};
use crate::text::{name_texts, text_lists, texts};
use petgraph::graph::DiGraph;
use std::collections::{HashMap, HashSet};
use vstd::prelude::*;

verus! {

broadcast use vstd::std_specs::hash::group_hash_axioms;

/// The canonical form of each cycle.
pub open spec fn canonical_forms(cycles: Seq<Seq<Seq<char>>>) -> Seq<Seq<Seq<char>>> {
    cycles.map_values(|cycle: Seq<Seq<char>>| canonical(cycle))
}

/// The nodes that the names stand for, in the order of the names.
pub open spec fn nodes_of(entries: Seq<(Seq<char>, u32)>) -> Seq<u32> {
    entries.map_values(|entry: (Seq<char>, u32)| entry.1)
}

/// Whether two lists hold the same texts.
fn same_names(a: &Vec<String>, b: &Vec<String>) -> (same: bool)
    ensures
        same == (texts(a@) == texts(b@)),
{
    if a.len() != b.len() {
        return false;
    }
    let mut i: usize = 0;
    while i < a.len()
        invariant
            a.len() == b.len(),
            i <= a.len(),
            forall|j: int| 0 <= j < i ==> texts(a@)[j] == texts(b@)[j],
        decreases a.len() - i,
    {
        if a[i] != b[i] {
            assert(texts(a@)[i as int] != texts(b@)[i as int]);
            return false;
        }
        i += 1;
    }
    assert(texts(a@) =~= texts(b@));
    true
}

/// Whether a list holds the same texts as one of the lists.
fn holds(lists: &Vec<Vec<String>>, list: &Vec<String>) -> (found: bool)
    ensures
        found == text_lists(lists@).contains(texts(list@)),
{
    let mut i: usize = 0;
    while i < lists.len()
        invariant
            i <= lists.len(),
            forall|j: int| 0 <= j < i ==> text_lists(lists@)[j] != texts(list@),
        decreases lists.len() - i,
    {
        if same_names(&lists[i], list) {
            assert(text_lists(lists@)[i as int] == texts(list@));
            return true;
        }
        i += 1;
    }
    false
}

/// The name of a node, or the given text.
pub(crate) fn name_of(names: &HashMap<u32, String>, node: u32, missing: &str) -> (name: String)
    ensures
        name@ == label(name_texts(names@), node, missing@),
{
    match names.get(&node) {
        Some(name) => name.clone(),
        None => missing.to_owned(),
    }
}

/// The names along a path.
fn path_names(path: &Vec<u32>, names: &HashMap<u32, String>) -> (cycle: Vec<String>)
    ensures
        texts(cycle@) == labels(name_texts(names@), path@),
{
    let mut cycle: Vec<String> = Vec::new();
    let mut i: usize = 0;
    let ghost all = labels(name_texts(names@), path@);
    proof {
        reveal_strlit("");
    }
    while i < path.len()
        invariant
            i <= path.len(),
            all == labels(name_texts(names@), path@),
            texts(cycle@) == all.take(i as int),
            ""@ == Seq::<char>::empty(),
        decreases path.len() - i,
    {
        let ghost before = texts(cycle@);
        let name: String = name_of(names, path[i], "");
        cycle.push(name);
        assert(texts(cycle@) =~= before.push(name@));
        i += 1;
    }
    assert(all.take(i as int) =~= all);
    cycle
}

/// Adds the names along the path to the cycles, unless a rotation of them was seen before.
fn record_cycle(
    path: &Vec<u32>,
    index_to_name: &HashMap<u32, String>,
    cycles: &mut Vec<Vec<String>>,
    seen_cycles: &mut Vec<Vec<String>>,
)
    requires
        text_lists(old(seen_cycles)@) == canonical_forms(text_lists(old(cycles)@)),
    ensures
        text_lists(final(cycles)@) == record(
            name_texts(index_to_name@),
            text_lists(old(cycles)@),
            path@,
        ),
        text_lists(final(seen_cycles)@) == canonical_forms(text_lists(final(cycles)@)),
{
    let cycle_path: Vec<String> = path_names(path, index_to_name);
    let turned: Vec<String> = canonicalize_cycle(cycle_path.as_slice());
    let ghost before = text_lists(cycles@);
    let ghost forms = canonical_forms(before);
    assert(forms.contains(texts(turned@)) <==> is_listed(before, texts(cycle_path@))) by {
        if forms.contains(texts(turned@)) {
            let k = forms.index_of(texts(turned@));
            assert(canonical(before[k]) == canonical(texts(cycle_path@)));
        }
        if is_listed(before, texts(cycle_path@)) {
            let k = choose|k: int|
                0 <= k < before.len() && canonical(#[trigger] before[k]) == canonical(
                    texts(cycle_path@),
                );
            assert(forms[k] == texts(turned@));
        }
    }
    if !holds(seen_cycles, &turned) {
        let ghost seen = text_lists(seen_cycles@);
        seen_cycles.push(turned);
        cycles.push(cycle_path);
        assert(text_lists(cycles@) =~= before.push(texts(cycle_path@)));
        assert(text_lists(seen_cycles@) =~= seen.push(texts(turned@)));
        assert(canonical_forms(text_lists(cycles@)) =~= forms.push(texts(turned@)));
    }
}

/// Enters a node, searches every way on from it that may lead back to the first node of the path,
/// and leaves it again. A node is barred while it is on the path, and where it was searched before.
fn dfs_find_cycles(
    graph: &DiGraph<String, ()>,
    node: u32,
    visited: &HashSet<u32>,
    home: &HashSet<u32>,
    on_stack: &mut HashSet<u32>,
    path: &mut Vec<u32>,
    index_to_name: &HashMap<u32, String>,
    cycles: &mut Vec<Vec<String>>,
    seen_cycles: &mut Vec<Vec<String>>,
)
    requires
        holds_sources(graph_successors(*graph), visited@, home@),
        home@.contains(old(path)@.push(node)[0]),
        !old(path)@.contains(node),
        old(on_stack)@ == old(path)@.to_set(),
        old(path)@.no_duplicates(),
        forall|i: int|
            0 <= i < old(path)@.len() ==> (#[trigger] old(path)@[i]) < graph_successors(
                *graph,
            ).len(),
        old(path)@.len() <= graph_successors(*graph).len(),
        text_lists(old(seen_cycles)@) == canonical_forms(text_lists(old(cycles)@)),
    ensures
        text_lists(final(cycles)@) == record_all(
            name_texts(index_to_name@),
            text_lists(old(cycles)@),
            cycles_via(
                graph_successors(*graph),
                visited@,
                old(path)@.push(node),
                successors_of(graph_successors(*graph), node),
                (graph_successors(*graph).len() - old(path)@.len()) as nat,
            ),
        ),
        final(path)@ == old(path)@,
        final(on_stack)@ == old(on_stack)@,
        text_lists(final(seen_cycles)@) == canonical_forms(text_lists(final(cycles)@)),
    decreases graph_successors(*graph).len() + 1 - old(path)@.len(),
{
    let ghost lists = graph_successors(*graph);
    let ghost names = name_texts(index_to_name@);
    let ghost path0 = path@;
    let ghost cycles0 = text_lists(cycles@);
    let ghost depth = (lists.len() - path0.len()) as nat;
    on_stack.insert(node);
    path.push(node);
    let ghost entered = path@;
    assert(on_stack@ =~= entered.to_set()) by {
        assert forall|n: u32| on_stack@.contains(n) implies entered.contains(n) by {
            if n == node {
                assert(entered[path0.len() as int] == n);
            } else {
                let k = choose|k: int| 0 <= k < path0.len() && path0[k] == n;
                assert(entered[k] == n);
            }
        }
    }
    let targets: Vec<u32> = neighbors(graph, node);
    let mut i: usize = 0;
    while i < targets.len()
        invariant
            lists == graph_successors(*graph),
            names == name_texts(index_to_name@),
            depth == lists.len() - path0.len(),
            path0 == old(path)@,
            path0.len() <= lists.len(),
            forall|k: int| 0 <= k < path0.len() ==> (#[trigger] path0[k]) < lists.len(),
            entered == path0.push(node),
            entered.no_duplicates(),
            holds_sources(lists, visited@, home@),
            home@.contains(entered[0]),
            targets@ == successors_of(lists, node),
            i <= targets.len(),
            path@ == entered,
            on_stack@ == entered.to_set(),
            text_lists(cycles@) == record_all(
                names,
                cycles0,
                cycles_via(lists, visited@, entered, targets@.take(i as int), depth),
            ),
            text_lists(seen_cycles@) == canonical_forms(text_lists(cycles@)),
        decreases targets.len() - i,
    {
        let neighbor: u32 = targets[i];
        let ghost shorter = targets@.take(i as int);
        let ghost before = cycles_via(lists, visited@, entered, shorter, depth);
        let ghost deeper = cycles_via(
            lists,
            visited@,
            entered.push(neighbor),
            successors_of(lists, neighbor),
            (depth - 1) as nat,
        );
        proof {
            assert(targets@.take(i + 1).drop_last() =~= shorter);
            lemma_distinct_below(entered, lists.len());
            lemma_record_all_appends(names, cycles0, before, deeper);
        }
        if neighbor == path[0] {
            record_cycle(path, index_to_name, cycles, seen_cycles);
            assert(before.push(entered).drop_last() =~= before);
        } else if !visited.contains(&neighbor) && !on_stack.contains(&neighbor) {
            if home.contains(&neighbor) {
                dfs_find_cycles(
                    graph,
                    neighbor,
                    visited,
                    home,
                    on_stack,
                    path,
                    index_to_name,
                    cycles,
                    seen_cycles,
                );
            } else {
                proof {
                    lemma_no_way_back(
                        lists,
                        visited@,
                        home@,
                        entered.push(neighbor),
                        successors_of(lists, neighbor),
                        (depth - 1) as nat,
                    );
                    assert(before + deeper =~= before);
                }
            }
        }
        i += 1;
    }
    assert(targets@.take(i as int) =~= targets@);
    path.pop();
    on_stack.remove(&node);
    assert(path@ =~= path0);
}

/// The nodes from which a walk may lead to the node without a node that was visited: a set that
/// holds the node, and every node that was not visited and has an edge into the set.
fn nodes_leading_to(
    graph: &DiGraph<String, ()>,
    node: u32,
    visited: &HashSet<u32>,
) -> (home: HashSet<u32>)
    ensures
        home@.contains(node),
        holds_sources(graph_successors(*graph), visited@, home@),
{
    let ghost lists = graph_successors(*graph);
    let mut home: HashSet<u32> = HashSet::new();
    let mut queue: Vec<u32> = Vec::new();
    home.insert(node);
    queue.push(node);
    assert(queue@[0] == node);
    let mut i: usize = 0;
    while i < queue.len()
        invariant
            lists == graph_successors(*graph),
            i <= queue.len(),
            queue@.no_duplicates(),
            home@.contains(node),
            forall|n: u32| #[trigger] home@.contains(n) <==> queue@.contains(n),
            forall|a: u32, k: int|
                0 <= k < i && !visited@.contains(a) && #[trigger] has_edge(lists, a, queue@[k])
                    ==> home@.contains(a),
        decreases 0x1_0000_0000 - i,
    {
        let target: u32 = queue[i];
        let sources: Vec<u32> = incoming_neighbors(graph, target);
        proof {
            lemma_distinct_below(queue@, 0x1_0000_0000);
        }
        let mut j: usize = 0;
        while j < sources.len()
            invariant
                lists == graph_successors(*graph),
                j <= sources.len(),
                i < queue.len(),
                queue@[i as int] == target,
                queue@.no_duplicates(),
                home@.contains(node),
                forall|n: u32| #[trigger] home@.contains(n) <==> queue@.contains(n),
                forall|a: u32, k: int|
                    0 <= k < i && !visited@.contains(a) && #[trigger] has_edge(lists, a, queue@[k])
                        ==> home@.contains(a),
                forall|k: int|
                    0 <= k < j && !visited@.contains(sources@[k]) ==> home@.contains(
                        #[trigger] sources@[k],
                    ),
            decreases sources.len() - j,
        {
            let source: u32 = sources[j];
            if !visited.contains(&source) && !home.contains(&source) {
                let ghost before = queue@;
                home.insert(source);
                queue.push(source);
                assert forall|n: u32| #[trigger] home@.contains(n) <==> queue@.contains(n) by {
                    if before.contains(n) {
                        let k = before.index_of(n);
                        assert(queue@[k] == n);
                    }
                    if n == source {
                        assert(queue@[before.len() as int] == n);
                    }
                }
            }
            j += 1;
        }
        assert forall|a: u32| !visited@.contains(a) && #[trigger] has_edge(
            lists,
            a,
            target,
        ) implies home@.contains(a) by {
            assert(sources@.contains(a));
            let k = sources@.index_of(a);
            assert(home@.contains(sources@[k]));
        }
        i += 1;
    }
    assert forall|a: u32, b: u32|
        !visited@.contains(a) && home@.contains(b) && #[trigger] has_edge(
            lists,
            a,
            b,
        ) implies home@.contains(a) by {
        let k = queue@.index_of(b);
        assert(has_edge(lists, a, queue@[k]));
    }
    home
}

/// The nodes that a walk from one of the starts leads to.
fn nodes_reached(graph: &DiGraph<String, ()>, node_indices: &NameMap<u32>) -> (reached: HashSet<
    u32,
>)
    ensures
        forall|node: u32| #[trigger]
            reached@.contains(node) <==> is_reached(
                graph_successors(*graph),
                nodes_of(node_indices@),
                node,
            ),
{
    let ghost lists = graph_successors(*graph);
    let ghost starts = nodes_of(node_indices@);
    let mut reached: HashSet<u32> = HashSet::new();
    let mut queue: Vec<u32> = Vec::new();
    let mut i: usize = 0;
    while i < node_indices.len()
        invariant
            starts == nodes_of(node_indices@),
            i <= node_indices@.len(),
            queue@.no_duplicates(),
            forall|n: u32| #[trigger] reached@.contains(n) <==> queue@.contains(n),
            forall|n: u32| #[trigger] reached@.contains(n) ==> is_reached(lists, starts, n),
            forall|k: int| 0 <= k < i ==> reached@.contains(#[trigger] starts[k]),
        decreases node_indices@.len() - i,
    {
        let start: u32 = *node_indices.value_at(i);
        assert(starts[i as int] == start);
        if !reached.contains(&start) {
            let ghost before = queue@;
            proof {
                lemma_start_is_reached(lists, starts, start);
            }
            reached.insert(start);
            queue.push(start);
            assert forall|n: u32| #[trigger] reached@.contains(n) <==> queue@.contains(n) by {
                if before.contains(n) {
                    let k = before.index_of(n);
                    assert(queue@[k] == n);
                }
                if n == start {
                    assert(queue@[before.len() as int] == n);
                }
            }
        }
        i += 1;
    }
    i = 0;
    while i < queue.len()
        invariant
            lists == graph_successors(*graph),
            i <= queue.len(),
            queue@.no_duplicates(),
            forall|n: u32| #[trigger] reached@.contains(n) <==> queue@.contains(n),
            forall|n: u32| #[trigger] reached@.contains(n) ==> is_reached(lists, starts, n),
            forall|k: int| 0 <= k < starts.len() ==> reached@.contains(#[trigger] starts[k]),
            forall|k: int, b: u32|
                0 <= k < i && #[trigger] has_edge(lists, queue@[k], b) ==> reached@.contains(b),
        decreases 0x1_0000_0000 - i,
    {
        let source: u32 = queue[i];
        let targets: Vec<u32> = neighbors(graph, source);
        proof {
            lemma_distinct_below(queue@, 0x1_0000_0000);
            assert(reached@.contains(queue@[i as int]));
        }
        let mut j: usize = 0;
        while j < targets.len()
            invariant
                lists == graph_successors(*graph),
                targets@ == successors_of(lists, source),
                j <= targets.len(),
                i < queue.len(),
                queue@[i as int] == source,
                is_reached(lists, starts, source),
                queue@.no_duplicates(),
                forall|n: u32| #[trigger] reached@.contains(n) <==> queue@.contains(n),
                forall|n: u32| #[trigger] reached@.contains(n) ==> is_reached(lists, starts, n),
                forall|k: int| 0 <= k < starts.len() ==> reached@.contains(#[trigger] starts[k]),
                forall|k: int, b: u32|
                    0 <= k < i && #[trigger] has_edge(lists, queue@[k], b) ==> reached@.contains(b),
                forall|k: int| 0 <= k < j ==> reached@.contains(#[trigger] targets@[k]),
            decreases targets.len() - j,
        {
            let target: u32 = targets[j];
            if !reached.contains(&target) {
                let ghost before = queue@;
                proof {
                    assert(targets@[j as int] == target);
                    lemma_reaches_on(lists, starts, source, target);
                }
                reached.insert(target);
                queue.push(target);
                assert forall|n: u32| #[trigger] reached@.contains(n) <==> queue@.contains(n) by {
                    if before.contains(n) {
                        let k = before.index_of(n);
                        assert(queue@[k] == n);
                    }
                    if n == target {
                        assert(queue@[before.len() as int] == n);
                    }
                }
            }
            j += 1;
        }
        i += 1;
    }
    proof {
        assert forall|a: u32, b: u32|
            reached@.contains(a) && #[trigger] has_edge(lists, a, b) implies reached@.contains(b) by {
            let k = queue@.index_of(a);
            assert(has_edge(lists, queue@[k], b));
        }
        assert forall|node: u32| is_reached(lists, starts, node) implies #[trigger] reached@.contains(
            node,
        ) by {
            let k = choose|k: int|
                0 <= k < starts.len() && reaches(lists, #[trigger] starts[k], node);
            let walk = choose|walk: Seq<u32>| #[trigger]
                is_walk(lists, walk) && walk.len() > 0 && walk[0] == starts[k] && walk.last()
                    == node;
            lemma_walk_stays(lists, reached@, walk);
        }
    }
    reached
}

/// Adds the cycles through a node that meet no visited node, and visits the node, unless it was
/// visited before.
fn search_node(
    graph: &DiGraph<String, ()>,
    node: u32,
    visited: &mut HashSet<u32>,
    index_to_name: &HashMap<u32, String>,
    cycles: &mut Vec<Vec<String>>,
    seen_cycles: &mut Vec<Vec<String>>,
)
    requires
        text_lists(old(seen_cycles)@) == canonical_forms(text_lists(old(cycles)@)),
    ensures
        final(visited)@ == old(visited)@.insert(node),
        text_lists(final(cycles)@) == (if old(visited)@.contains(node) {
            text_lists(old(cycles)@)
        } else {
            record_all(
                name_texts(index_to_name@),
                text_lists(old(cycles)@),
                cycles_through(graph_successors(*graph), old(visited)@, node),
            )
        }),
        text_lists(final(seen_cycles)@) == canonical_forms(text_lists(final(cycles)@)),
{
    if visited.contains(&node) {
        assert(visited@.insert(node) =~= visited@);
        return;
    }
    let home: HashSet<u32> = nodes_leading_to(graph, node, visited);
    let mut on_stack: HashSet<u32> = HashSet::new();
    let mut path: Vec<u32> = Vec::new();
    assert(on_stack@ =~= path@.to_set());
    assert(path@.push(node) =~= seq![node]);
    dfs_find_cycles(
        graph,
        node,
        visited,
        &home,
        &mut on_stack,
        &mut path,
        index_to_name,
        cycles,
        seen_cycles,
    );
    visited.insert(node);
}

/// What one more node in the order adds.
proof fn lemma_one_more_in_order(
    lists: Seq<Seq<u32>>,
    names: Map<u32, Seq<char>>,
    order: Seq<u32>,
    node: u32,
)
    ensures
        order.push(node).to_set() == order.to_set().insert(node),
        cycles_in_order(lists, names, order.push(node)) == (if order.to_set().contains(node) {
            cycles_in_order(lists, names, order)
        } else {
            record_all(
                names,
                cycles_in_order(lists, names, order),
                cycles_through(lists, order.to_set(), node),
            )
        }),
{
    let longer = order.push(node);
    assert(longer.drop_last() =~= order);
    assert forall|n: u32| order.to_set().insert(node).contains(n) implies longer.to_set().contains(
        n,
    ) by {
        if n == node {
            assert(longer[order.len() as int] == n);
        } else {
            let k = order.index_of(n);
            assert(longer[k] == n);
        }
    }
    assert(longer.to_set() =~= order.to_set().insert(node));
}

/// Finds every cycle of the graph that is reached from the nodes that the names stand for and meets
/// no node twice, and gives the names along it, once for all its rotations.
pub fn find_all_cycles(
    graph: &DiGraph<String, ()>,
    node_indices: &NameMap<u32>,
    index_to_name: &HashMap<u32, String>,
) -> (cycles: Vec<Vec<String>>)
    ensures
        text_lists(cycles@) == found_cycles(
            graph_successors(*graph),
            name_texts(index_to_name@),
            nodes_of(node_indices@),
        ),
        forall|i: int|
            0 <= i < cycles@.len() ==> names_a_cycle(
                graph_successors(*graph),
                name_texts(index_to_name@),
                #[trigger] text_lists(cycles@)[i],
            ),
        forall|i: int, j: int|
            0 <= i < j < cycles@.len() ==> canonical(#[trigger] text_lists(cycles@)[i])
                != canonical(#[trigger] text_lists(cycles@)[j]),
        forall|nodes: Seq<u32>| #[trigger]
            is_simple_cycle(graph_successors(*graph), nodes) && is_reached(
                graph_successors(*graph),
                nodes_of(node_indices@),
                nodes[0],
            ) ==> is_reported(text_lists(cycles@), labels(name_texts(index_to_name@), nodes)),
        forall|nodes: Seq<u32>| #[trigger]
            is_simple_cycle(graph_successors(*graph), nodes) && is_reached(
                graph_successors(*graph),
                nodes_of(node_indices@),
                nodes[0],
            ) && labels(name_texts(index_to_name@), nodes).no_duplicates() ==> is_listed(
                text_lists(cycles@),
                labels(name_texts(index_to_name@), nodes),
            ),
{
    let ghost lists = graph_successors(*graph);
    let ghost names = name_texts(index_to_name@);
    let ghost starts = nodes_of(node_indices@);
    let mut cycles: Vec<Vec<String>> = Vec::new();
    let mut visited: HashSet<u32> = HashSet::new();
    let mut seen_cycles: Vec<Vec<String>> = Vec::new();
    let mut i: usize = 0;
    assert(text_lists(cycles@) =~= Seq::empty());
    assert(text_lists(seen_cycles@) =~= canonical_forms(text_lists(cycles@)));
    assert(visited@ =~= starts.take(0).to_set());
    while i < node_indices.len()
        invariant
            lists == graph_successors(*graph),
            names == name_texts(index_to_name@),
            starts == nodes_of(node_indices@),
            i <= node_indices@.len(),
            visited@ == starts.take(i as int).to_set(),
            text_lists(cycles@) == cycles_in_order(lists, names, starts.take(i as int)),
            text_lists(seen_cycles@) == canonical_forms(text_lists(cycles@)),
        decreases node_indices@.len() - i,
    {
        let start: u32 = *node_indices.value_at(i);
        proof {
            lemma_one_more_in_order(lists, names, starts.take(i as int), start);
            assert(starts.take(i as int).push(start) =~= starts.take(i + 1));
        }
        search_node(
            graph,
            start,
            &mut visited,
            index_to_name,
            &mut cycles,
            &mut seen_cycles,
        );
        i += 1;
    }
    assert(starts.take(i as int) =~= starts);
    let reached: HashSet<u32> = nodes_reached(graph, node_indices);
    let nodes: Vec<u32> = crate::graph::node_indices(graph);
    let ghost mut order = starts;
    i = 0;
    assert(starts + reached_nodes(lists, starts, 0) =~= starts);
    while i < nodes.len()
        invariant
            lists == graph_successors(*graph),
            names == name_texts(index_to_name@),
            nodes@.len() == lists.len(),
            forall|k: int| 0 <= k < nodes@.len() ==> #[trigger] nodes@[k] == k,
            forall|node: u32| #[trigger]
                reached@.contains(node) <==> is_reached(lists, starts, node),
            i <= nodes.len(),
            order == starts + reached_nodes(lists, starts, i as nat),
            visited@ == order.to_set(),
            text_lists(cycles@) == cycles_in_order(lists, names, order),
            text_lists(seen_cycles@) == canonical_forms(text_lists(cycles@)),
        decreases nodes.len() - i,
    {
        let node: u32 = nodes[i];
        if reached.contains(&node) {
            proof {
                lemma_one_more_in_order(lists, names, order, node);
                assert(order.push(node) =~= starts + reached_nodes(lists, starts, (i + 1) as nat));
                order = order.push(node);
            }
            search_node(
                graph,
                node,
                &mut visited,
                index_to_name,
                &mut cycles,
                &mut seen_cycles,
            );
        }
        i += 1;
    }
    proof {
        assert forall|k: int| 0 <= k < cycles@.len() implies names_a_cycle(
            lists,
            names,
            #[trigger] text_lists(cycles@)[k],
        ) by {
            law_reported_cycles_exist(lists, names, starts, k);
        }
        assert forall|k: int, j: int| 0 <= k < j < cycles@.len() implies canonical(
            #[trigger] text_lists(cycles@)[k],
        ) != canonical(#[trigger] text_lists(cycles@)[j]) by {
            law_cycles_reported_once(lists, names, starts, k, j);
        }
        assert forall|nodes: Seq<u32>| #[trigger]
            is_simple_cycle(lists, nodes) && is_reached(lists, starts, nodes[0]) implies is_reported(
            text_lists(cycles@),
            labels(names, nodes),
        ) && (labels(names, nodes).no_duplicates() ==> is_listed(
            text_lists(cycles@),
            labels(names, nodes),
        )) by {
            law_every_cycle_is_reported(lists, names, starts, nodes);
        }
    }
    cycles
}

/// The nodes of the names along the cycles.
pub open spec fn nodes_on(entries: Seq<(Seq<char>, u32)>, cycles: Seq<Seq<Seq<char>>>) -> Set<u32> {
    Set::new(
        |node: u32|
            exists|i: int, j: int|
                0 <= i < cycles.len() && 0 <= j < cycles[i].len() && lookup(
                    entries,
                    #[trigger] cycles[i][j],
                ) == Some(node),
    )
}

/// The nodes of the names along the cycles.
pub fn cycles_to_node_set(cycles: &Vec<Vec<String>>, node_indices: &NameMap<u32>) -> (nodes:
    HashSet<u32>)
    ensures
        nodes@ == nodes_on(node_indices@, text_lists(cycles@)),
{
    let ghost all = text_lists(cycles@);
    let ghost entries = node_indices@;
    let mut nodes: HashSet<u32> = HashSet::new();
    let mut i: usize = 0;
    while i < cycles.len()
        invariant
            all == text_lists(cycles@),
            entries == node_indices@,
            i <= cycles.len(),
            nodes@ == nodes_on(entries, all.take(i as int)),
        decreases cycles.len() - i,
    {
        let ghost before = nodes@;
        let cycle: &Vec<String> = &cycles[i];
        let mut j: usize = 0;
        while j < cycle.len()
            invariant
                entries == node_indices@,
                j <= cycle.len(),
                forall|node: u32| #[trigger]
                    nodes@.contains(node) <==> before.contains(node) || exists|k: int|
                        0 <= k < j && lookup(entries, #[trigger] texts(cycle@)[k]) == Some(node),
            decreases cycle.len() - j,
        {
            assert(texts(cycle@)[j as int] == cycle@[j as int]@);
            match node_indices.get(cycle[j].as_str()) {
                Some(node) => {
                    nodes.insert(*node);
                },
                None => {},
            }
            j += 1;
        }
        assert forall|node: u32| nodes@.contains(node) <==> nodes_on(
            entries,
            all.take(i + 1),
        ).contains(node) by {
            let more = all.take(i + 1);
            if before.contains(node) {
                let (a, b) = choose|a: int, b: int|
                    0 <= a < all.take(i as int).len() && 0 <= b < all.take(i as int)[a].len()
                        && lookup(entries, #[trigger] all.take(i as int)[a][b]) == Some(node);
                assert(lookup(entries, more[a][b]) == Some(node));
            } else if nodes@.contains(node) {
                let k = choose|k: int|
                    0 <= k < cycle@.len() && lookup(entries, #[trigger] texts(cycle@)[k]) == Some(
                        node,
                    );
                assert(lookup(entries, more[i as int][k]) == Some(node));
            }
        }
        i += 1;
    }
    assert(all.take(i as int) =~= all);
    nodes
}

/// More cycles mark more nodes: each name along them that stands for a node marks that node, and
/// nothing else marks one.
pub proof fn law_names_mark_their_nodes(
    entries: Seq<(Seq<char>, u32)>,
    cycles: Seq<Seq<Seq<char>>>,
    cycle: Seq<Seq<char>>,
    node: u32,
)
    ensures
        !nodes_on(entries, Seq::empty()).contains(node),
        nodes_on(entries, cycles.push(cycle)).contains(node) <==> nodes_on(
            entries,
            cycles,
        ).contains(node) || exists|name: Seq<char>| #[trigger]
            cycle.contains(name) && lookup(entries, name) == Some(node),
{
    let more = cycles.push(cycle);
    if nodes_on(entries, more).contains(node) {
        let (i, j) = choose|i: int, j: int|
            0 <= i < more.len() && 0 <= j < more[i].len() && lookup(entries, #[trigger] more[i][j])
                == Some(node);
        if i < cycles.len() {
            assert(lookup(entries, cycles[i][j]) == Some(node));
        } else {
            assert(cycle.contains(more[i][j]));
        }
    }
    if nodes_on(entries, cycles).contains(node) {
        let (i, j) = choose|i: int, j: int|
            0 <= i < cycles.len() && 0 <= j < cycles[i].len() && lookup(
                entries,
                #[trigger] cycles[i][j],
            ) == Some(node);
        assert(lookup(entries, more[i][j]) == Some(node));
    }
    if exists|name: Seq<char>| #[trigger]
        cycle.contains(name) && lookup(entries, name) == Some(node) {
        let name = choose|name: Seq<char>| #[trigger]
            cycle.contains(name) && lookup(entries, name) == Some(node);
        let j = cycle.index_of(name);
        assert(lookup(entries, more[cycles.len() as int][j]) == Some(node));
    }
}

} // verus!
