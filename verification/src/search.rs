//! The cycles of a graph that a search reports, and why that can be relied on.
use crate::graph::successors_of;
use crate::rotation::{
    canonical, is_rotation, law_canonical_ignores_rotation, law_canonical_is_rotation,
    lemma_rotations_compose, rotate,
};
use vstd::prelude::*;

verus! {

/// The name of a node; the given text where it has none.
pub open spec fn label(names: Map<u32, Seq<char>>, node: u32, missing: Seq<char>) -> Seq<char> {
    if names.contains_key(node) {
        names[node]
    } else {
        missing
    }
}

/// The names along a path; empty for a node without a name.
pub open spec fn labels(names: Map<u32, Seq<char>>, nodes: Seq<u32>) -> Seq<Seq<char>> {
    nodes.map_values(|node: u32| label(names, node, Seq::empty()))
}

/// Whether a cycle with the same canonical form is among the cycles.
pub open spec fn is_listed(cycles: Seq<Seq<Seq<char>>>, cycle: Seq<Seq<char>>) -> bool {
    exists|i: int| 0 <= i < cycles.len() && canonical(#[trigger] cycles[i]) == canonical(cycle)
}

/// Whether a rotation of the cycle is among the cycles.
pub open spec fn is_reported(cycles: Seq<Seq<Seq<char>>>, cycle: Seq<Seq<char>>) -> bool {
    exists|i: int| 0 <= i < cycles.len() && is_rotation(#[trigger] cycles[i], cycle)
}

/// Whether an edge leads from one node to another.
pub open spec fn has_edge(lists: Seq<Seq<u32>>, source: u32, target: u32) -> bool {
    successors_of(lists, source).contains(target)
}

/// Whether an edge leads from each node to the next.
pub open spec fn is_walk(lists: Seq<Seq<u32>>, nodes: Seq<u32>) -> bool {
    forall|i: int, j: int|
        0 <= i && j == i + 1 && j < nodes.len() ==> #[trigger] has_edge(lists, nodes[i], nodes[j])
}

/// Whether an edge leads from each node to the next, and from the last to the first.
pub open spec fn is_cycle(lists: Seq<Seq<u32>>, nodes: Seq<u32>) -> bool {
    &&& nodes.len() > 0
    &&& is_walk(lists, nodes)
    &&& has_edge(lists, nodes.last(), nodes[0])
}

/// Whether the nodes are a cycle that meets no node twice.
pub open spec fn is_simple_cycle(lists: Seq<Seq<u32>>, nodes: Seq<u32>) -> bool {
    is_cycle(lists, nodes) && nodes.no_duplicates()
}

/// Whether the names are those along a cycle that meets no node twice.
pub open spec fn names_a_cycle(
    lists: Seq<Seq<u32>>,
    names: Map<u32, Seq<char>>,
    cycle: Seq<Seq<char>>,
) -> bool {
    exists|nodes: Seq<u32>|
        is_simple_cycle(lists, nodes) && cycle == #[trigger] labels(names, nodes)
}

/// Whether a walk leads from one node to another.
pub open spec fn reaches(lists: Seq<Seq<u32>>, from: u32, to: u32) -> bool {
    exists|walk: Seq<u32>| #[trigger]
        is_walk(lists, walk) && walk.len() > 0 && walk[0] == from && walk.last() == to
}

/// Whether a walk leads from one of the starts to the node.
pub open spec fn is_reached(lists: Seq<Seq<u32>>, starts: Seq<u32>, node: u32) -> bool {
    exists|k: int| 0 <= k < starts.len() && reaches(lists, #[trigger] starts[k], node)
}

/// The cycles that begin with the path and go on to one of the targets, without a barred node
/// behind the path and without meeting a node twice, in the order in which a depth-first search
/// closes them. None has more than `depth` nodes behind the path.
pub open spec fn cycles_via(
    lists: Seq<Seq<u32>>,
    barred: Set<u32>,
    path: Seq<u32>,
    targets: Seq<u32>,
    depth: nat,
) -> Seq<Seq<u32>>
    decreases depth, targets.len(),
{
    if targets.len() == 0 {
        Seq::empty()
    } else {
        let before = cycles_via(lists, barred, path, targets.drop_last(), depth);
        let target = targets.last();
        if target == path[0] {
            before.push(path)
        } else if depth > 0 && !barred.contains(target) && !path.contains(target) {
            before + cycles_via(
                lists,
                barred,
                path.push(target),
                successors_of(lists, target),
                (depth - 1) as nat,
            )
        } else {
            before
        }
    }
}

/// The cycles through a node that meet no barred node and no node twice.
pub open spec fn cycles_through(lists: Seq<Seq<u32>>, barred: Set<u32>, node: u32) -> Seq<
    Seq<u32>,
> {
    cycles_via(lists, barred, seq![node], successors_of(lists, node), lists.len())
}

/// The cycles with one more, unless it is listed already.
pub open spec fn record(
    names: Map<u32, Seq<char>>,
    cycles: Seq<Seq<Seq<char>>>,
    nodes: Seq<u32>,
) -> Seq<Seq<Seq<char>>> {
    if is_listed(cycles, labels(names, nodes)) {
        cycles
    } else {
        cycles.push(labels(names, nodes))
    }
}

/// The cycles with those of the found ones that are not listed already.
pub open spec fn record_all(
    names: Map<u32, Seq<char>>,
    cycles: Seq<Seq<Seq<char>>>,
    found: Seq<Seq<u32>>,
) -> Seq<Seq<Seq<char>>>
    decreases found.len(),
{
    if found.len() == 0 {
        cycles
    } else {
        record(names, record_all(names, cycles, found.drop_last()), found.last())
    }
}

/// The cycles through one node after another, each through the first of its nodes in the order.
pub open spec fn cycles_in_order(
    lists: Seq<Seq<u32>>,
    names: Map<u32, Seq<char>>,
    order: Seq<u32>,
) -> Seq<Seq<Seq<char>>>
    decreases order.len(),
{
    if order.len() == 0 {
        Seq::empty()
    } else {
        let before = cycles_in_order(lists, names, order.drop_last());
        let barred = order.drop_last().to_set();
        if barred.contains(order.last()) {
            before
        } else {
            record_all(names, before, cycles_through(lists, barred, order.last()))
        }
    }
}

/// Those of the first nodes of the graph that a walk from a start leads to.
pub open spec fn reached_nodes(lists: Seq<Seq<u32>>, starts: Seq<u32>, count: nat) -> Seq<u32>
    decreases count,
{
    if count == 0 {
        Seq::empty()
    } else {
        let before = reached_nodes(lists, starts, (count - 1) as nat);
        let node = (count - 1) as u32;
        if is_reached(lists, starts, node) {
            before.push(node)
        } else {
            before
        }
    }
}

/// The cycles that are reported: first those through the starts, then those that are only reached
/// from them.
pub open spec fn found_cycles(
    lists: Seq<Seq<u32>>,
    names: Map<u32, Seq<char>>,
    starts: Seq<u32>,
) -> Seq<Seq<Seq<char>>> {
    cycles_in_order(lists, names, starts + reached_nodes(lists, starts, lists.len()))
}

/// Whether all nodes belong to a set.
pub open spec fn lies_in(nodes: Seq<u32>, set: Set<u32>) -> bool {
    forall|i: int| 0 <= i < nodes.len() ==> set.contains(#[trigger] nodes[i])
}

/// Whether a node of the part has the name.
pub open spec fn is_name_in(names: Map<u32, Seq<char>>, part: Set<u32>, name: Seq<char>) -> bool {
    exists|node: u32| part.contains(node) && #[trigger] label(names, node, Seq::empty()) == name
}

/// Whether a cycle has only names of nodes of the part.
pub open spec fn is_named_in(
    names: Map<u32, Seq<char>>,
    part: Set<u32>,
    cycle: Seq<Seq<char>>,
) -> bool {
    forall|i: int| 0 <= i < cycle.len() ==> is_name_in(names, part, #[trigger] cycle[i])
}

/// Whether one of the cycles has only names of nodes of the part.
pub open spec fn is_told_of(
    names: Map<u32, Seq<char>>,
    part: Set<u32>,
    cycles: Seq<Seq<Seq<char>>>,
) -> bool {
    exists|i: int| 0 <= i < cycles.len() && is_named_in(names, part, #[trigger] cycles[i])
}

/// Whether the set holds every node that is not barred and has an edge into the set.
pub open spec fn holds_sources(lists: Seq<Seq<u32>>, barred: Set<u32>, set: Set<u32>) -> bool {
    forall|a: u32, b: u32|
        !barred.contains(a) && set.contains(b) && #[trigger] has_edge(lists, a, b) ==> set.contains(
            a,
        )
}

/// What holds of the reported cycles at every moment.
spec fn is_sound(
    lists: Seq<Seq<u32>>,
    names: Map<u32, Seq<char>>,
    cycles: Seq<Seq<Seq<char>>>,
) -> bool {
    &&& forall|i: int| 0 <= i < cycles.len() ==> names_a_cycle(lists, names, #[trigger] cycles[i])
    &&& forall|i: int, j: int|
        0 <= i < j < cycles.len() ==> canonical(#[trigger] cycles[i]) != canonical(
            #[trigger] cycles[j],
        )
}

/// Distinct numbers below a bound are no more than the bound.
pub(crate) proof fn lemma_distinct_below(nodes: Seq<u32>, bound: nat)
    requires
        nodes.no_duplicates(),
        forall|i: int| 0 <= i < nodes.len() ==> (#[trigger] nodes[i]) < bound,
    ensures
        nodes.len() <= bound,
{
    let numbers = nodes.map_values(|n: u32| n as int);
    numbers.unique_seq_to_set();
    let all = vstd::set_lib::set_int_range(0, bound as int);
    vstd::set_lib::lemma_int_range(0, bound as int);
    vstd::set_lib::lemma_len_subset(numbers.to_set(), all);
}

/// The nodes of a cycle are nodes of the graph.
pub(crate) proof fn lemma_cycle_in_graph(lists: Seq<Seq<u32>>, nodes: Seq<u32>)
    requires
        is_cycle(lists, nodes),
    ensures
        forall|i: int| 0 <= i < nodes.len() ==> (#[trigger] nodes[i]) < lists.len(),
{
    assert forall|i: int| 0 <= i < nodes.len() implies (#[trigger] nodes[i]) < lists.len() by {
        if i + 1 < nodes.len() {
            assert(has_edge(lists, nodes[i], nodes[i + 1]));
        }
    }
}

/// A cycle is a cycle wherever it is entered.
pub(crate) proof fn lemma_rotated_cycle(lists: Seq<Seq<u32>>, nodes: Seq<u32>, start: int)
    requires
        is_cycle(lists, nodes),
        0 <= start < nodes.len(),
    ensures
        is_cycle(lists, rotate(nodes, start)),
        rotate(nodes, start)[0] == nodes[start],
        forall|i: int|
            0 <= i < nodes.len() ==> nodes.contains(#[trigger] rotate(nodes, start)[i]),
        nodes.no_duplicates() ==> rotate(nodes, start).no_duplicates(),
{
    let turned = rotate(nodes, start);
    let back = nodes.len() - start;
    assert forall|i: int, j: int|
        0 <= i && j == i + 1 && j < turned.len() implies #[trigger] has_edge(
        lists,
        turned[i],
        turned[j],
    ) by {
        if j < back {
            assert(has_edge(lists, nodes[start + i], nodes[start + j]));
        } else if i >= back {
            assert(has_edge(lists, nodes[i - back], nodes[j - back]));
        }
    }
    if start > 0 {
        assert(has_edge(lists, nodes[start - 1], nodes[start]));
    }
}

/// A closed walk leads through a cycle that starts at the same node, meets no node twice, and has
/// only nodes of the walk.
pub(crate) proof fn lemma_simple_cycle(lists: Seq<Seq<u32>>, nodes: Seq<u32>) -> (simple: Seq<u32>)
    requires
        is_cycle(lists, nodes),
    ensures
        is_simple_cycle(lists, simple),
        simple[0] == nodes[0],
        forall|i: int| 0 <= i < simple.len() ==> nodes.contains(#[trigger] simple[i]),
    decreases nodes.len(),
{
    if nodes.no_duplicates() {
        nodes
    } else {
        let (i, j) = choose|i: int, j: int|
            0 <= i < j < nodes.len() && #[trigger] nodes[i] == #[trigger] nodes[j];
        let cut = nodes.take(i) + nodes.skip(j);
        assert forall|a: int, b: int|
            0 <= a && b == a + 1 && b < cut.len() implies #[trigger] has_edge(
            lists,
            cut[a],
            cut[b],
        ) by {
            if b <= i {
                assert(has_edge(lists, nodes[a], nodes[b]));
            } else {
                assert(has_edge(lists, nodes[a + j - i], nodes[b + j - i]));
            }
        }
        let simple = lemma_simple_cycle(lists, cut);
        assert forall|k: int| 0 <= k < simple.len() implies nodes.contains(#[trigger] simple[k]) by {
            let at = cut.index_of(simple[k]);
            if at < i {
                assert(nodes[at] == simple[k]);
            } else {
                assert(nodes[at + j - i] == simple[k]);
            }
        }
        simple
    }
}

/// Whatever is found is a cycle that meets no node twice.
proof fn lemma_via_is_sound(
    lists: Seq<Seq<u32>>,
    barred: Set<u32>,
    path: Seq<u32>,
    targets: Seq<u32>,
    depth: nat,
)
    requires
        path.len() > 0,
        path.no_duplicates(),
        is_walk(lists, path),
        forall|i: int| 0 <= i < targets.len() ==> has_edge(lists, path.last(), #[trigger] targets[i]),
    ensures
        forall|i: int|
            0 <= i < cycles_via(lists, barred, path, targets, depth).len() ==> is_simple_cycle(
                lists,
                #[trigger] cycles_via(lists, barred, path, targets, depth)[i],
            ),
    decreases depth, targets.len(),
{
    if targets.len() > 0 {
        let target = targets.last();
        assert(has_edge(lists, path.last(), targets[targets.len() - 1]));
        lemma_via_is_sound(lists, barred, path, targets.drop_last(), depth);
        let before = cycles_via(lists, barred, path, targets.drop_last(), depth);
        let after = cycles_via(lists, barred, path, targets, depth);
        let longer = path.push(target);
        let deeper = cycles_via(
            lists,
            barred,
            longer,
            successors_of(lists, target),
            (depth - 1) as nat,
        );
        if target != path[0] && depth > 0 && !barred.contains(target) && !path.contains(target) {
            lemma_via_is_sound(
                lists,
                barred,
                longer,
                successors_of(lists, target),
                (depth - 1) as nat,
            );
        }
        assert forall|i: int| 0 <= i < after.len() implies is_simple_cycle(
            lists,
            #[trigger] after[i],
        ) by {
            if i < before.len() {
                assert(after[i] == before[i]);
            } else if target != path[0] {
                assert(after[i] == deeper[i - before.len()]);
            }
        }
    }
}

/// Every cycle that begins with the path and meets no node twice and no barred one is found.
proof fn lemma_via_is_complete(
    lists: Seq<Seq<u32>>,
    barred: Set<u32>,
    nodes: Seq<u32>,
    count: int,
    targets: Seq<u32>,
    depth: nat,
)
    requires
        is_simple_cycle(lists, nodes),
        forall|i: int| 0 <= i < nodes.len() ==> !barred.contains(#[trigger] nodes[i]),
        1 <= count <= nodes.len() <= count + depth,
        targets.contains(if count < nodes.len() { nodes[count] } else { nodes[0] }),
    ensures
        cycles_via(lists, barred, nodes.take(count), targets, depth).contains(nodes),
    decreases depth, targets.len(),
{
    let path = nodes.take(count);
    let next = if count < nodes.len() {
        nodes[count]
    } else {
        nodes[0]
    };
    let shorter = targets.drop_last();
    let before = cycles_via(lists, barred, path, shorter, depth);
    let after = cycles_via(lists, barred, path, targets, depth);
    if targets.last() == next {
        if count == nodes.len() {
            assert(path =~= nodes);
            assert(after.last() == nodes);
        } else {
            assert(path.push(next) =~= nodes.take(count + 1));
            let then = if count + 1 < nodes.len() {
                nodes[count + 1]
            } else {
                nodes[0]
            };
            assert(has_edge(lists, nodes[count], then));
            let deeper = cycles_via(
                lists,
                barred,
                path.push(next),
                successors_of(lists, next),
                (depth - 1) as nat,
            );
            lemma_via_is_complete(
                lists,
                barred,
                nodes,
                count + 1,
                successors_of(lists, next),
                (depth - 1) as nat,
            );
            let k = deeper.index_of(nodes);
            assert(after[before.len() + k] == nodes);
        }
    } else {
        let k = targets.index_of(next);
        assert(shorter[k] == next);
        lemma_via_is_complete(lists, barred, nodes, count, shorter, depth);
        let at = before.index_of(nodes);
        assert(after[at] == nodes);
    }
}

/// From a node that no way leads back from, no cycle is found.
pub(crate) proof fn lemma_no_way_back(
    lists: Seq<Seq<u32>>,
    barred: Set<u32>,
    home: Set<u32>,
    path: Seq<u32>,
    targets: Seq<u32>,
    depth: nat,
)
    requires
        holds_sources(lists, barred, home),
        path.len() > 0,
        home.contains(path[0]),
        !home.contains(path.last()),
        !barred.contains(path.last()),
        forall|i: int| 0 <= i < targets.len() ==> has_edge(lists, path.last(), #[trigger] targets[i]),
    ensures
        cycles_via(lists, barred, path, targets, depth).len() == 0,
    decreases depth, targets.len(),
{
    if targets.len() > 0 {
        let target = targets.last();
        assert(has_edge(lists, path.last(), targets[targets.len() - 1]));
        lemma_no_way_back(lists, barred, home, path, targets.drop_last(), depth);
        if depth > 0 && !barred.contains(target) && !path.contains(target) {
            lemma_no_way_back(
                lists,
                barred,
                home,
                path.push(target),
                successors_of(lists, target),
                (depth - 1) as nat,
            );
        }
    }
}

/// Recording cycles in two steps is recording them in one.
pub(crate) proof fn lemma_record_all_appends(
    names: Map<u32, Seq<char>>,
    cycles: Seq<Seq<Seq<char>>>,
    first: Seq<Seq<u32>>,
    second: Seq<Seq<u32>>,
)
    ensures
        record_all(names, cycles, first + second) == record_all(
            names,
            record_all(names, cycles, first),
            second,
        ),
    decreases second.len(),
{
    if second.len() == 0 {
        assert(first + second =~= first);
    } else {
        lemma_record_all_appends(names, cycles, first, second.drop_last());
        assert((first + second).drop_last() =~= first + second.drop_last());
    }
}

/// Recording cycles keeps what was recorded, and everything sound, and lists each of them.
proof fn lemma_record_all(
    lists: Seq<Seq<u32>>,
    names: Map<u32, Seq<char>>,
    cycles: Seq<Seq<Seq<char>>>,
    found: Seq<Seq<u32>>,
)
    requires
        is_sound(lists, names, cycles),
        forall|i: int| 0 <= i < found.len() ==> is_simple_cycle(lists, #[trigger] found[i]),
    ensures
        is_sound(lists, names, record_all(names, cycles, found)),
        cycles.is_prefix_of(record_all(names, cycles, found)),
        forall|i: int|
            0 <= i < found.len() ==> is_listed(
                record_all(names, cycles, found),
                labels(names, #[trigger] found[i]),
            ),
    decreases found.len(),
{
    if found.len() > 0 {
        let shorter = found.drop_last();
        lemma_record_all(lists, names, cycles, shorter);
        let before = record_all(names, cycles, shorter);
        let after = record_all(names, cycles, found);
        assert(is_simple_cycle(lists, found[found.len() - 1]));
        assert forall|i: int| 0 <= i < found.len() implies is_listed(
            after,
            labels(names, #[trigger] found[i]),
        ) by {
            if i < shorter.len() {
                assert(is_listed(before, labels(names, shorter[i])));
                lemma_stays_listed(before, after, labels(names, shorter[i]));
            } else if !is_listed(before, labels(names, found[i])) {
                assert(after[before.len() as int] == labels(names, found[i]));
            }
        }
    }
}

/// What is listed stays listed when more cycles are.
proof fn lemma_stays_listed(
    cycles: Seq<Seq<Seq<char>>>,
    more: Seq<Seq<Seq<char>>>,
    cycle: Seq<Seq<char>>,
)
    requires
        cycles.is_prefix_of(more),
        is_listed(cycles, cycle),
    ensures
        is_listed(more, cycle),
{
    let i = choose|i: int|
        0 <= i < cycles.len() && canonical(#[trigger] cycles[i]) == canonical(cycle);
    assert(more[i] == cycles[i]);
}

/// What is reported stays reported when more cycles are.
proof fn lemma_stays_reported(
    cycles: Seq<Seq<Seq<char>>>,
    more: Seq<Seq<Seq<char>>>,
    cycle: Seq<Seq<char>>,
)
    requires
        cycles.is_prefix_of(more),
        is_reported(cycles, cycle),
    ensures
        is_reported(more, cycle),
{
    let i = choose|i: int| 0 <= i < cycles.len() && is_rotation(#[trigger] cycles[i], cycle);
    assert(more[i] == cycles[i]);
}

/// One step of the search finds nothing but cycles.
proof fn lemma_through_is_sound(lists: Seq<Seq<u32>>, barred: Set<u32>, node: u32)
    ensures
        forall|i: int|
            0 <= i < cycles_through(lists, barred, node).len() ==> is_simple_cycle(
                lists,
                #[trigger] cycles_through(lists, barred, node)[i],
            ),
{
    lemma_via_is_sound(lists, barred, seq![node], successors_of(lists, node), lists.len());
}

/// The whole search is sound.
proof fn lemma_search_is_sound(
    lists: Seq<Seq<u32>>,
    names: Map<u32, Seq<char>>,
    order: Seq<u32>,
)
    ensures
        is_sound(lists, names, cycles_in_order(lists, names, order)),
    decreases order.len(),
{
    if order.len() > 0 {
        let shorter = order.drop_last();
        lemma_search_is_sound(lists, names, shorter);
        lemma_through_is_sound(lists, shorter.to_set(), order.last());
        lemma_record_all(
            lists,
            names,
            cycles_in_order(lists, names, shorter),
            cycles_through(lists, shorter.to_set(), order.last()),
        );
    }
}

/// Every cycle that has a node in the order, and meets none twice, is reported.
proof fn lemma_search_is_complete(
    lists: Seq<Seq<u32>>,
    names: Map<u32, Seq<char>>,
    order: Seq<u32>,
    nodes: Seq<u32>,
    at: int,
)
    requires
        is_simple_cycle(lists, nodes),
        0 <= at < nodes.len(),
        order.contains(nodes[at]),
    ensures
        is_reported(cycles_in_order(lists, names, order), labels(names, nodes)),
    decreases order.len(),
{
    let shorter = order.drop_last();
    let barred = shorter.to_set();
    let before = cycles_in_order(lists, names, shorter);
    let after = cycles_in_order(lists, names, order);
    let cycle = labels(names, nodes);
    lemma_search_is_sound(lists, names, shorter);
    lemma_through_is_sound(lists, barred, order.last());
    let found = cycles_through(lists, barred, order.last());
    lemma_record_all(lists, names, before, found);
    if exists|k: int| 0 <= k < nodes.len() && shorter.contains(#[trigger] nodes[k]) {
        let k = choose|k: int| 0 <= k < nodes.len() && shorter.contains(#[trigger] nodes[k]);
        lemma_search_is_complete(lists, names, shorter, nodes, k);
        lemma_stays_reported(before, after, cycle);
    } else {
        let last = order.index_of(nodes[at]);
        assert(order.last() == nodes[at]) by {
            if last < shorter.len() {
                assert(shorter[last] == nodes[at]);
            }
        }
        let turned = rotate(nodes, at);
        lemma_rotated_cycle(lists, nodes, at);
        lemma_cycle_in_graph(lists, turned);
        lemma_distinct_below(turned, lists.len());
        assert(turned.take(1) =~= seq![nodes[at]]);
        let next = if 1 < turned.len() {
            turned[1]
        } else {
            turned[0]
        };
        assert(has_edge(lists, turned[0], next));
        lemma_via_is_complete(
            lists,
            barred,
            turned,
            1,
            successors_of(lists, nodes[at]),
            lists.len(),
        );
        let k = found.index_of(turned);
        assert(is_listed(after, labels(names, found[k])));
        assert(labels(names, turned) =~= rotate(cycle, at));
        let i = choose|i: int|
            0 <= i < after.len() && canonical(#[trigger] after[i]) == canonical(
                rotate(cycle, at),
            );
        law_canonical_is_rotation(rotate(cycle, at), after[i]);
        let start = choose|start: int|
            0 <= start < cycle.len() && after[i] == #[trigger] rotate(rotate(cycle, at), start);
        lemma_rotations_compose(cycle, at, start);
        assert(is_rotation(after[i], cycle));
    }
}

proof fn lemma_reached_nodes(lists: Seq<Seq<u32>>, starts: Seq<u32>, count: nat, node: u32)
    requires
        node < count,
        is_reached(lists, starts, node),
    ensures
        reached_nodes(lists, starts, count).contains(node),
    decreases count,
{
    let before = reached_nodes(lists, starts, (count - 1) as nat);
    let after = reached_nodes(lists, starts, count);
    if node == count - 1 {
        assert(after.last() == node);
    } else {
        lemma_reached_nodes(lists, starts, (count - 1) as nat, node);
        let k = before.index_of(node);
        assert(after[k] == node);
    }
}

/// A start is reached.
pub(crate) proof fn lemma_start_is_reached(lists: Seq<Seq<u32>>, starts: Seq<u32>, node: u32)
    requires
        starts.contains(node),
    ensures
        is_reached(lists, starts, node),
{
    let k = starts.index_of(node);
    assert(is_walk(lists, seq![node]));
    assert(reaches(lists, starts[k], node));
}

/// What an edge from a reached node leads to is reached.
pub(crate) proof fn lemma_reaches_on(
    lists: Seq<Seq<u32>>,
    starts: Seq<u32>,
    source: u32,
    target: u32,
)
    requires
        is_reached(lists, starts, source),
        has_edge(lists, source, target),
    ensures
        is_reached(lists, starts, target),
{
    let k = choose|k: int| 0 <= k < starts.len() && reaches(lists, #[trigger] starts[k], source);
    let walk = choose|walk: Seq<u32>| #[trigger]
        is_walk(lists, walk) && walk.len() > 0 && walk[0] == starts[k] && walk.last() == source;
    let longer = walk.push(target);
    assert forall|i: int, j: int|
        0 <= i && j == i + 1 && j < longer.len() implies #[trigger] has_edge(
        lists,
        longer[i],
        longer[j],
    ) by {
        if j < walk.len() {
            assert(has_edge(lists, walk[i], walk[j]));
        }
    }
    assert(is_walk(lists, longer));
    assert(reaches(lists, starts[k], target));
}

/// A walk from a node of a set that no edge leads out of ends in the set.
pub(crate) proof fn lemma_walk_stays(lists: Seq<Seq<u32>>, set: Set<u32>, walk: Seq<u32>)
    requires
        forall|a: u32, b: u32| set.contains(a) && #[trigger] has_edge(lists, a, b) ==> set.contains(b),
        is_walk(lists, walk),
        walk.len() > 0,
        set.contains(walk[0]),
    ensures
        set.contains(walk.last()),
    decreases walk.len(),
{
    if walk.len() > 1 {
        let shorter = walk.drop_last();
        assert forall|i: int, j: int|
            0 <= i && j == i + 1 && j < shorter.len() implies #[trigger] has_edge(
            lists,
            shorter[i],
            shorter[j],
        ) by {
            assert(has_edge(lists, walk[i], walk[j]));
        }
        lemma_walk_stays(lists, set, shorter);
        assert(has_edge(lists, walk[walk.len() - 2], walk[walk.len() - 1]));
    }
}

/// Whatever is reported is a cycle of the graph: the names along a closed walk that meets no node
/// twice.
pub proof fn law_reported_cycles_exist(
    lists: Seq<Seq<u32>>,
    names: Map<u32, Seq<char>>,
    starts: Seq<u32>,
    i: int,
)
    requires
        0 <= i < found_cycles(lists, names, starts).len(),
    ensures
        names_a_cycle(lists, names, found_cycles(lists, names, starts)[i]),
{
    lemma_search_is_sound(lists, names, starts + reached_nodes(lists, starts, lists.len()));
}

/// No cycle is reported twice, not even with another starting point.
pub proof fn law_cycles_reported_once(
    lists: Seq<Seq<u32>>,
    names: Map<u32, Seq<char>>,
    starts: Seq<u32>,
    i: int,
    j: int,
)
    requires
        0 <= i < j < found_cycles(lists, names, starts).len(),
    ensures
        canonical(found_cycles(lists, names, starts)[i]) != canonical(
            found_cycles(lists, names, starts)[j],
        ),
{
    lemma_search_is_sound(lists, names, starts + reached_nodes(lists, starts, lists.len()));
}

/// Every cycle that is reached from a start and meets no node twice is reported, from one of its
/// nodes on; where its names are distinct, under its canonical form.
pub proof fn law_every_cycle_is_reported(
    lists: Seq<Seq<u32>>,
    names: Map<u32, Seq<char>>,
    starts: Seq<u32>,
    nodes: Seq<u32>,
)
    requires
        is_simple_cycle(lists, nodes),
        is_reached(lists, starts, nodes[0]),
    ensures
        is_reported(found_cycles(lists, names, starts), labels(names, nodes)),
        labels(names, nodes).no_duplicates() ==> is_listed(
            found_cycles(lists, names, starts),
            labels(names, nodes),
        ),
{
    let found = found_cycles(lists, names, starts);
    let cycle = labels(names, nodes);
    let rest = reached_nodes(lists, starts, lists.len());
    lemma_cycle_in_graph(lists, nodes);
    lemma_reached_nodes(lists, starts, lists.len(), nodes[0]);
    let k = rest.index_of(nodes[0]);
    assert((starts + rest)[starts.len() + k] == nodes[0]);
    lemma_search_is_complete(lists, names, starts + rest, nodes, 0);
    if cycle.no_duplicates() {
        let i = choose|i: int| 0 <= i < found.len() && is_rotation(#[trigger] found[i], cycle);
        let start = choose|start: int|
            0 <= start < cycle.len() && found[i] == #[trigger] rotate(cycle, start);
        law_canonical_ignores_rotation(cycle, start);
    }
}

/// Of every part of the graph that has a cycle, also one that meets nodes twice, a cycle is
/// reported: one with only names of nodes of the part.
pub proof fn law_every_part_is_told_of(
    lists: Seq<Seq<u32>>,
    names: Map<u32, Seq<char>>,
    starts: Seq<u32>,
    part: Set<u32>,
    nodes: Seq<u32>,
)
    requires
        is_cycle(lists, nodes),
        is_reached(lists, starts, nodes[0]),
        lies_in(nodes, part),
    ensures
        is_told_of(names, part, found_cycles(lists, names, starts)),
{
    let found = found_cycles(lists, names, starts);
    let simple = lemma_simple_cycle(lists, nodes);
    let cycle = labels(names, simple);
    law_every_cycle_is_reported(lists, names, starts, simple);
    let i = choose|i: int| 0 <= i < found.len() && is_rotation(#[trigger] found[i], cycle);
    let start = choose|start: int|
        0 <= start < cycle.len() && found[i] == #[trigger] rotate(cycle, start);
    assert forall|j: int| 0 <= j < found[i].len() implies is_name_in(
        names,
        part,
        #[trigger] found[i][j],
    ) by {
        let at = if start + j < cycle.len() {
            start + j
        } else {
            start + j - cycle.len()
        };
        assert(nodes.contains(simple[at]));
        assert(label(names, simple[at], Seq::empty()) == found[i][j]);
    }
}

/// A search that starts from every node reports nothing exactly where the graph has no cycle.
pub proof fn law_silence_means_no_cycle(
    lists: Seq<Seq<u32>>,
    names: Map<u32, Seq<char>>,
    starts: Seq<u32>,
)
    requires
        forall|node: u32| node < lists.len() ==> #[trigger] starts.contains(node),
    ensures
        found_cycles(lists, names, starts).len() == 0 <==> (forall|nodes: Seq<u32>|
            !#[trigger] is_cycle(lists, nodes)),
{
    let found = found_cycles(lists, names, starts);
    if found.len() == 0 {
        let all = Set::new(|node: u32| true);
        assert forall|nodes: Seq<u32>| !#[trigger] is_cycle(lists, nodes) by {
            if is_cycle(lists, nodes) {
                lemma_cycle_in_graph(lists, nodes);
                assert(starts.contains(nodes[0]));
                lemma_start_is_reached(lists, starts, nodes[0]);
                law_every_part_is_told_of(lists, names, starts, all, nodes);
            }
        }
    } else {
        law_reported_cycles_exist(lists, names, starts, 0);
    }
}

/// The names along a path are those of its nodes, in their order; a node without a name reads as
/// the text that is given for it, and as nothing along a path.
pub proof fn law_nodes_read_as_their_names(
    names: Map<u32, Seq<char>>,
    nodes: Seq<u32>,
    node: u32,
    missing: Seq<char>,
)
    ensures
        names.contains_key(node) ==> label(names, node, missing) == names[node],
        !names.contains_key(node) ==> label(names, node, missing) == missing,
        labels(names, nodes).len() == nodes.len(),
        forall|i: int|
            0 <= i < nodes.len() && names.contains_key(nodes[i]) ==> #[trigger] labels(
                names,
                nodes,
            )[i] == names[nodes[i]],
        forall|i: int|
            0 <= i < nodes.len() && !names.contains_key(nodes[i]) ==> (#[trigger] labels(
                names,
                nodes,
            )[i]).len() == 0,
{
}

/// Among cycles whose names are distinct, to be listed is to be reported: a rotation of the cycle is
/// among them.
pub proof fn law_listed_up_to_rotation(cycles: Seq<Seq<Seq<char>>>, cycle: Seq<Seq<char>>)
    requires
        cycle.len() > 0,
        cycle.no_duplicates(),
    ensures
        is_listed(cycles, cycle) <==> exists|i: int, start: int|
            0 <= i < cycles.len() && 0 <= start < cycle.len() && #[trigger] cycles[i]
                == #[trigger] (cycle.skip(start) + cycle.take(start)),
{
    if is_listed(cycles, cycle) {
        let i = choose|i: int|
            0 <= i < cycles.len() && canonical(#[trigger] cycles[i]) == canonical(cycle);
        law_canonical_is_rotation(cycle, cycles[i]);
        let start = choose|start: int|
            0 <= start < cycle.len() && cycles[i] == #[trigger] rotate(cycle, start);
        assert(cycles[i] == cycle.skip(start) + cycle.take(start));
    }
    if exists|i: int, start: int|
        0 <= i < cycles.len() && 0 <= start < cycle.len() && #[trigger] cycles[i] == #[trigger] (
        cycle.skip(start) + cycle.take(start)) {
        let (i, start) = choose|i: int, start: int|
            0 <= i < cycles.len() && 0 <= start < cycle.len() && #[trigger] cycles[i]
                == #[trigger] (cycle.skip(start) + cycle.take(start));
        assert(cycles[i] == rotate(cycle, start));
        law_canonical_ignores_rotation(cycle, start);
    }
}

/// Nodes are a cycle exactly where there are some and an edge leads from each to the one behind it,
/// and from the last to the first. An edge leads where the list of its source holds its target.
pub proof fn law_cycle_by_edges(lists: Seq<Seq<u32>>, nodes: Seq<u32>)
    ensures
        is_cycle(lists, nodes) <==> nodes.len() > 0 && forall|i: int|
            0 <= i < nodes.len() ==> (#[trigger] nodes[i]) < lists.len()
                && lists[nodes[i] as int].contains(
                nodes[if i + 1 < nodes.len() {
                    i + 1
                } else {
                    0
                }],
            ),
{
    if is_cycle(lists, nodes) {
        lemma_cycle_in_graph(lists, nodes);
        assert forall|i: int| 0 <= i < nodes.len() implies (#[trigger] nodes[i]) < lists.len()
            && lists[nodes[i] as int].contains(
            nodes[if i + 1 < nodes.len() {
                i + 1
            } else {
                0
            }],
        ) by {
            if i + 1 < nodes.len() {
                assert(has_edge(lists, nodes[i], nodes[i + 1]));
            }
        }
    } else if nodes.len() > 0 && forall|i: int|
        0 <= i < nodes.len() ==> (#[trigger] nodes[i]) < lists.len()
            && lists[nodes[i] as int].contains(
            nodes[if i + 1 < nodes.len() {
                i + 1
            } else {
                0
            }],
        ) {
        assert(lists[nodes[nodes.len() - 1] as int].contains(nodes[0]));
        assert forall|i: int, j: int|
            0 <= i && j == i + 1 && j < nodes.len() implies #[trigger] has_edge(
            lists,
            nodes[i],
            nodes[j],
        ) by {}
    }
}

} // verus!
