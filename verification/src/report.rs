//! What is reported: the cycles, the degrees of the modules, and the graph in the DOT language.
use crate::cycles::name_of;
use crate::graph::{
    edge_endpoints, edge_indices, graph_edges, graph_nodes, incoming_neighbors, law_ends_of_edges,
    neighbors, node_indices, sources_into, targets_from,
};
use crate::search::label;
use crate::text::{decimal, decimal_text, join, join_first, name_texts, text_lists, texts};
use petgraph::graph::DiGraph;
use std::collections::{HashMap, HashSet};
use vstd::prelude::*;

verus! {

broadcast use vstd::std_specs::hash::group_hash_axioms;

/// The line of a node: highlighted where the node is marked, and absent where only marked nodes
/// are shown and it is not.
pub open spec fn dot_node(
    names: Map<u32, Seq<char>>,
    marked: Set<u32>,
    marked_only: bool,
    node: u32,
) -> Seq<char> {
    let name = label(names, node, "?"@);
    if marked.contains(node) {
        "    \""@ + name + "\" [fillcolor=salmon, color=red, penwidth=2];\n"@
    } else if marked_only {
        Seq::empty()
    } else {
        "    \""@ + name + "\";\n"@
    }
}

/// The lines of the first nodes.
pub open spec fn dot_nodes(
    names: Map<u32, Seq<char>>,
    marked: Set<u32>,
    marked_only: bool,
    count: nat,
) -> Seq<char>
    decreases count,
{
    if count == 0 {
        Seq::empty()
    } else {
        dot_nodes(names, marked, marked_only, (count - 1) as nat) + dot_node(
            names,
            marked,
            marked_only,
            (count - 1) as u32,
        )
    }
}

/// The line of an edge: highlighted where both its ends are marked, and absent where only marked
/// nodes are shown and one of the ends is not.
pub open spec fn dot_edge(
    names: Map<u32, Seq<char>>,
    marked: Set<u32>,
    marked_only: bool,
    edge: (u32, u32),
) -> Seq<char> {
    let source = label(names, edge.0, "?"@);
    let target = label(names, edge.1, "?"@);
    if marked.contains(edge.0) && marked.contains(edge.1) {
        "    \""@ + source + "\" -> \""@ + target + "\" [color=red, penwidth=2];\n"@
    } else if marked_only {
        Seq::empty()
    } else {
        "    \""@ + source + "\" -> \""@ + target + "\";\n"@
    }
}

/// The lines of the edges.
pub open spec fn dot_edges(
    names: Map<u32, Seq<char>>,
    marked: Set<u32>,
    marked_only: bool,
    edges: Seq<(u32, u32)>,
) -> Seq<char>
    decreases edges.len(),
{
    if edges.len() == 0 {
        Seq::empty()
    } else {
        dot_edges(names, marked, marked_only, edges.drop_last()) + dot_edge(
            names,
            marked,
            marked_only,
            edges.last(),
        )
    }
}

/// What stands in front of the nodes.
pub open spec fn dot_head() -> Seq<char> {
    "digraph dependencies {\n"@ + "    rankdir=LR;\n"@
        + "    node [shape=box, style=filled, fillcolor=lightyellow];\n"@
        + "    // 红色节点表示参与循环依赖的模块\n\n"@
}

/// The graph in the DOT language.
pub open spec fn dot_text(
    count: nat,
    edges: Seq<(u32, u32)>,
    names: Map<u32, Seq<char>>,
    marked: Set<u32>,
    marked_only: bool,
) -> Seq<char> {
    dot_head() + dot_nodes(names, marked, marked_only, count) + "\n"@ + dot_edges(
        names,
        marked,
        marked_only,
        edges,
    ) + "}\n"@
}

/// The graph in the DOT language, with the nodes of cycles and the edges between them highlighted,
/// or with nothing else.
pub fn generate_dot(
    graph: &DiGraph<String, ()>,
    index_to_name: &HashMap<u32, String>,
    cycle_nodes: &HashSet<u32>,
    cycles_only: bool,
) -> (dot: String)
    ensures
        dot@ == dot_text(
            graph_nodes(*graph).len(),
            graph_edges(*graph),
            name_texts(index_to_name@),
            cycle_nodes@,
            cycles_only,
        ),
{
    let ghost names = name_texts(index_to_name@);
    let ghost marked = cycle_nodes@;
    let ghost count = graph_nodes(*graph).len();
    let ghost all = graph_edges(*graph);
    let mut dot: String = String::new();
    dot.append("digraph dependencies {\n");
    dot.append("    rankdir=LR;\n");
    dot.append("    node [shape=box, style=filled, fillcolor=lightyellow];\n");
    dot.append("    // 红色节点表示参与循环依赖的模块\n\n");
    let nodes: Vec<u32> = node_indices(graph);
    let mut i: usize = 0;
    while i < nodes.len()
        invariant
            names == name_texts(index_to_name@),
            marked == cycle_nodes@,
            nodes@.len() == count,
            forall|k: int| 0 <= k < nodes@.len() ==> #[trigger] nodes@[k] == k,
            i <= nodes.len(),
            dot@ == dot_head() + dot_nodes(names, marked, cycles_only, i as nat),
        decreases nodes.len() - i,
    {
        let ghost before = dot@;
        let node: u32 = nodes[i];
        let in_cycle: bool = cycle_nodes.contains(&node);
        if in_cycle || !cycles_only {
            let name: String = name_of(index_to_name, node, "?");
            dot.append("    \"");
            dot.append(name.as_str());
            if in_cycle {
                dot.append("\" [fillcolor=salmon, color=red, penwidth=2];\n");
            } else {
                dot.append("\";\n");
            }
        }
        assert(dot@ =~= before + dot_node(names, marked, cycles_only, node));
        i += 1;
    }
    dot.append("\n");
    let ghost top = dot@;
    let edges: Vec<u32> = edge_indices(graph);
    i = 0;
    while i < edges.len()
        invariant
            names == name_texts(index_to_name@),
            marked == cycle_nodes@,
            all == graph_edges(*graph),
            edges@.len() == all.len(),
            forall|k: int| 0 <= k < edges@.len() ==> #[trigger] edges@[k] == k,
            i <= edges.len(),
            dot@ == top + dot_edges(names, marked, cycles_only, all.take(i as int)),
        decreases edges.len() - i,
    {
        assert(all.take(i + 1).drop_last() =~= all.take(i as int));
        let ghost before = dot@;
        let (source, target): (u32, u32) = edge_endpoints(graph, edges[i]).unwrap();
        let both_in_cycle: bool = cycle_nodes.contains(&source) && cycle_nodes.contains(&target);
        if both_in_cycle || !cycles_only {
            let source_name: String = name_of(index_to_name, source, "?");
            let target_name: String = name_of(index_to_name, target, "?");
            dot.append("    \"");
            dot.append(source_name.as_str());
            dot.append("\" -> \"");
            dot.append(target_name.as_str());
            if both_in_cycle {
                dot.append("\" [color=red, penwidth=2];\n");
            } else {
                dot.append("\";\n");
            }
        }
        assert(dot@ =~= before + dot_edge(names, marked, cycles_only, all[i as int]));
        i += 1;
    }
    assert(all.take(i as int) =~= all);
    dot.append("}\n");
    dot
}

/// The lines of one cycle: its number, its length, and the names along it back to the first.
pub open spec fn cycle_lines(number: nat, cycle: Seq<Seq<char>>) -> Seq<char> {
    let first = if cycle.len() > 0 {
        cycle[0]
    } else {
        "?"@
    };
    "循环 #"@ + decimal(number) + " (长度 "@ + decimal(cycle.len()) + ")\n"@ + "  "@ + join(
        cycle,
        " -> "@,
    ) + " -> "@ + first + "\n\n"@
}

/// The lines of the cycles, numbered from one.
pub open spec fn cycles_lines(cycles: Seq<Seq<Seq<char>>>) -> Seq<char>
    decreases cycles.len(),
{
    if cycles.len() == 0 {
        Seq::empty()
    } else {
        cycles_lines(cycles.drop_last()) + cycle_lines(cycles.len(), cycles.last())
    }
}

/// The report on the cycles; empty where there are none.
pub open spec fn cycles_section(cycles: Seq<Seq<Seq<char>>>) -> Seq<char> {
    if cycles.len() == 0 {
        Seq::empty()
    } else {
        "\n=== 检测到的循环依赖 ===\n\n"@ + cycles_lines(cycles)
    }
}

/// The report on the cycles; empty where there are none.
pub fn format_cycles(cycles: &Vec<Vec<String>>) -> (text: String)
    ensures
        text@ == cycles_section(text_lists(cycles@)),
{
    let mut text: String = String::new();
    if cycles.len() == 0 {
        return text;
    }
    let ghost all = text_lists(cycles@);
    text.append("\n=== 检测到的循环依赖 ===\n\n");
    let ghost title = text@;
    let mut i: usize = 0;
    while i < cycles.len()
        invariant
            all == text_lists(cycles@),
            i <= cycles.len(),
            text@ == title + cycles_lines(all.take(i as int)),
        decreases cycles.len() - i,
    {
        let ghost before = text@;
        let ghost cycle = all[i as int];
        let names: &Vec<String> = &cycles[i];
        assert(texts(names@).take(names@.len() as int) =~= cycle);
        assert(all.take(i + 1).drop_last() =~= all.take(i as int));
        text.append("循环 #");
        text.append(decimal_text(i as u64 + 1).as_str());
        text.append(" (长度 ");
        text.append(decimal_text(names.len() as u64).as_str());
        text.append(")\n");
        text.append("  ");
        text.append(join_first(names, names.len(), " -> ").as_str());
        text.append(" -> ");
        if names.len() > 0 {
            text.append(names[0].as_str());
        } else {
            text.append("?");
        }
        text.append("\n\n");
        assert(text@ =~= before + cycle_lines((i + 1) as nat, cycle));
        i += 1;
    }
    assert(all.take(i as int) =~= all);
    text
}

/// How often a module is imported, and how many modules it imports.
pub struct DegreeRow {
    pub name: String,
    pub in_degree: usize,
    pub out_degree: usize,
}

/// What a row says.
pub struct Degrees {
    pub name: Seq<char>,
    pub in_degree: nat,
    pub out_degree: nat,
}

impl View for DegreeRow {
    type V = Degrees;

    open spec fn view(&self) -> Degrees {
        Degrees {
            name: self.name@,
            in_degree: self.in_degree as nat,
            out_degree: self.out_degree as nat,
        }
    }
}

/// What each row says.
pub open spec fn row_views(rows: Seq<DegreeRow>) -> Seq<Degrees> {
    rows.map_values(|row: DegreeRow| row@)
}

/// Both degrees together.
pub open spec fn total(row: Degrees) -> nat {
    row.in_degree + row.out_degree
}

/// The degrees of a node.
pub open spec fn node_degrees(
    names: Map<u32, Seq<char>>,
    edges: Seq<(u32, u32)>,
    node: u32,
) -> Degrees {
    Degrees {
        name: label(names, node, "?"@),
        in_degree: sources_into(edges, node).len(),
        out_degree: targets_from(edges, node).len(),
    }
}

/// The degrees of those of the first nodes that an edge touches, in the order of the nodes.
pub open spec fn touched_rows(
    names: Map<u32, Seq<char>>,
    edges: Seq<(u32, u32)>,
    count: nat,
) -> Seq<Degrees>
    decreases count,
{
    if count == 0 {
        Seq::empty()
    } else {
        let before = touched_rows(names, edges, (count - 1) as nat);
        let row = node_degrees(names, edges, (count - 1) as u32);
        if total(row) > 0 {
            before.push(row)
        } else {
            before
        }
    }
}

/// The rows with one more, which stands behind all that have no smaller total.
pub open spec fn insert_row(rows: Seq<Degrees>, row: Degrees) -> Seq<Degrees>
    decreases rows.len(),
{
    if rows.len() == 0 || total(rows.last()) >= total(row) {
        rows.push(row)
    } else {
        insert_row(rows.drop_last(), row).push(rows.last())
    }
}

/// The rows by descending totals; rows with the same total stay in their order.
pub open spec fn sort_rows(rows: Seq<Degrees>) -> Seq<Degrees>
    decreases rows.len(),
{
    if rows.len() == 0 {
        Seq::empty()
    } else {
        insert_row(sort_rows(rows.drop_last()), rows.last())
    }
}

/// Those of the rows that have the given total, in their order.
pub open spec fn with_total(rows: Seq<Degrees>, sum: nat) -> Seq<Degrees>
    decreases rows.len(),
{
    if rows.len() == 0 {
        Seq::empty()
    } else if total(rows.last()) == sum {
        with_total(rows.drop_last(), sum).push(rows.last())
    } else {
        with_total(rows.drop_last(), sum)
    }
}

/// Whether no row has a greater total than one in front of it.
pub open spec fn is_descending(rows: Seq<Degrees>) -> bool {
    forall|i: int, j: int|
        0 <= i < j < rows.len() ==> total(#[trigger] rows[i]) >= total(#[trigger] rows[j])
}

/// The in-degrees of the rows together.
pub open spec fn in_sum(rows: Seq<Degrees>) -> nat
    decreases rows.len(),
{
    if rows.len() == 0 {
        0
    } else {
        in_sum(rows.drop_last()) + rows.last().in_degree
    }
}

/// The out-degrees of the rows together.
pub open spec fn out_sum(rows: Seq<Degrees>) -> nat
    decreases rows.len(),
{
    if rows.len() == 0 {
        0
    } else {
        out_sum(rows.drop_last()) + rows.last().out_degree
    }
}

proof fn lemma_insert_row(rows: Seq<Degrees>, row: Degrees, sum: nat)
    requires
        is_descending(rows),
    ensures
        is_descending(insert_row(rows, row)),
        insert_row(rows, row).len() == rows.len() + 1,
        forall|i: int|
            0 <= i <= rows.len() ==> #[trigger] insert_row(rows, row)[i] == row || rows.contains(
                insert_row(rows, row)[i],
            ),
        with_total(insert_row(rows, row), sum) == (if total(row) == sum {
            with_total(rows, sum).push(row)
        } else {
            with_total(rows, sum)
        }),
        in_sum(insert_row(rows, row)) == in_sum(rows) + row.in_degree,
        out_sum(insert_row(rows, row)) == out_sum(rows) + row.out_degree,
    decreases rows.len(),
{
    let after = insert_row(rows, row);
    if rows.len() == 0 || total(rows.last()) >= total(row) {
        assert(after.drop_last() =~= rows);
    } else {
        let shorter = rows.drop_last();
        lemma_insert_row(shorter, row, sum);
        let inner = insert_row(shorter, row);
        assert(after.drop_last() =~= inner);
        assert forall|i: int, j: int| 0 <= i < j < after.len() implies total(#[trigger] after[i])
            >= total(#[trigger] after[j]) by {
            if j == rows.len() {
                assert(inner[i] == row || shorter.contains(inner[i]));
            }
        }
    }
}

/// The rows come by descending totals, and those with the same total in the order that they had.
pub proof fn law_rows_are_sorted(rows: Seq<Degrees>, sum: nat)
    ensures
        is_descending(sort_rows(rows)),
        sort_rows(rows).len() == rows.len(),
        with_total(sort_rows(rows), sum) == with_total(rows, sum),
        in_sum(sort_rows(rows)) == in_sum(rows),
        out_sum(sort_rows(rows)) == out_sum(rows),
    decreases rows.len(),
{
    if rows.len() > 0 {
        law_rows_are_sorted(rows.drop_last(), sum);
        lemma_insert_row(sort_rows(rows.drop_last()), rows.last(), sum);
    }
}

/// One more edge adds one to the in-degree of its target and to the out-degree of its source.
proof fn lemma_sums_with_edge(
    names: Map<u32, Seq<char>>,
    edges: Seq<(u32, u32)>,
    edge: (u32, u32),
    count: nat,
)
    requires
        count <= u32::MAX,
    ensures
        in_sum(touched_rows(names, edges.push(edge), count)) == in_sum(
            touched_rows(names, edges, count),
        ) + (if edge.1 < count {
            1nat
        } else {
            0
        }),
        out_sum(touched_rows(names, edges.push(edge), count)) == out_sum(
            touched_rows(names, edges, count),
        ) + (if edge.0 < count {
            1nat
        } else {
            0
        }),
    decreases count,
{
    if count > 0 {
        let less = (count - 1) as nat;
        let more = edges.push(edge);
        lemma_sums_with_edge(names, edges, edge, less);
        assert(more.drop_last() =~= edges);
        let row = node_degrees(names, edges, less as u32);
        let new_row = node_degrees(names, more, less as u32);
        let rows = touched_rows(names, edges, less);
        let new_rows = touched_rows(names, more, less);
        assert(rows.push(row).drop_last() =~= rows);
        assert(new_rows.push(new_row).drop_last() =~= new_rows);
    }
}

/// The table counts every edge once as incoming and once as outgoing.
pub proof fn law_degrees_count_edges(
    names: Map<u32, Seq<char>>,
    edges: Seq<(u32, u32)>,
    count: nat,
)
    requires
        count <= u32::MAX,
        forall|i: int|
            0 <= i < edges.len() ==> (#[trigger] edges[i]).0 < count && edges[i].1 < count,
    ensures
        in_sum(sort_rows(touched_rows(names, edges, count))) == edges.len(),
        out_sum(sort_rows(touched_rows(names, edges, count))) == edges.len(),
    decreases edges.len(),
{
    law_rows_are_sorted(touched_rows(names, edges, count), 0);
    if edges.len() == 0 {
        lemma_no_rows(names, edges, count);
    } else {
        let shorter = edges.drop_last();
        law_degrees_count_edges(names, shorter, count);
        law_rows_are_sorted(touched_rows(names, shorter, count), 0);
        lemma_sums_with_edge(names, shorter, edges.last(), count);
        assert(shorter.push(edges.last()) =~= edges);
    }
}

proof fn lemma_no_rows(names: Map<u32, Seq<char>>, edges: Seq<(u32, u32)>, count: nat)
    requires
        edges.len() == 0,
    ensures
        touched_rows(names, edges, count).len() == 0,
    decreases count,
{
    if count > 0 {
        lemma_no_rows(names, edges, (count - 1) as nat);
    }
}

/// Where only marked nodes are shown and none is marked, the graph is drawn empty.
pub proof fn law_nothing_marked_nothing_shown(
    count: nat,
    edges: Seq<(u32, u32)>,
    names: Map<u32, Seq<char>>,
)
    ensures
        dot_text(count, edges, names, Set::empty(), true) == dot_head() + "\n"@ + "}\n"@,
{
    lemma_no_nodes(names, count);
    lemma_no_edges(names, edges);
}

proof fn lemma_no_nodes(names: Map<u32, Seq<char>>, count: nat)
    ensures
        dot_nodes(names, Set::empty(), true, count) == Seq::<char>::empty(),
    decreases count,
{
    if count > 0 {
        lemma_no_nodes(names, (count - 1) as nat);
    }
}

proof fn lemma_no_edges(names: Map<u32, Seq<char>>, edges: Seq<(u32, u32)>)
    ensures
        dot_edges(names, Set::empty(), true, edges) == Seq::<char>::empty(),
    decreases edges.len(),
{
    if edges.len() > 0 {
        lemma_no_edges(names, edges.drop_last());
    }
}

/// Puts a row behind all that have no smaller total.
fn place_row(rows: &mut Vec<DegreeRow>, row: DegreeRow)
    ensures
        row_views(final(rows)@) == insert_row(row_views(old(rows)@), row@),
{
    let ghost all = row_views(rows@);
    let sum: u128 = row.in_degree as u128 + row.out_degree as u128;
    let mut at: usize = rows.len();
    assert(all.take(at as int) =~= all);
    while at > 0 && (rows[at - 1].in_degree as u128 + rows[at - 1].out_degree as u128) < sum
        invariant
            all == row_views(rows@),
            at <= rows.len(),
            sum == total(row@),
            insert_row(all.take(at as int), row@) + all.skip(at as int) == insert_row(all, row@),
        decreases at,
    {
        assert(all.take(at as int).drop_last() =~= all.take(at - 1));
        at -= 1;
    }
    rows.insert(at, row);
}

/// The degrees of the modules that an edge touches, by descending totals.
pub fn degree_rows(
    graph: &DiGraph<String, ()>,
    index_to_name: &HashMap<u32, String>,
) -> (rows: Vec<DegreeRow>)
    ensures
        row_views(rows@) == sort_rows(
            touched_rows(name_texts(index_to_name@), graph_edges(*graph), graph_nodes(*graph).len()),
        ),
{
    let ghost names = name_texts(index_to_name@);
    let ghost edges = graph_edges(*graph);
    let mut rows: Vec<DegreeRow> = Vec::new();
    let nodes: Vec<u32> = node_indices(graph);
    let mut i: usize = 0;
    while i < nodes.len()
        invariant
            names == name_texts(index_to_name@),
            edges == graph_edges(*graph),
            forall|k: int| 0 <= k < nodes@.len() ==> #[trigger] nodes@[k] == k,
            i <= nodes.len(),
            row_views(rows@) == sort_rows(touched_rows(names, edges, i as nat)),
        decreases nodes.len() - i,
    {
        let node: u32 = nodes[i];
        let sources: Vec<u32> = incoming_neighbors(graph, node);
        let targets: Vec<u32> = neighbors(graph, node);
        proof {
            sources@.to_multiset_ensures();
            targets@.to_multiset_ensures();
            sources_into(edges, node).to_multiset_ensures();
            targets_from(edges, node).to_multiset_ensures();
        }
        let in_degree: usize = sources.len();
        let out_degree: usize = targets.len();
        if in_degree > 0 || out_degree > 0 {
            let row = DegreeRow {
                name: name_of(index_to_name, node, "?"),
                in_degree,
                out_degree,
            };
            let ghost before = touched_rows(names, edges, i as nat);
            assert(before.push(row@).drop_last() =~= before);
            place_row(&mut rows, row);
        }
        i += 1;
    }
    rows
}

/// The titles of the columns.
pub open spec fn degree_header() -> Seq<Seq<char>> {
    seq!["模块"@, "入度 (被导入次数)"@, "出度 (导入他人次数)"@]
}

/// The cells of a row.
pub open spec fn degree_cells(row: Degrees) -> Seq<Seq<char>> {
    seq![row.name, decimal(row.in_degree), decimal(row.out_degree)]
}

/// The cells of each row.
pub open spec fn all_cells(rows: Seq<Degrees>) -> Seq<Seq<Seq<char>>> {
    rows.map_values(|row: Degrees| degree_cells(row))
}

/// A table with a header and rows, drawn as text.
pub uninterp spec fn drawn_table(header: Seq<Seq<char>>, rows: Seq<Seq<Seq<char>>>) -> Seq<char>;

/// `comfy_table::Table`, made by `new`, filled by `set_header` and `add_rows`, and turned into text
/// by its `Display`: the text depends on the header and the rows alone.
#[verifier::external_body]
fn draw_table(header: &Vec<String>, rows: &Vec<Vec<String>>) -> (text: String)
    ensures
        text@ == drawn_table(texts(header@), text_lists(rows@)),
{
    let mut table = comfy_table::Table::new();
    table.set_header(header);
    table.add_rows(rows);
    table.to_string()
}

/// The degrees as a table.
pub fn degree_table(rows: &Vec<DegreeRow>) -> (text: String)
    ensures
        text@ == drawn_table(degree_header(), all_cells(row_views(rows@))),
{
    let mut header: Vec<String> = Vec::new();
    header.push("模块".to_owned());
    header.push("入度 (被导入次数)".to_owned());
    header.push("出度 (导入他人次数)".to_owned());
    assert(texts(header@) =~= degree_header());
    let ghost all = all_cells(row_views(rows@));
    let mut cells: Vec<Vec<String>> = Vec::new();
    let mut i: usize = 0;
    while i < rows.len()
        invariant
            all == all_cells(row_views(rows@)),
            i <= rows.len(),
            text_lists(cells@) == all.take(i as int),
        decreases rows.len() - i,
    {
        let ghost before = text_lists(cells@);
        let mut row: Vec<String> = Vec::new();
        row.push(rows[i].name.clone());
        row.push(decimal_text(rows[i].in_degree as u64));
        row.push(decimal_text(rows[i].out_degree as u64));
        assert(texts(row@) =~= degree_cells(rows@[i as int]@));
        cells.push(row);
        assert(text_lists(cells@) =~= before.push(texts(row@)));
        i += 1;
    }
    assert(all.take(i as int) =~= all);
    draw_table(&header, &cells)
}

/// The report on the degrees, with the table that was drawn.
pub fn degree_section(table: &str) -> (text: String)
    ensures
        text@ == "\n=== 模块依赖度统计 ===\n\n"@ + table@ + "\n"@,
{
    let mut text: String = "\n=== 模块依赖度统计 ===\n\n".to_owned();
    text.append(table);
    text.append("\n");
    text
}

/// The report on the degrees of the modules that an edge touches.
pub fn format_degrees(
    graph: &DiGraph<String, ()>,
    index_to_name: &HashMap<u32, String>,
) -> (text: String)
    ensures
        text@ == "\n=== 模块依赖度统计 ===\n\n"@ + drawn_table(
            degree_header(),
            all_cells(
                sort_rows(
                    touched_rows(name_texts(index_to_name@), graph_edges(*graph), graph_nodes(*graph).len()),
                ),
            ),
        ) + "\n"@,
{
    let rows: Vec<DegreeRow> = degree_rows(graph, index_to_name);
    degree_section(degree_table(&rows).as_str())
}

/// The line on how many files were scanned.
pub fn scan_line(count: usize) -> (line: String)
    ensures
        line@ == "扫描到 "@ + decimal(count as nat) + " 个 Python 文件"@,
{
    let mut line: String = "扫描到 ".to_owned();
    line.append(decimal_text(count as u64).as_str());
    line.append(" 个 Python 文件");
    line
}

/// The last line of the report, on how many cycles were found.
pub open spec fn verdict(count: nat) -> Seq<char> {
    if count == 0 {
        "\n✓ 未检测到循环导入。"@
    } else {
        "\n✗ 检测到 "@ + decimal(count) + " 个循环依赖链。"@
    }
}

/// The last line of the report, on how many cycles were found.
pub fn verdict_line(count: usize) -> (line: String)
    ensures
        line@ == verdict(count as nat),
{
    if count == 0 {
        return "\n✓ 未检测到循环导入。".to_owned();
    }
    let mut line: String = "\n✗ 检测到 ".to_owned();
    line.append(decimal_text(count as u64).as_str());
    line.append(" 个循环依赖链。");
    line
}

/// The line of an edge names its source and its target, whichever of them are marked, and is
/// highlighted exactly where both are. Where only marked nodes are shown, it is there exactly where
/// it is highlighted.
pub proof fn law_line_of_edge(names: Map<u32, Seq<char>>, marked: Set<u32>, edge: (u32, u32))
    ensures
        ({
            let source = if names.contains_key(edge.0) {
                names[edge.0]
            } else {
                "?"@
            };
            let target = if names.contains_key(edge.1) {
                names[edge.1]
            } else {
                "?"@
            };
            let both = marked.contains(edge.0) && marked.contains(edge.1);
            let line = "    \""@ + source + "\" -> \""@ + target + (if both {
                "\" [color=red, penwidth=2];\n"@
            } else {
                "\";\n"@
            });
            &&& dot_edge(names, marked, false, edge) == line
            &&& dot_edge(names, marked, true, edge) == (if both {
                line
            } else {
                Seq::empty()
            })
        }),
{
}

/// The line of a node names it, and is highlighted exactly where the node is marked. Where only
/// marked nodes are shown, it is there exactly where it is highlighted.
pub proof fn law_line_of_node(names: Map<u32, Seq<char>>, marked: Set<u32>, node: u32)
    ensures
        ({
            let name = if names.contains_key(node) {
                names[node]
            } else {
                "?"@
            };
            let line = "    \""@ + name + (if marked.contains(node) {
                "\" [fillcolor=salmon, color=red, penwidth=2];\n"@
            } else {
                "\";\n"@
            });
            &&& dot_node(names, marked, false, node) == line
            &&& dot_node(names, marked, true, node) == (if marked.contains(node) {
                line
            } else {
                Seq::empty()
            })
        }),
{
}

/// The lines of the edges in two groups, one after the other, are those of all edges, and one edge
/// has its one line.
pub proof fn law_edges_are_drawn_one_by_one(
    names: Map<u32, Seq<char>>,
    marked: Set<u32>,
    marked_only: bool,
    first: Seq<(u32, u32)>,
    second: Seq<(u32, u32)>,
    edge: (u32, u32),
)
    ensures
        dot_edges(names, marked, marked_only, first + second) == dot_edges(
            names,
            marked,
            marked_only,
            first,
        ) + dot_edges(names, marked, marked_only, second),
        dot_edges(names, marked, marked_only, seq![edge]) == dot_edge(
            names,
            marked,
            marked_only,
            edge,
        ),
    decreases second.len(),
{
    let none = seq![edge].drop_last();
    assert(dot_edges(names, marked, marked_only, none) =~= Seq::empty());
    assert(dot_edges(names, marked, marked_only, seq![edge]) =~= dot_edge(
        names,
        marked,
        marked_only,
        edge,
    ));
    let whole = first + second;
    if second.len() == 0 {
        assert(whole =~= first);
        assert(dot_edges(names, marked, marked_only, second) =~= Seq::empty());
    } else {
        law_edges_are_drawn_one_by_one(names, marked, marked_only, first, second.drop_last(), edge);
        assert(whole.drop_last() =~= first + second.drop_last());
    }
    assert(dot_edges(names, marked, marked_only, whole) =~= dot_edges(
        names,
        marked,
        marked_only,
        first,
    ) + dot_edges(names, marked, marked_only, second));
}

/// Every edge has its line in the drawing, in the order of the edges: what stands between the lines
/// of the edges in front of it and those of the edges behind it.
pub proof fn law_every_edge_is_drawn(
    count: nat,
    edges: Seq<(u32, u32)>,
    names: Map<u32, Seq<char>>,
    marked: Set<u32>,
    marked_only: bool,
    k: int,
)
    requires
        0 <= k < edges.len(),
    ensures
        dot_text(count, edges, names, marked, marked_only) == dot_head() + dot_nodes(
            names,
            marked,
            marked_only,
            count,
        ) + "\n"@ + dot_edges(names, marked, marked_only, edges.take(k)) + dot_edge(
            names,
            marked,
            marked_only,
            edges[k],
        ) + dot_edges(names, marked, marked_only, edges.skip(k + 1)) + "}\n"@,
{
    let edge = edges[k];
    assert(edges =~= edges.take(k) + seq![edge] + edges.skip(k + 1));
    law_edges_are_drawn_one_by_one(
        names,
        marked,
        marked_only,
        edges.take(k) + seq![edge],
        edges.skip(k + 1),
        edge,
    );
    law_edges_are_drawn_one_by_one(names, marked, marked_only, edges.take(k), seq![edge], edge);
    assert(dot_text(count, edges, names, marked, marked_only) =~= dot_head() + dot_nodes(
        names,
        marked,
        marked_only,
        count,
    ) + "\n"@ + dot_edges(names, marked, marked_only, edges.take(k)) + dot_edge(
        names,
        marked,
        marked_only,
        edges[k],
    ) + dot_edges(names, marked, marked_only, edges.skip(k + 1)) + "}\n"@);
}

/// Every node has its line in the drawing, in the order of the nodes: what stands between the lines
/// of the nodes in front of it and those of the nodes behind it. No nodes have no lines.
pub proof fn law_every_node_is_drawn(
    count: nat,
    names: Map<u32, Seq<char>>,
    marked: Set<u32>,
    marked_only: bool,
    node: u32,
)
    requires
        node < count,
    ensures
        dot_nodes(names, marked, marked_only, 0) == Seq::<char>::empty(),
        ({
            let lines = dot_nodes(names, marked, marked_only, count);
            let front = dot_nodes(names, marked, marked_only, node as nat);
            (front + dot_node(names, marked, marked_only, node)).is_prefix_of(lines) && (node
                == count - 1 ==> lines == front + dot_node(names, marked, marked_only, node))
        }),
    decreases count,
{
    if node < count - 1 {
        law_every_node_is_drawn((count - 1) as nat, names, marked, marked_only, node);
        let front = dot_nodes(names, marked, marked_only, node as nat) + dot_node(
            names,
            marked,
            marked_only,
            node,
        );
        let before = dot_nodes(names, marked, marked_only, (count - 1) as nat);
        let lines = dot_nodes(names, marked, marked_only, count);
        assert(lines.take(front.len() as int) =~= before.take(front.len() as int));
        assert(front =~= before.take(front.len() as int));
    }
}

/// The drawing is a directed graph from left to right: its head, the nodes, an empty line, the
/// edges, and the closing brace.
pub proof fn law_drawing_is_a_graph(
    count: nat,
    edges: Seq<(u32, u32)>,
    names: Map<u32, Seq<char>>,
    marked: Set<u32>,
    marked_only: bool,
)
    ensures
        dot_text(count, edges, names, marked, marked_only) == "digraph dependencies {\n"@
            + "    rankdir=LR;\n"@
            + "    node [shape=box, style=filled, fillcolor=lightyellow];\n"@
            + "    // 红色节点表示参与循环依赖的模块\n\n"@ + dot_nodes(
            names,
            marked,
            marked_only,
            count,
        ) + "\n"@ + dot_edges(names, marked, marked_only, edges) + "}\n"@,
{
}

/// To show marked nodes only is to show the edges between them only, and each as it is shown among
/// all.
pub proof fn law_marked_only_leaves_the_rest_out(
    names: Map<u32, Seq<char>>,
    marked: Set<u32>,
    edges: Seq<(u32, u32)>,
)
    ensures
        dot_edges(names, marked, true, edges) == dot_edges(
            names,
            marked,
            false,
            edges.filter(
                |edge: (u32, u32)| marked.contains(edge.0) && marked.contains(edge.1),
            ),
        ),
    decreases edges.len(),
{
    reveal(Seq::filter);
    if edges.len() > 0 {
        let between = |edge: (u32, u32)| marked.contains(edge.0) && marked.contains(edge.1);
        let shorter = edges.drop_last();
        law_marked_only_leaves_the_rest_out(names, marked, shorter);
        if between(edges.last()) {
            assert(edges.filter(between).drop_last() =~= shorter.filter(between));
        } else {
            assert(dot_edges(names, marked, true, edges) =~= dot_edges(
                names,
                marked,
                true,
                shorter,
            ));
        }
    }
}

/// The report on the cycles grows by each cycle: its number, its length, and its names with arrows
/// between them, back to the first, or a question mark where it has none. Without cycles it is
/// empty.
pub proof fn law_every_cycle_is_shown(cycles: Seq<Seq<Seq<char>>>, cycle: Seq<Seq<char>>)
    ensures
        cycles_section(Seq::empty()).len() == 0,
        cycles_section(cycles.push(cycle)) == (if cycles.len() == 0 {
            "\n=== 检测到的循环依赖 ===\n\n"@
        } else {
            cycles_section(cycles)
        }) + "循环 #"@ + decimal(cycles.len() + 1) + " (长度 "@ + decimal(cycle.len()) + ")\n"@
            + "  "@ + (if cycle.len() > 0 {
            join(cycle.push(cycle[0]), " -> "@)
        } else {
            " -> "@ + "?"@
        }) + "\n\n"@,
{
    let more = cycles.push(cycle);
    let title = "\n=== 检测到的循环依赖 ===\n\n"@;
    let base = if cycles.len() == 0 {
        title
    } else {
        cycles_section(cycles)
    };
    let round = if cycle.len() > 0 {
        join(cycle.push(cycle[0]), " -> "@)
    } else {
        " -> "@ + "?"@
    };
    let intro = "循环 #"@ + decimal(more.len()) + " (长度 "@ + decimal(cycle.len()) + ")\n"@ + "  "@;
    lemma_lines_of_cycle(more.len(), cycle);
    assert(more.drop_last() =~= cycles);
    assert(base =~= title + cycles_lines(cycles));
    lemma_regroup(title, cycles_lines(cycles), intro, round, "\n\n"@);
    lemma_flatten(
        base,
        "循环 #"@,
        decimal(more.len()),
        " (长度 "@,
        decimal(cycle.len()),
        ")\n"@,
        "  "@,
    );
}

/// The lines of a cycle, with the way back to its first name.
proof fn lemma_lines_of_cycle(number: nat, cycle: Seq<Seq<char>>)
    ensures
        cycle_lines(number, cycle) == "循环 #"@ + decimal(number) + " (长度 "@ + decimal(
            cycle.len(),
        ) + ")\n"@ + "  "@ + (if cycle.len() > 0 {
            join(cycle.push(cycle[0]), " -> "@)
        } else {
            " -> "@ + "?"@
        }) + "\n\n"@,
{
    let intro = "循环 #"@ + decimal(number) + " (长度 "@ + decimal(cycle.len()) + ")\n"@ + "  "@;
    let names = join(cycle, " -> "@);
    let first = if cycle.len() > 0 {
        cycle[0]
    } else {
        "?"@
    };
    let round = names + " -> "@ + first;
    if cycle.len() > 0 {
        assert(cycle.push(cycle[0]).drop_last() =~= cycle);
        assert(join(cycle.push(cycle[0]), " -> "@) == round);
    } else {
        assert(names =~= Seq::empty());
        assert(round =~= " -> "@ + "?"@);
    }
    assert(intro + names + " -> "@ + first =~= intro + round);
}

proof fn lemma_regroup(
    title: Seq<char>,
    lines: Seq<char>,
    intro: Seq<char>,
    round: Seq<char>,
    end: Seq<char>,
)
    ensures
        title + (lines + (intro + round + end)) == (title + lines) + intro + round + end,
{
    assert(title + (lines + (intro + round + end)) =~= (title + lines) + intro + round + end);
}

proof fn lemma_flatten(
    base: Seq<char>,
    a: Seq<char>,
    b: Seq<char>,
    c: Seq<char>,
    d: Seq<char>,
    e: Seq<char>,
    f: Seq<char>,
)
    ensures
        base + (a + b + c + d + e + f) == base + a + b + c + d + e + f,
{
    assert(base + (a + b + c + d + e + f) =~= base + a + b + c + d + e + f);
}

/// The degrees of a node are the numbers of edges into it and from it, under its name. The table has
/// a row for every node that an edge touches, and for no other, in the order of the nodes.
pub proof fn law_rows_are_those_of_touched_nodes(
    names: Map<u32, Seq<char>>,
    edges: Seq<(u32, u32)>,
    count: nat,
    node: u32,
)
    ensures
        node_degrees(names, edges, node).name == (if names.contains_key(node) {
            names[node]
        } else {
            "?"@
        }),
        node_degrees(names, edges, node).in_degree == edges.filter(
            |edge: (u32, u32)| edge.1 == node,
        ).len(),
        node_degrees(names, edges, node).out_degree == edges.filter(
            |edge: (u32, u32)| edge.0 == node,
        ).len(),
        touched_rows(names, edges, count) == Seq::new(
            count,
            |i: int| node_degrees(names, edges, i as u32),
        ).filter(|row: Degrees| row.in_degree > 0 || row.out_degree > 0),
    decreases count,
{
    reveal(Seq::filter);
    law_ends_of_edges(edges, node);
    let rows = Seq::new(count, |i: int| node_degrees(names, edges, i as u32));
    if count > 0 {
        let less = (count - 1) as nat;
        law_rows_are_those_of_touched_nodes(names, edges, less, node);
        assert(rows.drop_last() =~= Seq::new(less, |i: int| node_degrees(names, edges, i as u32)));
    }
}

/// The table lists the same rows by descending sums of both degrees, and rows with the same sum in
/// the order that they had.
pub proof fn law_table_is_sorted(rows: Seq<Degrees>, sum: nat)
    ensures
        sort_rows(rows).len() == rows.len(),
        forall|i: int, j: int|
            0 <= i < j < rows.len() ==> (#[trigger] sort_rows(rows)[i]).in_degree + sort_rows(
                rows,
            )[i].out_degree >= (#[trigger] sort_rows(rows)[j]).in_degree + sort_rows(
                rows,
            )[j].out_degree,
        sort_rows(rows).filter(|row: Degrees| row.in_degree + row.out_degree == sum)
            == rows.filter(|row: Degrees| row.in_degree + row.out_degree == sum),
{
    law_rows_are_sorted(rows, sum);
    lemma_with_total(rows, sum);
    lemma_with_total(sort_rows(rows), sum);
    assert forall|i: int, j: int| 0 <= i < j < rows.len() implies (
    #[trigger] sort_rows(rows)[i]).in_degree + sort_rows(rows)[i].out_degree >= (
    #[trigger] sort_rows(rows)[j]).in_degree + sort_rows(rows)[j].out_degree by {
        assert(total(sort_rows(rows)[i]) >= total(sort_rows(rows)[j]));
    }
}

proof fn lemma_with_total(rows: Seq<Degrees>, sum: nat)
    ensures
        with_total(rows, sum) == rows.filter(
            |row: Degrees| row.in_degree + row.out_degree == sum,
        ),
    decreases rows.len(),
{
    reveal(Seq::filter);
    if rows.len() > 0 {
        lemma_with_total(rows.drop_last(), sum);
    }
}

/// The table has three columns, the module and its two degrees, and a line for each row.
pub proof fn law_columns_of_table(rows: Seq<Degrees>, i: int)
    requires
        0 <= i < rows.len(),
    ensures
        degree_header() == seq!["模块"@, "入度 (被导入次数)"@, "出度 (导入他人次数)"@],
        all_cells(rows).len() == rows.len(),
        all_cells(rows)[i] == seq![
            rows[i].name,
            decimal(rows[i].in_degree),
            decimal(rows[i].out_degree),
        ],
{
}

/// Each row is read in its place.
pub proof fn law_rows_stay_in_place(rows: Seq<DegreeRow>)
    ensures
        row_views(rows).len() == rows.len(),
        forall|i: int|
            0 <= i < rows.len() ==> (#[trigger] row_views(rows)[i]).name == rows[i].name@
                && row_views(rows)[i].in_degree == rows[i].in_degree
                && row_views(rows)[i].out_degree == rows[i].out_degree,
{
}

/// The last line says how many cycles there are, or that there is none.
pub proof fn law_verdict_counts_cycles(count: nat)
    ensures
        verdict(0) == "\n✓ 未检测到循环导入。"@,
        count > 0 ==> verdict(count) == "\n✗ 检测到 "@ + decimal(count) + " 个循环依赖链。"@,
{
}

} // verus!
