use petgraph::graph::{DiGraph, NodeIndex};
use pycycle::report::{
    degree_rows, degree_section, degree_table, format_cycles, format_degrees, generate_dot,
    scan_line, verdict_line,
};
use std::collections::{HashMap, HashSet};

fn project(modules: &[&str], edges: &[(u32, u32)]) -> (DiGraph<String, ()>, HashMap<u32, String>) {
    let mut graph = DiGraph::new();
    let mut names = HashMap::new();
    for (i, module) in modules.iter().enumerate() {
        graph.add_node(module.to_string());
        names.insert(i as u32, module.to_string());
    }
    for (source, target) in edges {
        graph.add_edge(NodeIndex::from(*source), NodeIndex::from(*target), ());
    }
    (graph, names)
}

const HEAD: &str = "digraph dependencies {\n    rankdir=LR;\n    node [shape=box, style=filled, fillcolor=lightyellow];\n    // 红色节点表示参与循环依赖的模块\n\n";

#[test]
fn whole_graph_is_drawn_with_cycles_highlighted() {
    let (graph, names) = project(&["a", "b", "c"], &[(0, 1), (1, 0), (1, 2)]);
    let dot = generate_dot(&graph, &names, &HashSet::from([0, 1]), false);
    let body = "    \"a\" [fillcolor=salmon, color=red, penwidth=2];\n    \"b\" [fillcolor=salmon, color=red, penwidth=2];\n    \"c\";\n\n    \"a\" -> \"b\" [color=red, penwidth=2];\n    \"b\" -> \"a\" [color=red, penwidth=2];\n    \"b\" -> \"c\";\n}\n";
    assert_eq!(dot, format!("{}{}", HEAD, body));
}

#[test]
fn only_cycles_are_drawn_on_request() {
    let (graph, names) = project(&["a", "b", "c"], &[(0, 1), (1, 0), (1, 2)]);
    let dot = generate_dot(&graph, &names, &HashSet::from([0, 1]), true);
    let body = "    \"a\" [fillcolor=salmon, color=red, penwidth=2];\n    \"b\" [fillcolor=salmon, color=red, penwidth=2];\n\n    \"a\" -> \"b\" [color=red, penwidth=2];\n    \"b\" -> \"a\" [color=red, penwidth=2];\n}\n";
    assert_eq!(dot, format!("{}{}", HEAD, body));
}

#[test]
fn nothing_is_drawn_without_cycles() {
    let (graph, names) = project(&["a", "b"], &[(0, 1)]);
    assert_eq!(generate_dot(&graph, &names, &HashSet::new(), true), format!("{}\n}}\n", HEAD));
}

#[test]
fn nameless_node_is_drawn_as_a_question_mark() {
    let (graph, _) = project(&["a"], &[(0, 0)]);
    let dot = generate_dot(&graph, &HashMap::new(), &HashSet::new(), false);
    assert_eq!(dot, format!("{}    \"?\";\n\n    \"?\" -> \"?\";\n}}\n", HEAD));
}

#[test]
fn cycles_are_listed_with_their_numbers() {
    let cycles = vec![
        vec!["a".to_string(), "b".to_string()],
        vec!["c".to_string()],
        vec![],
    ];
    let expected = "\n=== 检测到的循环依赖 ===\n\n循环 #1 (长度 2)\n  a -> b -> a\n\n循环 #2 (长度 1)\n  c -> c\n\n循环 #3 (长度 0)\n   -> ?\n\n";
    assert_eq!(format_cycles(&cycles), expected);
    assert_eq!(format_cycles(&Vec::new()), "");
}

#[test]
fn degrees_are_counted_and_sorted() {
    let (graph, names) = project(&["x", "a", "b", "c", "d"], &[(1, 2), (1, 2), (3, 2), (4, 3)]);
    let rows: Vec<(String, usize, usize)> = degree_rows(&graph, &names)
        .iter()
        .map(|row| (row.name.clone(), row.in_degree, row.out_degree))
        .collect();
    assert_eq!(
        rows,
        vec![
            ("b".to_string(), 3, 0),
            ("a".to_string(), 0, 2),
            ("c".to_string(), 1, 1),
            ("d".to_string(), 0, 1),
        ]
    );
    assert_eq!(rows.iter().map(|row| row.1).sum::<usize>(), graph.edge_count());
    assert_eq!(rows.iter().map(|row| row.2).sum::<usize>(), graph.edge_count());
}

#[test]
fn degrees_are_drawn_as_a_table() {
    let (graph, names) = project(&["a", "b"], &[(0, 1)]);
    let line = format!("+{}+{}+{}+", "-".repeat(6), "-".repeat(19), "-".repeat(21));
    let inner = format!("|{}+{}+{}|", "-".repeat(6), "-".repeat(19), "-".repeat(21));
    let head = format!("+{}+", "=".repeat(48));
    let table = vec![
        line.clone(),
        "| 模块 | 入度 (被导入次数) | 出度 (导入他人次数) |".to_string(),
        head,
        "| a    | 0                 | 1                   |".to_string(),
        inner,
        "| b    | 1                 | 0                   |".to_string(),
        line,
    ]
    .join("\n");
    assert_eq!(degree_table(&degree_rows(&graph, &names)), table);
    assert_eq!(degree_section("T"), "\n=== 模块依赖度统计 ===\n\nT\n");
    assert_eq!(format_degrees(&graph, &names), format!("\n=== 模块依赖度统计 ===\n\n{}\n", table));
}

#[test]
fn lines_tell_the_counts() {
    assert_eq!(scan_line(12), "扫描到 12 个 Python 文件");
    assert_eq!(verdict_line(0), "\n✓ 未检测到循环导入。");
    assert_eq!(verdict_line(3), "\n✗ 检测到 3 个循环依赖链。");
}
