use petgraph::graph::{DiGraph, NodeIndex};
use pycycle::cycles::{cycles_to_node_set, find_all_cycles};
use pycycle::names::NameMap;
use pycycle::rotation::canonicalize_cycle;
use std::collections::{HashMap, HashSet};

struct Parts {
    graph: DiGraph<String, ()>,
    nodes: NameMap<u32>,
    names: HashMap<u32, String>,
}

fn parts(modules: &[&str], edges: &[(u32, u32)]) -> Parts {
    let mut graph = DiGraph::new();
    let mut nodes = NameMap::new();
    let mut names = HashMap::new();
    for (i, module) in modules.iter().enumerate() {
        graph.add_node(module.to_string());
        nodes.insert(module.to_string(), i as u32);
        names.insert(i as u32, module.to_string());
    }
    for (source, target) in edges {
        graph.add_edge(NodeIndex::from(*source), NodeIndex::from(*target), ());
    }
    Parts { graph, nodes, names }
}

fn search(parts: &Parts) -> Vec<Vec<String>> {
    find_all_cycles(&parts.graph, &parts.nodes, &parts.names)
}

fn cycle(names: &[&str]) -> Vec<String> {
    names.iter().map(|name| name.to_string()).collect()
}

#[test]
fn acyclic_graph_has_no_cycle() {
    let p = parts(&["a", "b", "c"], &[(0, 1), (1, 2), (0, 2)]);
    assert_eq!(search(&p), Vec::<Vec<String>>::new());
    assert_eq!(search(&parts(&[], &[])), Vec::<Vec<String>>::new());
}

#[test]
fn two_modules_that_import_each_other() {
    let p = parts(&["a", "b"], &[(0, 1), (1, 0)]);
    assert_eq!(search(&p), vec![cycle(&["a", "b"])]);
}

#[test]
fn self_import_is_a_cycle_of_one() {
    let p = parts(&["a"], &[(0, 0)]);
    assert_eq!(search(&p), vec![cycle(&["a"])]);
}

#[test]
fn cycle_reads_from_the_first_of_its_nodes() {
    let p = parts(&["x", "c", "a", "b"], &[(0, 1), (1, 2), (2, 3), (3, 1)]);
    assert_eq!(search(&p), vec![cycle(&["c", "a", "b"])]);
}

#[test]
fn latest_edge_is_followed_first() {
    let p = parts(&["a", "b", "c"], &[(0, 1), (0, 2), (1, 0), (2, 0)]);
    assert_eq!(search(&p), vec![cycle(&["a", "c"]), cycle(&["a", "b"])]);
}

#[test]
fn repeated_edges_report_a_cycle_once() {
    let p = parts(&["a", "b"], &[(0, 1), (0, 1), (1, 0), (1, 0)]);
    assert_eq!(search(&p), vec![cycle(&["a", "b"])]);
}

#[test]
fn separate_cycles_are_all_reported() {
    let p = parts(&["a", "b", "c", "d"], &[(0, 1), (1, 0), (2, 3), (3, 2)]);
    assert_eq!(search(&p), vec![cycle(&["a", "b"]), cycle(&["c", "d"])]);
}

#[test]
fn order_of_neighbors_survives_removed_edges() {
    let mut p = parts(&["a", "b", "c", "d"], &[(0, 1), (0, 2), (0, 3), (1, 0), (2, 0), (3, 0)]);
    p.graph.remove_edge(petgraph::graph::EdgeIndex::new(0));
    assert_eq!(search(&p), vec![cycle(&["a", "d"]), cycle(&["a", "c"])]);
}

#[test]
fn node_without_a_name_reads_empty() {
    let mut p = parts(&["a", "b"], &[(0, 1), (1, 0)]);
    p.names.remove(&1);
    assert_eq!(search(&p), vec![cycle(&["a", ""])]);
}

#[test]
fn unknown_start_is_harmless() {
    let mut p = parts(&["a", "b"], &[(0, 1), (1, 0)]);
    p.nodes.insert("ghost".to_string(), 77);
    assert_eq!(search(&p), vec![cycle(&["a", "b"])]);
}

#[test]
fn something_is_reported_exactly_where_there_is_a_cycle() {
    for bits in 0..(1u32 << 9) {
        let mut edges = Vec::new();
        for k in 0..9u32 {
            if bits & (1 << k) != 0 {
                edges.push((k / 3, k % 3));
            }
        }
        let p = parts(&["a", "b", "c"], &edges);
        let found = search(&p);
        assert_eq!(!found.is_empty(), petgraph::algo::is_cyclic_directed(&p.graph));
        for names in &found {
            for (i, name) in names.iter().enumerate() {
                let next = &names[(i + 1) % names.len()];
                let from = *p.nodes.get(name).unwrap();
                let to = *p.nodes.get(next).unwrap();
                assert!(p.graph.contains_edge(NodeIndex::from(from), NodeIndex::from(to)));
            }
        }
    }
}

#[test]
fn every_strong_part_with_a_cycle_has_a_reported_one() {
    for bits in 0..(1u32 << 12) {
        let mut edges = Vec::new();
        for k in 0..12u32 {
            if bits & (1 << k) != 0 {
                edges.push((k / 3, (k / 3 + k % 3 + 1) % 4));
            }
        }
        let p = parts(&["a", "b", "c", "d"], &edges);
        let found = search(&p);
        for part in petgraph::algo::kosaraju_scc(&p.graph) {
            let names: Vec<&String> = part.iter().map(|node| &p.graph[*node]).collect();
            let told = found.iter().any(|cycle| cycle.iter().all(|name| names.contains(&name)));
            assert_eq!(told, part.len() > 1);
        }
    }
}

#[test]
fn cycle_through_a_node_that_another_cycle_shares_is_reported() {
    let p = parts(&["a", "b", "c"], &[(0, 1), (0, 2), (1, 2), (2, 0)]);
    let cycles = search(&p);
    assert_eq!(cycles, vec![cycle(&["a", "c"]), cycle(&["a", "b", "c"])]);
    assert_eq!(cycles_to_node_set(&cycles, &p.nodes), HashSet::from([0, 1, 2]));
}

/// How many cycles go on from the path back to its first node, through later nodes alone.
fn count_from(graph: &DiGraph<String, ()>, path: &mut Vec<u32>) -> usize {
    let last = NodeIndex::from(path[path.len() - 1]);
    let mut count = 0;
    if graph.contains_edge(last, NodeIndex::from(path[0])) {
        count += 1;
    }
    for next in path[0] + 1..graph.node_count() as u32 {
        if !path.contains(&next) && graph.contains_edge(last, NodeIndex::from(next)) {
            path.push(next);
            count += count_from(graph, path);
            path.pop();
        }
    }
    count
}

#[test]
fn every_cycle_is_reported_once() {
    for bits in 0..(1u32 << 16) {
        if bits % 7 != 0 {
            continue;
        }
        let mut edges = Vec::new();
        for k in 0..16u32 {
            if bits & (1 << k) != 0 {
                edges.push((k / 4, k % 4));
            }
        }
        let p = parts(&["d", "b", "a", "c"], &edges);
        let found = search(&p);
        let expected: usize = (0..4).map(|node| count_from(&p.graph, &mut vec![node])).sum();
        assert_eq!(found.len(), expected);
        let forms: HashSet<Vec<String>> = found.iter().map(|c| canonicalize_cycle(c)).collect();
        assert_eq!(forms.len(), expected);
        for names in &found {
            let distinct: HashSet<&String> = names.iter().collect();
            assert_eq!(distinct.len(), names.len());
        }
    }
}

#[test]
fn complete_graph_has_all_cycles() {
    let mut edges = Vec::new();
    for a in 0..5u32 {
        for b in 0..5u32 {
            if a != b {
                edges.push((a, b));
            }
        }
    }
    assert_eq!(search(&parts(&["a", "b", "c", "d", "e"], &edges)).len(), 84);
}

#[test]
fn cycle_that_is_only_reached_from_a_start_is_reported() {
    let mut p = parts(&["x", "a", "b", "y", "z"], &[(0, 1), (1, 2), (2, 1), (3, 4), (4, 3)]);
    p.nodes = NameMap::new();
    p.nodes.insert("x".to_string(), 0);
    assert_eq!(search(&p), vec![cycle(&["a", "b"])]);
}

#[test]
fn many_ways_without_a_cycle_take_no_time() {
    let names: Vec<String> = (0..120).map(|i| format!("m{}", i)).collect();
    let modules: Vec<&str> = names.iter().map(|name| name.as_str()).collect();
    let mut edges = Vec::new();
    for layer in 0..39u32 {
        for a in 0..3 {
            for b in 0..3 {
                edges.push((3 * layer + a, 3 * layer + 3 + b));
            }
        }
    }
    assert_eq!(search(&parts(&modules, &edges)), Vec::<Vec<String>>::new());
}

#[test]
fn nodes_of_cycles_are_collected() {
    let p = parts(&["a", "b", "c"], &[]);
    let cycles = vec![cycle(&["c", "a"]), cycle(&["a", "nobody"])];
    assert_eq!(cycles_to_node_set(&cycles, &p.nodes), HashSet::from([0, 2]));
    assert_eq!(cycles_to_node_set(&Vec::new(), &p.nodes), HashSet::new());
}
