use algorithms::bfs::{bfs_bidirectional, bfs_iterative, bfs_level_order};
use algorithms::dfs::{dfs_iterative, dfs_postorder, dfs_recursive};
use algorithms::dijkstra::{dijkstra_all_paths, dijkstra_heap, WeightedGraph};
use algorithms::graph::{contains_name, insert_name, Graph};

fn names(list: &[&str]) -> Vec<String> {
    list.iter().map(|n| n.to_string()).collect()
}

fn graph(entries: &[(&str, &[&str])]) -> Graph {
    let mut g = Graph::new();
    for (node, neighbors) in entries {
        g.insert(node.to_string(), names(neighbors));
    }
    g
}

fn weighted(entries: &[(&str, &[(&str, i32)])]) -> WeightedGraph {
    let mut g = WeightedGraph::new();
    for (node, edges) in entries {
        g.insert(node.to_string(), edges.iter().map(|(n, w)| (n.to_string(), *w)).collect());
    }
    g
}

fn sample() -> Graph {
    graph(&[
        ("A", &["B", "C"]),
        ("B", &["D", "E"]),
        ("C", &["F"]),
        ("D", &[]),
        ("E", &["F"]),
        ("F", &[]),
    ])
}

fn weighted_sample() -> WeightedGraph {
    weighted(&[
        ("A", &[("B", 1), ("C", 4)]),
        ("B", &[("C", 2), ("D", 5)]),
        ("C", &[("D", 1)]),
        ("D", &[]),
    ])
}

fn ring() -> Graph {
    graph(&[("a", &["b"]), ("b", &["c"]), ("c", &["a", "d"]), ("d", &["b"]), ("x", &["a"])])
}

fn is_path(g: &Graph, path: &[String], from: &str, to: &str) -> bool {
    !path.is_empty()
        && path[0] == from
        && path[path.len() - 1] == to
        && path.windows(2).all(|pair| match g.get(&pair[0]) {
            Some(next) => next.contains(&pair[1]),
            None => false,
        })
}

fn sorted(mut list: Vec<(String, i32)>) -> Vec<(String, i32)> {
    list.sort();
    list
}

fn table(list: &[(&str, i32)]) -> Vec<(String, i32)> {
    sorted(list.iter().map(|(n, d)| (n.to_string(), *d)).collect())
}

// The graph itself.

#[test]
fn later_entry_replaces_an_earlier_one() {
    let mut g = Graph::new();
    assert_eq!(g.get("A"), None);
    g.insert("A".to_string(), names(&["B"]));
    g.insert("B".to_string(), names(&[]));
    g.insert("A".to_string(), names(&["C", "D"]));
    assert_eq!(g.get("A"), Some(&names(&["C", "D"])));
    assert_eq!(g.get("B"), Some(&names(&[])));
    assert_eq!(g.get("C"), None);
}

#[test]
fn reversed_graph_has_every_edge_turned_round() {
    let r = sample().reversed();
    assert_eq!(r.get("F"), Some(&names(&["C", "E"])));
    assert_eq!(r.get("B"), Some(&names(&["A"])));
    assert_eq!(r.get("C"), Some(&names(&["A"])));
    assert_eq!(r.get("A"), None);
    let mut g = graph(&[("A", &["B"]), ("B", &["A", "A"])]);
    g.insert("A".to_string(), names(&["C"]));
    let r = g.reversed();
    assert_eq!(r.get("B"), None);
    assert_eq!(r.get("C"), Some(&names(&["A"])));
    assert_eq!(r.get("A"), Some(&names(&["B", "B"])));
}

#[test]
fn names_are_kept_once() {
    let mut seen = names(&["a"]);
    insert_name(&mut seen, "b");
    insert_name(&mut seen, "a");
    insert_name(&mut seen, "b");
    assert_eq!(seen, names(&["a", "b"]));
    assert!(contains_name(&seen, "b"));
    assert!(!contains_name(&seen, "c"));
}

// Breadth first.

#[test]
fn bfs_finds_the_path_with_fewest_edges_of_the_sample() {
    assert_eq!(bfs_iterative(&sample(), "A", "F"), Some(names(&["A", "C", "F"])));
    assert_eq!(bfs_iterative(&sample(), "A", "E"), Some(names(&["A", "B", "E"])));
    assert_eq!(bfs_iterative(&sample(), "B", "F"), Some(names(&["B", "E", "F"])));
}

#[test]
fn bfs_from_a_node_to_itself() {
    assert_eq!(bfs_iterative(&sample(), "A", "A"), Some(names(&["A"])));
    assert_eq!(bfs_iterative(&sample(), "nowhere", "nowhere"), Some(names(&["nowhere"])));
    assert_eq!(bfs_iterative(&Graph::new(), "A", "A"), Some(names(&["A"])));
}

#[test]
fn bfs_finds_nothing_where_no_path_is() {
    assert_eq!(bfs_iterative(&sample(), "F", "A"), None);
    assert_eq!(bfs_iterative(&sample(), "D", "E"), None);
    assert_eq!(bfs_iterative(&sample(), "A", "Z"), None);
    assert_eq!(bfs_iterative(&sample(), "Z", "A"), None);
    assert_eq!(bfs_iterative(&Graph::new(), "A", "B"), None);
}

#[test]
fn bfs_ends_on_cycles() {
    assert_eq!(bfs_iterative(&ring(), "a", "d"), Some(names(&["a", "b", "c", "d"])));
    assert_eq!(bfs_iterative(&ring(), "d", "a"), Some(names(&["d", "b", "c", "a"])));
    assert_eq!(bfs_iterative(&ring(), "a", "x"), None);
    assert_eq!(bfs_iterative(&graph(&[("a", &["a", "a"])]), "a", "b"), None);
}

#[test]
fn levels_of_the_sample() {
    assert_eq!(
        bfs_level_order(&sample(), "A"),
        vec![names(&["A"]), names(&["B", "C"]), names(&["D", "E", "F"])]
    );
    assert_eq!(bfs_level_order(&sample(), "E"), vec![names(&["E"]), names(&["F"])]);
    assert_eq!(bfs_level_order(&sample(), "F"), vec![names(&["F"])]);
    assert_eq!(bfs_level_order(&sample(), "Z"), vec![names(&["Z"])]);
}

#[test]
fn levels_list_each_node_once() {
    assert_eq!(
        bfs_level_order(&ring(), "x"),
        vec![names(&["x"]), names(&["a"]), names(&["b"]), names(&["c"]), names(&["d"])]
    );
    let twice = graph(&[("a", &["b", "b", "a", "c"]), ("b", &["c", "d"]), ("c", &["d"])]);
    assert_eq!(
        bfs_level_order(&twice, "a"),
        vec![names(&["a"]), names(&["b", "c"]), names(&["d"])]
    );
}

#[test]
fn bidirectional_search_on_the_sample() {
    assert_eq!(bfs_bidirectional(&sample(), "A", "F"), Some(names(&["A", "C", "F"])));
    assert_eq!(bfs_bidirectional(&sample(), "A", "A"), Some(names(&["A"])));
    assert_eq!(bfs_bidirectional(&sample(), "F", "A"), None);
    assert_eq!(bfs_bidirectional(&sample(), "A", "Z"), None);
    assert_eq!(bfs_bidirectional(&sample(), "Z", "F"), None);
}

#[test]
fn bidirectional_search_returns_paths_of_the_graph() {
    let graphs = [sample(), ring()];
    for g in &graphs {
        for from in ["A", "B", "C", "D", "E", "F", "a", "b", "c", "d", "x"] {
            for to in ["A", "B", "C", "D", "E", "F", "a", "b", "c", "d", "x"] {
                let one = bfs_iterative(g, from, to);
                let two = bfs_bidirectional(g, from, to);
                assert_eq!(one.is_some(), two.is_some(), "{} to {}", from, to);
                if let Some(path) = two {
                    assert!(is_path(g, &path, from, to), "{:?}", path);
                }
                if let Some(path) = one {
                    assert!(is_path(g, &path, from, to), "{:?}", path);
                }
            }
        }
    }
}

// Depth first.

#[test]
fn dfs_follows_the_first_edge_first() {
    assert_eq!(dfs_iterative(&sample(), "A", "F"), Some(names(&["A", "B", "E", "F"])));
    let mut visited = Vec::new();
    assert_eq!(
        dfs_recursive(&sample(), "A", "F", &mut visited),
        Some(names(&["A", "B", "E", "F"]))
    );
    assert_eq!(visited, names(&["A", "B", "D", "E"]));
}

#[test]
fn dfs_from_a_node_to_itself() {
    assert_eq!(dfs_iterative(&sample(), "C", "C"), Some(names(&["C"])));
    let mut visited = Vec::new();
    assert_eq!(dfs_recursive(&sample(), "C", "C", &mut visited), Some(names(&["C"])));
    assert_eq!(visited, names(&[]));
}

#[test]
fn dfs_finds_nothing_where_no_path_is() {
    assert_eq!(dfs_iterative(&sample(), "F", "A"), None);
    assert_eq!(dfs_iterative(&sample(), "A", "Z"), None);
    assert_eq!(dfs_iterative(&ring(), "a", "x"), None);
    let mut visited = Vec::new();
    assert_eq!(dfs_recursive(&sample(), "A", "Z", &mut visited), None);
    assert_eq!(visited, names(&["A", "B", "D", "E", "F", "C"]));
    let mut visited = Vec::new();
    assert_eq!(dfs_recursive(&ring(), "a", "x", &mut visited), None);
    assert_eq!(visited, names(&["a", "b", "c", "d"]));
}

#[test]
fn dfs_recursive_stays_out_of_what_was_visited() {
    let mut visited = names(&["B"]);
    assert_eq!(
        dfs_recursive(&sample(), "A", "F", &mut visited),
        Some(names(&["A", "C", "F"]))
    );
    let mut visited = names(&["B", "C"]);
    assert_eq!(dfs_recursive(&sample(), "A", "F", &mut visited), None);
    assert_eq!(visited, names(&["B", "C", "A"]));
}

#[test]
fn dfs_returns_paths_of_the_graph() {
    let g = ring();
    for from in ["a", "b", "c", "d", "x"] {
        for to in ["a", "b", "c", "d", "x"] {
            let iterative = dfs_iterative(&g, from, to);
            let recursive = dfs_recursive(&g, from, to, &mut Vec::new());
            assert_eq!(iterative.is_some(), bfs_iterative(&g, from, to).is_some());
            assert_eq!(recursive.is_some(), iterative.is_some());
            if let Some(path) = iterative {
                assert!(is_path(&g, &path, from, to));
            }
            if let Some(path) = recursive {
                assert!(is_path(&g, &path, from, to));
            }
        }
    }
}

#[test]
fn postorder_of_the_sample() {
    let mut visited = Vec::new();
    assert_eq!(
        dfs_postorder(&sample(), "A", &mut visited),
        names(&["D", "F", "E", "B", "C", "A"])
    );
    assert_eq!(visited, names(&["A", "B", "D", "E", "F", "C"]));
    assert_eq!(dfs_postorder(&sample(), "A", &mut visited), names(&[]));
    assert_eq!(visited, names(&["A", "B", "D", "E", "F", "C"]));
}

#[test]
fn postorder_lists_what_was_not_visited() {
    let mut visited = names(&["E"]);
    assert_eq!(dfs_postorder(&sample(), "A", &mut visited), names(&["D", "B", "F", "C", "A"]));
    let mut visited = Vec::new();
    assert_eq!(dfs_postorder(&ring(), "c", &mut visited), names(&["b", "a", "d", "c"]));
    let mut visited = Vec::new();
    assert_eq!(dfs_postorder(&Graph::new(), "lonely", &mut visited), names(&["lonely"]));
}

// Shortest paths.

#[test]
fn cheapest_path_of_the_sample() {
    assert_eq!(
        dijkstra_heap(&weighted_sample(), "A", "D"),
        (Some(names(&["A", "B", "C", "D"])), 4)
    );
    assert_eq!(dijkstra_heap(&weighted_sample(), "A", "C"), (Some(names(&["A", "B", "C"])), 3));
    assert_eq!(dijkstra_heap(&weighted_sample(), "B", "D"), (Some(names(&["B", "C", "D"])), 3));
    assert_eq!(dijkstra_heap(&weighted_sample(), "A", "A"), (Some(names(&["A"])), 0));
}

#[test]
fn no_path_costs_the_largest_cost() {
    assert_eq!(dijkstra_heap(&weighted_sample(), "D", "A"), (None, i32::MAX));
    assert_eq!(dijkstra_heap(&weighted_sample(), "A", "Z"), (None, i32::MAX));
    assert_eq!(dijkstra_heap(&WeightedGraph::new(), "A", "B"), (None, i32::MAX));
}

#[test]
fn cheapest_path_may_have_more_edges() {
    let g = weighted(&[
        ("s", &[("t", 10), ("a", 1)]),
        ("a", &[("b", 1)]),
        ("b", &[("c", 1), ("s", 0)]),
        ("c", &[("t", 1)]),
    ]);
    assert_eq!(dijkstra_heap(&g, "s", "t"), (Some(names(&["s", "a", "b", "c", "t"])), 4));
    let two = weighted(&[("s", &[("t", 7), ("t", 3), ("t", 5)])]);
    assert_eq!(dijkstra_heap(&two, "s", "t"), (Some(names(&["s", "t"])), 3));
}

#[test]
fn distances_of_the_sample() {
    assert_eq!(
        sorted(dijkstra_all_paths(&weighted_sample(), "A")),
        table(&[("A", 0), ("B", 1), ("C", 3), ("D", 4)])
    );
    assert_eq!(
        sorted(dijkstra_all_paths(&weighted_sample(), "C")),
        table(&[("A", i32::MAX), ("B", i32::MAX), ("C", 0), ("D", 1)])
    );
}

#[test]
fn distances_list_the_start_and_what_it_reaches() {
    assert_eq!(sorted(dijkstra_all_paths(&WeightedGraph::new(), "A")), table(&[("A", 0)]));
    let g = weighted(&[("a", &[("b", 2), ("c", 2)]), ("z", &[("a", 1)])]);
    assert_eq!(
        sorted(dijkstra_all_paths(&g, "a")),
        table(&[("a", 0), ("b", 2), ("c", 2), ("z", i32::MAX)])
    );
    assert_eq!(
        sorted(dijkstra_all_paths(&g, "q")),
        table(&[("a", i32::MAX), ("q", 0), ("z", i32::MAX)])
    );
}

#[test]
fn distances_agree_with_the_cheapest_paths() {
    let g = weighted(&[
        ("a", &[("b", 7), ("c", 9), ("f", 14)]),
        ("b", &[("a", 7), ("c", 10), ("d", 15)]),
        ("c", &[("a", 9), ("b", 10), ("d", 11), ("f", 2)]),
        ("d", &[("b", 15), ("c", 11), ("e", 6)]),
        ("e", &[("d", 6), ("f", 9)]),
        ("f", &[("a", 14), ("c", 2), ("e", 9)]),
    ]);
    assert!(g.weights_in_range());
    assert_eq!(
        sorted(dijkstra_all_paths(&g, "a")),
        table(&[("a", 0), ("b", 7), ("c", 9), ("d", 20), ("e", 20), ("f", 11)])
    );
    for (node, distance) in dijkstra_all_paths(&g, "a") {
        assert_eq!(dijkstra_heap(&g, "a", &node).1, distance);
    }
    assert_eq!(dijkstra_heap(&g, "a", "e"), (Some(names(&["a", "c", "f", "e"])), 20));
}

#[test]
fn later_entry_replaces_an_earlier_one_with_weights() {
    let mut g = weighted(&[("a", &[("b", 1)]), ("b", &[("c", 1)])]);
    g.insert("a".to_string(), vec![("c".to_string(), 5)]);
    assert_eq!(g.get("a"), Some(&vec![("c".to_string(), 5)]));
    assert_eq!(g.get("c"), None);
    assert_eq!(dijkstra_heap(&g, "a", "c"), (Some(names(&["a", "c"])), 5));
    assert_eq!(dijkstra_heap(&g, "a", "b"), (None, i32::MAX));
}

#[test]
fn weights_have_to_keep_within_the_cap() {
    assert!(WeightedGraph::new().weights_in_range());
    assert!(weighted_sample().weights_in_range());
    let cap = (i32::MAX - 1) / 3;
    assert!(weighted(&[("a", &[("b", cap), ("c", -cap)])]).weights_in_range());
    assert!(!weighted(&[("a", &[("b", cap + 1), ("c", 0)])]).weights_in_range());
    assert!(!weighted(&[("a", &[("b", 0), ("c", -cap - 1)])]).weights_in_range());
    assert!(!weighted(&[("a", &[("b", i32::MIN)])]).weights_in_range());
    assert!(weighted(&[("a", &[("b", (i32::MAX - 1) / 2)])]).weights_in_range());
}

#[test]
fn sums_of_the_largest_weights_stay_in_range() {
    let cap = (i32::MAX - 1) / 3;
    let g = weighted(&[("a", &[("b", cap)]), ("b", &[("c", cap)])]);
    assert!(g.weights_in_range());
    assert_eq!(dijkstra_heap(&g, "a", "c"), (Some(names(&["a", "b", "c"])), 2 * cap));
    assert_eq!(
        sorted(dijkstra_all_paths(&g, "a")),
        table(&[("a", 0), ("b", cap), ("c", 2 * cap)])
    );
}

#[test]
fn negative_weights_are_followed_too() {
    let g = weighted(&[("a", &[("b", 2), ("c", 5)]), ("b", &[("c", -1)])]);
    assert_eq!(dijkstra_heap(&g, "a", "c"), (Some(names(&["a", "b", "c"])), 1));
    assert_eq!(
        sorted(dijkstra_all_paths(&g, "a")),
        table(&[("a", 0), ("b", 2), ("c", 1)])
    );
}

#[test]
fn bfs_paths_are_as_long_as_the_level_of_their_goal() {
    let graphs = [sample(), ring()];
    for g in &graphs {
        for from in ["A", "B", "C", "D", "E", "F", "a", "b", "c", "d", "x"] {
            let levels = bfs_level_order(g, from);
            for (depth, level) in levels.iter().enumerate() {
                for to in level {
                    let path = bfs_iterative(g, from, to).expect("a listed node can be reached");
                    assert_eq!(path.len(), depth + 1, "{} to {}", from, to);
                }
            }
        }
    }
}
