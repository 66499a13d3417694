use rugraph::digraph::{digraph_from_dot_string, DiGraph, Node};
use rugraph::dot::{Malformed, ParseError};
use rugraph::rugraph::{IDiGraph, IGraph};

fn letters() -> DiGraph<String> {
    let mut graph = DiGraph::<String>::new();
    for name in ["a", "b", "c", "d"] {
        graph.add_node(name.to_string());
    }
    graph.add_edge("a".to_string(), "b".to_string());
    graph.add_edge("b".to_string(), "c".to_string());
    graph.add_edge("c".to_string(), "d".to_string());
    graph.add_edge("a".to_string(), "d".to_string());
    graph
}

fn numbers() -> DiGraph<i32> {
    let mut graph = DiGraph::<i32>::new();
    for n in 1..12 {
        graph.add_node(n);
    }
    let edges = [
        (1, 2),
        (1, 5),
        (2, 3),
        (3, 4),
        (3, 9),
        (9, 10),
        (9, 11),
        (4, 5),
        (3, 7),
        (7, 6),
        (7, 8),
        (8, 5),
        (10, 5),
    ];
    for (a, b) in edges {
        graph.add_edge(a, b);
    }
    graph
}

#[test]
fn digraph_four_letters() {
    let graph = letters();
    let paths = graph.all_simple_paths("a".to_string(), "d".to_string());
    assert_eq!(paths, vec![vec!["a", "b", "c", "d"], vec!["a", "d"]]);
    assert_eq!(graph.count_nodes(), 4);
}

#[test]
fn digraph_reachability() {
    let graph = numbers();
    assert_eq!(graph.is_connected(1, 5), true);
    assert_eq!(graph.is_connected(5, 1), false);
    assert_eq!(graph.is_connected(6, 5), false);
    assert_eq!(graph.is_connected(11, 1), false);
    assert_eq!(
        graph.all_simple_paths(1, 5),
        vec![
            vec![1, 2, 3, 4, 5],
            vec![1, 2, 3, 9, 10, 5],
            vec![1, 2, 3, 7, 8, 5],
            vec![1, 5]
        ]
    );
}

#[test]
fn digraph_reaches_along_several_edges() {
    let graph = numbers();
    assert_eq!(graph.is_connected(1, 6), true);
    assert_eq!(graph.all_simple_paths(1, 6), vec![vec![1, 2, 3, 7, 6]]);
}

#[test]
fn digraph_one_edge_connects() {
    let mut graph = DiGraph::<u64>::new();
    graph.add_node(1);
    graph.add_node(2);
    graph.add_edge(1, 2);
    assert!(graph.is_connected(1, 2));
    assert!(!graph.is_connected(2, 1));
    assert!(graph.is_directly_connected(1, 2));
    assert!(!graph.is_directly_connected(2, 1));
}

#[test]
fn digraph_node_reaches_itself_only_through_a_cycle() {
    let mut graph = DiGraph::<u32>::new();
    graph.add_node(1);
    graph.add_node(2);
    graph.add_node(3);
    graph.add_edge(1, 2);
    assert!(!graph.is_connected(1, 1));
    graph.add_edge(2, 1);
    assert!(graph.is_connected(1, 1));
    assert!(!graph.is_connected(3, 3));
    graph.add_edge(3, 3);
    assert!(graph.is_connected(3, 3));
    assert_eq!(graph.all_simple_paths(1, 1), Vec::<Vec<u32>>::new());
    assert_eq!(graph.all_simple_paths(3, 3), Vec::<Vec<u32>>::new());
}

#[test]
fn digraph_paths_repeat_no_node() {
    let mut graph = DiGraph::<u32>::new();
    for n in 0..5 {
        graph.add_node(n);
    }
    for a in 0..5 {
        for b in 0..5 {
            graph.add_edge(a, b);
        }
    }
    let paths = graph.all_simple_paths(0, 4);
    assert_eq!(paths.len(), 16);
    for path in &paths {
        assert_eq!(path[0], 0);
        assert_eq!(path[path.len() - 1], 4);
        for i in 0..path.len() {
            for j in 0..i {
                assert_ne!(path[i], path[j]);
            }
        }
    }
    assert_eq!(paths[0], [0, 1, 2, 3, 4]);
    assert_eq!(paths[15], [0, 4]);
}

#[test]
fn digraph_paths_without_edges_or_nodes() {
    let mut graph = DiGraph::<u32>::new();
    graph.add_node(1);
    graph.add_node(2);
    assert!(graph.all_simple_paths(1, 2).is_empty());
    assert!(graph.all_simple_paths(1, 9).is_empty());
    assert!(graph.all_simple_paths(9, 1).is_empty());
    assert!(!graph.is_connected(9, 1));
    assert!(!graph.is_connected(1, 9));
}

#[test]
fn digraph_add_node_twice_keeps_count() {
    let mut graph = DiGraph::<i64>::new();
    graph.add_node(-3);
    assert_eq!(graph.count_nodes(), 1);
    graph.add_node(-3);
    assert_eq!(graph.count_nodes(), 1);
    assert_eq!(graph.get_nodes(), [-3]);
}

#[test]
fn digraph_edge_between_absent_nodes_changes_nothing() {
    let mut graph = DiGraph::<u32>::new();
    graph.add_edge(1, 2);
    assert!(graph.is_empty());
    assert!(graph.get_neighbors(1).is_empty());
    graph.add_node(1);
    graph.add_edge(1, 2);
    graph.add_edge(2, 1);
    assert!(graph.get_neighbors(1).is_empty());
}

#[test]
fn digraph_edge_twice_is_kept_once() {
    let mut graph = DiGraph::<u32>::new();
    graph.add_node(1);
    graph.add_node(2);
    graph.add_edge(1, 2);
    graph.add_edge(1, 2);
    graph.add_edge(1, 1);
    assert_eq!(graph.get_neighbors(1), [2, 1]);
    assert!(graph.get_neighbors(2).is_empty());
}

#[test]
fn digraph_lookup_by_value() {
    let graph = letters();
    assert_eq!(graph.get_index_by_node_id("c".to_string()).ok(), Some(2));
    assert!(graph.get_index_by_node_id("z".to_string()).is_err());
}

#[test]
fn digraph_text() {
    let graph = letters();
    assert_eq!(
        graph.to_dot_string("to_dot_test"),
        "digraph to_dot_test{\na -> b;\na -> d;\nb -> c;\nc -> d;\n}\n"
    );
    let empty = DiGraph::<String>::new();
    assert_eq!(empty.to_dot_string("e"), "digraph e{\n}\n");
}

#[test]
fn digraph_text_of_numbers() {
    let mut graph = DiGraph::<i32>::new();
    graph.add_node(-12);
    graph.add_node(0);
    graph.add_node(2147483647);
    graph.add_node(-2147483648);
    graph.add_edge(-12, 0);
    graph.add_edge(2147483647, -2147483648);
    assert_eq!(
        graph.to_dot_string("n"),
        "digraph n{\n-12 -> 0;\n2147483647 -> -2147483648;\n}\n"
    );
}

#[test]
fn digraph_round_trip() {
    let graph = letters();
    let text = graph.to_dot_string("g");
    let again = digraph_from_dot_string(&text).unwrap();
    assert_eq!(again.count_nodes(), graph.count_nodes());
    assert_eq!(again.get_nodes(), ["a", "b", "d", "c"]);
    assert_eq!(again.get_neighbors("a".to_string()), ["b", "d"]);
    assert_eq!(
        again.all_simple_paths("a".to_string(), "d".to_string()),
        vec![vec!["a", "b", "c", "d"], vec!["a", "d"]]
    );
    let empty = DiGraph::<String>::new();
    let none = digraph_from_dot_string(&empty.to_dot_string("e")).unwrap();
    assert_eq!(none.count_nodes(), 0);
}

#[test]
fn digraph_from_text_chain() {
    let content = String::from("digraph from_dot_str{\na -> b -> d;\nb -> c;\nc -> d;\nd;\n};\n");
    let graph = digraph_from_dot_string(&content).unwrap();
    assert_eq!(graph.count_nodes(), 4);
    assert_eq!(graph.get_nodes(), ["a", "b", "d", "c"]);
    assert_eq!(graph.get_neighbors("a".to_string()), ["b"]);
    assert_eq!(graph.get_neighbors("b".to_string()), ["d", "c"]);
    assert_eq!(graph.get_neighbors("c".to_string()), ["d"]);
    assert!(graph.get_neighbors("d".to_string()).is_empty());
}

#[test]
fn digraph_from_text_skips_empty_names() {
    let content = String::from("digraph g{ a ->  -> b; -> c;x}");
    let graph = digraph_from_dot_string(&content).unwrap();
    assert_eq!(graph.get_nodes(), ["a", "b", "c"]);
    assert!(graph.get_neighbors("a".to_string()).is_empty());
}

#[test]
fn digraph_from_text_drops_the_character_before_the_brace() {
    let graph = digraph_from_dot_string(&String::from("g{a -> bc}")).unwrap();
    assert_eq!(graph.get_nodes(), ["a", "b"]);
    let graph = digraph_from_dot_string(&String::from("{a}")).unwrap();
    assert_eq!(graph.count_nodes(), 0);
}

#[test]
fn digraph_from_text_refuses_malformed_input() {
    let missing_close = digraph_from_dot_string(&String::from("digraph g{\na -> b;\n"));
    assert_eq!(
        missing_close.err(),
        Some(ParseError::MalformedInput(Malformed::NoClosingBrace))
    );
    let missing_open = digraph_from_dot_string(&String::from("digraph g\na -> b;\n}"));
    assert_eq!(
        missing_open.err(),
        Some(ParseError::MalformedInput(Malformed::NoOpeningBrace))
    );
    let neither = digraph_from_dot_string(&String::new());
    assert_eq!(
        neither.err(),
        Some(ParseError::MalformedInput(Malformed::NoOpeningBrace))
    );
    for text in ["}{", "} a {", "{}", "a}b{c"] {
        let swapped = digraph_from_dot_string(&text.to_string());
        assert_eq!(
            swapped.err(),
            Some(ParseError::MalformedInput(Malformed::BracesOutOfOrder))
        );
    }
}

#[test]
fn parse_error_reasons() {
    let reasons = [
        (Malformed::NoOpeningBrace, "Dot file not correct. { not found."),
        (Malformed::NoClosingBrace, "Dot file not correct. } not found."),
        (Malformed::BracesOutOfOrder, "Dot file not correct. } before {"),
        (Malformed::NoLabel, "Dot file not correct. [ not found."),
        (Malformed::NotOneEdge, "Dot file not correct."),
    ];
    for (what, text) in reasons {
        assert_eq!(ParseError::MalformedInput(what).reason(), text);
    }
}

#[test]
fn node_new_has_no_edges() {
    let node = Node::<u32>::new(5);
    let mut graph = DiGraph::<u32>::new();
    graph.add_node(5);
    assert!(graph.get_neighbors(5).is_empty());
    let _ = node;
}
