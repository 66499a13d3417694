use rugraph::dot::{Malformed, ParseError};
use rugraph::graph::{graph_from_dot_string, Graph};
use rugraph::rugraph::{IDiGraph, IGraph};

#[test]
fn graph_it_works() {
    let mut graph = Graph::<i32>::new();
    graph.add_node(1);

    let exists = graph.node_exists(1);
    assert_eq!(exists, true);
    let exists = graph.node_exists(99);
    assert_eq!(exists, false);

    graph.add_node(2);
    graph.add_node(3);
    graph.add_node(4);
    graph.add_node(5);
    graph.add_node(6);
    graph.add_node(7);
    graph.add_edge(1, 2);
    graph.add_edge(2, 3);
    graph.add_edge(2, 4);
    graph.add_edge(2, 5);
    graph.add_edge(5, 7);

    let ret = graph.is_directly_connected(1, 2);
    assert_eq!(ret, true);

    let ret = graph.is_directly_connected(1, 3);
    assert_eq!(ret, false);

    let s = graph.get_neighbors(2);
    assert_eq!(s, [1, 3, 4, 5]);

    let ret = graph.is_connected(1, 7);
    assert_eq!(ret, true);

    let ret = graph.is_connected(7, 1);
    assert_eq!(ret, true);

    let ret = graph.is_connected(1, 6);
    assert_eq!(ret, false);
}

#[test]
fn graph_paths() {
    let mut graph = Graph::<i32>::new();
    graph.add_node(1);
    graph.add_node(1);
    graph.add_node(1);
    graph.add_node(1);
    graph.add_node(2);
    graph.add_node(3);
    graph.add_node(4);
    graph.add_node(5);
    graph.add_node(6);
    graph.add_node(7);
    graph.add_node(8);
    graph.add_node(9);
    graph.add_node(10);
    graph.add_node(11);

    graph.add_edge(1, 2);
    graph.add_edge(1, 2);
    graph.add_edge(1, 2);
    graph.add_edge(1, 5);
    graph.add_edge(2, 3);
    graph.add_edge(3, 4);
    graph.add_edge(3, 9);
    graph.add_edge(9, 10);
    graph.add_edge(9, 11);

    graph.add_edge(4, 5);

    graph.add_edge(3, 7);
    graph.add_edge(7, 6);
    graph.add_edge(7, 8);

    graph.add_edge(8, 5);
    graph.add_edge(10, 5);

    let ret = graph.is_connected(1, 5);
    println!(
        "1 connected to 5?{} 5 to 1?{}",
        ret,
        graph.is_connected(5, 1)
    );
    assert_eq!(ret, true);
    assert_eq!(graph.count_nodes(), 11);
    assert_eq!(graph.get_neighbors(1), [2, 5]);
}

#[test]
fn graph_generics() {
    let mut graph = Graph::<String>::new();
    graph.add_node("a".to_string());
    graph.add_node("b".to_string());
    graph.add_node("c".to_string());
    graph.add_node("d".to_string());
    graph.add_edge("a".to_string(), "b".to_string());
    graph.add_edge("b".to_string(), "c".to_string());
    graph.add_edge("c".to_string(), "d".to_string());
    graph.add_edge("a".to_string(), "d".to_string());

    let paths = graph.all_simple_paths("a".to_string(), "d".to_string());
    println!("{:?}", paths);

    assert_eq!(paths, vec![vec!["a", "b", "c", "d"], vec!["a", "d"]]);
}

#[test]
fn graph_to_dot() {
    let mut graph = Graph::<String>::new();
    graph.add_node("a".to_string());
    graph.add_node("b".to_string());
    graph.add_node("c".to_string());
    graph.add_node("d".to_string());
    graph.add_edge("a".to_string(), "b".to_string());
    graph.add_edge("b".to_string(), "c".to_string());
    graph.add_edge("c".to_string(), "d".to_string());
    graph.add_edge("a".to_string(), "d".to_string());
    let s = graph.to_dot_string(&String::from("to_dot_test"));
    println!("Dot:\n{}", s);
    assert_eq!(s.is_empty(), false);
    assert_eq!(
        s,
        "graph to_dot_test{\na -- b;\na -- d;\nb -- a;\nb -- c;\nc -- b;\nc -- d;\nd -- c;\nd -- a;\n}\n"
    );
}

#[test]
fn graph_from_dot_str() {
    let content =
        String::from("digraph from_dot_str{\na -> b -> d;\nb -> c;\nc -> d;\nd;\n};\n");

    let graph = match graph_from_dot_string(&content) {
        Ok(v) => v,
        Err(e) => {
            println!("Error {}", e.reason());
            Graph::<String>::new()
        }
    };

    assert_eq!(graph.count_nodes(), 4);
    let s = graph.to_dot_string(&String::from("from_dot_str"));
    println!("{}", s);
}

#[test]
fn graph_from_dot_str_mirrors_edges() {
    let content = String::from("digraph g{\na -> b -> d;\nb -> c;\n}\n");
    let graph = graph_from_dot_string(&content).unwrap();
    assert_eq!(graph.get_nodes(), ["a", "b", "d", "c"]);
    assert_eq!(graph.get_neighbors("b".to_string()), ["a", "d", "c"]);
    assert_eq!(graph.get_neighbors("d".to_string()), ["b"]);
    assert!(graph.is_directly_connected("d".to_string(), "b".to_string()));
}

#[test]
fn graph_from_dot_str_refuses_missing_braces() {
    assert_eq!(
        graph_from_dot_string(&String::from("graph g a -- b; }")).err(),
        Some(ParseError::MalformedInput(Malformed::NoOpeningBrace))
    );
    assert_eq!(
        graph_from_dot_string(&String::from("graph g {\na -> b;\n")).err(),
        Some(ParseError::MalformedInput(Malformed::NoClosingBrace))
    );
    assert_eq!(
        graph_from_dot_string(&String::from("} graph g {")).err(),
        Some(ParseError::MalformedInput(Malformed::BracesOutOfOrder))
    );
}

#[test]
fn undirected_edges_are_mirrored() {
    let mut graph = Graph::<String>::new();
    for name in ["a", "b", "c", "d"] {
        graph.add_node(name.to_string());
    }
    graph.add_edge("a".to_string(), "b".to_string());
    graph.add_edge("b".to_string(), "c".to_string());
    graph.add_edge("c".to_string(), "d".to_string());
    graph.add_edge("a".to_string(), "d".to_string());
    assert_eq!(graph.is_connected("d".to_string(), "a".to_string()), true);
    assert_eq!(graph.is_directly_connected("d".to_string(), "a".to_string()), true);
    assert_eq!(graph.get_neighbors("d".to_string()), ["c", "a"]);
    assert_eq!(graph.get_neighbors("a".to_string()), ["b", "d"]);
}

#[test]
fn undirected_add_node_twice_keeps_count() {
    let mut graph = Graph::<u32>::new();
    assert!(graph.is_empty());
    graph.add_node(7);
    assert_eq!(graph.count_nodes(), 1);
    graph.add_node(7);
    assert_eq!(graph.count_nodes(), 1);
    assert!(!graph.is_empty());
    assert_eq!(graph.get_nodes(), [7]);
}

#[test]
fn undirected_edge_between_absent_nodes_changes_nothing() {
    let mut graph = Graph::<u32>::new();
    graph.add_edge(1, 2);
    assert_eq!(graph.count_nodes(), 0);
    assert!(graph.get_neighbors(1).is_empty());
    graph.add_node(1);
    graph.add_edge(1, 2);
    assert!(graph.get_neighbors(1).is_empty());
    assert!(!graph.is_directly_connected(1, 2));
}

#[test]
fn undirected_text_replaces_inside_names_too() {
    let mut graph = Graph::<String>::new();
    graph.add_node("x->y".to_string());
    graph.add_node("digraphs".to_string());
    graph.add_edge("x->y".to_string(), "digraphs".to_string());
    let s = graph.to_dot_string("digraph");
    assert_eq!(s, "graph graph{\nx--y -- graphs;\ngraphs -- x--y;\n}\n");
}
