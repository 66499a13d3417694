use rugraph::dot::{Malformed, ParseError};
use rugraph::multidigraph::{multidigraph_from_dot_string, MultiDiGraph, MultiNode};
use rugraph::rugraph::{IGraph, IMultiDiGraph};

fn step(a: &str, b: &str, l: &str) -> (String, String, String) {
    (a.to_string(), b.to_string(), l.to_string())
}

#[test]
fn multidigraph_test1() {
    let mut graph = MultiDiGraph::<i32, i32>::new();
    graph.add_node(1);

    let exists = graph.node_exists(1);
    assert_eq!(exists, true);
    let exists = graph.node_exists(99);
    assert_eq!(exists, false);

    graph.add_node(2);
    graph.add_node(3);
    graph.add_node(4);
    graph.add_node(5);
    graph.add_node(6);
    graph.add_node(7);
    graph.add_edge(1, 2, 0);
    graph.add_edge(1, 2, 1);
    graph.add_edge(2, 3, 0);
    graph.add_edge(2, 4, 0);
    graph.add_edge(2, 5, 1);
    graph.add_edge(5, 7, 0);

    let ret = graph.is_directly_connected(1, 2);
    assert_eq!(ret, true);

    let ret = graph.is_directly_connected(1, 3);
    assert_eq!(ret, false);

    let s = graph.get_neighbors(2);
    assert_eq!(s, [(3, 0), (4, 0), (5, 1)]);

    let ret = graph.is_connected(1, 7);
    assert_eq!(ret, true);

    let ret = graph.is_connected(1, 6);
    assert_eq!(ret, false);
}

#[test]
fn multidigraph_generics() {
    let mut graph = MultiDiGraph::<String, String>::new();
    graph.add_node("a".to_string());
    graph.add_node("b".to_string());
    graph.add_node("c".to_string());
    graph.add_node("d".to_string());
    graph.add_edge("a".to_string(), "b".to_string(), "ab".to_string());
    graph.add_edge("b".to_string(), "c".to_string(), "bc".to_string());
    graph.add_edge("c".to_string(), "d".to_string(), "cd".to_string());
    graph.add_edge("a".to_string(), "d".to_string(), "ad".to_string());

    println!("From a to d");
    let paths = graph.all_simple_paths("a".to_string(), "d".to_string());
    println!("{:?}", paths);
    //
    assert_eq!(
        paths,
        vec![
            vec![
                ("a".to_string(), "b".to_string(), "ab".to_string()),
                ("b".to_string(), "c".to_string(), "bc".to_string()),
                ("c".to_string(), "d".to_string(), "cd".to_string())
            ],
            vec![("a".to_string(), "d".to_string(), "ad".to_string())]
        ]
    );

    let s = graph.to_dot_string(&String::from("to_dot_multidigraph_test"));
    println!("Dot:\n{}", s);
    assert_eq!(s.is_empty(), false);
}

#[test]
fn multidigraph_from_dot_str() {
    let content =
        String::from("digraph multidigraph_from_dot_str{\na -> b [label=\"ab\"];\na -> d [label=\"ad\"];\nb -> c [label=\"bc\"];\nc -> d [label=\"cd\"];\n}");

    let graph = match multidigraph_from_dot_string(&content) {
        Ok(v) => v,
        Err(e) => {
            println!("Error {}", e.reason());
            MultiDiGraph::<String, String>::new()
        }
    };

    assert_eq!(graph.count_nodes(), 4);
    let s = graph.to_dot_string(&String::from("multidigraph_from_dot_str"));
    println!("{}", s);
}

#[test]
fn all_paths() {
    let mut graph = MultiDiGraph::<String, String>::new();
    graph.add_node("a".to_string());
    graph.add_node("b".to_string());
    graph.add_node("c".to_string());
    graph.add_node("d".to_string());
    graph.add_node("e".to_string());
    graph.add_node("f".to_string());

    graph.add_edge("a".to_string(), "b".to_string(), "ab0".to_string());
    graph.add_edge("a".to_string(), "b".to_string(), "ab1".to_string());
    graph.add_edge("b".to_string(), "c".to_string(), "bc0".to_string());
    graph.add_edge("b".to_string(), "c".to_string(), "bc1".to_string());
    graph.add_edge("c".to_string(), "d".to_string(), "cd".to_string());
    graph.add_edge("d".to_string(), "e".to_string(), "de".to_string());
    graph.add_edge("d".to_string(), "a".to_string(), "da".to_string());
    graph.add_edge("c".to_string(), "e".to_string(), "ce".to_string());
    graph.add_edge("e".to_string(), "f".to_string(), "ef".to_string());
    graph.add_edge("a".to_string(), "d".to_string(), "ad".to_string());

    println!("From a to d");
    let paths = graph.all_simple_paths("a".to_string(), "f".to_string());
    println!("Len {} {:?}", paths.len(), paths);

    assert_eq!(
        paths,
        vec![
            vec![
                ("a".to_string(), "b".to_string(), "ab0".to_string()),
                ("b".to_string(), "c".to_string(), "bc0".to_string()),
                ("c".to_string(), "d".to_string(), "cd".to_string()),
                ("d".to_string(), "e".to_string(), "de".to_string()),
                ("e".to_string(), "f".to_string(), "ef".to_string())
            ],
            vec![
                ("a".to_string(), "b".to_string(), "ab0".to_string()),
                ("b".to_string(), "c".to_string(), "bc0".to_string()),
                ("c".to_string(), "e".to_string(), "ce".to_string()),
                ("e".to_string(), "f".to_string(), "ef".to_string())
            ],
            vec![
                ("a".to_string(), "b".to_string(), "ab0".to_string()),
                ("b".to_string(), "c".to_string(), "bc1".to_string()),
                ("c".to_string(), "d".to_string(), "cd".to_string()),
                ("d".to_string(), "e".to_string(), "de".to_string()),
                ("e".to_string(), "f".to_string(), "ef".to_string())
            ],
            vec![
                ("a".to_string(), "b".to_string(), "ab0".to_string()),
                ("b".to_string(), "c".to_string(), "bc1".to_string()),
                ("c".to_string(), "e".to_string(), "ce".to_string()),
                ("e".to_string(), "f".to_string(), "ef".to_string())
            ],
            vec![
                ("a".to_string(), "b".to_string(), "ab1".to_string()),
                ("b".to_string(), "c".to_string(), "bc0".to_string()),
                ("c".to_string(), "d".to_string(), "cd".to_string()),
                ("d".to_string(), "e".to_string(), "de".to_string()),
                ("e".to_string(), "f".to_string(), "ef".to_string())
            ],
            vec![
                ("a".to_string(), "b".to_string(), "ab1".to_string()),
                ("b".to_string(), "c".to_string(), "bc0".to_string()),
                ("c".to_string(), "e".to_string(), "ce".to_string()),
                ("e".to_string(), "f".to_string(), "ef".to_string())
            ],
            vec![
                ("a".to_string(), "b".to_string(), "ab1".to_string()),
                ("b".to_string(), "c".to_string(), "bc1".to_string()),
                ("c".to_string(), "d".to_string(), "cd".to_string()),
                ("d".to_string(), "e".to_string(), "de".to_string()),
                ("e".to_string(), "f".to_string(), "ef".to_string())
            ],
            vec![
                ("a".to_string(), "b".to_string(), "ab1".to_string()),
                ("b".to_string(), "c".to_string(), "bc1".to_string()),
                ("c".to_string(), "e".to_string(), "ce".to_string()),
                ("e".to_string(), "f".to_string(), "ef".to_string())
            ],
            vec![
                ("a".to_string(), "d".to_string(), "ad".to_string()),
                ("d".to_string(), "e".to_string(), "de".to_string()),
                ("e".to_string(), "f".to_string(), "ef".to_string())
            ]
        ]
    );

    println!("-----");
    for p in paths {
        println!("{:?}", p)
    }

    let s = graph.to_dot_string(&String::from("to_dot_multidigraph_test"));
    println!("Dot:\n{}", s);
    assert_eq!(s.is_empty(), false);
}

#[test]
fn multidigraph_add_node_twice_keeps_count() {
    let mut graph = MultiDiGraph::<String, u32>::new();
    assert!(graph.is_empty());
    graph.add_node("n".to_string());
    graph.add_node("n".to_string());
    assert_eq!(graph.count_nodes(), 1);
    assert_eq!(graph.get_nodes(), ["n"]);
}

#[test]
fn multidigraph_edge_between_absent_nodes_changes_nothing() {
    let mut graph = MultiDiGraph::<u32, u32>::new();
    graph.add_edge(1, 2, 0);
    assert!(graph.is_empty());
    assert!(graph.get_neighbors(1).is_empty());
    graph.add_node(1);
    graph.add_edge(1, 2, 0);
    assert!(graph.get_neighbors(1).is_empty());
    assert!(!graph.is_directly_connected_by(1, 2, 0));
}

#[test]
fn multidigraph_same_edge_twice_is_kept_once() {
    let mut graph = MultiDiGraph::<u32, u32>::new();
    graph.add_node(1);
    graph.add_node(2);
    graph.add_edge(1, 2, 7);
    graph.add_edge(1, 2, 7);
    graph.add_edge(1, 2, 8);
    assert_eq!(graph.get_neighbors(1), [(2, 7), (2, 8)]);
    assert!(graph.is_directly_connected_by(1, 2, 7));
    assert!(graph.is_directly_connected_by(1, 2, 8));
    assert!(!graph.is_directly_connected_by(1, 2, 9));
    assert!(!graph.is_directly_connected_by(2, 1, 7));
    assert!(graph.is_directly_connected(1, 2));
    assert!(!graph.is_directly_connected(2, 1));
}

#[test]
fn multidigraph_paths_back_to_the_start_are_none() {
    let mut graph = MultiDiGraph::<u32, u32>::new();
    graph.add_node(1);
    graph.add_node(2);
    graph.add_edge(1, 2, 0);
    graph.add_edge(2, 1, 0);
    assert!(graph.all_simple_paths(1, 1).is_empty());
    assert!(graph.is_connected(1, 1));
    assert_eq!(graph.all_simple_paths(1, 2), vec![vec![(1, 2, 0)]]);
    assert!(graph.all_simple_paths(1, 3).is_empty());
    assert!(graph.all_simple_paths(3, 1).is_empty());
}

#[test]
fn multidigraph_lookup_by_value() {
    let mut graph = MultiDiGraph::<u32, u32>::new();
    graph.add_node(10);
    graph.add_node(20);
    assert_eq!(graph.get_index_by_node_id(20).ok(), Some(1));
    assert!(graph.get_index_by_node_id(30).is_err());
}

#[test]
fn multidigraph_text() {
    let mut graph = MultiDiGraph::<String, u64>::new();
    graph.add_node("a".to_string());
    graph.add_node("b".to_string());
    graph.add_edge("a".to_string(), "b".to_string(), 10);
    graph.add_edge("b".to_string(), "a".to_string(), 0);
    graph.add_edge("a".to_string(), "b".to_string(), 18446744073709551615);
    assert_eq!(
        graph.to_dot_string("m"),
        "digraph m{\na -> b [label=\"10\"];\na -> b [label=\"18446744073709551615\"];\nb -> a [label=\"0\"];\n}\n"
    );
}

#[test]
fn multidigraph_round_trip() {
    let mut graph = MultiDiGraph::<String, String>::new();
    for name in ["a", "b", "c", "d"] {
        graph.add_node(name.to_string());
    }
    graph.add_edge("a".to_string(), "b".to_string(), "ab".to_string());
    graph.add_edge("b".to_string(), "c".to_string(), "bc".to_string());
    graph.add_edge("c".to_string(), "d".to_string(), "cd".to_string());
    graph.add_edge("a".to_string(), "d".to_string(), "ad".to_string());
    let text = graph.to_dot_string("g");
    let again = multidigraph_from_dot_string(&text).unwrap();
    assert_eq!(again.count_nodes(), graph.count_nodes());
    assert_eq!(
        again.all_simple_paths("a".to_string(), "d".to_string()),
        vec![
            vec![step("a", "b", "ab"), step("b", "c", "bc"), step("c", "d", "cd")],
            vec![step("a", "d", "ad")]
        ]
    );
    assert_eq!(again.get_nodes(), ["a", "b", "d", "c"]);
    assert_eq!(
        again.to_dot_string("g"),
        "digraph g{\na -> b [label=\"ab\"];\na -> d [label=\"ad\"];\nb -> c [label=\"bc\"];\nc -> d [label=\"cd\"];\n}\n"
    );
}

#[test]
fn multidigraph_from_text_reads_labels() {
    let content = String::from("digraph g{\n  x -> y   [label=\"one two\"];\nx -> y [label=\"b\"];\n}");
    let graph = multidigraph_from_dot_string(&content).unwrap();
    assert_eq!(graph.get_nodes(), ["x", "y"]);
    assert_eq!(
        graph.get_neighbors("x".to_string()),
        [
            ("y".to_string(), "one two".to_string()),
            ("y".to_string(), "b".to_string())
        ]
    );
}

#[test]
fn multidigraph_from_text_refuses_malformed_input() {
    let cases = [
        ("digraph g\na -> b [label=\"l\"];\n}", Malformed::NoOpeningBrace),
        ("digraph g{\na -> b [label=\"l\"];\n", Malformed::NoClosingBrace),
        ("}{", Malformed::BracesOutOfOrder),
        ("digraph g{\na -> b;\n}", Malformed::NoLabel),
        ("digraph g{\na -> b [label=\"l\"];\n\n}", Malformed::NoLabel),
        ("digraph g{\na -> b -> c [label=\"l\"];\n}", Malformed::NotOneEdge),
        ("digraph g{\na [label=\"l\"];\n}", Malformed::NotOneEdge),
        ("digraph g{[label=\"l\"];\n}", Malformed::NotOneEdge),
    ];
    for (text, what) in cases {
        let r = multidigraph_from_dot_string(&text.to_string());
        assert_eq!(r.err(), Some(ParseError::MalformedInput(what)));
    }
}

#[test]
fn multidigraph_from_text_cuts_one_character_before_the_bracket() {
    let content = String::from("g{a -> b[label=\"x\"];}");
    let graph = multidigraph_from_dot_string(&content).unwrap();
    assert_eq!(graph.get_nodes(), ["a", ""]);
    assert_eq!(
        graph.get_neighbors("a".to_string()),
        [("".to_string(), "bx".to_string())]
    );
}

#[test]
fn multinode_new_has_no_edges() {
    let node = MultiNode::<u32, u32>::new(5);
    let _ = node;
    let mut graph = MultiDiGraph::<u32, u32>::new();
    graph.add_node(5);
    assert!(graph.get_neighbors(5).is_empty());
}
