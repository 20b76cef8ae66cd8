use graph::{Graph, Node, StructuralViolation};

fn dialogue() -> Graph<&'static str, &'static str> {
    let mut graph = Graph::new();
    let nodes = vec![
        Node::new(
            "Hallo, willst du etwas Essen gehen, oder einen Sitzplatz buchen?",
            "Start",
            None,
        ),
        Node::new(
            "Ok, was willst du essen? Pizza oder Pasta?",
            "Essen",
            Some("Start"),
        ),
        Node::new(
            "Ok, willst du am Fenster oder am Gang sitzen?",
            "Sitzplatz",
            Some("Start"),
        ),
        Node::new(
            "Ok, dann einen Sitzlatz am Gang. Bis dann!",
            "Gang",
            Some("Sitzplatz"),
        ),
    ];
    for node in nodes.into_iter() {
        assert_eq!(graph.append_node(node), Ok(()));
    }
    graph
}

#[test]
fn it_works() {
    let first_node = Node::new(
        "Hallo, willst du etwas Essen gehen, oder einen Sitzplatz buchen?",
        "Start",
        None,
    );
    let second_node = Node::new(
        "Ok, was willst du essen? Pizza oder Pasta?",
        "Essen",
        Some("Start"),
    );
    let third_node = Node::new(
        "Ok, willst du am Fenster oder am Gang sitzen?",
        "Sitzplatz",
        Some("Start"),
    );
    let fourth_node = Node::new(
        "Ok, dann einen Sitzlatz am Gang. Bis dann!",
        "Gang",
        Some("Sitzplatz"),
    );

    let nodes = vec![first_node, second_node, third_node, fourth_node];
    let mut graph = Graph::new();

    for node in nodes.into_iter() {
        assert!(graph.append_node(node).is_ok());
    }
    assert_eq!(graph.len(), 4);
    let node = graph.travel_to_node(&["Sitzplatz", "Gang"]);
    assert_eq!(
        node.unwrap().data,
        "Ok, dann einen Sitzlatz am Gang. Bis dann!"
    );

    graph.remove_node_with_childs("Sitzplatz");

    assert_eq!(graph.len(), 2);
}

#[test]
fn travel_along_a_chain() {
    let mut graph = Graph::new();
    assert_eq!(graph.append_node(Node::new(10u32, 1u64, None)), Ok(()));
    assert_eq!(graph.append_node(Node::new(20u32, 2u64, Some(1u64))), Ok(()));
    assert_eq!(graph.append_node(Node::new(30u32, 3u64, Some(2u64))), Ok(()));
    assert_eq!(graph.travel_to_node(&[2, 3]).map(|n| n.data), Some(30));
    assert_eq!(graph.travel_to_node(&[]).map(|n| n.data), Some(10));
    assert!(graph.travel_to_node(&[99]).is_none());
}

#[test]
fn travel_needs_each_step_to_be_a_child() {
    let graph = dialogue();
    assert!(graph.travel_to_node(&["Gang"]).is_none());
    assert!(graph.travel_to_node(&["Essen", "Gang"]).is_none());
    assert_eq!(
        graph.travel_to_node(&["Essen"]).map(|n| n.data),
        Some("Ok, was willst du essen? Pizza oder Pasta?")
    );
}

#[test]
fn travel_on_empty_tree() {
    let graph: Graph<u8, u8> = Graph::new();
    assert!(graph.travel_to_node(&[]).is_none());
    assert!(graph.travel_to_node(&[1]).is_none());
}

#[test]
fn cascading_delete() {
    let mut graph = dialogue();
    assert_eq!(graph.len(), 4);
    graph.remove_node_with_childs("Sitzplatz");
    assert_eq!(graph.len(), 2);
    assert!(graph.travel_to_node(&["Sitzplatz"]).is_none());
    assert!(graph.travel_to_node(&["Sitzplatz", "Gang"]).is_none());
    assert_eq!(
        graph.travel_to_node(&[]).map(|n| n.data),
        Some("Hallo, willst du etwas Essen gehen, oder einen Sitzplatz buchen?")
    );
    assert_eq!(
        graph.travel_to_node(&["Essen"]).map(|n| n.data),
        Some("Ok, was willst du essen? Pizza oder Pasta?")
    );
}

#[test]
fn removed_key_stays_in_the_parent_children() {
    let mut graph = dialogue();
    graph.remove_node_with_childs("Sitzplatz");
    assert_eq!(graph.append_node(Node::new("neu", "Sitzplatz", Some("Essen"))), Ok(()));
    assert_eq!(graph.travel_to_node(&["Essen", "Sitzplatz"]).map(|n| n.data), Some("neu"));
    assert_eq!(graph.travel_to_node(&["Sitzplatz"]).map(|n| n.data), Some("neu"));
}

#[test]
fn remove_absent_key_changes_nothing() {
    let mut graph = dialogue();
    graph.remove_node_with_childs("Fenster");
    assert_eq!(graph.len(), 4);
    assert!(graph.travel_to_node(&["Sitzplatz", "Gang"]).is_some());
}

#[test]
fn remove_leaf_removes_one() {
    let mut graph = dialogue();
    graph.remove_node_with_childs("Gang");
    assert_eq!(graph.len(), 3);
    assert!(graph.travel_to_node(&["Sitzplatz"]).is_some());
}

#[test]
fn remove_root_empties_tree() {
    let mut graph = dialogue();
    graph.remove_node_with_childs("Start");
    assert_eq!(graph.len(), 0);
    assert!(graph.is_empty());
    assert!(graph.travel_to_node(&[]).is_none());
}

#[test]
fn second_root_is_rejected() {
    let mut graph = dialogue();
    let r = graph.append_node(Node::new("zweiter", "Zweiter", None));
    assert_eq!(r, Err(StructuralViolation::MissingParent));
    assert_eq!(graph.len(), 4);
}

#[test]
fn unknown_parent_is_rejected() {
    let mut graph = dialogue();
    let r = graph.append_node(Node::new("x", "Fenster", Some("Tisch")));
    assert_eq!(r, Err(StructuralViolation::ParentNotFound));
    assert_eq!(graph.len(), 4);
    assert!(graph.travel_to_node(&["Fenster"]).is_none());
}

#[test]
fn first_node_with_parent_is_rejected() {
    let mut graph = Graph::new();
    let r = graph.append_node(Node::new(1u8, 1u8, Some(0u8)));
    assert_eq!(r, Err(StructuralViolation::RootHasParent));
    assert!(graph.is_empty());
}

#[test]
fn duplicate_key_is_rejected() {
    let mut graph = dialogue();
    let r = graph.append_node(Node::new("x", "Gang", Some("Essen")));
    assert_eq!(r, Err(StructuralViolation::DuplicateKey));
    assert_eq!(graph.len(), 4);
}

#[test]
fn append_adds_one_node() {
    let mut graph = Graph::new();
    assert!(graph.is_empty());
    assert_eq!(graph.append_node(Node::new('a', 0u16, None)), Ok(()));
    assert_eq!(graph.len(), 1);
    assert!(!graph.is_empty());
    assert_eq!(graph.append_node(Node::new('b', 1u16, Some(0u16))), Ok(()));
    assert_eq!(graph.len(), 2);
    assert_eq!(graph.travel_to_node(&[1]).map(|n| n.data), Some('b'));
}

#[test]
fn children_are_recorded_on_the_parent() {
    let graph = dialogue();
    let root = graph.travel_to_node(&[]).unwrap();
    assert!(root.has_child(&"Essen"));
    assert!(root.has_child(&"Sitzplatz"));
    assert!(!root.has_child(&"Gang"));
    let fresh = Node::new(0u8, 5u8, None);
    assert!(!fresh.has_child(&5));
}

#[test]
fn default_is_empty() {
    let graph: Graph<u8, u8> = Graph::default();
    assert_eq!(graph.len(), 0);
    assert!(graph.is_empty());
}
