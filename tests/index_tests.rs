use ext_server::index::{IndexNode, StoredNode};

fn entries(node: &IndexNode<String>, token: &str) -> Vec<(String, u8)> {
    node.find(token)
}

#[test]
fn test_tri_insert() {
    let mut node: IndexNode<String> = IndexNode::new();

    node.insert("test-ing", "This is the value".to_string(), 1);
    node.insert("test-ing", "This is the value".to_string(), 4);
    node.insert("test-inga", "This is the value".to_string(), 4);

    println!("{:?}", node.find("test-inga"));
    assert_eq!(node.find("test-inga"), vec![("This is the value".to_string(), 4)]);
    assert_eq!(node.find("test-ing"), vec![("This is the value".to_string(), 1)]);
}

#[test]
fn find_is_exact_path_only() {
    let mut node: IndexNode<String> = IndexNode::new();
    node.insert("fish", "a".to_string(), 3);
    node.insert("fishmonger", "b".to_string(), 5);
    assert_eq!(entries(&node, "fish"), vec![("a".to_string(), 3)]);
    assert_eq!(entries(&node, "fishmonger"), vec![("b".to_string(), 5)]);
    assert!(entries(&node, "fis").is_empty());
    assert!(entries(&node, "fishes").is_empty());
    assert!(entries(&node, "").is_empty());
}

#[test]
fn empty_token_is_the_root() {
    let mut node: IndexNode<String> = IndexNode::new();
    node.insert("", "root".to_string(), 2);
    node.insert("x", "child".to_string(), 1);
    assert_eq!(entries(&node, ""), vec![("root".to_string(), 2)]);
}

#[test]
fn entries_keep_insertion_order() {
    let mut node: IndexNode<String> = IndexNode::new();
    node.insert("run", "b".to_string(), 1);
    node.insert("run", "a".to_string(), 9);
    node.insert("run", "b".to_string(), 7);
    node.insert("run", "c".to_string(), 0);
    assert_eq!(
        entries(&node, "run"),
        vec![("b".to_string(), 1), ("a".to_string(), 9), ("c".to_string(), 0)]
    );
}

#[test]
fn stored_nodes_round_trip() {
    let mut node: IndexNode<String> = IndexNode::new();
    node.insert("fish", "a".to_string(), 10);
    node.insert("fish", "b".to_string(), 1);
    node.insert("fig", "c".to_string(), 4);
    node.insert("dog", "a".to_string(), 2);
    let stored: Vec<StoredNode<String>> = node.to_nodes();
    assert_eq!(stored[0].path, "");
    assert!(stored.iter().any(|n| n.path == "fis" && n.rank.is_empty()));
    let root_children: Vec<char> = stored[0].children.iter().map(|c| c.0).collect();
    assert_eq!(root_children, vec!['f', 'd']);
    let back = IndexNode::from_nodes(&stored);
    for token in ["", "f", "fi", "fis", "fish", "fig", "dog", "do", "cat", "fishy"] {
        assert_eq!(back.find(token), node.find(token), "token {:?}", token);
    }
}

#[test]
fn rebuilding_merges_repeated_paths() {
    let nodes = vec![
        StoredNode { path: "ab".to_string(), rank: vec![("x".to_string(), 1)], children: vec![] },
        StoredNode {
            path: "ab".to_string(),
            rank: vec![("x".to_string(), 5), ("y".to_string(), 2)],
            children: vec![],
        },
    ];
    let node = IndexNode::from_nodes(&nodes);
    assert_eq!(node.find("ab"), vec![("x".to_string(), 1), ("y".to_string(), 2)]);
    assert!(node.find("a").is_empty());
}
