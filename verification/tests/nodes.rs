use dbc_rs::{Error, Nodes, NodesBuilder, Parser, MAX_NODES};

#[test]
fn nodes_test_nodes_from_valid_line() {
    let line = b"BU_: ECM TCM BCM ABS";
    let mut parser = Parser::new(line).unwrap();
    let nodes = Nodes::parse(&mut parser).unwrap();
    let mut iter = nodes.iter();
    assert_eq!(iter.next(), Some("ECM"));
    assert_eq!(iter.next(), Some("TCM"));
    assert_eq!(iter.next(), Some("BCM"));
    assert_eq!(iter.next(), Some("ABS"));
    assert_eq!(iter.next(), None);
}

#[test]
fn nodes_test_nodes_from_single_node() {
    let line = b"BU_: ONLYONE";
    let mut parser = Parser::new(line).unwrap();
    let nodes = Nodes::parse(&mut parser).unwrap();
    let mut iter = nodes.iter();
    assert_eq!(iter.next(), Some("ONLYONE"));
    assert_eq!(iter.next(), None);
}

#[test]
fn nodes_test_nodes_from_with_extra_spaces() {
    let line = b"BU_:   Node1   Node2   ";
    let mut parser = Parser::new(line).unwrap();
    let nodes = Nodes::parse(&mut parser).unwrap();
    let mut iter = nodes.iter();
    assert_eq!(iter.next(), Some("Node1"));
    assert_eq!(iter.next(), Some("Node2"));
    assert_eq!(iter.next(), None);
}

#[test]
fn nodes_test_nodes_from_empty_list() {
    let line = b"BU_:";
    let mut parser = Parser::new(line).unwrap();
    let nodes = Nodes::parse(&mut parser).unwrap();
    assert!(nodes.is_empty());
    assert!(nodes.nodes().is_none());
}

#[test]
fn nodes_test_nodes_parse_duplicate() {
    let line = b"BU_: ECM TCM ECM";
    let mut parser = Parser::new(line).unwrap();
    let result = Nodes::parse(&mut parser);
    assert!(result.is_err());
    match result.unwrap_err() {
        Error::Nodes(msg) => assert!(msg == Error::NODES_DUPLICATE_NAME),
        _ => panic!("Expected Error::Nodes"),
    }
}

#[test]
fn test_nodes_new() {
    let nodes = Nodes::new(&["ECM", "TCM", "BCM"]).unwrap();
    assert!(nodes.contains("ECM"));
    assert!(nodes.contains("TCM"));
    assert!(nodes.contains("BCM"));
    assert!(!nodes.contains("ABS"));
    assert_eq!(nodes.nodes().unwrap().len(), 3);
}

#[test]
fn test_nodes_new_from_vec() {
    let node_vec = vec!["Node1", "Node2", "Node3"];
    let nodes = Nodes::new(&node_vec).unwrap();
    assert!(nodes.contains("Node1"));
    assert_eq!(nodes.nodes().unwrap().len(), 3);
}

#[test]
fn test_nodes_new_from_slice() {
    let node_slice = &["A", "B", "C"][..];
    let nodes = Nodes::new(node_slice).unwrap();
    assert!(nodes.contains("A"));
    assert_eq!(nodes.nodes().unwrap().len(), 3);
}

#[test]
fn test_nodes_new_duplicate() {
    let result = Nodes::new(&["ECM", "TCM", "ECM"]);
    assert!(result.is_err());
    match result.unwrap_err() {
        Error::Nodes(msg) => assert!(msg.contains("Duplicate node name")),
        _ => panic!("Expected Nodes error"),
    }
}

#[test]
fn test_nodes_to_string_single() {
    let nodes = Nodes::new(&["ECM"]).unwrap();
    assert_eq!(nodes.to_string(), "ECM");
}

#[test]
fn test_nodes_to_string_multiple() {
    let nodes = Nodes::new(&["ECM", "TCM", "BCM"]).unwrap();
    assert_eq!(nodes.to_string(), "ECM TCM BCM");
}

#[test]
fn test_nodes_to_dbc_string() {
    let nodes_single = Nodes::new(&["ECM"]).unwrap();
    assert_eq!(nodes_single.to_dbc_string(), "BU_: ECM");

    let nodes_multiple = Nodes::new(&["ECM", "TCM", "BCM"]).unwrap();
    assert_eq!(nodes_multiple.to_dbc_string(), "BU_: ECM TCM BCM");
}

#[test]
fn nodes_test_nodes_builder_duplicate() {
    let result = Nodes::builder().add_node("ECM").add_node("TCM").add_node("ECM").build();
    assert!(result.is_err());
    match result.unwrap_err() {
        Error::Nodes(msg) => assert!(msg.contains("Duplicate node name")),
        _ => panic!("Expected Nodes error"),
    }
}

#[test]
fn nodes_builder_test_nodes_builder_duplicate() {
    let result = NodesBuilder::new().add_node("ECM").add_node("TCM").add_node("ECM").build();
    assert!(result.is_err());
    match result.unwrap_err() {
        Error::Nodes(msg) => assert!(msg.contains(Error::NODES_DUPLICATE_NAME)),
        _ => panic!("Expected Nodes error"),
    }
}

#[test]
fn nodes_builder_test_nodes_builder_too_many() {
    let mut builder = NodesBuilder::new();
    for i in 0..257 {
        builder = builder.add_node(&format!("Node{i}"));
    }
    let result = builder.build();
    assert!(result.is_err());
    match result.unwrap_err() {
        Error::Nodes(msg) => {
            assert!(msg.contains(Error::NODES_TOO_MANY));
        }
        _ => panic!("Expected Nodes error"),
    }
}

#[test]
fn nodes_builder_test_nodes_builder_add_nodes() {
    let nodes = NodesBuilder::new().add_nodes(&["ECM", "TCM", "BCM"]).build().unwrap();
    assert_eq!(nodes.len(), 3);
    assert!(nodes.contains("ECM"));
    assert!(nodes.contains("TCM"));
    assert!(nodes.contains("BCM"));
}

#[test]
fn nodes_builder_test_nodes_builder_add_nodes_iterator() {
    let node_vec = ["Node1", "Node2", "Node3"];
    let nodes = NodesBuilder::new().add_nodes(&node_vec).build().unwrap();
    assert_eq!(nodes.len(), 3);
    assert!(nodes.contains("Node1"));
}

#[test]
fn nodes_builder_test_nodes_builder_clear() {
    let nodes = NodesBuilder::new()
        .add_node("ECM")
        .add_node("TCM")
        .clear()
        .add_node("BCM")
        .build()
        .unwrap();
    assert_eq!(nodes.len(), 1);
    assert!(nodes.contains("BCM"));
    assert!(!nodes.contains("ECM"));
    assert!(!nodes.contains("TCM"));
}

#[test]
fn nodes_builder_test_nodes_builder_validate() {
    let builder = NodesBuilder::new().add_node("ECM").add_node("TCM");
    let validated = builder.validate().unwrap();
    let nodes = validated.build().unwrap();
    assert_eq!(nodes.len(), 2);
}

#[test]
fn nodes_builder_test_nodes_builder_validate_duplicate() {
    let builder = NodesBuilder::new().add_node("ECM").add_node("TCM").add_node("ECM");
    let result = builder.validate();
    assert!(result.is_err());
    match result.unwrap_err() {
        Error::Nodes(msg) => assert!(msg.contains(Error::NODES_DUPLICATE_NAME)),
        _ => panic!("Expected Nodes error"),
    }
}

#[test]
fn nodes_builder_test_nodes_builder_validate_too_many() {
    let mut builder = NodesBuilder::new();
    for i in 0..257 {
        builder = builder.add_node(&format!("Node{i}"));
    }
    let result = builder.validate();
    assert!(result.is_err());
    match result.unwrap_err() {
        Error::Nodes(msg) => assert!(msg.contains(Error::NODES_TOO_MANY)),
        _ => panic!("Expected Nodes error"),
    }
}

#[test]
fn nodes_builder_test_nodes_builder_empty() {
    let nodes = NodesBuilder::new().build().unwrap();
    assert!(nodes.is_empty());
    assert_eq!(nodes.len(), 0);
}

#[test]
fn mod_test_nodes_builder_add_nodes() {
    let nodes = NodesBuilder::new().add_nodes(&["ECM", "TCM", "BCM"]).build().unwrap();
    assert_eq!(nodes.len(), 3);
    assert!(nodes.contains("ECM"));
    assert!(nodes.contains("TCM"));
    assert!(nodes.contains("BCM"));
}

#[test]
fn mod_test_nodes_builder_add_nodes_iterator() {
    let node_vec = ["Node1", "Node2", "Node3"];
    let nodes = NodesBuilder::new().add_nodes(&node_vec).build().unwrap();
    assert_eq!(nodes.len(), 3);
    assert!(nodes.contains("Node1"));
}

#[test]
fn mod_test_nodes_builder_clear() {
    let nodes = NodesBuilder::new()
        .add_node("ECM")
        .add_node("TCM")
        .clear()
        .add_node("BCM")
        .build()
        .unwrap();
    assert_eq!(nodes.len(), 1);
    assert!(nodes.contains("BCM"));
    assert!(!nodes.contains("ECM"));
    assert!(!nodes.contains("TCM"));
}

#[test]
fn mod_test_nodes_builder_validate() {
    let builder = NodesBuilder::new().add_node("TCM").add_node("BCM");
    let validated = builder.validate().unwrap();
    let nodes = validated.build().unwrap();
    assert_eq!(nodes.len(), 2);
}

#[test]
fn mod_test_nodes_builder_empty() {
    let nodes = NodesBuilder::new().build().unwrap();
    assert!(nodes.is_empty());
    assert_eq!(nodes.len(), 0);
}

#[test]
fn nodes_at_limit_accepted_then_one_more_refused() {
    let mut builder = NodesBuilder::new();
    for i in 0..MAX_NODES {
        builder = builder.add_node(&format!("Node{i}"));
    }
    let builder = builder.validate().unwrap();
    let result = builder.add_node("NodeLast").build();
    assert_eq!(result.unwrap_err(), Error::Nodes(Error::NODES_TOO_MANY));
}

#[test]
fn nodes_at_index_and_round_trip() {
    let nodes = Nodes::new(&["ECM", "TCM"]).unwrap();
    assert_eq!(nodes.at(0), Some("ECM"));
    assert_eq!(nodes.at(1), Some("TCM"));
    assert_eq!(nodes.at(2), None);
    let text = nodes.to_dbc_string();
    let mut parser = Parser::new(text.as_bytes()).unwrap();
    let again = Nodes::parse(&mut parser).unwrap();
    assert_eq!(again.len(), 2);
    assert_eq!(again.at(0), Some("ECM"));
    assert_eq!(again.at(1), Some("TCM"));
}

#[test]
fn nodes_empty_dbc_string() {
    let nodes = Nodes::default();
    assert_eq!(nodes.to_dbc_string(), "BU_:");
    assert_eq!(nodes.to_string(), "");
}

#[test]
fn nodes_parse_errors() {
    let mut parser = Parser::new(b"BO_: ECM").unwrap();
    assert_eq!(
        Nodes::parse(&mut parser).unwrap_err(),
        Error::Expected("Expected BU_ keyword")
    );
    let mut parser = Parser::new(b"BU_ ECM").unwrap();
    assert_eq!(
        Nodes::parse(&mut parser).unwrap_err(),
        Error::Expected("Expected colon after BU_")
    );
    let long = format!("BU_: {}", "A".repeat(65));
    let mut parser = Parser::new(long.as_bytes()).unwrap();
    assert_eq!(
        Nodes::parse(&mut parser).unwrap_err(),
        Error::Expected(Error::MAX_NAME_SIZE_EXCEEDED)
    );
}

#[test]
fn nodes_parse_stops_at_line_end() {
    let mut parser = Parser::new(b"BU_: ECM TCM\nBO_ 1 X: 8 ECM").unwrap();
    let nodes = Nodes::parse(&mut parser).unwrap();
    assert_eq!(nodes.len(), 2);
    assert_eq!(parser.pos(), 12);
}

#[test]
fn bulk_add_equals_single_adds() {
    let bulk = NodesBuilder::new().add_nodes(&["ECM", "TCM", "BCM"]).build().unwrap();
    let single = NodesBuilder::new().add_node("ECM").add_node("TCM").add_node("BCM").build().unwrap();
    assert_eq!(bulk.len(), 3);
    assert_eq!(bulk.nodes(), single.nodes());
    assert!(bulk.contains("ECM") && bulk.contains("TCM") && bulk.contains("BCM"));
}
