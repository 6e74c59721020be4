use dbc_rs::{Error, Parser, Receivers, ReceiversBuilder, MAX_NODES, MAX_RECEIVER_NODES};

fn node_list(count: usize) -> Vec<u8> {
    let mut receivers_bytes = Vec::new();
    for i in 0..count {
        if i > 0 {
            receivers_bytes.push(b' ');
        }
        let node_str = format!("Node{i}");
        receivers_bytes.extend_from_slice(node_str.as_bytes());
    }
    receivers_bytes
}

#[test]
fn parse_test_parse_receivers_broadcast() {
    let input = "*";
    let mut parser = Parser::new(input.as_bytes()).unwrap();
    let result = Receivers::parse(&mut parser).unwrap();
    assert_eq!(result, Receivers::Broadcast);
}

#[test]
fn parse_test_parse_receivers_none_empty() {
    let input = " ";
    let mut parser = Parser::new(input.as_bytes()).unwrap();
    let result = Receivers::parse(&mut parser).unwrap();
    assert_eq!(result, Receivers::Unspecified);
}

#[test]
fn parse_test_parse_receivers_single_node() {
    let input = "TCM";
    let mut parser = Parser::new(input.as_bytes()).unwrap();
    let result = Receivers::parse(&mut parser).unwrap();
    match &result {
        Receivers::Nodes(nodes) => {
            assert_eq!(nodes.len(), 1);
            let node_count = result.len();
            assert_eq!(node_count, 1);
            assert_eq!(result.iter().next(), Some("TCM"));
        }
        _ => panic!("Expected Nodes variant"),
    }
}

#[test]
fn parse_test_parse_receivers_multiple_nodes() {
    let input = "TCM BCM ECM";
    let mut parser = Parser::new(input.as_bytes()).unwrap();
    let result = Receivers::parse(&mut parser).unwrap();
    let node_count = result.len();
    assert_eq!(node_count, 3);
    let mut iter = result.iter();
    assert_eq!(iter.next(), Some("TCM"));
    assert_eq!(iter.next(), Some("BCM"));
    assert_eq!(iter.next(), Some("ECM"));
    assert!(iter.next().is_none());
}

#[test]
fn parse_test_parse_receivers_whitespace_only() {
    let input = "   ";
    let mut parser = Parser::new(input.as_bytes()).unwrap();
    let result = Receivers::parse(&mut parser).unwrap();
    assert_eq!(result, Receivers::Unspecified);
}

#[test]
fn parse_test_parse_receivers_with_extra_whitespace() {
    let input = "  TCM   BCM  ";
    let mut parser = Parser::new(input.as_bytes()).unwrap();
    let result = Receivers::parse(&mut parser).unwrap();
    let node_count = result.len();
    assert_eq!(node_count, 2);
    let mut iter = result.iter();
    assert_eq!(iter.next(), Some("TCM"));
    assert_eq!(iter.next(), Some("BCM"));
    assert!(iter.next().is_none());
}

#[test]
fn parse_test_parse_receivers_too_many() {
    let receivers_bytes = node_list(MAX_NODES);
    let mut parser = Parser::new(&receivers_bytes).unwrap();
    let result = Receivers::parse(&mut parser);
    assert!(result.is_err());
    match result.unwrap_err() {
        Error::Receivers(msg) => {
            assert_eq!(msg, Error::SIGNAL_RECEIVERS_TOO_MANY);
        }
        _ => panic!("Expected Error::Receivers"),
    }
}

#[test]
fn parse_test_parse_receivers_at_limit() {
    let receivers_bytes = node_list(MAX_NODES - 1);
    let mut parser = Parser::new(&receivers_bytes).unwrap();
    let result = Receivers::parse(&mut parser).unwrap();
    let node_count = result.len();
    assert_eq!(node_count, MAX_NODES - 1);
}

#[test]
fn receivers_test_parse_receivers_broadcast() {
    let input = "*";
    let mut parser = Parser::new(input.as_bytes()).unwrap();
    let result = Receivers::parse(&mut parser).unwrap();
    assert_eq!(result, Receivers::Broadcast);
}

#[test]
fn receivers_test_parse_receivers_none_empty() {
    let input = " ";
    let mut parser = Parser::new(input.as_bytes()).unwrap();
    let result = Receivers::parse(&mut parser).unwrap();
    assert_eq!(result, Receivers::Unspecified);
}

#[test]
fn receivers_test_parse_receivers_single_node() {
    let input = "TCM";
    let mut parser = Parser::new(input.as_bytes()).unwrap();
    let result = Receivers::parse(&mut parser).unwrap();
    match &result {
        Receivers::Nodes(nodes) => {
            assert_eq!(nodes.len(), 1);
            let node_count = result.len();
            assert_eq!(node_count, 1);
            let first_node = result.iter().next().unwrap();
            assert_eq!(first_node, "TCM");
            assert_eq!(nodes[0], "TCM");
        }
        _ => panic!("Expected Nodes variant"),
    }
}

#[test]
fn receivers_test_parse_receivers_multiple_nodes() {
    let input = "TCM BCM ECM";
    let mut parser = Parser::new(input.as_bytes()).unwrap();
    let result = Receivers::parse(&mut parser).unwrap();
    let node_count = result.len();
    assert_eq!(node_count, 3);
    let mut iter = result.iter();
    assert_eq!(iter.next().unwrap(), "TCM");
    assert_eq!(iter.next().unwrap(), "BCM");
    assert_eq!(iter.next().unwrap(), "ECM");
    assert!(iter.next().is_none());
}

#[test]
fn receivers_test_parse_receivers_whitespace_only() {
    let input = "   ";
    let mut parser = Parser::new(input.as_bytes()).unwrap();
    let result = Receivers::parse(&mut parser).unwrap();
    assert_eq!(result, Receivers::Unspecified);
}

#[test]
fn receivers_test_parse_receivers_with_extra_whitespace() {
    let input = "  TCM   BCM  ";
    let mut parser = Parser::new(input.as_bytes()).unwrap();
    let result = Receivers::parse(&mut parser).unwrap();
    let node_count = result.len();
    assert_eq!(node_count, 2);
    let mut iter = result.iter();
    assert_eq!(iter.next(), Some("TCM"));
    assert_eq!(iter.next(), Some("BCM"));
    assert_eq!(iter.next(), None);
}

#[test]
fn receivers_test_parse_receivers_at_limit() {
    let receivers_bytes = node_list(64);
    let mut parser = Parser::new(&receivers_bytes).unwrap();
    let result = Receivers::parse(&mut parser).unwrap();
    let node_count = result.len();
    assert_eq!(node_count, 64);
}

#[test]
fn test_receivers_builder_broadcast() {
    let receivers = ReceiversBuilder::new().broadcast().build().unwrap();
    assert_eq!(receivers, Receivers::Broadcast);
}

#[test]
fn test_receivers_builder_none() {
    let receivers = ReceiversBuilder::new().none().build().unwrap();
    assert_eq!(receivers, Receivers::Unspecified);
}

#[test]
fn test_receivers_builder_empty() {
    let receivers = ReceiversBuilder::new().build().unwrap();
    assert_eq!(receivers, Receivers::Unspecified);
}

#[test]
fn test_receivers_builder_single_node() {
    let receivers = ReceiversBuilder::new().add_node("TCM").build().unwrap();
    match &receivers {
        Receivers::Nodes(nodes) => assert_eq!(nodes.len(), 1),
        _ => panic!("Expected Nodes variant"),
    }
}

#[test]
fn test_receivers_builder_multiple_nodes() {
    let receivers = ReceiversBuilder::new()
        .add_node("TCM")
        .add_node("BCM")
        .add_node("ECM")
        .build()
        .unwrap();
    match &receivers {
        Receivers::Nodes(nodes) => assert_eq!(nodes.len(), 3),
        _ => panic!("Expected Nodes variant"),
    }
}

#[test]
fn test_receivers_builder_too_many() {
    let mut builder = ReceiversBuilder::new();
    for i in 0..MAX_RECEIVER_NODES {
        builder = builder.add_node(&format!("Node{i}"));
    }
    let result = builder.add_node(&format!("Node{}", MAX_RECEIVER_NODES)).build();
    assert!(result.is_err());
    match result.unwrap_err() {
        Error::Signal(msg) => {
            assert_eq!(msg, Error::SIGNAL_RECEIVERS_TOO_MANY);
        }
        _ => panic!("Expected Signal error"),
    }
}

#[test]
fn test_receivers_builder_add_nodes() {
    let receivers = ReceiversBuilder::new().add_nodes(&["ECM", "TCM", "BCM"]).build().unwrap();
    match &receivers {
        Receivers::Nodes(nodes) => assert_eq!(nodes.len(), 3),
        _ => panic!("Expected Nodes variant"),
    }
    assert!(receivers.contains("ECM"));
    assert!(receivers.contains("TCM"));
    assert!(receivers.contains("BCM"));
}

#[test]
fn test_receivers_builder_add_nodes_iterator() {
    let node_vec = ["Node1", "Node2", "Node3"];
    let receivers = ReceiversBuilder::new().add_nodes(&node_vec).build().unwrap();
    match &receivers {
        Receivers::Nodes(nodes) => assert_eq!(nodes.len(), 3),
        _ => panic!("Expected Nodes variant"),
    }
}

#[test]
fn test_receivers_builder_clear() {
    let receivers = ReceiversBuilder::new()
        .add_node("ECM")
        .add_node("TCM")
        .clear()
        .add_node("BCM")
        .build()
        .unwrap();
    match &receivers {
        Receivers::Nodes(nodes) => {
            assert_eq!(nodes.len(), 1);
            assert!(receivers.contains("BCM"));
            assert!(!receivers.contains("ECM"));
        }
        _ => panic!("Expected Nodes variant"),
    }
}

#[test]
fn test_receivers_builder_broadcast_clears_nodes() {
    let receivers =
        ReceiversBuilder::new().add_node("ECM").add_node("TCM").broadcast().build().unwrap();
    assert_eq!(receivers, Receivers::Broadcast);
    assert_eq!(receivers.len(), 0);
}

#[test]
fn test_receivers_builder_none_clears_nodes() {
    let receivers = ReceiversBuilder::new().add_node("ECM").add_node("TCM").none().build().unwrap();
    assert_eq!(receivers, Receivers::Unspecified);
    assert_eq!(receivers.len(), 0);
}

#[test]
fn test_receivers_builder_add_node_clears_broadcast() {
    let receivers = ReceiversBuilder::new().broadcast().add_node("ECM").build().unwrap();
    match &receivers {
        Receivers::Nodes(nodes) => assert_eq!(nodes.len(), 1),
        _ => panic!("Expected Nodes variant"),
    }
}

#[test]
fn test_receivers_builder_add_node_clears_none() {
    let receivers = ReceiversBuilder::new().none().add_node("ECM").build().unwrap();
    match &receivers {
        Receivers::Nodes(nodes) => assert_eq!(nodes.len(), 1),
        _ => panic!("Expected Nodes variant"),
    }
}

#[test]
fn test_receivers_builder_at_limit() {
    let mut builder = ReceiversBuilder::new();
    for i in 0..MAX_RECEIVER_NODES {
        let node_str = format!("Node{i}");
        builder = builder.add_node(&node_str);
    }
    let receivers = builder.build().unwrap();
    match &receivers {
        Receivers::Nodes(nodes) => assert_eq!(nodes.len(), MAX_RECEIVER_NODES),
        _ => panic!("Expected Nodes variant"),
    }
}

#[test]
fn receivers_builder_refuses_duplicate_and_long_names() {
    let result = ReceiversBuilder::new().add_node("ECM").add_node("ECM").build();
    assert_eq!(result.unwrap_err(), Error::Signal(Error::RECEIVERS_DUPLICATE_NAME));
    let long = "N".repeat(65);
    let result = ReceiversBuilder::new().add_node(&long).build();
    assert_eq!(result.unwrap_err(), Error::Signal(Error::MAX_NAME_SIZE_EXCEEDED));
}

#[test]
fn receivers_parse_stops_at_line_end_and_reports_position() {
    let mut parser = Parser::new(b"  TCM BCM\r\nBO_").unwrap();
    let result = Receivers::parse(&mut parser).unwrap();
    assert_eq!(result.len(), 2);
    assert_eq!(parser.pos(), 9);
    assert_eq!(result.at(1), Some("BCM"));
    assert_eq!(result.at(2), None);
    let mut parser = Parser::new(b" *\n").unwrap();
    assert_eq!(Receivers::parse(&mut parser).unwrap(), Receivers::Broadcast);
    assert_eq!(parser.pos(), 2);
}

#[test]
fn receivers_parse_name_too_long() {
    let input = format!("TCM {}", "N".repeat(65));
    let mut parser = Parser::new(input.as_bytes()).unwrap();
    assert_eq!(
        Receivers::parse(&mut parser).unwrap_err(),
        Error::Expected(Error::MAX_NAME_SIZE_EXCEEDED)
    );
}

#[test]
fn builder_steps_in_sequence() {
    // A broadcast mark survives only an empty bulk add.
    let r = ReceiversBuilder::new().add_node("A").broadcast().add_nodes(&[] as &[&str]).build().unwrap();
    assert_eq!(r, Receivers::Broadcast);
    // A name added after broadcast drops the mark; names before the reset are gone.
    let r = ReceiversBuilder::new().add_node("A").broadcast().add_node("B").build().unwrap();
    assert_eq!(r, Receivers::Nodes(vec!["B".to_string()]));
    // none() and clear() reset to no receivers.
    let r = ReceiversBuilder::new().broadcast().none().build().unwrap();
    assert_eq!(r, Receivers::Unspecified);
    let r = ReceiversBuilder::new().add_nodes(&["A", "B"]).clear().add_nodes(&["C", "D"]).build().unwrap();
    assert_eq!(r, Receivers::Nodes(vec!["C".to_string(), "D".to_string()]));
}
