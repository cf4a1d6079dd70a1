use los_checker::nodes::{node_pairs, uppercase_bool, NotABoolean};

#[test]
fn capitalized_booleans() {
    assert_eq!(uppercase_bool("True"), Ok(true));
    assert_eq!(uppercase_bool("False"), Ok(false));
    assert_eq!(uppercase_bool("true"), Err(NotABoolean));
    assert_eq!(uppercase_bool(""), Err(NotABoolean));
    assert_eq!(uppercase_bool("Trueish"), Err(NotABoolean));
}

#[test]
fn pairs_of_nodes() {
    let nodes = [10, 20, 30, 40];
    let pairs = node_pairs(&nodes);
    assert_eq!(pairs, vec![(20, 10), (30, 10), (30, 20), (40, 10), (40, 20), (40, 30)]);
    assert_eq!(pairs.len(), nodes.len() * (nodes.len() - 1) / 2);
}

#[test]
fn pairs_of_few_nodes() {
    assert!(node_pairs::<u8>(&[]).is_empty());
    assert!(node_pairs(&[1]).is_empty());
}
