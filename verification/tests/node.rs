use chain_events::get_local_test_node;

#[test]
fn local_test_node_address() {
    assert_eq!(get_local_test_node(), "0.0.0.0:9999");
}
