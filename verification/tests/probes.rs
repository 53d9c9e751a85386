use eth_proxy::probe::{
    BasicHealthCheck, BeaconHealthCheck, GethHealthCheck, HealthCheckEnum, OpNodeHealthCheck,
    ProbeStep, parse_u64_dec,
};

#[test]
fn zero_peer_count_is_unhealthy_without_a_second_call() {
    let geth = GethHealthCheck {};
    let body = "{\"jsonrpc\":\"2.0\",\"id\":1,\"result\":\"0\"}";
    assert_eq!(geth.on_peer_count(Some(body)), ProbeStep::Unhealthy);
}

#[test]
fn positive_peer_count_and_not_syncing_is_healthy() {
    let geth = GethHealthCheck {};
    let peers = "{\"jsonrpc\":\"2.0\",\"id\":1,\"result\":\"5\"}";
    assert_eq!(geth.on_peer_count(Some(peers)), ProbeStep::CheckSyncing);
    let syncing = "{\"result\":{\"syncing\":false}}";
    assert!(geth.on_syncing(Some(syncing)));
}

#[test]
fn missing_syncing_field_is_unhealthy() {
    let geth = GethHealthCheck {};
    let peers = "{\"jsonrpc\":\"2.0\",\"id\":1,\"result\":\"5\"}";
    assert_eq!(geth.on_peer_count(Some(peers)), ProbeStep::CheckSyncing);
    let syncing = "{\"result\":{}}";
    assert!(!geth.on_syncing(Some(syncing)));
}

#[test]
fn syncing_true_is_unhealthy() {
    let geth = GethHealthCheck {};
    assert!(!geth.on_syncing(Some("{\"result\":{\"syncing\":true}}")));
}

#[test]
fn transport_failures_are_unhealthy_for_geth() {
    let geth = GethHealthCheck {};
    assert_eq!(geth.on_peer_count(None), ProbeStep::Unhealthy);
    assert!(!geth.on_syncing(None));
}

#[test]
fn malformed_bodies_are_unhealthy() {
    let geth = GethHealthCheck {};
    assert_eq!(geth.on_peer_count(Some("not json")), ProbeStep::Unhealthy);
    assert_eq!(geth.on_peer_count(Some("{\"result\":7}")), ProbeStep::Unhealthy);
    assert!(!geth.on_syncing(Some("{{{{")));
    assert!(!geth.on_syncing(Some("{\"result\":{\"syncing\":\"no\"}}")));
}

#[test]
fn hex_and_garbage_peer_counts_are_unhealthy() {
    let geth = GethHealthCheck {};
    assert_eq!(
        geth.on_peer_count(Some("{\"result\":\"0x19\"}")),
        ProbeStep::Unhealthy
    );
    assert_eq!(
        geth.on_peer_count(Some("{\"result\":\"many\"}")),
        ProbeStep::Unhealthy
    );
}

#[test]
fn geth_request_bodies_are_the_json_rpc_calls() {
    let geth = GethHealthCheck {};
    assert_eq!(
        geth.peer_count_request(),
        "{\"jsonrpc\":\"2.0\",\"method\":\"net_peerCount\",\"params\":[],\"id\":1}"
    );
    assert_eq!(
        geth.syncing_request(),
        "{\"jsonrpc\":\"2.0\",\"method\":\"eth_syncing\",\"params\":[],\"id\":1}"
    );
}

#[test]
fn basic_probe_accepts_success_statuses_only() {
    let basic = BasicHealthCheck {};
    assert!(basic.interpret(Some(200)));
    assert!(basic.interpret(Some(204)));
    assert!(!basic.interpret(Some(500)));
    assert!(!basic.interpret(Some(301)));
    assert!(!basic.interpret(None));
}

#[test]
fn basic_probe_calls_the_health_path() {
    let basic = BasicHealthCheck {};
    assert_eq!(basic.health_url("http://node:8545"), "http://node:8545/health");
}

#[test]
fn opnode_probe_is_always_healthy() {
    let opnode = OpNodeHealthCheck {};
    assert!(opnode.interpret());
}

#[test]
fn beacon_probe_reads_consensus_sync_status() {
    let beacon = BeaconHealthCheck {};
    assert_eq!(
        beacon.syncing_url("http://cl:5052"),
        "http://cl:5052/eth/v1/node/syncing"
    );
    assert!(beacon.on_syncing(Some("{\"data\":{\"is_syncing\":false}}")));
    assert!(!beacon.on_syncing(Some("{\"data\":{\"is_syncing\":true}}")));
    assert!(!beacon.on_syncing(Some("{\"data\":{}}")));
    assert!(!beacon.on_syncing(None));
}

#[test]
fn role_identifiers_select_their_probe() {
    assert!(matches!(
        HealthCheckEnum::for_client_type("el"),
        HealthCheckEnum::Geth(_)
    ));
    assert!(matches!(
        HealthCheckEnum::for_client_type("cl"),
        HealthCheckEnum::Beacon(_)
    ));
    assert!(matches!(
        HealthCheckEnum::for_client_type("opnode"),
        HealthCheckEnum::OpNode(_)
    ));
    assert!(matches!(
        HealthCheckEnum::for_client_type("anything-else"),
        HealthCheckEnum::Basic(_)
    ));
}

#[test]
fn decimal_parsing_matches_the_numeral_grammar() {
    assert_eq!(parse_u64_dec("0"), Some(0));
    assert_eq!(parse_u64_dec("5"), Some(5));
    assert_eq!(parse_u64_dec("+7"), Some(7));
    assert_eq!(parse_u64_dec("007"), Some(7));
    assert_eq!(parse_u64_dec("18446744073709551615"), Some(u64::MAX));
    assert_eq!(parse_u64_dec("18446744073709551616"), None);
    assert_eq!(parse_u64_dec(""), None);
    assert_eq!(parse_u64_dec("+"), None);
    assert_eq!(parse_u64_dec("0x19"), None);
    assert_eq!(parse_u64_dec("-3"), None);
    assert_eq!(parse_u64_dec("1 2"), None);
}
