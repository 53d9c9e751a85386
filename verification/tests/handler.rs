use eth_proxy::proxy::{ForwardReply, HealthStatus, ProxyOutcome, health_status, proxy_decide};
use eth_proxy::registry::{Endpoint, RoundRobinStrategy};

fn reply(status: u16, body: &str) -> ForwardReply {
    ForwardReply {
        status,
        headers: vec![(String::from("content-type"), b"application/json".to_vec())],
        body: String::from(body),
    }
}

#[test]
fn no_endpoint_means_service_unavailable_and_no_call() {
    assert!(matches!(
        proxy_decide(false, None),
        ProxyOutcome::ServiceUnavailable
    ));
}

#[test]
fn a_backend_answer_is_relayed_verbatim() {
    let out = proxy_decide(true, Some(reply(418, "short and stout")));
    match out {
        ProxyOutcome::Relay(r) => {
            assert_eq!(r.status, 418);
            assert_eq!(r.headers.len(), 1);
            assert_eq!(r.headers[0].0, "content-type");
            assert_eq!(r.headers[0].1, b"application/json");
            assert_eq!(r.body, "short and stout");
        }
        _ => panic!("expected a relayed reply"),
    }
}

#[test]
fn transport_failure_maps_to_internal_error_and_leaves_liveness_alone() {
    let mut s = RoundRobinStrategy::new(vec![Endpoint {
        url: String::from("http://only:8545"),
        latency: 0,
        alive: true,
    }]);
    let target = s.select_next().map(|e| e.url.clone());
    assert_eq!(target.as_deref(), Some("http://only:8545"));
    let out = proxy_decide(target.is_some(), None);
    assert!(matches!(out, ProxyOutcome::InternalError));
    assert_eq!(s.healthy_count(), 1);
    assert!(s.get_endpoints_mut()[0].alive);
}

#[test]
fn readiness_is_unavailable_exactly_at_zero() {
    assert!(matches!(health_status(0), HealthStatus::Unavailable));
    match health_status(3) {
        HealthStatus::Available(n) => assert_eq!(n, 3),
        _ => panic!("expected an available count"),
    }
}
