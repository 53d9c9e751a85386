use eth_proxy::registry::{Endpoint, EndpointChooseStrategy, RoundRobinStrategy, str_eq};

fn ep(url: &str, alive: bool) -> Endpoint {
    Endpoint { url: String::from(url), latency: 0, alive }
}

#[test]
fn round_robin_covers_every_alive_endpoint_within_one_pass() {
    let mut s = RoundRobinStrategy::new(vec![ep("a", true), ep("b", false), ep("c", true)]);
    let mut seen_a = false;
    let mut seen_c = false;
    for _ in 0..3 {
        let url = s.select_next().map(|e| e.url.clone()).expect("an endpoint is alive");
        if url == "a" {
            seen_a = true;
        }
        if url == "c" {
            seen_c = true;
        }
        assert_ne!(url, "b");
    }
    assert!(seen_a && seen_c);
}

#[test]
fn round_robin_alternates_in_registry_order() {
    let mut s = RoundRobinStrategy::new(vec![ep("a", true), ep("b", true)]);
    assert_eq!(s.select_next().unwrap().url, "a");
    assert_eq!(s.select_next().unwrap().url, "b");
    assert_eq!(s.select_next().unwrap().url, "a");
    assert_eq!(s.select_next().unwrap().url, "b");
}

#[test]
fn all_dead_selects_none_on_every_call_and_counts_zero() {
    let mut s = RoundRobinStrategy::new(vec![ep("a", false), ep("b", false)]);
    for _ in 0..5 {
        assert!(s.select_next().is_none());
        assert_eq!(s.healthy_count(), 0);
    }
}

#[test]
fn empty_registry_is_a_defined_state() {
    let mut s = RoundRobinStrategy::new(Vec::new());
    assert!(s.select_next().is_none());
    assert_eq!(s.healthy_count(), 0);
}

#[test]
fn mutate_false_removes_url_until_mutate_true() {
    let mut s = RoundRobinStrategy::new(vec![ep("a", true), ep("b", true), ep("c", true)]);
    s.mutate("b", false);
    for _ in 0..6 {
        let url = s.select_next().unwrap().url.clone();
        assert_ne!(url, "b");
    }
    assert_eq!(s.healthy_count(), 2);
    s.mutate("b", true);
    let mut seen_b = false;
    for _ in 0..3 {
        if s.select_next().unwrap().url == "b" {
            seen_b = true;
        }
    }
    assert!(seen_b);
    assert_eq!(s.healthy_count(), 3);
}

#[test]
fn mutate_touches_only_the_first_of_duplicate_urls() {
    let mut s = RoundRobinStrategy::new(vec![ep("x", true), ep("x", true)]);
    s.mutate("x", false);
    assert_eq!(s.healthy_count(), 1);
    let eps = s.get_endpoints_mut();
    assert!(!eps[0].alive);
    assert!(eps[1].alive);
}

#[test]
fn mutate_unknown_url_changes_nothing() {
    let mut s = RoundRobinStrategy::new(vec![ep("a", true)]);
    s.mutate("nowhere", false);
    assert_eq!(s.healthy_count(), 1);
    assert_eq!(s.select_next().unwrap().url, "a");
}

#[test]
fn selection_skips_dead_and_keeps_cursor_moving() {
    let mut s = RoundRobinStrategy::new(vec![ep("a", true), ep("b", true), ep("c", true)]);
    assert_eq!(s.select_next().unwrap().url, "a");
    s.mutate("b", false);
    assert_eq!(s.select_next().unwrap().url, "c");
    assert_eq!(s.select_next().unwrap().url, "a");
}

#[test]
fn trait_selection_returns_only_alive_endpoints() {
    let mut s = RoundRobinStrategy::new(vec![ep("a", false), ep("b", true)]);
    let chosen = s.get_endpoint().expect("one endpoint is alive");
    assert!(chosen.alive);
    assert_eq!(chosen.url, "b");
    assert_eq!(s.available_count(), 1);
}

#[test]
fn get_endpoints_mut_exposes_the_configured_list() {
    let mut s = RoundRobinStrategy::new(vec![ep("a", true), ep("b", false)]);
    let eps = s.get_endpoints_mut();
    assert_eq!(eps.len(), 2);
    assert_eq!(eps[0].url, "a");
    assert!(!eps[1].alive);
}

#[test]
fn str_eq_compares_character_for_character() {
    assert!(str_eq("abc", "abc"));
    assert!(!str_eq("abc", "abd"));
    assert!(!str_eq("abc", "ab"));
    assert!(str_eq("", ""));
}
