use dns_resolver::server_config::{listener_action, Debouncer, ListenerAction, ResolveType, ServerContext};

#[test]
fn default_context() {
    let c = ServerContext::new();
    assert_eq!(c.dns_port, 53);
    assert_eq!(c.dns_host, "0.0.0.0");
    assert!(matches!(c.resolve_strategy, ResolveType::Recursive));
    assert!(!c.allow_recursive);
    assert!(!c.enable_udp);
    assert!(!c.enable_tcp);
    assert_eq!(c.thread_count, 1);
}

#[test]
fn contexts_compare_by_listener_settings() {
    let a = ServerContext::new();
    let mut b = ServerContext::new();
    b.resolve_strategy = ResolveType::Forward { host: "8.8.8.8".to_string(), port: 53 };
    assert!(a == b);
    b.enable_udp = true;
    assert!(a != b);
}

#[test]
fn listener_transitions() {
    assert_eq!(listener_action(false, true), ListenerAction::Start);
    assert_eq!(listener_action(true, true), ListenerAction::Restart);
    assert_eq!(listener_action(true, false), ListenerAction::Stop);
    assert_eq!(listener_action(false, false), ListenerAction::Keep);
}

#[test]
fn events_within_a_second_are_ignored() {
    let mut d = Debouncer::new();
    assert!(d.on_event("config.json", 10_000));
    assert!(!d.on_event("config.json", 10_500));
    assert!(!d.on_event("config.json", 10_999));
    assert!(d.on_event("other.json", 10_999));
    assert!(d.on_event("config.json", 11_000));
    assert!(!d.on_event("config.json", 11_200));
    assert_eq!(d.last_seen.len(), 2);
}
