use autoforward::cli::{verbosity_level, CliInputs};
use autoforward::descriptor::{
    descriptors_from_response, discovery_args, discovery_targets, resolve, ApplicationDescriptor,
};
use autoforward::forwarding::{parse_forwarding_line, FetchStep, ForwardErrorKind, Portforward, State};
use autoforward::kubernetes::{
    ApplicationResource, ApplicationResourceSpec, HealthCheck, KubernetesResponse, ResourceMetadata,
};
use autoforward::router::{request_host, strip_port};
use autoforward::text::parse_port;

fn descriptor(name: &str, ingresses: &[&str], liveness: Option<&str>) -> ApplicationDescriptor {
    ApplicationDescriptor {
        application_name: name.to_owned(),
        ingresses: ingresses.iter().map(|s| s.to_string()).collect(),
        liveness: liveness.map(|s| s.to_owned()),
        context: "dev-fss".to_owned(),
        namespace: "default".to_owned(),
    }
}

const T0: u64 = 1_600_000_000;

#[test]
fn best_ingress_takes_longest_path_prefix() {
    let d = descriptor("svc", &["http://h/", "http://h/api", "http://h/api/v2"], None);
    assert_eq!(d.best_ingress("h", "/api/v2/x"), Some("http://h/api/v2".to_owned()));
    assert_eq!(d.best_ingress("h", "/api/other"), Some("http://h/api".to_owned()));
    assert_eq!(d.best_ingress("h", "/other"), Some("http://h/".to_owned()));
    assert_eq!(d.best_ingress("other", "/"), None);
}

#[test]
fn best_ingress_host_is_case_sensitive_and_skips_unparsable() {
    let d = descriptor("svc", &["not a uri", "http://H/", "http://h/a"], None);
    assert_eq!(d.best_ingress("h", "/b"), None);
    assert_eq!(d.best_ingress("h", "/a/b"), Some("http://h/a".to_owned()));
}

#[test]
fn resolve_prefers_longer_ingress_across_descriptors() {
    let ds = vec![descriptor("x", &["http://h/x"], None), descriptor("xyz", &["http://h/xyz"], None)];
    assert_eq!(resolve(&ds, "h", "/xyz/1"), Some(("http://h/xyz".to_owned(), 1)));
    let ds = vec![descriptor("xyz", &["http://h/xyz"], None), descriptor("x", &["http://h/x"], None)];
    assert_eq!(resolve(&ds, "h", "/xyz/1"), Some(("http://h/xyz".to_owned(), 0)));
    assert_eq!(resolve(&ds, "g", "/xyz/1"), None);
}

#[test]
fn forwarding_line_is_parsed() {
    let pf = parse_forwarding_line("Forwarding from 127.0.0.1:54321 -> 80").unwrap();
    assert_eq!(pf, Portforward { host: "127.0.0.1".to_owned(), port: 54321 });
    assert_eq!(parse_forwarding_line("Forwarding from 127.0.0.1:5 -> 80"), None);
    assert_eq!(parse_forwarding_line("error: no such service"), None);
}

#[test]
fn port_text_is_parsed() {
    assert_eq!(parse_port("8080"), Some(8080));
    assert_eq!(parse_port("0"), Some(0));
    assert_eq!(parse_port(""), None);
    assert_eq!(parse_port("123456"), None);
    assert_eq!(parse_port("80a"), None);
}

fn e1_state() -> State {
    State::new(vec![descriptor("svc", &["http://h.example/"], Some("/isalive"))], T0)
}

#[test]
fn request_without_route_opens_nothing() {
    let mut state = e1_state();
    assert!(matches!(state.fetch_address("other.example", "/", T0), FetchStep::NoRoute));
    assert_eq!(state.tunnel_count(), 0);
}

#[test]
fn second_request_reuses_the_tunnel() {
    let mut state = e1_state();
    let host = request_host(Some("h.example:443")).unwrap();
    let d = match state.fetch_address(&host, "/", T0) {
        FetchStep::Open(d) => d,
        other => panic!("expected a tunnel to open, got {:?}", other),
    };
    assert_eq!(d, 0);
    let pf = state.open_tunnel(d, "Forwarding from 127.0.0.1:40123 -> 80", T0, 7).unwrap();
    assert_eq!(pf, Portforward { host: "127.0.0.1".to_owned(), port: 40123 });
    match state.fetch_address(&host, "/", T0 + 5) {
        FetchStep::Found(again) => assert_eq!(again, pf),
        other => panic!("expected the open tunnel, got {:?}", other),
    }
    assert_eq!(state.tunnel_count(), 1);
    assert_eq!(state.tunnel_list()[0].ttl, T0 + 5 + 60);
}

#[test]
fn failed_start_leaves_pool_empty() {
    let mut state = e1_state();
    let err = state.open_tunnel(0, "error: unable to forward", T0, 1).unwrap_err();
    assert_eq!(err.kind, ForwardErrorKind::TunnelOpenFailed);
    assert_eq!(state.tunnel_count(), 0);
}

fn opened_state() -> State {
    let mut state = e1_state();
    assert!(matches!(state.fetch_address("h.example", "/", T0), FetchStep::Open(0)));
    state.open_tunnel(0, "Forwarding from 127.0.0.1:40123 -> 80", T0, 7).unwrap();
    assert!(matches!(state.fetch_address("h.example", "/", T0), FetchStep::Found(_)));
    state
}

#[test]
fn expired_tunnel_is_evicted_despite_healthy_probe() {
    let mut state = opened_state();
    let evicted = state.tick(T0 + 61, &vec![true]);
    assert_eq!(evicted.len(), 1);
    assert_eq!(evicted[0].handle, 7);
    assert_eq!(state.tunnel_count(), 0);
}

#[test]
fn unhealthy_tunnel_is_evicted() {
    let mut state = opened_state();
    let evicted = state.tick(T0 + 10, &vec![false]);
    assert_eq!(evicted.len(), 1);
    assert_eq!(state.tunnel_count(), 0);
}

#[test]
fn healthy_fresh_tunnel_is_kept() {
    let mut state = opened_state();
    let evicted = state.tick(T0 + 10, &vec![true]);
    assert!(evicted.is_empty());
    assert_eq!(state.tunnel_count(), 1);
    assert!(!state.tunnel_list()[0].tick(true, T0 + 60));
}

#[test]
fn selftest_path_strips_one_slash() {
    let state = opened_state();
    assert_eq!(state.tunnel_list()[0].selftest_path(), Some("isalive".to_owned()));
    let mut state = State::new(vec![descriptor("svc", &["http://h.example/"], None)], T0);
    state.fetch_address("h.example", "/", T0);
    state.open_tunnel(0, "Forwarding from 127.0.0.1:40123 -> 80", T0, 1).unwrap();
    assert_eq!(state.tunnel_list()[0].selftest_path(), None);
}

#[test]
fn hostnames_sorted_and_unique() {
    let state = State::new(
        vec![descriptor("a", &["https://a.example/", "http://b.example/x", "https://a.example/y"], None)],
        T0,
    );
    assert_eq!(state.hostnames(), vec!["a.example".to_owned(), "b.example".to_owned()]);
}

#[test]
fn host_header_port_is_stripped() {
    assert_eq!(strip_port("h.example:8443"), "h.example");
    assert_eq!(strip_port("h.example"), "h.example");
    assert_eq!(request_host(Some("h.example:8443")), request_host(Some("h.example")));
    assert_eq!(request_host(None), None);
}

#[test]
fn tool_arguments() {
    let d = descriptor("svc", &["http://h/"], None);
    assert_eq!(
        d.port_forward_args(),
        vec!["port-forward", "--context", "dev-fss", "--namespace", "default", "svc/svc", ":80"]
    );
    assert_eq!(
        discovery_args(&"prod-fss".to_owned(), &"tbd".to_owned()),
        vec!["--context", "prod-fss", "--namespace", "tbd", "get", "application", "-o", "json"]
    );
}

#[test]
fn discovery_order_is_contexts_then_namespaces() {
    let cs = vec!["dev-fss".to_owned(), "prod-fss".to_owned()];
    let ns = vec!["default".to_owned(), "tbd".to_owned()];
    let pairs: Vec<(String, String)> = discovery_targets(&cs, &ns);
    let want = [("dev-fss", "default"), ("dev-fss", "tbd"), ("prod-fss", "default"), ("prod-fss", "tbd")];
    assert_eq!(pairs.len(), 4);
    for (p, w) in pairs.iter().zip(want.iter()) {
        assert_eq!((p.0.as_str(), p.1.as_str()), *w);
    }
}

fn resource(name: &str, ingresses: Option<Vec<&str>>, liveness: Option<&str>) -> ApplicationResource {
    ApplicationResource {
        spec: ApplicationResourceSpec {
            ingresses: ingresses.map(|v| v.into_iter().map(|s| s.to_owned()).collect()),
            liveness: liveness.map(|p| HealthCheck { path: p.to_owned() }),
            readiness: None,
        },
        metadata: ResourceMetadata { name: name.to_owned() },
    }
}

#[test]
fn discovery_keeps_resources_with_ingresses() {
    let response = KubernetesResponse {
        items: vec![
            resource("a", Some(vec!["http://a/"]), Some("/isalive")),
            resource("b", None, None),
            resource("c", Some(vec![]), None),
            resource("d", Some(vec!["http://d/"]), None),
        ],
    };
    let ds = descriptors_from_response(response, &"ctx".to_owned(), &"ns".to_owned());
    assert_eq!(ds.len(), 2);
    assert_eq!(ds[0].application_name, "a");
    assert_eq!(ds[0].liveness, Some("/isalive".to_owned()));
    assert_eq!(ds[0].context, "ctx");
    assert_eq!(ds[1].application_name, "d");
    assert_eq!(ds[1].namespace, "ns");
    assert_eq!(ds[1].liveness, None);
}

#[test]
fn verbosity_is_read() {
    let args = CliInputs { verbosity_level: 3, update_frequency: 120 };
    assert_eq!(verbosity_level(&args), 3);
}

#[test]
fn hostnames_reordered_across_descriptors() {
    let state = State::new(
        vec![
            descriptor("z", &["https://z.example/"], None),
            descriptor("m", &["http://m.example:8080/api", "not a url"], None),
            descriptor("a", &["https://a.example/", "https://z.example/other"], None),
        ],
        T0,
    );
    assert_eq!(
        state.hostnames(),
        vec!["a.example".to_owned(), "m.example:8080".to_owned(), "z.example".to_owned()]
    );
}
