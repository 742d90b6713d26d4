use motosan_sandbox::connect::{
    connect_reply, decide, decide_head, ConnectDecision, RequestHead, MAX_HEAD,
};
use motosan_sandbox::{Allowlist, ProxyConfig};

fn al(p: &[&str]) -> Allowlist {
    let patterns: Vec<String> = p.iter().map(|s| s.to_string()).collect();
    Allowlist::parse(&patterns)
}

#[test]
fn exact_only_matches_host() {
    let a = al(&["example.com"]);
    assert!(a.allows("example.com"));
    assert!(!a.allows("a.example.com"));
    assert!(!a.allows("evil.com"));
}

#[test]
fn subdomains_only_excludes_apex() {
    let a = al(&["*.example.com"]);
    assert!(a.allows("a.example.com"));
    assert!(a.allows("b.a.example.com"));
    assert!(!a.allows("example.com"));
}

#[test]
fn apex_and_subdomains_includes_apex() {
    let a = al(&["**.example.com"]);
    assert!(a.allows("example.com"));
    assert!(a.allows("a.example.com"));
    assert!(!a.allows("notexample.com"));
}

#[test]
fn any_allows_all() {
    assert!(al(&["*"]).allows("whatever.com"));
}

#[test]
fn block_by_default_empty() {
    assert!(!al(&[]).allows("example.com"));
}

#[test]
fn strips_port_and_lowercases() {
    assert!(al(&["example.com"]).allows("Example.com:443"));
}

#[test]
fn substring_attack_blocked() {
    assert!(!al(&["*.example.com"]).allows("evilexample.com"));
    assert!(!al(&["**.example.com"]).allows("evilexample.com"));
}

#[test]
fn several_patterns_each_count() {
    let a = al(&["a.org", "*.b.org", "**.c.org"]);
    assert!(a.allows("a.org:443"));
    assert!(a.allows("x.b.org"));
    assert!(!a.allows("b.org"));
    assert!(a.allows("C.ORG:80"));
    assert!(!a.allows("d.org"));
}

#[test]
fn literal_ipv6_addresses_are_blocked() {
    let a = al(&["::1", "**.example.com"]);
    assert!(!a.allows("::1"));
    assert!(!a.allows("[::1]:443"));
    assert!(al(&["*"]).allows("[::1]:443"));
    assert!(al(&["host"]).allows("[host]:1"));
}

fn request(target: &str) -> String {
    format!("CONNECT {target} HTTP/1.1\r\nHost: {target}\r\n\r\n")
}

#[test]
fn a_connect_to_an_allowed_host_is_let_through() {
    let allow = ProxyConfig {
        allowlist: vec!["127.0.0.1".into()],
    }
    .parse();
    let d = decide_head(request("127.0.0.1:8080").as_bytes(), &allow);
    assert_eq!(
        d,
        ConnectDecision::Connect {
            target: "127.0.0.1:8080".to_string()
        }
    );
    assert_eq!(d.refusal(), None);
}

#[test]
fn a_connect_to_any_other_host_is_refused() {
    let d = decide(&request("127.0.0.1:8080"), &al(&["example.com"]));
    assert!(matches!(&d, ConnectDecision::Deny { target } if target == "127.0.0.1:8080"));
    assert_eq!(d.refusal().unwrap(), "HTTP/1.1 403 Forbidden\r\n\r\n");
}

#[test]
fn any_other_method_is_refused() {
    let d = decide("GET http://example.com/ HTTP/1.1\r\n\r\n", &al(&["*"]));
    assert_eq!(d, ConnectDecision::NotConnect);
    assert_eq!(
        d.refusal().unwrap(),
        "HTTP/1.1 405 Method Not Allowed\r\n\r\nplain HTTP not proxied in this phase\r\n"
    );
    assert_eq!(decide("", &al(&["*"])), ConnectDecision::NotConnect);
    assert_eq!(
        decide("\r\nCONNECT a:1 HTTP/1.1\r\n", &al(&["*"])),
        ConnectDecision::NotConnect
    );
}

#[test]
fn the_method_is_read_in_any_case_and_the_target_may_be_missing() {
    assert!(matches!(
        decide("  connect\ta:1 HTTP/1.1\n", &al(&["a"])),
        ConnectDecision::Connect { target } if target == "a:1"
    ));
    assert!(matches!(
        decide("CONNECT\r\n", &al(&["a"])),
        ConnectDecision::Deny { target } if target.is_empty()
    ));
}

#[test]
fn a_head_may_arrive_in_pieces() {
    let whole = b"CONNECT a:1 HTTP/1.1\r\n\r\nhello";
    let mut head = RequestHead::new();
    let mut end = None;
    for b in whole.iter() {
        let now = head.feed(&[*b]);
        if end.is_none() {
            end = now;
        } else {
            assert_eq!(now, end);
        }
    }
    assert_eq!(end, Some(24));
    assert_eq!(head.payload(24), b"hello");
    let mut at_once = RequestHead::new();
    assert_eq!(at_once.feed(whole), Some(24));
}

#[test]
fn a_head_without_end_is_cut_off() {
    let mut head = RequestHead::new();
    assert_eq!(head.feed(&vec![b'x'; MAX_HEAD]), None);
    assert_eq!(head.feed(b"y"), Some(MAX_HEAD + 1));
    assert!(head.payload(MAX_HEAD + 1).is_empty());
}

#[test]
fn the_client_is_told_how_connecting_went() {
    assert_eq!(
        connect_reply(true),
        "HTTP/1.1 200 Connection Established\r\n\r\n"
    );
    assert_eq!(connect_reply(false), "HTTP/1.1 502 Bad Gateway\r\n\r\n");
}
