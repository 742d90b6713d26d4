use motosan_sandbox::connect::{Action, Conversation, MAX_HEAD};
use motosan_sandbox::{Allowlist, ProxyConfig};

fn allow(patterns: &[&str]) -> Allowlist {
    ProxyConfig {
        allowlist: patterns.iter().map(|p| p.to_string()).collect(),
    }
    .parse()
}

/// What the proxy does first but reading on, when the bytes come in pieces of this size.
fn in_pieces(sent: &[u8], size: usize, list: &Allowlist) -> (Conversation, Action) {
    let mut c = Conversation::new();
    for piece in sent.chunks(size) {
        let action = c.received(piece, list);
        if action != Action::ReadMore {
            return (c, action);
        }
    }
    (c, Action::ReadMore)
}

#[test]
fn an_allowed_host_is_dialed_and_tunneled() {
    let list = allow(&["127.0.0.1"]);
    let sent = b"CONNECT 127.0.0.1:443 HTTP/1.1\r\nHost: x\r\n\r\nhello";
    let (c, action) = in_pieces(sent, sent.len(), &list);
    assert_eq!(
        action,
        Action::Dial {
            target: "127.0.0.1:443".to_string()
        }
    );
    assert_eq!(
        c.dialed(true),
        Action::Tunnel {
            reply: "HTTP/1.1 200 Connection Established\r\n\r\n".to_string(),
            payload: b"hello".to_vec()
        }
    );
    assert_eq!(
        c.dialed(false),
        Action::Refuse {
            reply: "HTTP/1.1 502 Bad Gateway\r\n\r\n".to_string(),
            denied: None
        }
    );
}

#[test]
fn a_host_that_is_not_listed_is_forbidden() {
    let (_, action) = in_pieces(
        b"connect evil.test:443 HTTP/1.1\r\n\r\n",
        1024,
        &allow(&["example.com"]),
    );
    assert_eq!(
        action,
        Action::Refuse {
            reply: "HTTP/1.1 403 Forbidden\r\n\r\n".to_string(),
            denied: Some("evil.test:443".to_string())
        }
    );
}

#[test]
fn anything_but_connect_is_not_proxied() {
    let (_, action) = in_pieces(
        b"GET http://example.com/ HTTP/1.1\r\n\r\n",
        1024,
        &allow(&["*"]),
    );
    match action {
        Action::Refuse { reply, denied } => {
            assert!(reply.starts_with("HTTP/1.1 405 Method Not Allowed\r\n\r\n"));
            assert!(denied.is_none());
        }
        other => panic!("expected a refusal, got {:?}", other),
    }
}

#[test]
fn the_size_of_the_pieces_does_not_matter() {
    let list = allow(&["*.example.com"]);
    let sent = b"CONNECT a.example.com:1 HTTP/1.1\r\n\r\nxy";
    for size in 1..=sent.len() {
        let (_, action) = in_pieces(sent, size, &list);
        assert_eq!(
            action,
            Action::Dial {
                target: "a.example.com:1".to_string()
            }
        );
    }
}

#[test]
fn a_client_that_closes_is_not_answered() {
    let list = allow(&["*"]);
    let mut c = Conversation::new();
    assert_eq!(c.received(b"CONN", &list), Action::ReadMore);
    assert_eq!(c.received(b"", &list), Action::Close);
}

#[test]
fn an_endless_request_is_answered_at_the_limit() {
    let list = allow(&["example.com"]);
    let mut sent = b"CONNECT example.com:1 ".to_vec();
    sent.resize(MAX_HEAD, b'x');
    let mut c = Conversation::new();
    assert_eq!(c.received(&sent, &list), Action::ReadMore);
    assert_eq!(
        c.received(b"x", &list),
        Action::Dial {
            target: "example.com:1".to_string()
        }
    );
    assert_eq!(
        c.dialed(true),
        Action::Tunnel {
            reply: "HTTP/1.1 200 Connection Established\r\n\r\n".to_string(),
            payload: vec![]
        }
    );
}
