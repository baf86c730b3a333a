use yggdrasil::bans::{BanList, BAN_DURATION, FAILED_ATTEMPT_WINDOW};
use yggdrasil::crypto::Crypto;
use yggdrasil::links::{
    is_key_allowed, next_attempt, rate_tick, ActiveLinksInner, Attempt, ByteMeter, LinkAction,
    LinkEvent, LinkSetup, LinkType, PeerEvent, Refusal, BAN_CLEANUP_TICKS, FLUSH_THRESHOLD,
};
use yggdrasil::nets::Ip;
use yggdrasil::peering::{begin_listen, finish_listen, sorted_addresses, Endpoint, PeerBook, PeeringError};
use yggdrasil::texts::{
    comes_first, glob_match, number_text, parse_duration_string, parse_key, parse_number,
    DurationError,
};
use yggdrasil::uris::{
    parse_link_options, parse_uri, without_brackets, LinkOptions, OptionError,
};
use yggdrasil::version::{Metadata, VersionError};

#[test]
fn test_parse_duration_string_plain_seconds() {
    assert_eq!(parse_duration_string("300").unwrap(), 300);
    assert_eq!(parse_duration_string("0").unwrap(), 0);
    assert_eq!(parse_duration_string("4096").unwrap(), 4096);
}

#[test]
fn test_parse_duration_string_units() {
    assert_eq!(parse_duration_string("5m").unwrap(), 300);
    assert_eq!(parse_duration_string("1h").unwrap(), 3600);
    assert_eq!(parse_duration_string("30s").unwrap(), 30);
    assert_eq!(parse_duration_string("1h30m").unwrap(), 5400);
    assert_eq!(parse_duration_string("2h30m15s").unwrap(), 9015);
}

#[test]
fn test_parse_duration_string_invalid() {
    assert!(parse_duration_string("abc").is_err());
    assert!(parse_duration_string("5x").is_err());
    assert!(parse_duration_string("5m30").is_err());
}

fn options(text: &str) -> Result<LinkOptions, OptionError> {
    parse_link_options(&parse_uri(text).unwrap())
}

#[test]
fn test_parse_link_options_sni_hostname() {
    let opts = options("tls://example.com:12345?sni=custom.host.com").unwrap();
    assert_eq!(opts.tls_sni, Some("custom.host.com".to_string()));
}

#[test]
fn test_parse_link_options_sni_ip_rejected() {
    let opts = options("tls://example.com:12345?sni=1.2.3.4").unwrap();
    assert_eq!(opts.tls_sni, Some("example.com".to_string()));
}

#[test]
fn test_parse_link_options_sni_fallback_to_hostname() {
    let opts = options("tls://peer.example.com:12345").unwrap();
    assert_eq!(opts.tls_sni, Some("peer.example.com".to_string()));
}

#[test]
fn an_ipv6_host_is_no_name() {
    let opts = options("tls://[::1]:12345").unwrap();
    assert_eq!(opts.tls_sni, None);
    let opts = options("tls://[::1]:12345?sni=[fe80::1]").unwrap();
    assert_eq!(opts.tls_sni, None);
    let opts = options("tls://[::1]:12345?sni=host.example").unwrap();
    assert_eq!(opts.tls_sni, Some("host.example".to_string()));
    assert_eq!(without_brackets("[::1]"), "::1");
    assert_eq!(without_brackets("host.example"), "host.example");
    assert_eq!(without_brackets("["), "[");
}

#[test]
fn tls_asks_for_the_name_or_the_host() {
    let opts = options("tls://example.com:1?sni=custom.host.com").unwrap();
    assert_eq!(opts.server_name("example.com"), "custom.host.com");
    let opts = options("tls://example.com:1").unwrap();
    assert_eq!(opts.server_name("example.com"), "example.com");
    let opts = options("tls://[2001:db8::1]:1").unwrap();
    assert_eq!(opts.server_name("[2001:db8::1]"), "2001:db8::1");
    let opts = options("tls://192.0.2.1:1").unwrap();
    assert_eq!(opts.server_name("192.0.2.1"), "192.0.2.1");
}

#[test]
fn test_parse_link_options_sni_no_fallback_for_ip() {
    let opts = options("tls://192.168.1.1:12345").unwrap();
    assert_eq!(opts.tls_sni, None);
}

#[test]
fn test_parse_link_options_maxbackoff_duration_string() {
    let opts = options("tcp://example.com:12345?maxbackoff=5m").unwrap();
    assert_eq!(opts.max_backoff, 300);
}

#[test]
fn test_parse_link_options_maxbackoff_seconds() {
    let opts = options("tcp://example.com:12345?maxbackoff=600").unwrap();
    assert_eq!(opts.max_backoff, 600);
}

#[test]
fn test_parse_link_options_maxbackoff_too_small() {
    assert!(matches!(
        options("tcp://example.com:12345?maxbackoff=3s"),
        Err(OptionError::BackoffTooShort)
    ));
}

#[test]
fn durations_that_are_none() {
    assert!(matches!(parse_duration_string("m"), Err(DurationError::Number)));
    assert!(matches!(parse_duration_string("5x"), Err(DurationError::Unit('x'))));
    assert!(matches!(parse_duration_string("5m30"), Err(DurationError::Trailing)));
    assert!(matches!(
        parse_duration_string("18446744073709551615m"),
        Err(DurationError::TooLong)
    ));
}

#[test]
fn options_of_a_link() {
    let key = hex::encode([7u8; 32]);
    let opts = options(&format!(
        "tcp://example.com:1?key={key}&priority=9&password=a%20b&key={key}&other=1"
    ))
    .unwrap();
    assert_eq!(opts.pinned_keys, vec![[7u8; 32], [7u8; 32]]);
    assert_eq!(opts.priority, 9);
    assert_eq!(opts.password, b"a b");
    assert_eq!(opts.max_backoff, 4096);
    assert!(matches!(options("tcp://h:1?key=xx"), Err(OptionError::KeyHex)));
    assert!(matches!(options("tcp://h:1?key=aabb"), Err(OptionError::KeyLength)));
    assert!(matches!(options("tcp://h:1?priority=256"), Err(OptionError::Priority)));
    assert!(matches!(
        options("tcp://h:1?maxbackoff=5y"),
        Err(OptionError::Backoff(DurationError::Unit('y')))
    ));
    let long = "p".repeat(65);
    assert!(matches!(
        options(&format!("tcp://h:1?password={long}")),
        Err(OptionError::PasswordTooLong)
    ));
}

#[test]
fn parts_of_an_address() {
    let uri = parse_uri("tls://[2001:db8::1]:443?a=b&c=%41").unwrap();
    assert_eq!(uri.scheme, "tls");
    assert_eq!(uri.host.as_deref(), Some("[2001:db8::1]"));
    assert_eq!(uri.port, Some(443));
    assert_eq!(
        uri.query,
        vec![("a".to_string(), "b".to_string()), ("c".to_string(), "A".to_string())]
    );
    assert!(parse_uri("no address").is_none());
}

fn setup(link_type: LinkType, secret: u8) -> LinkSetup {
    LinkSetup {
        link_type,
        options: LinkOptions::default(),
        secret: [secret; 32],
        our_key: Crypto::new([secret; 32]).public_key,
        allowed: None,
        peer_ip: Some(Ip::V4([10, 0, 0, 9])),
    }
}

/// Runs the handshake of `a` against metadata of the node with a secret key.
fn handshake(a: &LinkSetup, theirs: &[u8], bans: &mut BanList, now: u64) -> LinkAction {
    match a.step(&LinkEvent::Opened, bans, now) {
        LinkAction::Exchange(ours) => assert_eq!(ours.len(), 123),
        other => return other,
    }
    let mut header = [0u8; 6];
    header.copy_from_slice(&theirs[..6]);
    match a.step(&LinkEvent::Header(header), bans, now) {
        LinkAction::ReadBody(n) => assert_eq!(n, theirs.len() - 6),
        other => return other,
    }
    a.step(&LinkEvent::Body(theirs[6..].to_vec()), bans, now)
}

fn metadata_of(secret: u8, priority: u8) -> Vec<u8> {
    let s = [secret; 32];
    Metadata::new(Crypto::new(s).public_key, priority).encode(&s, b"")
}

#[test]
fn two_nodes_shake_hands() {
    let mut bans = BanList::new();
    let mut a = setup(LinkType::Incoming, 1);
    a.options.priority = 2;
    match handshake(&a, &metadata_of(3, 5), &mut bans, 0) {
        LinkAction::Join { key, priority, inbound } => {
            assert_eq!(key, Crypto::new([3; 32]).public_key);
            assert_eq!(priority, 5);
            assert!(inbound);
        }
        _ => panic!("refused"),
    }
}

#[test]
fn whom_a_node_does_not_link_to() {
    let mut bans = BanList::new();
    let a = setup(LinkType::Persistent, 1);
    assert!(matches!(
        handshake(&a, &metadata_of(1, 0), &mut bans, 0),
        LinkAction::Refuse(Refusal::Ourselves)
    ));
    let mut pinned = setup(LinkType::Persistent, 1);
    pinned.options.pinned_keys = vec![[9; 32]];
    assert!(matches!(
        handshake(&pinned, &metadata_of(3, 0), &mut bans, 0),
        LinkAction::Refuse(Refusal::NotPinned)
    ));
    let mut closed = setup(LinkType::Incoming, 1);
    closed.allowed = Some(vec![[9; 32]]);
    assert!(matches!(
        handshake(&closed, &metadata_of(3, 0), &mut bans, 0),
        LinkAction::Refuse(Refusal::NotAllowed)
    ));
    // Nodes that we dial ourselves are not held to the list.
    closed.link_type = LinkType::Persistent;
    assert!(matches!(
        handshake(&closed, &metadata_of(3, 0), &mut bans, 0),
        LinkAction::Join { .. }
    ));
    let open = setup(LinkType::Persistent, 1);
    assert!(matches!(
        open.step(&LinkEvent::Failed, &mut bans, 0),
        LinkAction::Refuse(Refusal::Io)
    ));
    assert!(matches!(
        open.step(&LinkEvent::TimedOut, &mut bans, 0),
        LinkAction::Refuse(Refusal::TimedOut)
    ));
    assert!(is_key_allowed(&None, &[4; 32]));
    assert!(is_key_allowed(&Some(vec![[5; 32], [4; 32]]), &[4; 32]));
    assert!(!is_key_allowed(&Some(vec![[5; 32]]), &[4; 32]));
    assert!(!is_key_allowed(&Some(Vec::new()), &[4; 32]));
}

#[test]
fn a_host_that_keeps_failing_is_shut_out() {
    let mut bans = BanList::new();
    let mut a = setup(LinkType::Incoming, 1);
    a.options.password = b"sesame".to_vec();
    for _ in 0..4 {
        // A wrong password is refused, but is not held against the host.
        assert!(matches!(
            handshake(&a, &metadata_of(3, 0), &mut bans, 7),
            LinkAction::Refuse(Refusal::Metadata(VersionError::BadSignature))
        ));
    }
    a.options.password = Vec::new();
    a.allowed = Some(vec![[9; 32]]);
    for _ in 0..3 {
        assert!(matches!(
            handshake(&a, &metadata_of(3, 0), &mut bans, 7),
            LinkAction::Refuse(Refusal::NotAllowed)
        ));
    }
    assert!(matches!(
        handshake(&a, &metadata_of(3, 0), &mut bans, 8),
        LinkAction::Refuse(Refusal::Banned)
    ));
}

#[test]
fn bans_end() {
    let mut bans = BanList::new();
    let ip = Ip::V4([1, 2, 3, 4]);
    assert!(!bans.record_failure(ip, 0));
    assert!(!bans.record_failure(ip, 1));
    assert!(!bans.is_banned(ip, 1));
    assert!(bans.record_failure(ip, 2));
    assert!(bans.is_banned(ip, 3));
    assert!(!bans.is_banned(Ip::V4([1, 2, 3, 5]), 3));
    bans.cleanup(3);
    assert!(bans.is_banned(ip, 2 + BAN_DURATION - 1));
    assert!(!bans.is_banned(ip, 2 + BAN_DURATION));
    // Failures far apart do not add up.
    let other = Ip::V6([1; 16]);
    for i in 0..5 {
        assert!(!bans.record_failure(other, i * (FAILED_ATTEMPT_WINDOW + 1)));
    }
}

#[test]
fn links_that_are_up() {
    let mut links = ActiveLinksInner::new();
    let (id, event) = links.register(&"tcp://a:1".to_string(), false, [1; 32], 3, 100);
    assert!(matches!(event, PeerEvent::Connected { key, inbound: false, .. } if key == [1; 32]));
    let (id2, _) = links.register(&"tcp://b:1".to_string(), true, [2; 32], 0, 100);
    assert_ne!(id, id2);
    links.set_counts(id, 1000, 50);
    links.update_rates();
    let c = links.connections.get(&id).unwrap();
    assert_eq!((c.rx_rate, c.tx_rate), (1000, 50));
    links.set_counts(id, 1500, 50);
    links.update_rates();
    let c = links.connections.get(&id).unwrap();
    assert_eq!((c.rx_rate, c.tx_rate), (500, 0));
    assert!(matches!(links.unregister(id), Some(PeerEvent::Disconnected { .. })));
    assert!(links.unregister(id).is_none());
    assert_eq!(links.unregister_by_uri(&"tcp://b:1".to_string()).len(), 1);
    assert!(links.connections.is_empty());
    let (id3, _) = links.register(&"tcp://a:1".to_string(), false, [1; 32], 3, 100);
    assert!(id3 != id && id3 != id2);
}

#[test]
fn waiting_doubles_up_to_a_limit() {
    assert_eq!(next_attempt(0, Attempt::NotConnected, 4096), (1, 2));
    assert_eq!(next_attempt(1, Attempt::NotConnected, 4096), (2, 4));
    assert_eq!(next_attempt(6, Attempt::Broken, 4096), (7, 128));
    assert_eq!(next_attempt(20, Attempt::Broken, 4096), (21, 128));
    assert_eq!(next_attempt(20, Attempt::Ended, 4096), (1, 2));
    assert_eq!(next_attempt(6, Attempt::TlsFailed, 4096), (7, 128));
    assert_eq!(next_attempt(6, Attempt::Broken, 30), (7, 30));
    assert_eq!(next_attempt(32, Attempt::Broken, 4096).0, 32);
    assert_eq!(rate_tick(0), (1, false));
    assert_eq!(rate_tick(BAN_CLEANUP_TICKS - 1), (0, true));
}

#[test]
fn bytes_are_counted_in_lumps() {
    let mut m = ByteMeter::new();
    m.add_bytes(FLUSH_THRESHOLD - 1);
    assert_eq!(m.total, 0);
    m.add_bytes(1);
    assert_eq!(m.total, FLUSH_THRESHOLD);
    m.add_bytes(5);
    m.flush();
    assert_eq!((m.total, m.pending), (FLUSH_THRESHOLD + 5, 0));
}

#[test]
fn nodes_are_linked_to_once() {
    let mut book = PeerBook::new();
    let uri = "tls://example.com:443?priority=4".to_string();
    let t = book.begin_add(&uri).unwrap();
    assert_eq!((t.host.as_str(), t.port, t.tls), ("example.com", 443, true));
    let addrs = vec!["1.2.3.4:443".to_string()];
    assert_eq!(book.finish_add(&uri, Some(addrs.clone())).unwrap().priority, 4);
    assert!(matches!(book.begin_add(&uri), Err(PeeringError::Exists)));
    let alias = "tls://alias.example.com:443".to_string();
    assert!(matches!(book.finish_add(&alias, Some(addrs)), Err(PeeringError::SameAddress(0))));
    assert!(matches!(
        book.finish_add(&"tcp://h:1?priority=x".to_string(), None),
        Err(PeeringError::Options(OptionError::Priority))
    ));
    book.set_error(&uri, Some("timed out".to_string()));
    assert_eq!(book.peers[0].error.as_deref(), Some("timed out"));
    assert!(matches!(book.remove_peer(&uri), Ok(())));
    assert!(matches!(book.remove_peer(&uri), Err(PeeringError::NotFound)));
    assert!(book.addrs.is_empty());
    assert!(matches!(book.begin_add(&"nothing".to_string()), Err(PeeringError::Uri)));
    assert!(matches!(book.begin_add(&"udp://h:1".to_string()), Err(PeeringError::Scheme)));
    assert!(matches!(book.begin_add(&"tcp://h".to_string()), Err(PeeringError::Port)));
    assert!(matches!(book.begin_add(&"tcp:///x".to_string()), Err(PeeringError::Host)));
}

#[test]
fn addresses_to_listen_on() {
    let addr = "tls://[::]:0?priority=7".to_string();
    assert!(begin_listen(&addr).unwrap());
    assert_eq!(finish_listen(&addr).unwrap().priority, 7);
    assert!(!begin_listen(&"tcp://0.0.0.0:0".to_string()).unwrap());
    assert!(matches!(begin_listen(&"quic://h:1".to_string()), Err(PeeringError::Scheme)));
    assert!(matches!(begin_listen(&"?".to_string()), Err(PeeringError::Uri)));
    assert!(matches!(finish_listen(&"?".to_string()), Err(PeeringError::Uri)));
    // A wrong option comes to light once the address was resolved.
    let addr = "tcp://[::]:0?priority=x".to_string();
    assert!(begin_listen(&addr).is_ok());
    assert!(matches!(finish_listen(&addr), Err(PeeringError::Options(_))));
}

#[test]
fn texts_are_read_and_compared() {
    assert_eq!(parse_number("0042", 100), Some(42));
    assert_eq!(parse_number("101", 100), None);
    assert_eq!(parse_number("4a", 100), None);
    assert_eq!(parse_number("", 100), None);
    assert_eq!(number_text(0), "0");
    assert_eq!(number_text(18446744073709551615), "18446744073709551615");
    assert!(comes_first("abc", "abd"));
    assert!(comes_first("ab", "abc"));
    assert!(!comes_first("b", "abc"));
    assert!(glob_match("*", ""));
    assert!(glob_match("e*0", "eth0"));
    assert!(glob_match("eth?", "eth1"));
    assert!(!glob_match("eth?", "eth10"));
    assert!(!glob_match("wl*", "eth0"));
    assert_eq!(parse_key(&hex::encode([3u8; 32])), Some([3u8; 32]));
    assert_eq!(parse_key(&hex::encode([3u8; 31])), None);
    assert_eq!(parse_key("xyz"), None);
}

#[test]
fn resolved_addresses_are_put_in_order() {
    let at = |ip: Ip, port: u16, scope: u32, text: &str| Endpoint {
        ip,
        port,
        flow: 0,
        scope,
        text: text.to_string(),
    };
    let list = vec![
        at(Ip::V6([1; 16]), 1, 2, "e"),
        at(Ip::V6([1; 16]), 1, 1, "d"),
        at(Ip::V4([9, 0, 0, 1]), 1, 0, "c"),
        at(Ip::V4([8, 0, 0, 1]), 300, 0, "b"),
        at(Ip::V4([8, 0, 0, 1]), 2, 0, "a"),
    ];
    assert_eq!(sorted_addresses(&list), vec!["a", "b", "c", "d", "e"]);
    assert!(sorted_addresses(&Vec::new()).is_empty());
}
