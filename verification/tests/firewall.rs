use yggdrasil::config::FirewallConfig;
use yggdrasil::firewall::{
    advance_tcp, parse, Firewall, FirewallError, FlowEntry, FlowKey, TcpState, FRAGMENT,
    HOP_BY_HOP, ICMP_ECHO_REPLY, ICMP_ECHO_REQUEST, PROTO_ICMPV6, PROTO_TCP, PROTO_UDP,
    TCP_FLAG_ACK, TCP_FLAG_FIN, TCP_FLAG_RST, TCP_FLAG_SYN, UDP_TIMEOUT,
};

fn build_v6(proto: u8, src: [u8; 16], dst: [u8; 16], payload: &[u8]) -> Vec<u8> {
    let mut pkt = vec![0u8; 40 + payload.len()];
    pkt[0] = 0x60;
    let plen = payload.len() as u16;
    pkt[4..6].copy_from_slice(&plen.to_be_bytes());
    pkt[6] = proto;
    pkt[7] = 64;
    pkt[8..24].copy_from_slice(&src);
    pkt[24..40].copy_from_slice(&dst);
    pkt[40..].copy_from_slice(payload);
    pkt
}

fn tcp(sport: u16, dport: u16, flags: u8) -> Vec<u8> {
    let mut t = vec![0u8; 20];
    t[0..2].copy_from_slice(&sport.to_be_bytes());
    t[2..4].copy_from_slice(&dport.to_be_bytes());
    t[12] = 5 << 4;
    t[13] = flags;
    t
}

fn udp(sport: u16, dport: u16) -> Vec<u8> {
    let mut u = vec![0u8; 8];
    u[0..2].copy_from_slice(&sport.to_be_bytes());
    u[2..4].copy_from_slice(&dport.to_be_bytes());
    u
}

fn icmp_echo(typ: u8, id: u16) -> Vec<u8> {
    let mut i = vec![0u8; 8];
    i[0] = typ;
    i[4..6].copy_from_slice(&id.to_be_bytes());
    i
}

fn local() -> [u8; 16] {
    let mut a = [0u8; 16];
    a[0] = 0x02;
    a[15] = 0x01;
    a
}

fn peer() -> [u8; 16] {
    let mut a = [0u8; 16];
    a[0] = 0x02;
    a[15] = 0x02;
    a
}

fn fw(cfg: FirewallConfig) -> Firewall {
    Firewall::new(&cfg).unwrap()
}

fn enabled_cfg() -> FirewallConfig {
    FirewallConfig {
        enable: true,
        open_tcp: vec![],
        open_udp: vec![],
        open_all_for: vec![],
        allow_icmp_echo: true,
    }
}

const NOW: u64 = 1_000_000_000_000;

#[test]
fn tcp_outbound_then_inbound_passes() {
    let mut fw = fw(enabled_cfg());

    let out = build_v6(PROTO_TCP, local(), peer(), &tcp(40000, 80, TCP_FLAG_SYN));
    fw.observe_outbound(&out, NOW);

    let reply = build_v6(
        PROTO_TCP,
        peer(),
        local(),
        &tcp(80, 40000, TCP_FLAG_SYN | TCP_FLAG_ACK),
    );
    assert!(fw.check_inbound(&reply, NOW));
}

#[test]
fn tcp_unsolicited_inbound_dropped() {
    let mut fw = fw(enabled_cfg());
    let pkt = build_v6(PROTO_TCP, peer(), local(), &tcp(40000, 22, TCP_FLAG_SYN));
    assert!(!fw.check_inbound(&pkt, NOW));
}

#[test]
fn open_tcp_allows_syn_and_subsequent_packets() {
    let mut cfg = enabled_cfg();
    cfg.open_tcp = vec![22];
    let mut fw = fw(cfg);

    let syn = build_v6(PROTO_TCP, peer(), local(), &tcp(40000, 22, TCP_FLAG_SYN));
    assert!(fw.check_inbound(&syn, NOW));

    let ack = build_v6(PROTO_TCP, peer(), local(), &tcp(40000, 22, TCP_FLAG_ACK));
    assert!(fw.check_inbound(&ack, NOW));

    let other = build_v6(PROTO_TCP, peer(), local(), &tcp(40001, 23, TCP_FLAG_SYN));
    assert!(!fw.check_inbound(&other, NOW));
}

#[test]
fn tcp_inbound_ack_without_flow_dropped() {
    let mut cfg = enabled_cfg();
    cfg.open_tcp = vec![22];
    let mut fw = fw(cfg);

    let ack = build_v6(PROTO_TCP, peer(), local(), &tcp(40000, 22, TCP_FLAG_ACK));
    assert!(!fw.check_inbound(&ack, NOW));
}

#[test]
fn open_all_for_bypass() {
    let mut cfg = enabled_cfg();
    cfg.open_all_for = vec!["200::/8".to_string()];
    let mut fw = fw(cfg);

    let pkt = build_v6(PROTO_TCP, peer(), local(), &tcp(40000, 9999, TCP_FLAG_SYN));
    assert!(fw.check_inbound(&pkt, NOW));
}

#[test]
fn udp_round_trip() {
    let mut fw = fw(enabled_cfg());

    let out = build_v6(PROTO_UDP, local(), peer(), &udp(40000, 53));
    fw.observe_outbound(&out, NOW);

    let reply = build_v6(PROTO_UDP, peer(), local(), &udp(53, 40000));
    assert!(fw.check_inbound(&reply, NOW));
}

#[test]
fn open_udp_allows_inbound() {
    let mut cfg = enabled_cfg();
    cfg.open_udp = vec![5353];
    let mut fw = fw(cfg);

    let pkt = build_v6(PROTO_UDP, peer(), local(), &udp(40000, 5353));
    assert!(fw.check_inbound(&pkt, NOW));

    let other = build_v6(PROTO_UDP, peer(), local(), &udp(40000, 5354));
    assert!(!fw.check_inbound(&other, NOW));
}

#[test]
fn icmp_echo_default_allowed() {
    let mut fw = fw(enabled_cfg());
    let req = build_v6(
        PROTO_ICMPV6,
        peer(),
        local(),
        &icmp_echo(ICMP_ECHO_REQUEST, 7),
    );
    assert!(fw.check_inbound(&req, NOW));
}

#[test]
fn icmp_echo_disabled() {
    let mut cfg = enabled_cfg();
    cfg.allow_icmp_echo = false;
    let mut fw = fw(cfg);

    let req = build_v6(
        PROTO_ICMPV6,
        peer(),
        local(),
        &icmp_echo(ICMP_ECHO_REQUEST, 7),
    );
    assert!(!fw.check_inbound(&req, NOW));
}

#[test]
fn icmp_echo_reply_matches_outbound_request() {
    let mut cfg = enabled_cfg();
    cfg.allow_icmp_echo = false;
    let mut fw = fw(cfg);

    let req_out = build_v6(
        PROTO_ICMPV6,
        local(),
        peer(),
        &icmp_echo(ICMP_ECHO_REQUEST, 42),
    );
    fw.observe_outbound(&req_out, NOW);

    let reply_in = build_v6(
        PROTO_ICMPV6,
        peer(),
        local(),
        &icmp_echo(ICMP_ECHO_REPLY, 42),
    );
    assert!(fw.check_inbound(&reply_in, NOW));

    let stray = build_v6(
        PROTO_ICMPV6,
        peer(),
        local(),
        &icmp_echo(ICMP_ECHO_REPLY, 99),
    );
    assert!(!fw.check_inbound(&stray, NOW));
}

#[test]
fn icmp_error_always_allowed() {
    let mut cfg = enabled_cfg();
    cfg.allow_icmp_echo = false;
    let mut fw = fw(cfg);

    let mut payload = vec![0u8; 8];
    payload[0] = 1;
    let pkt = build_v6(PROTO_ICMPV6, peer(), local(), &payload);
    assert!(fw.check_inbound(&pkt, NOW));
}

#[test]
fn non_first_fragment_dropped_on_inbound() {
    let mut payload = vec![0u8; 8];
    payload[0] = PROTO_TCP;
    payload[1] = 0;
    payload[2] = 0;
    payload[3] = 0b00001000;
    let pkt = build_v6(FRAGMENT, peer(), local(), &payload);
    let mut fw = fw(enabled_cfg());
    assert!(!fw.check_inbound(&pkt, NOW));
}

#[test]
fn malformed_packet_dropped() {
    let mut fw = fw(enabled_cfg());
    assert!(!fw.check_inbound(&[0x60u8; 10], NOW));
    let mut bad = vec![0u8; 60];
    bad[0] = 0x40;
    assert!(!fw.check_inbound(&bad, NOW));
}

#[test]
fn invalid_open_all_for_rejected() {
    let cfg = FirewallConfig {
        enable: true,
        open_tcp: vec![],
        open_udp: vec![],
        open_all_for: vec!["not a cidr".to_string()],
        allow_icmp_echo: true,
    };
    assert!(matches!(Firewall::new(&cfg), Err(FirewallError::InvalidEntry(0))));
}

#[test]
fn ipv4_open_all_for_rejected() {
    let cfg = FirewallConfig {
        enable: true,
        open_tcp: vec![],
        open_udp: vec![],
        open_all_for: vec!["10.0.0.0/8".to_string()],
        allow_icmp_echo: true,
    };
    assert!(matches!(Firewall::new(&cfg), Err(FirewallError::Ipv4Entry(0))));
}

#[test]
fn gc_evicts_stale() {
    let mut fw = fw(enabled_cfg());
    let key = FlowKey {
        proto: PROTO_UDP,
        our_ip: local(),
        our_port: 40000,
        peer_ip: peer(),
        peer_port: 53,
    };
    fw.table.insert(
        key,
        FlowEntry { last_seen: NOW - 120_000_000_000, tcp_state: None },
    );
    fw.gc(NOW);
    assert!(fw.table.is_empty());
}

#[test]
fn gc_keeps_what_is_fresh() {
    let mut fw = fw(enabled_cfg());
    let out = build_v6(PROTO_UDP, local(), peer(), &udp(40000, 53));
    fw.observe_outbound(&out, NOW);
    fw.gc(NOW + UDP_TIMEOUT - 1);
    assert_eq!(fw.table.len(), 1);
    fw.gc(NOW + UDP_TIMEOUT);
    assert!(fw.table.is_empty());
}

#[test]
fn a_packet_that_is_dropped_leaves_no_trace() {
    let mut fw = fw(enabled_cfg());
    assert!(fw.enabled());
    let pkt = build_v6(PROTO_TCP, peer(), local(), &tcp(40000, 22, TCP_FLAG_SYN));
    assert!(!fw.check_inbound(&pkt, NOW));
    assert!(fw.table.is_empty());
    // Protocols that are not filtered are not followed either.
    fw.observe_outbound(&build_v6(59, local(), peer(), &[0; 8]), NOW);
    assert!(fw.table.is_empty());
}

#[test]
fn extension_headers_are_walked() {
    // Eight bytes of hop-by-hop options, then UDP.
    let mut payload = vec![PROTO_UDP, 0, 0, 0, 0, 0, 0, 0];
    payload.extend(udp(53, 4000));
    let p = parse(&build_v6(HOP_BY_HOP, peer(), local(), &payload)).unwrap();
    assert_eq!((p.proto, p.src_port, p.dst_port), (PROTO_UDP, 53, 4000));
    assert_eq!((p.src_ip, p.dst_ip), (peer(), local()));
}

#[test]
fn tcp_states_only_go_forward() {
    assert_eq!(advance_tcp(None, TCP_FLAG_SYN), TcpState::SynSent);
    assert_eq!(advance_tcp(Some(TcpState::SynSent), TCP_FLAG_ACK), TcpState::Established);
    assert_eq!(
        advance_tcp(Some(TcpState::Established), TCP_FLAG_FIN | TCP_FLAG_ACK),
        TcpState::FinSeen
    );
    assert_eq!(advance_tcp(Some(TcpState::FinSeen), TCP_FLAG_ACK), TcpState::FinSeen);
    assert_eq!(advance_tcp(Some(TcpState::FinSeen), TCP_FLAG_FIN), TcpState::FinSeen);
    assert_eq!(advance_tcp(Some(TcpState::SynSent), TCP_FLAG_RST), TcpState::Closed);
    assert_eq!(advance_tcp(Some(TcpState::Closed), TCP_FLAG_ACK), TcpState::Closed);
}
