use yggdrasil::links::ActiveLinksInner;
use yggdrasil::mesh::{
    classify, host_mtu, is_online, link_table, payload_written, tun_mtu, wrap_proto, wrap_traffic,
    Payload,
};
use yggdrasil::mobile::{
    config_to_udl, connectivity_change, convert_config, expand_ckr_cidrs, generate_config,
    get_version, start_tun, stop_tun, tun_read_step, tun_write_step, CkrRemoteSubnet, NodePhase,
    TunError, TunReadAction, TunReadEvent, TunWriteAction, TunWriteEvent, TunnelRoutingConfig,
};
use yggdrasil::node::PeerInfo;
use yggdrasil::peering::PeerBook;

#[test]
fn a_new_configuration_goes_both_ways() {
    let mut shown = generate_config();
    assert_eq!(shown.private_key.len(), 128);
    shown.peers.push("tls://example.com:1".to_string());
    shown.tunnel_routing.remote_subnets.push(CkrRemoteSubnet {
        public_key: "aa".to_string(),
        cidrs: vec!["10.0.0.0/8".to_string()],
    });
    let config = convert_config(&shown);
    assert_eq!(config.private_key, shown.private_key);
    assert!(config.signing_key().is_ok());
    let again = config_to_udl(&config);
    assert_eq!(again.private_key, shown.private_key);
    assert_eq!(again.peers, shown.peers);
    assert_eq!(again.listen, shown.listen);
    assert_eq!(again.if_mtu, shown.if_mtu);
    // The routing of networks is not shown.
    assert!(again.tunnel_routing.remote_subnets.is_empty());
    assert_eq!(
        config.tunnel_routing.remote_subnets,
        vec![("aa".to_string(), vec!["10.0.0.0/8".to_string()])]
    );
    assert!(config.firewall.enable);
    assert!(!config.tunnel_routing.install_system_routes);
}

#[test]
fn the_name_of_a_node_is_kept() {
    let mut shown = generate_config();
    assert_eq!(shown.node_info_name, "");
    let config = convert_config(&shown);
    assert_eq!(config.node_name, None);
    assert_eq!(config_to_udl(&config).node_info_name, "");
    shown.node_info_name = "a node".to_string();
    let config = convert_config(&shown);
    assert_eq!(config.node_name, Some("a node".to_string()));
    assert_eq!(config_to_udl(&config).node_info_name, "a node");
}

#[test]
fn networks_are_listed_once() {
    let config = TunnelRoutingConfig {
        enable: true,
        ipv4_address: String::new(),
        remote_subnets: vec![
            CkrRemoteSubnet {
                public_key: "aa".to_string(),
                cidrs: vec!["10.0.0.0/8".to_string(), "2001:db8::/32".to_string()],
            },
            CkrRemoteSubnet {
                public_key: "bb".to_string(),
                cidrs: vec!["10.0.0.0/8".to_string(), "nonsense".to_string()],
            },
        ],
    };
    let list = expand_ckr_cidrs(&config);
    assert_eq!(list.len(), 2);
    assert!(list.contains(&"10.0.0.0/8".to_string()));
    assert!(list.contains(&"2001:db8::/32".to_string()));
}

#[test]
fn a_tunnel_is_started_once() {
    assert_eq!(start_tun(NodePhase::Stopped), Err(TunError::NotStarted));
    assert_eq!(start_tun(NodePhase::Running), Ok(NodePhase::Tunnelling));
    assert_eq!(start_tun(NodePhase::Tunnelling), Err(TunError::AlreadyStarted));
    assert_eq!(stop_tun(NodePhase::Tunnelling), (NodePhase::Running, true));
    assert_eq!(stop_tun(NodePhase::Running), (NodePhase::Running, false));
    assert_eq!(connectivity_change(false, true), Some(true));
    assert_eq!(connectivity_change(true, true), None);
    assert_eq!(get_version(), "0.5");
}

#[test]
fn packets_between_tunnel_and_mesh() {
    assert_eq!(tun_read_step(TunReadEvent::Read(60)), TunReadAction::Forward(60));
    assert_eq!(tun_read_step(TunReadEvent::Read(0)), TunReadAction::Quit);
    assert_eq!(tun_read_step(TunReadEvent::WouldBlock), TunReadAction::Wait);
    assert_eq!(tun_read_step(TunReadEvent::ReadFailed), TunReadAction::Quit);
    assert_eq!(tun_write_step(None, TunWriteEvent::Packet(9)), TunWriteAction::Write(9));
    assert_eq!(tun_write_step(None, TunWriteEvent::Packet(0)), TunWriteAction::NextPacket);
    assert_eq!(tun_write_step(Some(9), TunWriteEvent::WouldBlock), TunWriteAction::Write(9));
    assert_eq!(tun_write_step(Some(9), TunWriteEvent::Stopped), TunWriteAction::Quit);
}

#[test]
fn payloads_are_told_apart() {
    assert!(matches!(classify(&wrap_traffic(b"ip")), Payload::Traffic(p) if p == b"ip"));
    assert!(matches!(classify(&wrap_proto(b"q")), Payload::Proto(p) if p == b"q"));
    assert!(matches!(classify(&[9, 9]), Payload::Unknown));
    assert!(matches!(classify(&[]), Payload::Unknown));
    assert_eq!(payload_written(11), 10);
    assert_eq!(payload_written(0), 0);
    assert_eq!(host_mtu(1000), 999);
    assert_eq!(host_mtu(200_000), 65535);
    assert_eq!(tun_mtu(65535, 60000), 60000);
    assert_eq!(tun_mtu(1280, 60000), 1280);
    assert_eq!(tun_mtu(100_000, 100_000), 65535);
}

#[test]
fn links_are_listed_with_those_that_are_down() {
    let mut links = ActiveLinksInner::new();
    let mut book = PeerBook::new();
    let up = "tcp://up:1".to_string();
    let down = "tcp://down:1".to_string();
    book.finish_add(&up, None).unwrap();
    book.finish_add(&down, None).unwrap();
    book.set_error(&down, Some("refused".to_string()));
    assert!(!is_online(&link_table(&links, &book, &Vec::new(), 0)));
    let (id, _) = links.register(&up, false, [1; 32], 2, 10);
    links.set_counts(id, 7, 8);
    let neighbours = vec![PeerInfo {
        key: [1; 32],
        port: 1,
        priority: 2,
        latency_ns: 99,
        cost: 4,
    }];
    let table = link_table(&links, &book, &neighbours, 25);
    assert_eq!(table.len(), 2);
    assert!(is_online(&table));
    let row = table.iter().find(|r| r.uri == up).unwrap();
    assert!(row.up && !row.inbound);
    assert_eq!((row.rx_bytes, row.tx_bytes, row.uptime_ns), (7, 8, 15));
    assert_eq!((row.latency_ns, row.cost), (99, 4));
    let row = table.iter().find(|r| r.uri == down).unwrap();
    assert!(!row.up);
    assert_eq!(row.last_error.as_deref(), Some("refused"));
}
