use yggdrasil::ckr::{routes_to_install, routes_to_remove, CkrError, CryptoKey};
use yggdrasil::config::TunnelRoutingConfig;
use yggdrasil::nets::{is_yggdrasil_destination, network_of, Cidr, Ip};

fn make_config(subnets: Vec<(String, Vec<String>)>) -> TunnelRoutingConfig {
    TunnelRoutingConfig {
        enable: true,
        yggdrasil_routing: true,
        ipv4_address: String::new(),
        remote_subnets: subnets,
        install_system_routes: true,
    }
}

fn dummy_key_hex() -> String {
    hex::encode([0x01u8; 32])
}

fn other_key_hex() -> String {
    hex::encode([0x02u8; 32])
}

fn v4(a: u8, b: u8, c: u8, d: u8) -> Ip {
    Ip::V4([a, b, c, d])
}

fn v6(head: &[u8], last: u8) -> Ip {
    let mut a = [0u8; 16];
    a[..head.len()].copy_from_slice(head);
    a[15] = last;
    Ip::V6(a)
}

#[test]
fn test_empty_config() {
    let config = TunnelRoutingConfig::default();
    let ckr = CryptoKey::new(&config).unwrap();
    assert!(ckr.v4_routes.is_empty());
    assert!(ckr.v6_routes.is_empty());
}

#[test]
fn test_disabled_config() {
    let mut config = make_config(vec![(dummy_key_hex(), vec!["10.0.0.0/24".to_string()])]);
    config.enable = false;
    let ckr = CryptoKey::new(&config).unwrap();
    assert!(ckr.v4_routes.is_empty());
}

#[test]
fn test_ipv4_route_lookup() {
    let subnets = vec![(dummy_key_hex(), vec!["10.0.0.0/24".to_string()])];
    let ckr = CryptoKey::new(&make_config(subnets)).unwrap();

    let key = ckr.get_public_key_for_address(&v4(10, 0, 0, 5));
    assert_eq!(key, Some([0x01u8; 32]));

    assert_eq!(ckr.get_public_key_for_address(&v4(192, 168, 0, 1)), None);
}

#[test]
fn test_ipv6_route_lookup() {
    let subnets = vec![(dummy_key_hex(), vec!["2001:db8::/32".to_string()])];
    let ckr = CryptoKey::new(&make_config(subnets)).unwrap();

    let addr = v6(&[0x20, 0x01, 0x0d, 0xb8], 1);
    assert_eq!(ckr.get_public_key_for_address(&addr), Some([0x01u8; 32]));

    let miss = v6(&[0x20, 0x01, 0x0d, 0xb9], 1);
    assert_eq!(ckr.get_public_key_for_address(&miss), None);
}

#[test]
fn test_longest_prefix_match() {
    let subnets = vec![
        (dummy_key_hex(), vec!["10.0.0.0/24".to_string()]),
        (other_key_hex(), vec!["10.0.0.0/25".to_string()]),
    ];
    let ckr = CryptoKey::new(&make_config(subnets)).unwrap();

    assert_eq!(ckr.get_public_key_for_address(&v4(10, 0, 0, 5)), Some([0x02u8; 32]));
    assert_eq!(ckr.get_public_key_for_address(&v4(10, 0, 0, 200)), Some([0x01u8; 32]));
}

#[test]
fn test_yggdrasil_destination_rejected() {
    let subnets = vec![(dummy_key_hex(), vec!["200::/7".to_string()])];
    let result = CryptoKey::new(&make_config(subnets));
    assert!(matches!(result, Err(CkrError::MeshSubnet(0, 0))));
}

#[test]
fn test_yggdrasil_address_lookup_returns_none() {
    let subnets = vec![(dummy_key_hex(), vec!["2001:db8::/32".to_string()])];
    let ckr = CryptoKey::new(&make_config(subnets)).unwrap();

    let ygg_addr = v6(&[0x02, 0x00], 1);
    assert_eq!(ckr.get_public_key_for_address(&ygg_addr), None);
}

#[test]
fn test_duplicate_route_rejected() {
    let subnets = vec![(
        dummy_key_hex(),
        vec!["10.0.0.0/24".to_string(), "10.0.0.0/24".to_string()],
    )];
    let result = CryptoKey::new(&make_config(subnets));
    assert!(matches!(result, Err(CkrError::Duplicate(0, 1))));
}

#[test]
fn test_invalid_cidr_rejected() {
    let subnets = vec![(dummy_key_hex(), vec!["not-a-cidr".to_string()])];
    let result = CryptoKey::new(&make_config(subnets));
    assert!(matches!(result, Err(CkrError::Cidr(0, 0))));
}

#[test]
fn test_invalid_pubkey_rejected() {
    let subnets = vec![("not-hex".to_string(), vec!["10.0.0.0/24".to_string()])];
    let result = CryptoKey::new(&make_config(subnets));
    assert!(matches!(result, Err(CkrError::KeyHex(0))));
}

#[test]
fn test_wrong_length_pubkey_rejected() {
    let subnets = vec![(hex::encode([0x01u8; 16]), vec!["10.0.0.0/24".to_string()])];
    let result = CryptoKey::new(&make_config(subnets));
    assert!(matches!(result, Err(CkrError::KeyLength(0))));
}

#[test]
fn test_is_yggdrasil_destination() {
    assert!(is_yggdrasil_destination(&v6(&[0x02, 0x00], 1)));
    assert!(is_yggdrasil_destination(&v6(&[0x03, 0x00], 1)));
    assert!(!is_yggdrasil_destination(&v6(&[0x20, 0x01, 0x0d, 0xb8], 1)));
    assert!(!is_yggdrasil_destination(&v4(10, 0, 0, 1)));
}

#[test]
fn test_multiple_subnets_per_key() {
    let subnets = vec![(
        dummy_key_hex(),
        vec![
            "10.0.0.0/24".to_string(),
            "192.168.1.0/24".to_string(),
            "2001:db8::/32".to_string(),
        ],
    )];
    let ckr = CryptoKey::new(&make_config(subnets)).unwrap();

    assert_eq!(ckr.v4_routes.len(), 2);
    assert_eq!(ckr.v6_routes.len(), 1);

    assert!(ckr.get_public_key_for_address(&v4(10, 0, 0, 1)).is_some());
    assert!(ckr.get_public_key_for_address(&v4(192, 168, 1, 100)).is_some());
    assert!(ckr
        .get_public_key_for_address(&v6(&[0x20, 0x01, 0x0d, 0xb8], 1))
        .is_some());
}

#[test]
fn test_route_sorting_order() {
    let subnets = vec![
        (dummy_key_hex(), vec!["10.0.0.0/8".to_string()]),
        (other_key_hex(), vec!["10.0.0.0/16".to_string()]),
    ];
    let ckr = CryptoKey::new(&make_config(subnets)).unwrap();

    assert_eq!(ckr.v4_routes[0].prefix.prefix_len, 16);
    assert_eq!(ckr.v4_routes[1].prefix.prefix_len, 8);
}

#[test]
fn system_routes_follow_the_networks() {
    let subnets = vec![
        (dummy_key_hex(), vec!["10.1.0.0/16".to_string(), "2001:db8::/32".to_string()]),
    ];
    let mut config = make_config(subnets);
    let routes = routes_to_install(&config).unwrap();
    assert_eq!(routes.len(), 2);
    assert_eq!(routes[0].prefix_len, 16);
    assert_eq!(routes[1].prefix_len, 32);
    assert_eq!(routes_to_remove(&config).len(), 2);
    config.remote_subnets[0].1.push("nonsense".to_string());
    assert!(matches!(routes_to_install(&config), Err(CkrError::Cidr(0, 2))));
    assert_eq!(routes_to_remove(&config).len(), 2);
}

#[test]
fn the_bits_behind_a_prefix_are_cleared() {
    let v4 = |prefix_len: u8| network_of(&Cidr { addr: Ip::V4([10, 255, 255, 7]), prefix_len });
    assert_eq!(v4(32), Ip::V4([10, 255, 255, 7]));
    assert_eq!(v4(12), Ip::V4([10, 240, 0, 0]));
    assert_eq!(v4(0), Ip::V4([0; 4]));
    let mut addr = [0xffu8; 16];
    let v6 = |prefix_len: u8| network_of(&Cidr { addr: Ip::V6([0xff; 16]), prefix_len });
    assert_eq!(v6(128), Ip::V6(addr));
    addr[7] = 0x80;
    for byte in addr.iter_mut().skip(8) {
        *byte = 0;
    }
    assert_eq!(v6(57), Ip::V6(addr));
    assert_eq!(v6(0), Ip::V6([0; 16]));
}
