use yggdrasil::config::{build_info, private_key_text, Config, FirewallConfig, KeyError};
use yggdrasil::crypto::Crypto;
use yggdrasil::links::is_key_allowed;
use yggdrasil::normalize::{config_text, NormalizeError};

#[test]
fn round_trip_full_config_is_stable() {
    let generated = Config::generate_config_text();
    let normalized = Config::normalize_config_text(&generated).unwrap();
    let twice = Config::normalize_config_text(&normalized).unwrap();
    assert_eq!(normalized, twice, "normalize must be idempotent");
    let table: toml::Table = toml::from_str(&normalized).expect("normalized output is valid TOML");
    for key in [
        "private_key",
        "peers",
        "listen",
        "admin_listen",
        "if_name",
        "if_mtu",
        "node_info",
        "node_info_privacy",
        "allowed_public_keys",
        "multicast_interfaces",
        "tunnel_routing",
        "firewall",
    ] {
        assert!(table.contains_key(key), "{} is missing", key);
    }
}

#[test]
fn completing_twice_is_the_same_as_once() {
    for text in [
        "",
        "# nothing yet",
        "[firewall]\nenable = true\n",
        "tunnel_routing.enable = true\n[z]\na = 1 # last",
        "[tunnel_routing.remote_subnets]\n\"aa\" = []\n\n[[multicast_interfaces]]\nfilter = \"*\"\n",
        "[ node_info ]\r\nname = 'x'\r\n# the end\r\n",
    ] {
        let once = Config::normalize_config_text(text).unwrap();
        let twice = Config::normalize_config_text(&once).unwrap();
        assert_eq!(once, twice, "{text}");
    }
}

#[test]
fn others_are_told_how_a_node_was_built() {
    assert!(build_info(true, "n", "1.0", "linux", "arm").is_empty());
    let told = build_info(false, "n", "1.0", "linux", "arm");
    let expected = [
        ("buildname", "n"),
        ("buildversion", "1.0"),
        ("buildplatform", "linux"),
        ("buildarch", "arm"),
    ];
    assert_eq!(told.len(), expected.len());
    for (t, e) in told.iter().zip(expected) {
        assert_eq!((t.0.as_str(), t.1.as_str()), e);
    }
}

#[test]
fn user_inline_comment_is_preserved() {
    let input = "if_mtu = 1280  # custom for my LTE link\n";
    let out = Config::normalize_config_text(input).unwrap();
    assert!(
        out.contains("# custom for my LTE link"),
        "user comment dropped:\n{out}"
    );
    assert!(out.contains("1280"), "user value dropped:\n{out}");
}

#[test]
fn missing_firewall_section_is_added() {
    let input = "private_key = \"\"\n";
    let out = Config::normalize_config_text(input).unwrap();
    assert!(out.contains("[firewall]"), "[firewall] not added:\n{out}");
    assert!(
        out.contains("enable = false"),
        "firewall defaults missing:\n{out}"
    );
    assert!(out.contains("open_tcp"), "open_tcp missing:\n{out}");
}

#[test]
fn user_value_is_not_overwritten() {
    let input = "if_mtu = 1280\n";
    let out = Config::normalize_config_text(input).unwrap();
    assert!(out.contains("if_mtu = 1280"), "if_mtu rewritten:\n{out}");
    assert!(
        !out.contains("if_mtu = 65535"),
        "template default leaked over user value:\n{out}"
    );
}

#[test]
fn empty_array_with_user_comment_is_preserved() {
    let input = "peers = []  # I'll add some later\n";
    let out = Config::normalize_config_text(input).unwrap();
    assert!(
        out.contains("# I'll add some later"),
        "user array comment dropped:\n{out}"
    );
    assert!(out.contains("peers = []"), "peers rewritten:\n{out}");
}

#[test]
fn unknown_user_keys_are_kept() {
    let input = "experimental_thing = \"x\"\n";
    let out = Config::normalize_config_text(input).unwrap();
    assert!(
        out.contains("experimental_thing = \"x\""),
        "unknown key dropped:\n{out}"
    );
}

#[test]
fn custom_node_info_table_passes_through() {
    let input = "[node_info]\nname = \"foo\"  # set by ansible\n";
    let out = Config::normalize_config_text(input).unwrap();
    assert!(out.contains("[node_info]"));
    assert!(out.contains("name = \"foo\""));
    assert!(out.contains("# set by ansible"));
}

#[test]
fn invalid_toml_returns_parse_user_error() {
    let bad = "this is = = not toml\n";
    let err = Config::normalize_config_text(bad).unwrap_err();
    match err {
        NormalizeError::ParseUser => {}
        other => panic!("expected ParseUser, got {other:?}"),
    }
}

#[test]
fn empty_input_yields_template_minus_private_key() {
    let out = Config::normalize_config_text("").unwrap();
    assert!(out.contains("[firewall]"));
    assert!(out.contains("if_name"));
    assert!(
        out.contains("private_key = \"\""),
        "normalize must not mint a key:\n{out}"
    );
}

#[test]
fn the_new_text_says_what_the_defaults_are() {
    let d = Config::default();
    let table: toml::Table = toml::from_str(&config_text("")).unwrap();
    assert_eq!(table["private_key"].as_str(), Some(d.private_key.as_str()));
    assert_eq!(table["peers"].as_array().unwrap().len(), d.peers.len());
    assert_eq!(table["listen"][0].as_str(), Some(d.listen[0].as_str()));
    assert_eq!(table["admin_listen"].as_str(), Some(d.admin_listen.as_str()));
    assert_eq!(table["if_name"].as_str(), Some(d.if_name.as_str()));
    assert_eq!(table["if_mtu"].as_integer(), Some(d.if_mtu as i64));
    assert_eq!(table["node_info_privacy"].as_bool(), Some(d.node_info_privacy));
    let m = &table["multicast_interfaces"][0];
    assert_eq!(m["filter"].as_str(), Some(d.multicast_interfaces[0].filter.as_str()));
    assert_eq!(m["beacon"].as_bool(), Some(d.multicast_interfaces[0].beacon));
    assert_eq!(m["listen"].as_bool(), Some(d.multicast_interfaces[0].listen));
    let f = &table["firewall"];
    let fd = FirewallConfig::default();
    assert_eq!(f["enable"].as_bool(), Some(fd.enable));
    assert_eq!(f["allow_icmp_echo"].as_bool(), Some(fd.allow_icmp_echo));
    let t = &table["tunnel_routing"];
    assert_eq!(t["enable"].as_bool(), Some(d.tunnel_routing.enable));
    assert_eq!(t["yggdrasil_routing"].as_bool(), Some(d.tunnel_routing.yggdrasil_routing));
}

#[test]
fn tables_are_completed_inside() {
    let input = "[firewall]\nenable = true\n";
    let out = Config::normalize_config_text(input).unwrap();
    let table: toml::Table = toml::from_str(&out).unwrap();
    assert_eq!(table["firewall"]["enable"].as_bool(), Some(true));
    assert_eq!(table["firewall"]["allow_icmp_echo"].as_bool(), Some(true));
}

#[test]
fn what_is_no_table_is_left_alone() {
    let input = "firewall = 5\n[tunnel_routing]\nremote_subnets = \"none\"\n";
    let out = Config::normalize_config_text(input).unwrap();
    let table: toml::Table = toml::from_str(&out).unwrap();
    assert_eq!(table["firewall"].as_integer(), Some(5));
    assert_eq!(table["tunnel_routing"]["remote_subnets"].as_str(), Some("none"));
    assert_eq!(table["tunnel_routing"]["enable"].as_bool(), Some(false));
    assert_eq!(Config::normalize_config_text(&out).unwrap(), out);
}

#[test]
fn comments_come_along() {
    let out = Config::normalize_config_text("if_mtu = 1280\n").unwrap();
    assert!(out.contains("# The name of the tunnel interface"), "{out}");
    assert!(out.contains("# The filter between the mesh and the host."), "{out}");
}

#[test]
fn private_keys_are_read() {
    let secret = [5u8; 32];
    let mut config = Config::default();
    assert!(matches!(config.signing_key(), Err(KeyError::Missing)));
    config.private_key = private_key_text(&secret);
    assert_eq!(config.signing_key().unwrap(), secret);
    assert_eq!(
        config.private_key,
        format!("{}{}", hex::encode(secret), hex::encode(Crypto::new(secret).public_key))
    );
    config.private_key = "zz".to_string();
    assert!(matches!(config.signing_key(), Err(KeyError::Hex)));
    config.private_key = "aabb".to_string();
    assert!(matches!(config.signing_key(), Err(KeyError::Length(2))));
    config.private_key = hex::encode([1u8; 64]);
    assert!(matches!(config.signing_key(), Err(KeyError::Mismatch)));
}

#[test]
fn a_list_without_a_key_lets_nobody_in() {
    let mut config = Config::default();
    assert_eq!(config.allowed_keys(), None);
    assert!(is_key_allowed(&config.allowed_keys(), &[1; 32]));
    config.allowed_public_keys = vec!["zz".to_string()];
    assert_eq!(config.allowed_keys(), Some(Vec::new()));
    assert!(!is_key_allowed(&config.allowed_keys(), &[1; 32]));
}

#[test]
fn allowed_keys_that_cannot_be_read_are_skipped() {
    let mut config = Config::default();
    config.allowed_public_keys = vec![
        hex::encode([1u8; 32]),
        "nonsense".to_string(),
        hex::encode([1u8; 31]),
        hex::encode([2u8; 32]).to_uppercase(),
    ];
    assert_eq!(config.allowed_keys(), Some(vec![[1u8; 32], [2u8; 32]]));
}

#[test]
fn comments_and_order_stay() {
    let input = "# mine\nif_mtu = 1280 # small\nzebra = 1\n\n[firewall] # mine too\n# ports\nopen_tcp = [22] # ssh\n# the end\n";
    let out = Config::normalize_config_text(input).unwrap();
    assert!(out.contains("# mine\nif_mtu = 1280 # small\nzebra = 1\n"));
    assert!(out.contains("[firewall] # mine too\n# ports\nopen_tcp = [22] # ssh\nenable = false\n"));
    assert!(out.contains("# The nodes to link to, such as \"tls://host:port\".\npeers = []\n"));
    assert!(out.ends_with("# the end\n"));
    assert_eq!(Config::normalize_config_text(&out).unwrap(), out);
    assert_eq!(Config::normalize_config_text(input).unwrap(), out);
}
