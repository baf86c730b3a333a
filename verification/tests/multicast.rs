use yggdrasil::config::MulticastInterfaceConfig;
use yggdrasil::multicast::{
    any_enabled, beacon_pause, compute_auth_hash, discover_interfaces, group_interfaces, AdError,
    Advertisement, Beacons, RawInterface, BEACON_MAX_INTERVAL,
};

const SECOND: u64 = 1_000_000_000;

fn raw(name: &str, index: u32, last: u8) -> RawInterface {
    let mut addr = [0u8; 16];
    addr[0] = 0xfe;
    addr[1] = 0x80;
    addr[15] = last;
    RawInterface {
        name: name.to_string(),
        index,
        up: true,
        running: true,
        multicast: true,
        point_to_point: false,
        loopback: false,
        addr: Some(addr),
    }
}

fn config(filter: &str, password: &str) -> MulticastInterfaceConfig {
    MulticastInterfaceConfig {
        filter: filter.to_string(),
        beacon: true,
        listen: true,
        port: 0,
        priority: 6,
        password: password.to_string(),
    }
}

#[test]
fn advertisements_are_read_back() {
    let ad = Advertisement {
        major_version: 0,
        minor_version: 5,
        public_key: [3; 32],
        port: 9001,
        hash: vec![1, 2, 3],
    };
    let bytes = ad.encode();
    assert_eq!(bytes.len(), 2 + 2 + 32 + 2 + 2 + 3);
    assert_eq!(&bytes[..4], &[0, 0, 0, 5]);
    assert_eq!(&bytes[36..40], &[0x23, 0x29, 0, 3]);
    let back = Advertisement::decode(&bytes).unwrap();
    assert_eq!(back.public_key, [3; 32]);
    assert_eq!(back.port, 9001);
    assert_eq!(back.hash, vec![1, 2, 3]);
    assert!(matches!(Advertisement::decode(&bytes[..39]), Err(AdError::TooShort)));
    assert!(matches!(Advertisement::decode(&bytes[..42]), Err(AdError::HashTruncated)));
}

#[test]
fn the_length_of_a_hash_is_cut_to_two_bytes() {
    let ad = Advertisement {
        major_version: 0,
        minor_version: 5,
        public_key: [7u8; 32],
        port: 0x1234,
        hash: vec![9u8; 0x1_0002],
    };
    let bytes = ad.encode();
    assert_eq!(bytes.len(), 40 + 0x1_0002);
    assert_eq!(&bytes[36..40], &[0x12, 0x34, 0, 2]);
    let back = Advertisement::decode(&bytes).unwrap();
    assert_eq!(back.hash, vec![9u8, 9]);
}

#[test]
fn interfaces_are_chosen() {
    let mut all = vec![raw("eth0", 2, 1), raw("eth0", 2, 2), raw("wlan0", 3, 3)];
    let mut down = raw("eth9", 4, 4);
    down.up = false;
    all.push(down);
    let mut lo = raw("lo", 1, 5);
    lo.loopback = true;
    all.push(lo);
    let mut global = raw("eth8", 5, 6);
    global.addr = Some([0x20; 16]);
    all.push(global);
    let grouped = group_interfaces(&all);
    assert_eq!(grouped.len(), 2);
    assert_eq!(grouped[0].addrs.len(), 2);

    let configs = vec![config("eth*", "secret")];
    assert!(any_enabled(&configs));
    let states = discover_interfaces(&all, &configs, &[7; 32]);
    assert_eq!(states.len(), 1);
    assert_eq!(states[0].name, "eth0");
    assert_eq!(states[0].priority, 6);
    assert_eq!(states[0].hash, compute_auth_hash(&[7; 32], b"secret"));
}

#[test]
fn neighbours_hear_each_other() {
    let (a, b) = ([1u8; 32], [2u8; 32]);
    let ifs = vec![raw("eth0", 2, 1)];
    let configs = vec![config("*", "pw")];
    let mut ours = Beacons::new();
    assert!(ours.update(discover_interfaces(&ifs, &configs, &a)).is_empty());
    assert_eq!(ours.listeners_wanted(), vec![0]);
    assert!(ours.beacons_due(&a, SECOND).is_empty());
    ours.listener_started(&"eth0".to_string(), 4321);
    assert!(ours.listeners_wanted().is_empty());
    let ads = ours.beacons_due(&a, SECOND);
    assert_eq!(ads.len(), 1);
    assert_eq!(ads[0].0, 2);

    let mut theirs = Beacons::new();
    theirs.update(discover_interfaces(&ifs, &configs, &b));
    let found = theirs.receive(&ads[0].1, &b, &Vec::new(), 2).unwrap();
    assert_eq!((found.key, found.port, found.interface), (a, 4321, 0));
    // Not on another interface, not ourselves, not one that is linked.
    assert!(theirs.receive(&ads[0].1, &b, &Vec::new(), 3).is_none());
    assert!(ours.receive(&ads[0].1, &a, &Vec::new(), 2).is_none());
    assert!(theirs.receive(&ads[0].1, &b, &vec![a], 2).is_none());

    let mut strangers = Beacons::new();
    strangers.update(discover_interfaces(&ifs, &vec![config("*", "other")], &b));
    assert!(strangers.receive(&ads[0].1, &b, &Vec::new(), 2).is_none());

    let info = ours.get_interfaces();
    assert_eq!(info.len(), 1);
    assert!(info[0].password && info[0].beacon && info[0].listen);
    assert_eq!(info[0].port, 4321);
}

#[test]
fn beacons_become_rarer() {
    let key = [1u8; 32];
    let mut b = Beacons::new();
    b.update(discover_interfaces(&vec![raw("eth0", 2, 1)], &vec![config("*", "")], &key));
    b.listener_started(&"eth0".to_string(), 1);
    let mut sent = Vec::new();
    for s in 1..100u64 {
        if !b.beacons_due(&key, s * SECOND).is_empty() {
            sent.push(s);
        }
    }
    let gaps: Vec<u64> = sent.windows(2).map(|w| w[1] - w[0]).collect();
    assert!(gaps.windows(2).all(|w| w[0] <= w[1]), "{:?}", gaps);
    assert!(gaps.iter().all(|g| *g <= BEACON_MAX_INTERVAL), "{:?}", gaps);
    // An interface that goes away takes its listener along.
    assert_eq!(b.update(Vec::new()), vec!["eth0".to_string()]);
    assert!(b.interfaces.is_empty());
    assert_eq!(beacon_pause(0), SECOND);
    assert_eq!(beacon_pause(3), SECOND + 3000);
}
