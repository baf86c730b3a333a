use ed25519_dalek::SigningKey;
use rand::rngs::OsRng;
use yggdrasil::blooms::IdentityTransform;
use yggdrasil::conn;
use yggdrasil::crypto::Crypto;
use yggdrasil::discovery::Clock;
use yggdrasil::neighbours::update_lag;
use yggdrasil::node::{handle_router_msg, tick, RouterMsg};
use yggdrasil::peer_io::{
    arm_deadline, disconnect, dispatch_action, handle_frame, keepalive_frame, peek_frame_type,
    writer_step, Dispatch, FrameStep, PeerMessage, PeerReader, ReadAction, ReadEvent, WriteEvent,
};
use yggdrasil::peers::Peers;
use yggdrasil::router::{PeerEntry, Router, RouterAction, RouterConfig};
use yggdrasil::traffic::{DeliveryQueue, TrafficPacket};
use yggdrasil::tree::{path_dist, RouterAnnounce};
use yggdrasil::types::{Addr, Error, Moment};
use yggdrasil::wire::{encode_frame, encode_uvarint, PacketType, SigReq};

const SECOND: u64 = 1_000_000_000;

fn config() -> RouterConfig {
    RouterConfig {
        router_refresh: 240 * SECOND,
        router_timeout: 300 * SECOND,
        path_timeout: 60 * SECOND,
        path_throttle: SECOND,
    }
}

fn make_crypto() -> Crypto {
    Crypto::new(SigningKey::generate(&mut OsRng).to_bytes())
}

fn make_router() -> Router<IdentityTransform> {
    Router::new(make_crypto(), config(), IdentityTransform, 0)
}

fn self_signed(crypto: &Crypto, seq: u64, nonce: u64) -> RouterAnnounce {
    let mut out = Vec::new();
    out.extend_from_slice(&crypto.public_key);
    out.extend_from_slice(&crypto.public_key);
    encode_uvarint(&mut out, seq);
    encode_uvarint(&mut out, nonce);
    encode_uvarint(&mut out, 0);
    let mut ann = RouterAnnounce {
        key: crypto.public_key,
        parent: crypto.public_key,
        seq,
        nonce,
        port: 0,
        psig: crypto.sign(&out),
        sig: [0u8; 64],
    };
    ann.sig = crypto.sign(&ann.bytes_for_sig());
    ann
}

#[test]
fn become_root_on_first_maintenance() {
    let mut router = make_router();
    let self_key = router.crypto.public_key;

    let _actions = router.do_maintenance(0);

    assert!(router.infos.contains_key(&self_key));
    let info = router.infos.get(&self_key).unwrap();
    assert_eq!(info.parent, self_key);
}

#[test]
fn update_accepts_newer_seq() {
    let mut router = make_router();
    router.become_root(0);

    let crypto2 = make_crypto();
    let ann = self_signed(&crypto2, 1, 42);

    assert!(ann.check());
    assert!(router.update(&ann, 0));
    assert!(router.infos.contains_key(&crypto2.public_key));
}

#[test]
fn get_root_and_path_self_root() {
    let mut router = make_router();
    router.become_root(0);
    let self_key = router.crypto.public_key;

    let (root, path) = router.get_root_and_path(&self_key);
    assert_eq!(root, self_key);
    assert!(path.is_empty());
}

#[test]
fn get_dist_same_path() {
    let mut router = make_router();
    router.become_root(0);
    let self_key = router.crypto.public_key;

    let dist = router.get_dist(&[], &self_key);
    assert_eq!(dist, 0);
}

#[test]
fn announce_check_valid() {
    let crypto = make_crypto();

    let mut out = Vec::new();
    out.extend_from_slice(&crypto.public_key);
    out.extend_from_slice(&crypto.public_key);
    encode_uvarint(&mut out, 1);
    encode_uvarint(&mut out, 42);
    encode_uvarint(&mut out, 0);

    let sig = crypto.sign(&out);

    let ann = RouterAnnounce {
        key: crypto.public_key,
        parent: crypto.public_key,
        seq: 1,
        nonce: 42,
        port: 0,
        psig: sig,
        sig,
    };

    assert!(ann.check());
}

#[test]
fn a_forged_announcement_is_refused() {
    let crypto = make_crypto();
    let mut ann = self_signed(&crypto, 3, 7);
    assert!(ann.check());
    let wire = ann.to_wire();
    assert!(RouterAnnounce::from_wire(&wire).check());
    ann.seq = 4;
    assert!(!ann.check());
}

#[test]
fn an_announcement_is_taken_once() {
    let mut router = make_router();
    router.become_root(0);
    let crypto = make_crypto();
    assert!(router.update(&self_signed(&crypto, 2, 9), 0));
    assert!(!router.update(&self_signed(&crypto, 2, 9), 0));
    assert!(!router.update(&self_signed(&crypto, 1, 1), 0));
    // Of two with the same number, the one with the smaller nonce wins.
    assert!(!router.update(&self_signed(&crypto, 2, 10), 0));
    assert!(router.update(&self_signed(&crypto, 2, 8), 0));
}

#[test]
fn distances_in_the_tree() {
    assert_eq!(path_dist(&[], &[]), 0);
    assert_eq!(path_dist(&[1, 2, 3], &[1, 2, 3]), 0);
    assert_eq!(path_dist(&[1, 2, 3], &[1, 2]), 1);
    assert_eq!(path_dist(&[1, 2, 3], &[4]), 4);
}

#[test]
fn latencies_are_smoothed() {
    let unknown = yggdrasil::router::UNKNOWN_LATENCY;
    assert_eq!(update_lag(unknown, 1_000), 2_000);
    assert_eq!(update_lag(8_000, 800), 7_100);
}

/// A mesh of nodes in memory.
struct Mesh {
    routers: Vec<Router<IdentityTransform>>,
    peers: Vec<Peers>,
    queues: Vec<DeliveryQueue>,
    /// For each connection of a node: the node and connection at the other end.
    ends: Vec<Vec<(u64, usize, u64)>>,
    notified: Vec<Vec<[u8; 32]>>,
    now: u64,
}

impl Mesh {
    fn new(n: usize) -> Self {
        let mut mesh = Mesh {
            routers: Vec::new(),
            peers: Vec::new(),
            queues: Vec::new(),
            ends: Vec::new(),
            notified: Vec::new(),
            now: SECOND,
        };
        for _ in 0..n {
            mesh.routers.push(make_router());
            mesh.peers.push(Peers::new());
            mesh.queues.push(DeliveryQueue::new());
            mesh.ends.push(Vec::new());
            mesh.notified.push(Vec::new());
        }
        mesh
    }

    fn clock(&self) -> Clock {
        Clock { now: self.now, unix_secs: self.now / SECOND }
    }

    fn key(&self, i: usize) -> [u8; 32] {
        self.routers[i].crypto.public_key
    }

    fn link(&mut self, a: usize, b: usize) {
        let (ka, kb) = (self.key(a), self.key(b));
        let ea = self.peers[a].allocate_peer(kb, 0);
        let eb = self.peers[b].allocate_peer(ka, 0);
        self.ends[a].push((ea.id, b, eb.id));
        self.ends[b].push((eb.id, a, ea.id));
        self.send(a, RouterMsg::AddPeer { entry: ea });
        self.send(b, RouterMsg::AddPeer { entry: eb });
    }

    fn send(&mut self, at: usize, msg: RouterMsg) {
        let clock = self.clock();
        let actions = handle_router_msg(&mut self.routers[at], msg, clock);
        self.carry_out(at, actions);
    }

    fn carry_out(&mut self, at: usize, actions: Vec<RouterAction>) {
        for action in actions {
            let step = dispatch_action(action, &mut self.peers[at], &mut self.queues[at], self.now);
            match step {
                Dispatch::Done => {}
                Dispatch::ToReader(_) => panic!("nobody waits"),
                Dispatch::Notify(key) => self.notified[at].push(key),
                Dispatch::Wake(id) => {
                    let packets = self.peers[at].take_traffic(id, 96);
                    for frame in yggdrasil::peer_io::encode_traffic(&packets) {
                        self.frame(at, id, frame);
                    }
                }
                Dispatch::Frame(id, frame) => self.frame(at, id, frame),
            }
        }
    }

    /// Reads a frame at the other end of a connection, byte by byte.
    fn frame(&mut self, at: usize, id: u64, frame: Vec<u8>) {
        let (_, to, to_id) = *self.ends[at].iter().find(|e| e.0 == id).unwrap();
        let mut reader = PeerReader::new(self.key(to), to_id, self.key(at), 1 << 20);
        let mut deadline = None;
        let mut pos = 0;
        loop {
            let action = reader.step(&mut deadline, ReadEvent::Byte(frame[pos]));
            pos += 1;
            match action {
                ReadAction::ReadByte => {}
                ReadAction::ReadFrame(n) => {
                    assert_eq!(pos + n, frame.len());
                    break;
                }
                _ => panic!("bad length"),
            }
        }
        match reader.step(&mut deadline, ReadEvent::Frame(frame[pos..].to_vec())) {
            ReadAction::Deliver(msg) => self.send(to, msg),
            ReadAction::ReadByte => {}
            _ => panic!("bad frame"),
        }
    }

    fn pass(&mut self, seconds: u64) {
        for _ in 0..seconds {
            self.now += SECOND;
            for i in 0..self.routers.len() {
                let clock = self.clock();
                let secs = clock.unix_secs as i64;
                let last = Moment { secs: secs - 1, nanos: 0 };
                let wall = Moment { secs, nanos: 0 };
                let actions = tick(&mut self.routers[i], last, wall, clock);
                self.carry_out(i, actions);
            }
        }
    }
}

#[test]
fn nodes_in_a_line_agree_on_the_root_and_reach_each_other() {
    let mut mesh = Mesh::new(4);
    mesh.link(0, 1);
    mesh.link(1, 2);
    mesh.link(2, 3);
    mesh.pass(10);

    let lowest = (0..4).map(|i| mesh.key(i)).min().unwrap();
    for i in 0..4 {
        let (root, path) = mesh.routers[i].get_root_and_path(&mesh.key(i));
        assert_eq!(root, lowest, "node {}", i);
        assert_eq!(mesh.routers[i].tree_coordinates(), path);
        let (top, dists) = mesh.routers[i].get_root_and_dists(&mesh.key(i));
        assert_eq!(top, root);
        assert_eq!(dists.get(&mesh.key(i)), Some(&0));
        assert_eq!(dists.get(&root), Some(&(path.len() as u64)));
        assert!(mesh.routers[i].get_tree().len() > 1);
    }
    assert_eq!(mesh.routers[1].get_peers().len(), 2);

    let (a, b) = (mesh.key(0), mesh.key(3));
    let traffic = TrafficPacket::new(a, b, b"over the hills".to_vec());
    mesh.send(0, RouterMsg::SendTraffic { traffic });
    let got = mesh.queues[3].try_pop_or_wait().expect("delivered");
    assert_eq!(got.payload, b"over the hills");
    assert_eq!(got.source, a);
    assert_eq!(mesh.notified[0], vec![b]);
    assert_eq!(mesh.routers[0].get_paths().len(), 1);

    // The path that was found serves the next packet too.
    let traffic = TrafficPacket::new(a, b, b"again".to_vec());
    mesh.send(0, RouterMsg::SendTraffic { traffic });
    // The reader that waits gets the packet.
    assert_eq!(mesh.queues[3].try_pop_or_wait().expect("delivered").payload, b"again");
}

#[test]
fn a_lost_connection_breaks_the_path() {
    let mut mesh = Mesh::new(3);
    mesh.link(0, 1);
    mesh.link(1, 2);
    mesh.pass(10);
    let (a, c) = (mesh.key(0), mesh.key(2));
    mesh.send(0, RouterMsg::SendTraffic { traffic: TrafficPacket::new(a, c, b"1".to_vec()) });
    assert!(mesh.queues[2].try_pop_or_wait().is_some());

    let (id, _, _) = mesh.ends[1][1];
    let msg = disconnect(&mut mesh.peers[1], id, c);
    assert!(matches!(msg, RouterMsg::RemovePeer { .. }));
    mesh.send(1, msg);
    mesh.send(0, RouterMsg::SendTraffic { traffic: TrafficPacket::new(a, c, b"2".to_vec()) });
    assert!(mesh.queues[2].try_pop_or_wait().is_none());
    let snapshot = mesh.routers[0].get_debug_snapshot(0, mesh.now);
    assert_eq!(snapshot.broken_path_count, 1);
}

#[test]
fn infos_that_are_not_refreshed_expire() {
    let mut mesh = Mesh::new(2);
    mesh.link(0, 1);
    mesh.pass(5);
    assert_eq!(mesh.routers[0].routing_entries(), 2);
    let (id, _, _) = mesh.ends[0][0];
    let key = mesh.key(1);
    let msg = disconnect(&mut mesh.peers[0], id, key);
    mesh.send(0, msg);
    mesh.now += 400 * SECOND;
    mesh.routers[0].expire_infos(mesh.now);
    assert!(!mesh.routers[0].infos.contains_key(&key));
}

#[test]
fn mtu_is_what_a_message_leaves() {
    assert_eq!(conn::mtu(65535 * 2), 65535 * 2 - 77);
    assert_eq!(conn::mtu(76), 0);
    assert_eq!(yggdrasil::sessions::session_mtu(1000), 1000 - 79);
}

#[test]
fn writing_to_a_node() {
    let (us, them) = ([1; 32], Addr([2; 32]));
    assert!(matches!(conn::write_to(true, 1000, us, b"x", &them), Err(Error::Closed)));
    assert!(matches!(
        conn::write_to(false, 100, us, &[0; 24], &them),
        Err(Error::OversizedMessage)
    ));
    match conn::write_to(false, 100, us, &[7; 23], &them) {
        Ok(RouterMsg::SendTraffic { traffic }) => {
            assert_eq!(traffic.source, us);
            assert_eq!(traffic.dest, [2; 32]);
            assert_eq!(traffic.payload, [7; 23]);
            let (data, from) = conn::read_packet(&traffic, 5);
            assert_eq!(data, [7; 5]);
            assert_eq!(from.0, us);
        }
        _ => panic!("refused"),
    }
    assert!(matches!(conn::accept_conn(true, &us, &them.0), Err(Error::Closed)));
    assert!(matches!(conn::accept_conn(false, &us, &us), Err(Error::BadKey)));
    assert!(matches!(conn::accept_conn(false, &us, &them.0), Ok(())));
}

#[test]
fn frames_of_a_peer() {
    let (us, them) = ([1u8; 32], [2u8; 32]);
    assert!(matches!(handle_frame(&us, 4, &them, &[]), FrameStep::Nothing));
    assert!(matches!(handle_frame(&us, 4, &them, &[1]), FrameStep::Nothing));
    assert!(matches!(handle_frame(&us, 4, &them, &[200]), FrameStep::Nothing));
    let mut body = Vec::new();
    SigReq { seq: 5, nonce: 6 }.encode(&mut body);
    let frame = encode_frame(PacketType::ProtoSigReq, &body);
    assert_eq!(frame, vec![3, 2, 5, 6]);
    match handle_frame(&us, 4, &them, &frame[1..]) {
        FrameStep::Message(RouterMsg::HandleRequest { peer_id, peer_key, req }) => {
            assert_eq!((peer_id, peer_key), (4, them));
            assert_eq!((req.seq, req.nonce), (5, 6));
        }
        _ => panic!("not a request"),
    }
    assert!(matches!(
        handle_frame(&us, 4, &them, &[2, 5]),
        FrameStep::Disconnect(Error::Decode)
    ));
    assert_eq!(peek_frame_type(&[3, 2, 5, 6]), Some(PacketType::ProtoSigReq));
    assert_eq!(peek_frame_type(&[]), None);
}

#[test]
fn the_reading_side_of_a_connection() {
    let mut reader = PeerReader::new([1; 32], 4, [2; 32], 100);
    let mut deadline = None;
    arm_deadline(&mut deadline, 10, 5);
    assert_eq!(deadline, Some(15));
    arm_deadline(&mut deadline, 12, 5);
    assert_eq!(deadline, Some(15));
    assert!(matches!(
        reader.step(&mut deadline, ReadEvent::Tick { now: 14 }),
        ReadAction::Wait
    ));
    assert!(matches!(
        reader.step(&mut deadline, ReadEvent::Tick { now: 15 }),
        ReadAction::Stop(Some(Error::Timeout))
    ));
    assert!(matches!(reader.step(&mut deadline, ReadEvent::Byte(0x80)), ReadAction::ReadByte));
    assert!(matches!(
        reader.step(&mut deadline, ReadEvent::Byte(0x01)),
        ReadAction::Stop(Some(Error::OversizedMessage))
    ));
    assert_eq!(deadline, None);
    assert!(matches!(
        reader.step(&mut deadline, ReadEvent::Cancelled),
        ReadAction::Stop(None)
    ));
    assert!(matches!(
        reader.step(&mut deadline, ReadEvent::Failed),
        ReadAction::Stop(Some(Error::Io))
    ));
}

#[test]
fn the_writing_side_of_a_connection() {
    assert_eq!(keepalive_frame(), vec![1, 1]);
    let step = writer_step(WriteEvent::Cancelled, false);
    assert!(step.stop);
    let step = writer_step(WriteEvent::Idle, false);
    assert!(!step.stop);
    assert_eq!(step.frames, vec![keepalive_frame()]);
    let step = writer_step(
        WriteEvent::Message(PeerMessage::SendFrame(vec![9, 9]), Vec::new()),
        false,
    );
    assert_eq!(step.frames, vec![vec![9, 9]]);
    let step = writer_step(WriteEvent::Traffic, false);
    assert!(step.drain);
}

#[test]
fn ports_are_given_out_lowest_first() {
    let mut peers = Peers::new();
    let a: PeerEntry = peers.allocate_peer([1; 32], 0);
    let b = peers.allocate_peer([2; 32], 0);
    let again = peers.allocate_peer([1; 32], 3);
    assert_eq!((a.port, b.port, again.port), (1, 2, 1));
    assert_ne!(a.id, again.id);
    assert_eq!(peers.remove_peer(a.id, &[1; 32]), Some(1));
    assert!(peers.get_handle(a.id).is_none());
    assert!(peers.get_handle(again.id).is_some());
    let c = peers.allocate_peer([3; 32], 0);
    assert_eq!(c.port, 3);
    assert!(peers.send_traffic_to_peer(b.id, TrafficPacket::new([0; 32], [2; 32], vec![1]), 0));
    assert!(!peers.send_traffic_to_peer(99, TrafficPacket::new([0; 32], [2; 32], vec![1]), 0));
    assert_eq!(peers.take_traffic(b.id, 10).len(), 1);
}

#[test]
fn a_jump_of_the_wall_clock_refreshes() {
    // Thirty seconds to the nanosecond are a jump, anything less is none, nor is going back.
    for (last, wall, jumped) in [
        ((100, 600_000_000), (130, 599_999_999), false),
        ((100, 600_000_000), (130, 600_000_000), true),
        ((100, 999_999_999), (130, 0), false),
        ((100, 0), (99, 0), false),
        ((-1, 0), (29, 0), true),
    ] {
        let mut quiet = make_router();
        let clock = Clock { now: SECOND, unix_secs: 130 };
        let at = |m: (i64, u32)| Moment { secs: m.0, nanos: m.1 };
        tick(&mut quiet, at((100, 0)), at((100, 0)), clock);
        assert!(!quiet.refresh);
        tick(&mut quiet, at(last), at(wall), Clock { now: 2 * SECOND, unix_secs: 131 });
        assert_eq!(quiet.refresh, jumped);
    }
}
