//! What a peer connection does with bytes that come in and messages that go out.
//!
//! The reading side takes frames apart and turns them into messages for the router. The
//! writing side decides what is written, and in which order. Both are driven by events; who
//! drives them does the reading, writing and waiting.
use vstd::prelude::*;
use crate::bloom::{
    bloom_bytes, decode_bloom, encode_bloom, parse_bloom, raw_bits, BloomFilter,
};
use crate::bytes::{to_vec, PublicKey};
use crate::crypto::{ed25519_accepts, Crypto};
use crate::node::{MsgView, RouterMsg};
use crate::peers::{handle_of, removed, with_queue, Peers};
use crate::router::{PeerId, RouterAction};
use crate::traffic::{
    packets_view, queue_pushed, relieved, wire_len, DeliveryQueue, InfoView, TrafficPacket,
};
use crate::tree::{announce_valid, sig_res_bytes_for_sig, signed_position, RouterAnnounce};
use crate::types::Error;
use crate::wire::{
    encode_frame, encode_traffic_frame, frame_bytes, parse_announce, parse_path_broken,
    parse_path_lookup, parse_path_notify, parse_sig_req, parse_sig_res, parse_traffic,
    parse_uvarint, type_byte, uvarint, Announce, PacketType, PathBroken, PathLookup, PathNotify,
    SigReq, SigRes, Traffic, TrafficView, UvarintReader, UvarintStep, WireReader,
};

verus! {

// ---------------------------------------------------------------------------
// Frames for actions
// ---------------------------------------------------------------------------

/// The connection, kind and payload of the frame that an action is carried out by, if it is
/// carried out by one.
pub open spec fn payload_of(a: RouterAction) -> Option<(PeerId, PacketType, Seq<u8>)> {
    match a {
        RouterAction::SendSigReq { peer_id, req } => Some(
            (peer_id, PacketType::ProtoSigReq, req.bytes()),
        ),
        RouterAction::SendSigRes { peer_id, res } => Some(
            (peer_id, PacketType::ProtoSigRes, res.bytes()),
        ),
        RouterAction::SendAnnounce { peer_id, ann } => Some(
            (peer_id, PacketType::ProtoAnnounce, ann.bytes()),
        ),
        RouterAction::SendBloom { peer_id, bloom } => Some(
            (peer_id, PacketType::ProtoBloomFilter, bloom_bytes(bloom.bits@)),
        ),
        RouterAction::SendTraffic { peer_id, traffic } => Some(
            (peer_id, PacketType::Traffic, traffic@.bytes()),
        ),
        RouterAction::SendPathLookup { peer_id, lookup } => Some(
            (peer_id, PacketType::ProtoPathLookup, lookup@.bytes()),
        ),
        RouterAction::SendPathNotify { peer_id, notify } => Some(
            (peer_id, PacketType::ProtoPathNotify, notify@.bytes()),
        ),
        RouterAction::SendPathBroken { peer_id, broken } => Some(
            (peer_id, PacketType::ProtoPathBroken, broken@.bytes()),
        ),
        RouterAction::DeliverTraffic { .. } => None,
        RouterAction::PathNotifyCallback { .. } => None,
    }
}

/// Whether the frame of an action can be held in memory.
pub open spec fn frame_fits(a: RouterAction) -> bool {
    payload_of(a) matches Some((_, _, payload)) ==> payload.len() < usize::MAX
}

/// Encodes an action into a frame for the connection that it is for. Actions that send
/// nothing give no frame.
pub fn encode_action_frame(action: &RouterAction) -> (r: Option<(PeerId, Vec<u8>)>)
    requires
        frame_fits(*action),
    ensures
        match payload_of(*action) {
            Some((peer_id, t, payload)) => r matches Some((id, frame)) && id == peer_id && frame@
                == frame_bytes(t, payload),
            None => r is None,
        },
{
    let mut payload: Vec<u8> = Vec::new();
    let ghost none = payload@;
    match action {
        RouterAction::SendSigReq { peer_id, req } => {
            req.encode(&mut payload);
            assert(payload@ =~= req.bytes());
            Some((*peer_id, encode_frame(PacketType::ProtoSigReq, &payload)))
        },
        RouterAction::SendSigRes { peer_id, res } => {
            res.encode(&mut payload);
            assert(payload@ =~= res.bytes());
            Some((*peer_id, encode_frame(PacketType::ProtoSigRes, &payload)))
        },
        RouterAction::SendAnnounce { peer_id, ann } => {
            ann.encode(&mut payload);
            assert(payload@ =~= ann.bytes());
            Some((*peer_id, encode_frame(PacketType::ProtoAnnounce, &payload)))
        },
        RouterAction::SendBloom { peer_id, bloom } => {
            let raw = encode_bloom(bloom.as_raw());
            Some((*peer_id, encode_frame(PacketType::ProtoBloomFilter, &raw)))
        },
        RouterAction::SendTraffic { peer_id, traffic } => Some(
            (
                *peer_id,
                encode_traffic_frame(
                    &traffic.path,
                    &traffic.from,
                    &traffic.source,
                    &traffic.dest,
                    traffic.watermark,
                    &traffic.payload,
                ),
            ),
        ),
        RouterAction::SendPathLookup { peer_id, lookup } => {
            lookup.encode(&mut payload);
            assert(payload@ =~= lookup@.bytes());
            Some((*peer_id, encode_frame(PacketType::ProtoPathLookup, &payload)))
        },
        RouterAction::SendPathNotify { peer_id, notify } => {
            notify.encode(&mut payload);
            assert(payload@ =~= notify@.bytes());
            Some((*peer_id, encode_frame(PacketType::ProtoPathNotify, &payload)))
        },
        RouterAction::SendPathBroken { peer_id, broken } => {
            broken.encode(&mut payload);
            assert(payload@ =~= broken@.bytes());
            Some((*peer_id, encode_frame(PacketType::ProtoPathBroken, &payload)))
        },
        RouterAction::DeliverTraffic { .. } => None,
        RouterAction::PathNotifyCallback { .. } => None,
    }
}

/// Where the type byte of a frame is: after the first byte below 128.
pub open spec fn type_offset(data: Seq<u8>) -> int {
    crate::seqs::first_index(data, |b: u8| b < 128) + 1
}

/// Peeks at the packet type of an encoded frame (length prefix, then type byte).
pub fn peek_frame_type(data: &[u8]) -> (r: Option<PacketType>)
    ensures
        match r {
            Some(t) => type_offset(data@) < data@.len() && data@[type_offset(data@)] == type_byte(t),
            None => type_offset(data@) >= data@.len() || data@[type_offset(data@)] > 9,
        },
{
    let ghost p = |b: u8| b < 128;
    let mut i: usize = 0;
    while i < data.len() && data[i] >= 128
        invariant
            i <= data@.len(),
            p == (|b: u8| b < 128),
            forall|j: int| 0 <= j < i ==> !p(#[trigger] data@[j]),
        decreases data@.len() - i,
    {
        i += 1;
    }
    proof {
        crate::seqs::lemma_first_index_at(data@, p, i as int);
    }
    if i >= data.len() || i + 1 >= data.len() {
        return None;
    }
    PacketType::from_byte(data[i + 1])
}

proof fn lemma_uvarint_bytes(v: u64)
    ensures
        ({
            let s = uvarint(v);
            &&& s.len() >= 1
            &&& s[s.len() - 1] < 128
            &&& forall|i: int| 0 <= i < s.len() - 1 ==> #[trigger] s[i] >= 128
        }),
    decreases v,
{
    if v >= 128 {
        lemma_uvarint_bytes(v / 128);
        let s = uvarint(v);
        let t = uvarint(v / 128);
        assert forall|i: int| 0 <= i < s.len() - 1 implies #[trigger] s[i] >= 128 by {
            if i > 0 {
                assert(s[i] == t[i - 1]);
            }
        }
        assert(s[s.len() - 1] == t[t.len() - 1]);
    }
}

/// The type of a frame is found again in it.
pub proof fn lemma_peek_finds_type(t: PacketType, payload: Seq<u8>)
    ensures
        ({
            let f = frame_bytes(t, payload);
            type_offset(f) < f.len() && f[type_offset(f)] == type_byte(t)
        }),
{
    let n = uvarint((payload.len() + 1) as u64);
    let f = frame_bytes(t, payload);
    lemma_uvarint_bytes((payload.len() + 1) as u64);
    let p = |b: u8| b < 128;
    let at = n.len() - 1;
    assert forall|j: int| 0 <= j < at implies !p(#[trigger] f[j]) by {
        assert(f[j] == n[j]);
    }
    assert(f[at] == n[at]);
    crate::seqs::lemma_first_index_at(f, p, at);
    assert(f[n.len() as int] == type_byte(t));
}

// ---------------------------------------------------------------------------
// Reading
// ---------------------------------------------------------------------------

/// What a frame leads to.
pub enum FrameStep {
    /// Nothing: a keepalive, an empty frame, or one of a kind that is not known.
    Nothing,
    /// The connection is to be closed.
    Disconnect(Error),
    /// A message for the router; the peer is to be sent a keepalive in return.
    Message(RouterMsg),
}

/// What a [`FrameStep`] holds.
pub enum StepView {
    Nothing,
    Disconnect(Error),
    Message(MsgView),
}

impl View for FrameStep {
    type V = StepView;

    open spec fn view(&self) -> StepView {
        match *self {
            FrameStep::Nothing => StepView::Nothing,
            FrameStep::Disconnect(e) => StepView::Disconnect(e),
            FrameStep::Message(m) => StepView::Message(m@),
        }
    }
}

/// The announcement that a wire form stands for.
pub open spec fn unwired(m: Announce) -> RouterAnnounce {
    RouterAnnounce {
        key: m.key,
        parent: m.parent,
        seq: m.sig_res.seq,
        nonce: m.sig_res.nonce,
        port: m.sig_res.port,
        psig: m.sig_res.psig,
        sig: m.sig,
    }
}

/// What a frame from a peer leads to. A message that cannot be decoded, or whose signatures
/// are not valid, closes the connection.
pub open spec fn frame_step(
    our_key: PublicKey,
    peer_id: PeerId,
    peer_key: PublicKey,
    frame: Seq<u8>,
) -> StepView {
    if frame.len() == 0 {
        StepView::Nothing
    } else {
        let t = frame[0];
        let body = frame.drop_first();
        let undecodable = StepView::Disconnect(Error::Decode);
        if t == type_byte(PacketType::ProtoSigReq) {
            match parse_sig_req(body) {
                Some((req, _)) => StepView::Message(
                    MsgView::HandleRequest { peer_id, peer_key, req },
                ),
                None => undecodable,
            }
        } else if t == type_byte(PacketType::ProtoSigRes) {
            match parse_sig_res(body) {
                Some((res, _)) => if ed25519_accepts(
                    peer_key@,
                    signed_position(our_key, peer_key, res.seq, res.nonce, res.port),
                    res.psig@,
                ) {
                    StepView::Message(MsgView::HandleResponse { peer_id, key: peer_key, res })
                } else {
                    StepView::Disconnect(Error::BadMessage)
                },
                None => undecodable,
            }
        } else if t == type_byte(PacketType::ProtoAnnounce) {
            match parse_announce(body) {
                Some(m) => if announce_valid(unwired(m)) {
                    StepView::Message(
                        MsgView::HandleAnnounce { peer_id, peer_key, ann: unwired(m) },
                    )
                } else {
                    StepView::Disconnect(Error::BadMessage)
                },
                None => undecodable,
            }
        } else if t == type_byte(PacketType::ProtoBloomFilter) {
            match parse_bloom(body) {
                Ok(words) => StepView::Message(
                    MsgView::HandleBloom { peer_key, filter: raw_bits(words) },
                ),
                Err(_) => undecodable,
            }
        } else if t == type_byte(PacketType::ProtoPathLookup) {
            match parse_path_lookup(body) {
                Some(lookup) => StepView::Message(MsgView::HandleLookup { peer_key, lookup }),
                None => undecodable,
            }
        } else if t == type_byte(PacketType::ProtoPathNotify) {
            match parse_path_notify(body) {
                Some(notify) => StepView::Message(MsgView::HandleNotify { notify }),
                None => undecodable,
            }
        } else if t == type_byte(PacketType::ProtoPathBroken) {
            match parse_path_broken(body) {
                Some(broken) => StepView::Message(MsgView::HandleBroken { broken }),
                None => undecodable,
            }
        } else if t == type_byte(PacketType::Traffic) {
            match parse_traffic(body) {
                Some(traffic) => StepView::Message(MsgView::HandleTraffic { traffic }),
                None => undecodable,
            }
        } else {
            StepView::Nothing
        }
    }
}

/// Decides what a frame from a peer leads to. The frame is what the length prefix counts: type
/// byte and payload.
pub fn handle_frame(
    our_key: &PublicKey,
    peer_id: PeerId,
    peer_key: &PublicKey,
    frame: &[u8],
) -> (r: FrameStep)
    ensures
        r@ == frame_step(*our_key, peer_id, *peer_key, frame@),
{
    if frame.len() == 0 {
        return FrameStep::Nothing;
    }
    let payload = vstd::slice::slice_subrange(frame, 1, frame.len());
    assert(payload@ =~= frame@.drop_first());
    let ptype = match PacketType::from_byte(frame[0]) {
        Some(t) => t,
        None => {
            return FrameStep::Nothing;
        },
    };
    match ptype {
        PacketType::Dummy => FrameStep::Nothing,
        PacketType::KeepAlive => FrameStep::Nothing,
        PacketType::ProtoSigReq => {
            let mut r = WireReader::new(payload);
            match SigReq::decode(&mut r) {
                Ok(req) => FrameStep::Message(
                    RouterMsg::HandleRequest { peer_id, peer_key: *peer_key, req },
                ),
                Err(_) => FrameStep::Disconnect(Error::Decode),
            }
        },
        PacketType::ProtoSigRes => {
            let mut r = WireReader::new(payload);
            match SigRes::decode(&mut r) {
                Ok(res) => {
                    let bs = sig_res_bytes_for_sig(our_key, peer_key, res.seq, res.nonce, res.port);
                    if Crypto::verify(peer_key, &bs, &res.psig) {
                        FrameStep::Message(
                            RouterMsg::HandleResponse { peer_id, key: *peer_key, res },
                        )
                    } else {
                        FrameStep::Disconnect(Error::BadMessage)
                    }
                },
                Err(_) => FrameStep::Disconnect(Error::Decode),
            }
        },
        PacketType::ProtoAnnounce => match Announce::decode(payload) {
            Ok(m) => {
                let ann = RouterAnnounce::from_wire(&m);
                assert(ann == unwired(m)) by {
                    crate::tree::lemma_wire_form_is_faithful(ann, unwired(m));
                }
                if ann.check() {
                    FrameStep::Message(
                        RouterMsg::HandleAnnounce { peer_id, peer_key: *peer_key, ann },
                    )
                } else {
                    FrameStep::Disconnect(Error::BadMessage)
                }
            },
            Err(_) => FrameStep::Disconnect(Error::Decode),
        },
        PacketType::ProtoBloomFilter => match decode_bloom(payload) {
            Ok(raw) => FrameStep::Message(
                RouterMsg::HandleBloom {
                    peer_key: *peer_key,
                    filter: BloomFilter::from_raw(raw),
                },
            ),
            Err(_) => FrameStep::Disconnect(Error::Decode),
        },
        PacketType::ProtoPathLookup => match PathLookup::decode(payload) {
            Ok(lookup) => FrameStep::Message(
                RouterMsg::HandleLookup { peer_key: *peer_key, lookup },
            ),
            Err(_) => FrameStep::Disconnect(Error::Decode),
        },
        PacketType::ProtoPathNotify => match PathNotify::decode(payload) {
            Ok(notify) => FrameStep::Message(RouterMsg::HandleNotify { notify }),
            Err(_) => FrameStep::Disconnect(Error::Decode),
        },
        PacketType::ProtoPathBroken => match PathBroken::decode(payload) {
            Ok(broken) => FrameStep::Message(RouterMsg::HandleBroken { broken }),
            Err(_) => FrameStep::Disconnect(Error::Decode),
        },
        PacketType::Traffic => match Traffic::decode(payload) {
            Ok(tr) => FrameStep::Message(
                RouterMsg::HandleTraffic {
                    traffic: TrafficPacket {
                        path: tr.path,
                        from: tr.from,
                        source: tr.source,
                        dest: tr.dest,
                        watermark: tr.watermark,
                        payload: tr.payload,
                    },
                },
            ),
            Err(_) => FrameStep::Disconnect(Error::Decode),
        },
    }
}

/// What happened on the reading side of a connection.
pub enum ReadEvent {
    /// The connection was cancelled.
    Cancelled,
    /// Time passed while the length of a frame was awaited.
    Tick { now: u64 },
    /// A byte of the length of a frame came in.
    Byte(u8),
    /// The frame that was asked for came in.
    Frame(Vec<u8>),
    /// Reading failed.
    Failed,
}

/// What the reading side of a connection is to do next.
pub enum ReadAction {
    /// Go on waiting.
    Wait,
    /// Read the next byte of the length of a frame.
    ReadByte,
    /// Read a frame of this length.
    ReadFrame(usize),
    /// Hand the message to the router, send the peer a keepalive, then read on.
    Deliver(RouterMsg),
    /// Close the connection; the reason, unless it was cancelled.
    Stop(Option<Error>),
}

/// The reading side of a peer connection.
pub struct PeerReader {
    our_key: PublicKey,
    peer_id: PeerId,
    peer_key: PublicKey,
    max_message_size: u64,
    length: UvarintReader,
}

impl PeerReader {
    /// The node that reads.
    pub closed spec fn our_key(&self) -> PublicKey {
        self.our_key
    }

    /// The connection that is read from.
    pub closed spec fn peer_id(&self) -> PeerId {
        self.peer_id
    }

    /// The peer that is read from.
    pub closed spec fn peer_key(&self) -> PublicKey {
        self.peer_key
    }

    /// The longest frame that is accepted.
    pub closed spec fn max_message_size(&self) -> u64 {
        self.max_message_size
    }

    /// The length that a frame has if the bytes `s` come in next, and what follows it.
    pub closed spec fn length_by(&self, s: Seq<u8>) -> Option<(u64, Seq<u8>)> {
        self.length.completed_by(s)
    }

    /// The reader's invariant.
    pub closed spec fn wf(&self) -> bool {
        self.length.wf() && self.max_message_size <= usize::MAX
    }

    /// Whether two readers serve the same connection.
    pub open spec fn same_connection(&self, other: &PeerReader) -> bool {
        &&& self.our_key() == other.our_key()
        &&& self.peer_id() == other.peer_id()
        &&& self.peer_key() == other.peer_key()
        &&& self.max_message_size() == other.max_message_size()
    }

    /// Whether no byte of a frame was read yet.
    pub open spec fn at_frame_start(&self) -> bool {
        forall|s: Seq<u8>| #[trigger] self.length_by(s) == parse_uvarint(s)
    }

    /// Whether the byte `b` completes the length `n`, whatever follows.
    pub open spec fn completes(&self, b: u8, n: u64) -> bool {
        forall|s: Seq<u8>| #[trigger] self.length_by(seq![b] + s) == Some((n, s))
    }

    /// A reader that awaits the length of a frame needs another byte, and some byte completes the
    /// length. So a byte that completes a length, or after which there is none, is never answered
    /// by reading on.
    pub proof fn lemma_length_is_awaited(&self)
        requires
            self.wf(),
        ensures
            self.length_by(Seq::empty()) is None,
            self.length_by(seq![0u8]) is Some,
    {
        self.length.lemma_is_not_complete();
    }

    /// A reader at the start of a connection.
    pub fn new(
        our_key: PublicKey,
        peer_id: PeerId,
        peer_key: PublicKey,
        max_message_size: u64,
    ) -> (r: Self)
        requires
            max_message_size <= usize::MAX,
        ensures
            r.wf(),
            r.our_key() == our_key,
            r.peer_id() == peer_id,
            r.peer_key() == peer_key,
            r.max_message_size() == max_message_size,
            r.at_frame_start(),
    {
        let r = PeerReader {
            our_key,
            peer_id,
            peer_key,
            max_message_size,
            length: UvarintReader::new(),
        };
        assert forall|s: Seq<u8>| #[trigger] r.length_by(s) == parse_uvarint(s) by {
            assert(r.length.completed_by(s) == parse_uvarint(s));
        }
        r
    }

    /// Takes an event and decides what to do next. `deadline` is the time by which the peer
    /// must have sent something; the writing side arms it, a length that came in clears it.
    pub fn step(&mut self, deadline: &mut Option<u64>, event: ReadEvent) -> (r: ReadAction)
        requires
            old(self).wf(),
        ensures
            final(self).wf(),
            final(self).same_connection(old(self)),
            match event {
                ReadEvent::Cancelled => r == ReadAction::Stop(None) && *final(deadline) == *old(deadline),
                ReadEvent::Tick { now } => {
                    &&& *final(deadline) == *old(deadline)
                    &&& forall|s: Seq<u8>| #[trigger]
                        final(self).length_by(s) == old(self).length_by(s)
                    &&& if *old(deadline) matches Some(d) && now >= d {
                        r == ReadAction::Stop(Some(Error::Timeout))
                    } else {
                        r == ReadAction::Wait
                    }
                },
                ReadEvent::Byte(b) => match r {
                    ReadAction::ReadByte => *final(deadline) == *old(deadline) && forall|
                        s: Seq<u8>,
                    | #[trigger]
                        old(self).length_by(seq![b] + s) == final(self).length_by(s),
                    ReadAction::ReadFrame(n) => {
                        &&& *final(deadline) is None
                        &&& n <= old(self).max_message_size()
                        &&& final(self).at_frame_start()
                        &&& old(self).completes(b, n as u64)
                    },
                    ReadAction::Stop(Some(Error::OversizedMessage)) => {
                        &&& *final(deadline) is None
                        &&& exists|n: u64|
                            n > old(self).max_message_size() && #[trigger] old(self).completes(b, n)
                    },
                    ReadAction::Stop(Some(Error::Decode)) => {
                        &&& *final(deadline) is None
                        &&& forall|s: Seq<u8>| #[trigger]
                            old(self).length_by(seq![b] + s) is None
                    },
                    _ => false,
                },
                ReadEvent::Frame(frame) => {
                    &&& *final(deadline) == *old(deadline)
                    &&& final(self).at_frame_start()
                    &&& match frame_step(
                        old(self).our_key(),
                        old(self).peer_id(),
                        old(self).peer_key(),
                        frame@,
                    ) {
                        StepView::Nothing => r == ReadAction::ReadByte,
                        StepView::Disconnect(e) => r == ReadAction::Stop(Some(e)),
                        StepView::Message(m) => r matches ReadAction::Deliver(msg) && msg@ == m,
                    }
                },
                ReadEvent::Failed => r == ReadAction::Stop(Some(Error::Io)) && *final(deadline) is None,
            },
    {
        match event {
            ReadEvent::Cancelled => ReadAction::Stop(None),
            ReadEvent::Tick { now } => {
                match *deadline {
                    Some(d) => {
                        if now >= d {
                            return ReadAction::Stop(Some(Error::Timeout));
                        }
                    },
                    None => {},
                }
                ReadAction::Wait
            },
            ReadEvent::Byte(b) => {
                let ghost before = self.length;
                match self.length.feed(b) {
                    UvarintStep::More => {
                        assert forall|s: Seq<u8>| #[trigger]
                            old(self).length_by(seq![b] + s) == self.length_by(s) by {
                            assert(before.completed_by(seq![b] + s) == self.length.completed_by(s));
                        }
                        ReadAction::ReadByte
                    },
                    UvarintStep::Done(n) => {
                        assert forall|s: Seq<u8>| #[trigger]
                            old(self).length_by(seq![b] + s) == Some((n, s)) by {
                            assert(before.completed_by(seq![b] + s) == Some((n, s)));
                        }
                        assert(old(self).completes(b, n));
                        *deadline = None;
                        self.length = UvarintReader::new();
                        assert forall|s: Seq<u8>| #[trigger]
                            self.length_by(s) == parse_uvarint(s) by {
                            assert(self.length.completed_by(s) == parse_uvarint(s));
                        }
                        if n > self.max_message_size {
                            ReadAction::Stop(Some(Error::OversizedMessage))
                        } else {
                            ReadAction::ReadFrame(n as usize)
                        }
                    },
                    UvarintStep::Error => {
                        assert forall|s: Seq<u8>| #[trigger]
                            old(self).length_by(seq![b] + s) is None by {
                            assert(before.completed_by(seq![b] + s) is None);
                        }
                        *deadline = None;
                        self.length = UvarintReader::new();
                        ReadAction::Stop(Some(Error::Decode))
                    },
                }
            },
            ReadEvent::Frame(frame) => {
                self.length = UvarintReader::new();
                assert forall|s: Seq<u8>| #[trigger] self.length_by(s) == parse_uvarint(s) by {
                    assert(self.length.completed_by(s) == parse_uvarint(s));
                }
                match handle_frame(&self.our_key, self.peer_id, &self.peer_key, &frame) {
                    FrameStep::Nothing => ReadAction::ReadByte,
                    FrameStep::Disconnect(e) => ReadAction::Stop(Some(e)),
                    FrameStep::Message(msg) => ReadAction::Deliver(msg),
                }
            },
            ReadEvent::Failed => {
                *deadline = None;
                ReadAction::Stop(Some(Error::Io))
            },
        }
    }
}

/// Takes a connection that was closed out of the registry and returns the message by which the
/// router learns of it.
pub fn disconnect(peers: &mut Peers, peer_id: PeerId, key: PublicKey) -> (msg: RouterMsg)
    requires
        old(peers).wf(),
    ensures
        final(peers).wf(),
        final(peers)@ == removed(old(peers)@, peer_id, key).0,
        msg@ == (MsgView::RemovePeer {
            peer_id,
            key,
            port: match removed(old(peers)@, peer_id, key).1 {
                Some(p) => p,
                None => 0,
            },
        }),
{
    let port: u64 = match peers.remove_peer(peer_id, &key) {
        Some(p) => p,
        None => 0,
    };
    RouterMsg::RemovePeer { peer_id, key, port }
}

/// What the receiver of a frame makes of an action that it was sent for.
pub open spec fn received_as(
    a: RouterAction,
    our_key: PublicKey,
    peer_id: PeerId,
    peer_key: PublicKey,
) -> StepView {
    match a {
        RouterAction::SendSigReq { req, .. } => StepView::Message(
            MsgView::HandleRequest { peer_id, peer_key, req },
        ),
        RouterAction::SendSigRes { res, .. } => if ed25519_accepts(
            peer_key@,
            signed_position(our_key, peer_key, res.seq, res.nonce, res.port),
            res.psig@,
        ) {
            StepView::Message(MsgView::HandleResponse { peer_id, key: peer_key, res })
        } else {
            StepView::Disconnect(Error::BadMessage)
        },
        RouterAction::SendAnnounce { ann, .. } => if announce_valid(unwired(ann)) {
            StepView::Message(MsgView::HandleAnnounce { peer_id, peer_key, ann: unwired(ann) })
        } else {
            StepView::Disconnect(Error::BadMessage)
        },
        RouterAction::SendBloom { bloom, .. } => StepView::Message(
            MsgView::HandleBloom { peer_key, filter: bloom@ },
        ),
        RouterAction::SendTraffic { traffic, .. } => StepView::Message(
            MsgView::HandleTraffic { traffic: traffic@ },
        ),
        RouterAction::SendPathLookup { lookup, .. } => StepView::Message(
            MsgView::HandleLookup { peer_key, lookup: lookup@ },
        ),
        RouterAction::SendPathNotify { notify, .. } => StepView::Message(
            MsgView::HandleNotify { notify: notify@ },
        ),
        RouterAction::SendPathBroken { broken, .. } => StepView::Message(
            MsgView::HandleBroken { broken: broken@ },
        ),
        _ => StepView::Nothing,
    }
}

/// Whether the paths in an action can be written down.
pub open spec fn paths_writable(a: RouterAction) -> bool {
    match a {
        RouterAction::SendTraffic { traffic, .. } => crate::wire::is_path(traffic@.path)
            && crate::wire::is_path(traffic@.from),
        RouterAction::SendPathLookup { lookup, .. } => crate::wire::is_path(lookup@.from),
        RouterAction::SendPathNotify { notify, .. } => crate::wire::is_path(notify@.path)
            && crate::wire::is_path(notify@.info.path),
        RouterAction::SendPathBroken { broken, .. } => crate::wire::is_path(broken@.path),
        _ => true,
    }
}

/// What one router sends the next one receives: the frame of an action is taken apart into
/// the message that the action stands for, on every connection.
pub proof fn lemma_sent_is_received(
    a: RouterAction,
    our_key: PublicKey,
    peer_id: PeerId,
    peer_key: PublicKey,
)
    requires
        payload_of(a) is Some,
        paths_writable(a),
    ensures
        ({
            let (_, t, payload) = payload_of(a)->0;
            frame_step(our_key, peer_id, peer_key, seq![type_byte(t)] + payload) == received_as(
                a,
                our_key,
                peer_id,
                peer_key,
            )
        }),
{
    let (_, t, payload) = payload_of(a)->0;
    assert((seq![type_byte(t)] + payload).drop_first() =~= payload);
    assert(payload + Seq::<u8>::empty() =~= payload);
    match a {
        RouterAction::SendSigReq { req, .. } => {
            crate::wire::lemma_sig_req_round_trip(req, Seq::empty());
        },
        RouterAction::SendSigRes { res, .. } => {
            crate::wire::lemma_sig_res_round_trip(res, Seq::empty());
        },
        RouterAction::SendAnnounce { ann, .. } => {
            crate::wire::lemma_announce_round_trip(ann);
        },
        RouterAction::SendBloom { bloom, .. } => {
            crate::bloom::lemma_bloom_round_trip(bloom.bits@);
        },
        RouterAction::SendTraffic { traffic, .. } => {
            crate::wire::lemma_traffic_round_trip(traffic@);
        },
        RouterAction::SendPathLookup { lookup, .. } => {
            crate::wire::lemma_path_lookup_round_trip(lookup@);
        },
        RouterAction::SendPathNotify { notify, .. } => {
            crate::wire::lemma_path_notify_round_trip(notify@);
        },
        RouterAction::SendPathBroken { broken, .. } => {
            crate::wire::lemma_path_broken_round_trip(broken@);
        },
        _ => {},
    }
}

// ---------------------------------------------------------------------------
// Writing
// ---------------------------------------------------------------------------

/// Maximum number of packets that are written from the traffic queue before messages of the
/// protocol have their turn again.
pub const MAX_DRAIN_PER_ITER: usize = 96;

/// A message to the writing side of a connection.
pub enum PeerMessage {
    /// A frame of the protocol, which goes before traffic.
    SendFrame(Vec<u8>),
    /// Send a keepalive now.
    ScheduleKeepalive,
}

/// What happened on the writing side of a connection.
pub enum WriteEvent {
    /// The connection was cancelled, or nobody can send messages any more.
    Cancelled,
    /// A message came; for a keepalive, together with all that were waiting behind it.
    Message(PeerMessage, Vec<PeerMessage>),
    /// Traffic was queued.
    Traffic,
    /// Nothing happened for long.
    Idle,
}

/// What the writing side of a connection is to do next.
pub struct WriteStep {
    /// Close the connection.
    pub stop: bool,
    /// Frames to be written, each at once.
    pub frames: Vec<Vec<u8>>,
    /// Whether the peer is expected to answer: the deadline is armed once these are written.
    pub arm: bool,
    /// Whether queued traffic is to be written after that.
    pub drain: bool,
}

/// What a list of frames holds.
pub open spec fn frames_view(v: Seq<Vec<u8>>) -> Seq<Seq<u8>> {
    Seq::new(v.len(), |i: int| v[i]@)
}

/// The frames among messages.
pub open spec fn frames_in(msgs: Seq<PeerMessage>) -> Seq<Seq<u8>>
    decreases msgs.len(),
{
    if msgs.len() == 0 {
        Seq::empty()
    } else {
        let rest = frames_in(msgs.drop_last());
        match msgs.last() {
            PeerMessage::SendFrame(data) => rest.push(data@),
            PeerMessage::ScheduleKeepalive => rest,
        }
    }
}

/// The frame that keeps a connection alive.
pub open spec fn keepalive() -> Seq<u8> {
    frame_bytes(PacketType::KeepAlive, Seq::empty())
}

/// Whether a frame is one that the peer answers: its kind is known, and it is no keepalive.
pub open spec fn wants_answer(frame: Seq<u8>) -> bool {
    let at = type_offset(frame);
    at < frame.len() && 2 <= frame[at] <= 9
}

/// The frame that keeps a connection alive.
pub fn keepalive_frame() -> (r: Vec<u8>)
    ensures
        r@ == keepalive(),
{
    let none: Vec<u8> = Vec::new();
    assert(none@ =~= Seq::empty());
    encode_frame(PacketType::KeepAlive, &none)
}

fn collect_frames(msgs: Vec<PeerMessage>) -> (r: Vec<Vec<u8>>)
    ensures
        frames_view(r@) == frames_in(msgs@),
{
    let mut r: Vec<Vec<u8>> = Vec::new();
    let mut i: usize = 0;
    assert(msgs@.take(0) =~= Seq::empty());
    assert(frames_view(r@) =~= Seq::empty());
    while i < msgs.len()
        invariant
            i <= msgs@.len(),
            frames_view(r@) == frames_in(msgs@.take(i as int)),
        decreases msgs@.len() - i,
    {
        assert(msgs@.take(i + 1).drop_last() =~= msgs@.take(i as int));
        match &msgs[i] {
            PeerMessage::SendFrame(data) => {
                let copy = to_vec(data);
                let ghost before = r@;
                r.push(copy);
                assert(frames_view(r@) =~= frames_view(before).push(data@));
            },
            PeerMessage::ScheduleKeepalive => {},
        }
        i += 1;
    }
    assert(msgs@.take(i as int) =~= msgs@);
    r
}

/// Decides what the writing side of a connection does on an event. A frame of the protocol is
/// written at once. However many keepalives were asked for, one is written, after the frames
/// that were waiting. Traffic is written only when no message is pending. On a connection that
/// was idle for long a keepalive is written.
pub fn writer_step(event: WriteEvent, pending: bool) -> (r: WriteStep)
    ensures
        r.stop == (event is Cancelled),
        match event {
            WriteEvent::Cancelled => frames_view(r.frames@).len() == 0 && !r.arm && !r.drain,
            WriteEvent::Message(PeerMessage::SendFrame(data), _) => frames_view(r.frames@)
                == seq![data@] && r.arm == wants_answer(data@) && r.drain == !pending,
            WriteEvent::Message(PeerMessage::ScheduleKeepalive, waiting) => frames_view(r.frames@)
                == frames_in(waiting@).push(keepalive()) && !r.arm && r.drain == !pending,
            WriteEvent::Traffic => frames_view(r.frames@).len() == 0 && !r.arm && r.drain
                == !pending,
            WriteEvent::Idle => frames_view(r.frames@) == seq![keepalive()] && !r.arm && !r.drain,
        },
{
    match event {
        WriteEvent::Cancelled => WriteStep {
            stop: true,
            frames: Vec::new(),
            arm: false,
            drain: false,
        },
        WriteEvent::Message(PeerMessage::SendFrame(data), _) => {
            let arm = match peek_frame_type(&data) {
                Some(t) => match t {
                    PacketType::Dummy => false,
                    PacketType::KeepAlive => false,
                    _ => true,
                },
                None => false,
            };
            let ghost d = data@;
            let mut frames: Vec<Vec<u8>> = Vec::new();
            frames.push(data);
            assert(frames_view(frames@) =~= seq![d]);
            WriteStep { stop: false, frames, arm, drain: !pending }
        },
        WriteEvent::Message(PeerMessage::ScheduleKeepalive, waiting) => {
            let mut frames = collect_frames(waiting);
            let ghost before = frames@;
            let k = keepalive_frame();
            frames.push(k);
            assert(frames_view(frames@) =~= frames_view(before).push(keepalive()));
            WriteStep { stop: false, frames, arm: false, drain: !pending }
        },
        WriteEvent::Traffic => WriteStep {
            stop: false,
            frames: Vec::new(),
            arm: false,
            drain: !pending,
        },
        WriteEvent::Idle => {
            let mut frames: Vec<Vec<u8>> = Vec::new();
            let k = keepalive_frame();
            frames.push(k);
            assert(frames_view(frames@) =~= seq![keepalive()]);
            WriteStep { stop: false, frames, arm: false, drain: false }
        },
    }
}

/// Arms the deadline for an answer, unless it is armed: once armed it stays until something
/// comes in.
pub fn arm_deadline(deadline: &mut Option<u64>, now: u64, timeout: u64)
    ensures
        *final(deadline) == (match *old(deadline) {
            Some(d) => Some(d),
            None => Some(
                if now + timeout <= u64::MAX {
                    (now + timeout) as u64
                } else {
                    u64::MAX
                },
            ),
        }),
{
    match *deadline {
        Some(_) => {},
        None => {
            *deadline = Some(now.saturating_add(timeout));
        },
    }
}

/// The frames of packets.
pub open spec fn traffic_frames(packets: Seq<TrafficView>) -> Seq<Seq<u8>> {
    Seq::new(packets.len(), |i: int| frame_bytes(PacketType::Traffic, packets[i].bytes()))
}

/// Puts packets in frames.
pub fn encode_traffic(packets: &Vec<TrafficPacket>) -> (r: Vec<Vec<u8>>)
    requires
        forall|i: int| 0 <= i < packets@.len() ==> wire_len((#[trigger] packets@[i])@) < usize::MAX,
    ensures
        frames_view(r@) == traffic_frames(packets_view(packets@)),
{
    let mut r: Vec<Vec<u8>> = Vec::new();
    let ghost all = traffic_frames(packets_view(packets@));
    let mut i: usize = 0;
    while i < packets.len()
        invariant
            i <= packets@.len(),
            all == traffic_frames(packets_view(packets@)),
            forall|j: int|
                0 <= j < packets@.len() ==> wire_len((#[trigger] packets@[j])@) < usize::MAX,
            frames_view(r@) == all.take(i as int),
        decreases packets@.len() - i,
    {
        let t = &packets[i];
        assert(wire_len(packets@[i as int]@) < usize::MAX);
        let frame = encode_traffic_frame(
            &t.path,
            &t.from,
            &t.source,
            &t.dest,
            t.watermark,
            &t.payload,
        );
        let ghost before = r@;
        r.push(frame);
        assert(frames_view(r@) =~= frames_view(before).push(frame@));
        assert(all.take(i + 1) =~= all.take(i as int).push(frame@));
        i += 1;
    }
    assert(all.take(i as int) =~= all);
    r
}

// ---------------------------------------------------------------------------
// Carrying out actions
// ---------------------------------------------------------------------------

/// What is left to be done for an action after queues were served.
pub enum Dispatch {
    /// Nothing.
    Done,
    /// Hand the packet to the reader that waits.
    ToReader(TrafficPacket),
    /// Wake the writing side of a connection: traffic was queued for it.
    Wake(PeerId),
    /// Tell the application of a new path.
    Notify(PublicKey),
    /// Send a frame on a connection.
    Frame(PeerId, Vec<u8>),
}

/// Whether an action can be carried out within the limits of the machine.
pub open spec fn dispatchable(a: RouterAction, peers: &Peers, queue: &DeliveryQueue) -> bool {
    match a {
        RouterAction::DeliverTraffic { traffic } => wire_len(traffic@) <= usize::MAX
            && queue.queued().size + wire_len(traffic@) <= u64::MAX,
        RouterAction::SendTraffic { peer_id, traffic } => wire_len(traffic@) <= usize::MAX && (
        handle_of(peers@, peer_id) matches Some(h) ==> h.queue.size + wire_len(traffic@)
            <= u64::MAX),
        _ => frame_fits(a),
    }
}

/// Carries out an action as far as queues go: traffic for us is queued for the application,
/// traffic for a peer is queued for its connection. Says what is left to be done.
pub fn dispatch_action(
    action: RouterAction,
    peers: &mut Peers,
    queue: &mut DeliveryQueue,
    now: u64,
) -> (r: Dispatch)
    requires
        old(peers).wf(),
        old(queue).wf(),
        dispatchable(action, old(peers), old(queue)),
    ensures
        final(peers).wf(),
        final(queue).wf(),
        match action {
            RouterAction::DeliverTraffic { traffic } => {
                &&& final(peers)@ == old(peers)@
                &&& if old(queue).waiting() > 0 {
                    &&& r matches Dispatch::ToReader(p) && p@ == traffic@
                    &&& final(queue).waiting() == old(queue).waiting() - 1
                    &&& final(queue).queued() == old(queue).queued()
                } else {
                    &&& r is Done
                    &&& final(queue).waiting() == 0
                    &&& final(queue).queued() == queue_pushed(
                        relieved(old(queue).queued(), now),
                        InfoView {
                            packet: traffic@,
                            size: wire_len(traffic@) as u64,
                            time: now,
                        },
                    )
                }
            },
            RouterAction::SendTraffic { peer_id, traffic } => {
                &&& *final(queue) == *old(queue)
                &&& match handle_of(old(peers)@, peer_id) {
                    Some(h) => r == Dispatch::Wake(peer_id) && final(peers)@ == with_queue(
                        old(peers)@,
                        peer_id,
                        queue_pushed(
                            relieved(h.queue, now),
                            InfoView {
                                packet: traffic@,
                                size: wire_len(traffic@) as u64,
                                time: now,
                            },
                        ),
                    ),
                    None => r is Done && final(peers)@ == old(peers)@,
                }
            },
            RouterAction::PathNotifyCallback { key } => {
                r == Dispatch::Notify(key) && final(peers)@ == old(peers)@ && *final(queue) == *old(
                    queue)
            },
            _ => {
                &&& final(peers)@ == old(peers)@
                &&& *final(queue) == *old(queue)
                &&& r matches Dispatch::Frame(id, frame) && {
                    let (peer_id, t, payload) = payload_of(action)->0;
                    id == peer_id && frame@ == frame_bytes(t, payload)
                }
            },
        },
{
    match action {
        RouterAction::DeliverTraffic { traffic } => match queue.deliver(traffic, now) {
            Some(p) => Dispatch::ToReader(p),
            None => Dispatch::Done,
        },
        RouterAction::SendTraffic { peer_id, traffic } => {
            if peers.send_traffic_to_peer(peer_id, traffic, now) {
                Dispatch::Wake(peer_id)
            } else {
                Dispatch::Done
            }
        },
        RouterAction::PathNotifyCallback { key } => Dispatch::Notify(key),
        other => match encode_action_frame(&other) {
            Some((peer_id, frame)) => Dispatch::Frame(peer_id, frame),
            None => Dispatch::Done,
        },
    }
}

// ---------------------------------------------------------------------------
// Laws of reading and writing
// ---------------------------------------------------------------------------

/// No frame that waits is lost, and their order stays: the frames among messages, and further
/// messages behind them, are those of the first and then those of the second. A single message
/// gives its own frame, and a request for a keepalive gives none.
pub proof fn lemma_waiting_frames_are_written(a: Seq<PeerMessage>, b: Seq<PeerMessage>)
    ensures
        frames_in(a + b) == frames_in(a) + frames_in(b),
        a.len() == 1 ==> match a[0] {
            PeerMessage::SendFrame(data) => frames_in(a) == seq![data@],
            PeerMessage::ScheduleKeepalive => frames_in(a).len() == 0,
        },
    decreases b.len(),
{
    if a.len() == 1 {
        reveal_with_fuel(frames_in, 2);
        if let PeerMessage::SendFrame(data) = a[0] {
            assert(frames_in(a) =~= seq![data@]);
        }
    }
    if b.len() == 0 {
        assert(a + b =~= a);
        assert(frames_in(a) + frames_in(b) =~= frames_in(a));
    } else {
        lemma_waiting_frames_are_written(a, b.drop_last());
        assert((a + b).drop_last() =~= a + b.drop_last());
        assert((a + b).last() == b.last());
        assert(frames_in(a + b) =~= frames_in(a) + frames_in(b));
    }
}

/// An answer is expected to every frame but an empty one and a keepalive, whatever it carries.
pub proof fn lemma_which_frames_want_an_answer(t: PacketType, payload: Seq<u8>)
    ensures
        wants_answer(frame_bytes(t, payload)) <==> !(t is Dummy) && !(t is KeepAlive),
{
    lemma_peek_finds_type(t, payload);
}

/// What comes in is named after the connection that it came on, and is let in only where it is
/// signed: an answer to our request by the peer, over its place below that peer, and an
/// announcement by both of its nodes. A connection is closed for nothing but a message that cannot
/// be read or is not signed, and a frame leads to nothing only where its kind is none that is
/// answered.
pub proof fn lemma_what_is_let_in(
    our_key: PublicKey,
    peer_id: PeerId,
    peer_key: PublicKey,
    frame: Seq<u8>,
)
    ensures
        match frame_step(our_key, peer_id, peer_key, frame) {
            StepView::Nothing => frame.len() == 0 || frame[0] < 2 || frame[0] > 9,
            StepView::Disconnect(e) => {
                &&& frame.len() > 0
                &&& 2 <= frame[0] <= 9
                &&& e is Decode || e is BadMessage
                &&& e is BadMessage ==> frame[0] == 3 || frame[0] == 4
            },
            StepView::Message(m) => {
                &&& frame.len() > 0
                &&& match m {
                    MsgView::HandleRequest { peer_id: id, peer_key: key, req } => frame[0] == 2 && id
                        == peer_id && key == peer_key && parse_sig_req(frame.skip(1)) is Some,
                    MsgView::HandleResponse { peer_id: id, key, res } => frame[0] == 3 && id
                        == peer_id && key == peer_key && ed25519_accepts(
                        peer_key@,
                        signed_position(our_key, peer_key, res.seq, res.nonce, res.port),
                        res.psig@,
                    ),
                    MsgView::HandleAnnounce { peer_id: id, peer_key: key, ann } => frame[0] == 4
                        && id == peer_id && key == peer_key && announce_valid(ann),
                    MsgView::HandleBloom { peer_key: key, .. } => frame[0] == 5 && key == peer_key,
                    MsgView::HandleLookup { peer_key: key, lookup } => frame[0] == 6 && key
                        == peer_key && parse_path_lookup(frame.skip(1)) == Some(lookup),
                    MsgView::HandleNotify { notify } => frame[0] == 7 && parse_path_notify(
                        frame.skip(1),
                    ) == Some(notify),
                    MsgView::HandleBroken { broken } => frame[0] == 8 && parse_path_broken(
                        frame.skip(1),
                    ) == Some(broken),
                    MsgView::HandleTraffic { traffic } => frame[0] == 9 && parse_traffic(
                        frame.skip(1),
                    ) == Some(traffic),
                    _ => false,
                }
            },
        },
{
    if frame.len() > 0 {
        assert(frame.drop_first() =~= frame.skip(1));
    }
}

} // verus!
