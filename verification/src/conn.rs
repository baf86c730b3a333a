//! The rules of the packet connection that a node offers to its users.
use vstd::prelude::*;
use crate::bytes::{key_eq, to_vec, PublicKey};
use crate::node::{MsgView, RouterMsg};
use crate::traffic::{wire_len, TrafficPacket};
use crate::types::{Addr, Error};
use crate::wire::{array_of, path_bytes, uvarint, TrafficView};

verus! {

/// What a packet takes on the wire beside its payload, type byte of the frame counted in,
/// while it has no path.
pub open spec fn overhead() -> nat {
    wire_len(
        TrafficView {
            path: Seq::empty(),
            from: Seq::empty(),
            source: array_of::<32>(Seq::new(32, |i: int| 0u8)),
            dest: array_of::<32>(Seq::new(32, |i: int| 0u8)),
            watermark: u64::MAX,
            payload: Seq::empty(),
        },
    ) + 1
}

/// The longest payload whose frame is no longer than the limit.
pub open spec fn mtu_of(max_message_size: u64) -> u64 {
    if max_message_size >= overhead() {
        (max_message_size - overhead()) as u64
    } else {
        0
    }
}

/// The overhead is the same whoever sends to whom: two empty paths, two keys, the watermark
/// and the type byte.
pub proof fn lemma_overhead()
    ensures
        overhead() == 77,
{
    assert(uvarint(0).len() == 1);
    assert(path_bytes(Seq::empty()) == uvarint(0));
    assert(uvarint(u64::MAX).len() == 10) by {
        reveal_with_fuel(uvarint, 11);
    }
}

/// A payload within the limit makes a frame within the limit, as long as it has no path.
pub proof fn lemma_mtu_is_safe(t: TrafficView, max_message_size: u64)
    requires
        t.path.len() == 0,
        t.from.len() == 0,
        max_message_size >= overhead(),
        t.payload.len() <= mtu_of(max_message_size),
    ensures
        wire_len(t) + 1 <= max_message_size,
{
    lemma_overhead();
    assert(t.path =~= Seq::empty());
    assert(t.from =~= Seq::empty());
    assert(uvarint(0).len() == 1);
    assert(path_bytes(Seq::empty()) == uvarint(0));
    crate::wire::lemma_uvarint_len(t.watermark);
}

/// The longest payload that can be sent.
pub fn mtu(max_message_size: u64) -> (r: u64)
    ensures
        r == mtu_of(max_message_size),
{
    proof {
        lemma_overhead();
    }
    max_message_size.saturating_sub(77)
}

/// Whether a connection to a peer is accepted: not on a closed node, and not from ourselves.
pub fn accept_conn(closed: bool, our_key: &PublicKey, peer_key: &PublicKey) -> (r: Result<(), Error>)
    ensures
        r == (if closed {
            Err::<(), Error>(Error::Closed)
        } else if *our_key == *peer_key {
            Err(Error::BadKey)
        } else {
            Ok(())
        }),
{
    if closed {
        Err(Error::Closed)
    } else if key_eq(our_key, peer_key) {
        Err(Error::BadKey)
    } else {
        Ok(())
    }
}

/// The message to the router that a write makes.
pub open spec fn written(our_key: PublicKey, dest: PublicKey, payload: Seq<u8>) -> MsgView {
    MsgView::SendTraffic {
        traffic: TrafficView {
            path: Seq::empty(),
            from: Seq::empty(),
            source: our_key,
            dest,
            watermark: u64::MAX,
            payload,
        },
    }
}

/// Writes a packet: gives the message to the router. A closed node refuses, and so does one
/// whose limit is below the length.
pub fn write_to(
    closed: bool,
    max_message_size: u64,
    our_key: PublicKey,
    buf: &[u8],
    addr: &Addr,
) -> (r: Result<RouterMsg, Error>)
    ensures
        if closed {
            r matches Err(e) && e == Error::Closed
        } else if buf@.len() > mtu_of(max_message_size) {
            r matches Err(e) && e == Error::OversizedMessage
        } else {
            r matches Ok(m) && m@ == written(our_key, addr.0, buf@)
        },
{
    if closed {
        return Err(Error::Closed);
    }
    if buf.len() as u64 > mtu(max_message_size) {
        return Err(Error::OversizedMessage);
    }
    let traffic = TrafficPacket::new(our_key, addr.0, to_vec(buf));
    Ok(RouterMsg::SendTraffic { traffic })
}

/// Reads a packet into a buffer of `room` bytes: what fits of the payload, and who sent it.
pub fn read_packet(packet: &TrafficPacket, room: usize) -> (r: (Vec<u8>, Addr))
    ensures
        r.0@ == packet.payload@.take(
            if packet.payload@.len() <= room {
                packet.payload@.len() as int
            } else {
                room as int
            },
        ),
        r.1.0 == packet.source,
{
    let n: usize = if packet.payload.len() <= room {
        packet.payload.len()
    } else {
        room
    };
    let part = vstd::slice::slice_subrange(packet.payload.as_slice(), 0, n);
    let data = to_vec(part);
    assert(data@ =~= packet.payload@.take(n as int));
    (data, Addr(packet.source))
}

/// No longer payload could be written: before it has a path, one byte above the limit makes a
/// frame above the limit.
pub proof fn lemma_mtu_is_tight(t: TrafficView, max_message_size: u64)
    requires
        t.path.len() == 0,
        t.from.len() == 0,
        t.watermark == u64::MAX,
        t.payload.len() > mtu_of(max_message_size),
    ensures
        wire_len(t) + 1 > max_message_size,
{
    lemma_overhead();
    assert(t.path =~= Seq::empty());
    assert(t.from =~= Seq::empty());
    assert(uvarint(0).len() == 1);
    assert(path_bytes(Seq::empty()) == uvarint(0));
    assert(uvarint(u64::MAX).len() == 10) by {
        reveal_with_fuel(uvarint, 11);
    }
}

/// What is written is addressed: it names us, who it is for and what it carries, and nobody has
/// passed it on yet.
pub proof fn lemma_what_is_written(our_key: PublicKey, dest: PublicKey, payload: Seq<u8>)
    ensures
        written(our_key, dest, payload) matches MsgView::SendTraffic { traffic } && {
            &&& traffic.source == our_key
            &&& traffic.dest == dest
            &&& traffic.payload == payload
            &&& traffic.path.len() == 0
            &&& traffic.from.len() == 0
            &&& traffic.watermark == 0xffff_ffff_ffff_ffff
        },
{
}

} // verus!
