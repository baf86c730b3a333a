//! A node of the Yggdrasil mesh: an encrypted network in which every node has an IPv6 address
//! made of its key, and packets find their way along a spanning tree.
//!
//! The routing layer stands in [`tree`], [`router`], [`neighbours`], [`routing`], [`discovery`],
//! [`upkeep`] and [`node`], on top of the messages of [`wire`], the filters of [`bloom`] and
//! [`blooms`], the paths of [`pathfinder`] and the queues of [`traffic`]. [`peers`], [`peer_io`]
//! and [`conn`] connect it to other nodes. Sessions between two nodes are in [`session`] and
//! [`sessions`]. What makes links is in [`version`], [`uris`], [`bans`], [`links`], [`peering`],
//! [`multicast`] and [`tls`]; what passes packets of a host in [`address`], [`nets`], [`ckr`],
//! [`firewall`] and [`mesh`]; and what is configured in [`config`], [`normalize`] and [`mobile`].
//!
//! The library does no input and output and reads no clock: times are handed to it, in
//! nanoseconds since some fixed moment unless said otherwise, and it hands back what is to be
//! done. Where something is drawn at random there are two functions: one that draws, and one,
//! with a name in `_with`, that takes what was drawn and says exactly what comes of it.
pub mod address;
pub mod bans;
pub mod bloom;
pub mod blooms;
pub mod boxes;
pub mod bytes;
pub mod ckr;
pub mod config;
pub mod conn;
pub mod crypto;
pub mod discovery;
pub mod firewall;
pub mod hashes;
pub mod links;
pub mod mesh;
pub mod mobile;
pub mod multicast;
pub mod neighbours;
pub mod nets;
pub mod node;
pub mod normalize;
pub mod pathfinder;
pub mod peer_io;
pub mod peering;
pub mod peers;
pub(crate) mod random;
pub mod router;
pub mod routing;
pub mod seqs;
pub mod session;
pub mod sessions;
pub mod table;
pub mod texts;
pub mod tls;
pub mod traffic;
pub mod tree;
pub mod types;
pub mod upkeep;
pub mod uris;
pub mod version;
pub mod wire;
