# yggdrasil

A node of the Yggdrasil mesh, with its logic verified in Verus.

- `src/` is the library: routing, sessions, links, the firewall, crypto-key routing, discovery of
  neighbours and configuration. The functions have contracts over mathematical models. Without
  one are only those that draw at random, of whose results nothing is known (`random_u64`,
  `random_secret` and `Draws::random`), and `on_connectivity_changed`, which an app implements;
  the methods of other traits have the contract of their trait. The laws that span functions are
  public proof functions of their module.
- `tests/` runs the library on concrete values, among them a small mesh in memory.
- `app/` is the program: tokio tasks, sockets, TLS, files and the command line. It performs what
  the library decides.

The library trusts what it calls from other crates: ed25519 and curve25519 keys and boxes, the
hashes murmur3 and BLAKE2b, hexadecimal texts, networks, addresses of links, X.509 certificates,
TOML documents and random numbers. Each such call stands in a small function marked
`external_body`, whose doc comment says what is taken for granted.
