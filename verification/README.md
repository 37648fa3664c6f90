# tchatche

Cluster membership by gossip. Every member of a cluster announces itself with a heartbeat and
a frozen set of key-values, and learns those of all others by three-message handshakes
(`Syn`, `SynAck`, `Ack`) over datagrams.

A member's key-values are numbered `1..N` once and never change, so what others hold of them
is always a prefix, and one number per member, in a digest, says how far it goes. A delta
carries what a digest's sender lacks, the stalest members first, cut to what fits a datagram.

`src/` is the library, verified with Verus:

| module | what it holds |
| --- | --- |
| `types`, `text`, `order`, `ordered_map`, `ordered_set` | identities, addresses, strings, ordered collections |
| `serialize`, `digest`, `delta`, `message` | the wire format, with its round-trip laws |
| `state`, `cluster`, `staleness` | what a member knows, and what it shares |
| `prefix`, `reconcile`, `handshake` | how prefixes grow, and what a handshake achieves |
| `failure_detector` | heartbeat arrivals, live and dead members, quarantine |
| `configuration`, `tchatche`, `server` | a member, its answers, and whom it gossips with |
| `random` | what is left to chance |

`app/` is the tokio server around it: sockets, clocks, DNS, watch channels, and the
floating-point statistics of heartbeat arrivals. `tests/` holds the tests.
