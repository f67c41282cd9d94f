# idunn

A node of a small peer-to-peer network. Nodes talk a line-oriented protocol
(`idunn: 1.0`, length headers, a signed or encrypted JSON body), keep a list
of the peers they have seen, and hand work such as introductions to a
background worker.

- `src/` is the library, verified with Verus: text helpers (`text`), flat
  JSON messages (`fields`), the protocol's decisions and framing (`proto`),
  the peer list (`peers`), the work queue (`workqueue`), the configuration
  (`config`) and the node's own requests (`actions`).
- `app/` is the program around it: sockets, threads, the configuration file,
  the peer list on disk, and OpenPGP through GPGME.
- `tests/` runs the library on concrete values.
