# btp

A BitTorrent client library verified with Verus, and a small command-line
client around it.

- `src/` is the library. Every function in it carries a contract that Verus
  proves: torrent metainfo and tracker responses read from bencode, the peer
  wire protocol and its extension messages, piece and block bookkeeping of a
  download, the per-peer connection state machine, the disk piece checker,
  the UDP tracker (client decisions and server swarms), and the mainline
  DHT (message validation, node lookups, table bootstrap and refresh).
- `tests/` runs the library on concrete values.
- `app/` is the program: argument handling, files, sockets and threads. It
  reads a torrent, asks its trackers for peers and downloads from them,
  leaving every decision to the library.

Calls into outside crates (SHA-1, percent-encoding, random numbers, the
clock) go through a few trusted wrappers whose contracts say what those
crates document.
