# bittorrent

A BitTorrent client whose core is proved correct with Verus.

- `src/` is the library, verified by Verus: bencode encoding and decoding,
  torrent metainfo, the storage layout of pieces and files, piece and block
  picking, the peer wire protocol and handshake, peer sessions, the decisions
  of tracker announces (HTTP and UDP), the pieces on their way to and from
  disk, and the bookkeeping of the client and its torrents. Calls into other
  crates (SHA1, URL parsing and encoding, random numbers, dates, bit vectors,
  an LRU cache) stand behind small trusted functions whose contracts say
  what the library relies on.
- `tests/` runs the library on concrete values.
- `app/` is the program around it: the tokio runtime, TCP and UDP sockets,
  HTTP requests, file reads and writes, and the tasks that hand events to the
  library and carry out what it decides.
