# btrs

A BitTorrent client whose protocol logic is written in Verus and proved
against its specifications.

## Layout

- `src/` — the verified library.
  - `msg`, `client/` — the peer wire protocol: message framing, the
    handshake, the extension protocol and metadata messages, what a peer
    connection knows (choke state, bitfield).
  - `bitfield`, `avg`, `cache`, `download`, `fs` — piece bookkeeping, the
    sliding rate average, the write cache, the decisions of a download
    from one peer, whole-buffer positioned transfers.
  - `announce`, `magnet`, `metadata`, `metainfo`, `netaddr` — trackers
    (HTTP answers, UDP packets), magnet links, metadata exchange, info
    hashes and torrents, textual IP and socket addresses.
  - `dht/` — the Kademlia DHT: node ids, contacts, buckets, the routing
    table, KRPC messages, lookups and their transactions, answers to
    queries, the running requests of a node and the decisions of its loop.
  - `bencode`, `hexcode`, `urltext`, `clock` — the calls into `ben`,
    `data-encoding`, `url`, `percent-encoding`, `rand` and the clock, each
    behind a small trusted function whose contract states what the crate
    does.
- `tests/` — tests of the library, run against the real crates.
- `app/` — the program: command line, sockets, files, and the loops that
  perform what the library decides.

## Checking

Every function in `src/` is verified by Verus; laws of the library (what
one call undoes, what every operation keeps) are public proof functions
named `law_*`.
