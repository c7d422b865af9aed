# rtorrent

A small BitTorrent client. The library under `src/` holds its logic, with
contracts proved by Verus; `app/` runs it: files, sockets, tasks, the
terminal dashboard.

## Library modules

- `bencode_parser`, `utils` — reading and writing bencode, the fields of a
  torrent file, the info hash, the tracker URL and the peer id. Reading what
  `encode` writes gives the value back and stops exactly at its end, and
  writing what `parse` read gives the input back when its numerals carry no
  `+` and no superfluous leading zero (`parse` also accepts `i+5e` and
  `03:abc`, which `encode` writes as `i5e` and `3:abc`).
- `tracker`, `utils::peer` — the UDP tracker packets, the HTTP announce
  reply, and compact and dictionary peer lists.
- `peer` — bitfields, the handshake, message framing and decoding, and the
  decisions of a peer session.
- `piece_manager` — which block each peer fetches next (a piece already in
  progress with that peer first, then the rarest piece), which blocks have
  arrived, and piece verification.
- `torrent` — the torrent manager's decisions on each event, peer health
  checks and reconnection.
- `peer_table`, `decimal`, `bytes_be`, `text`, `hashing`, `disk`,
  `messages`, `errors` — the pieces these are built from.

Outside crates are reached through a few trusted functions: `sha1` for
digests, `urlencoding` for percent-encoding, `rand` for peer ids and
transaction ids, and `String::from_utf8_lossy` from std.

## Running

Set `TORRENT_PATH` to a `.torrent` file and run the binary built from
`app/main.rs`.
