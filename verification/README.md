# firehose

Decoding of Bluesky firehose commit frames, verified with Verus.

- `src/car.rs`: varints, a byte cursor, and the length of a CIDv1 prefix.
- `src/blocks.rs`: the walk over a CAR blob's blocks, and the records kept from them.
- `src/deserialize_cid.rs`: CBOR tag-42 CID bytes to their base32 link string.
- `src/frame.rs`, `src/ops.rs`, `src/record.rs`, `src/cid.rs`: the frame and record types.
- `src/stream.rs`: the client's decisions: the URL to resume from, the reconnection backoff,
  when to flush, and what a commit frame records.
- `app/`: the WebSocket client, CBOR and JSON (de)serialisation, and file output.
