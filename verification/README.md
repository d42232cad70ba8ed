# oxidized_relay

A verified library for reading a game protocol out of packet captures:
TCP streams are reassembled per direction, cut into length-prefixed frames,
decrypted with one continuous ChaCha20 (RFC 7539) keystream per direction,
and each frame's protobuf `CSHead` header is parsed and its CRC-32 checked
before the body is decoded, optionally with field names from a schema.

Every function in `src/` carries a contract that Verus proves; the calls
into `chacha20`, `crc32fast`, `etherparse` and `hex`, and into the two std
functions that vstd does not specify (`str::from_utf8`, `String::push`),
sit behind small trusted wrappers whose contracts are documented where they
are declared.

## Layout

- `src/frame.rs` – the `[hl][bl LE][head][body]` framing and its parser.
- `src/proto.rs` – schema-less protobuf wire parsing and `CSHead`.
- `src/decode.rs` – display values of body fields (text, nested, bytes).
- `src/crypto.rs` – per-direction keystream position and decryption.
- `src/analysis.rs` – everything about one stream's frames, and the counts.
- `src/tcp.rs` – per-direction reassembly with out-of-order segments.
- `src/packet.rs` – link types, packet slicing and the host filter.
- `src/schema.rs` – msgid → message type → field names.
- `src/args.rs` – settings, key/IV hex parsing, the msgid map file.
- `src/display.rs`, `src/render.rs` – the printed report, line by line.
- `src/order.rs` – the order in which streams are shown.
- `src/text.rs`, `src/bytes.rs` – character and byte helpers.
- `app/` – the command-line program: clap, prompts, pcap and `.proto`
  reading, terminal colours.
- `tests/` – tests of the library on concrete inputs.
