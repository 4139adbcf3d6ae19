# clickhouse-dfe

Extensions for the official ClickHouse Rust client, with the logic verified by
[Verus](https://github.com/verus-lang/verus): the Native columnar codec,
runtime-schema inserts and typed server errors.

| Path | Holds |
|---|---|
| `src/native/` | the Native wire codec: type names, the block encoder, the cell reader, the typed block decoder, and their laws |
| `src/dynamic/` | runtime-schema inserts: type strings, the `RowBinary` row encoder, schemas and their cache, the insert as a sequence of steps, and their laws |
| `src/ext.rs`, `src/error.rs` | server exceptions read back out of response bodies, and the one error type with its retry classification |
| `src/text.rs` | text helpers shared by the above |
| `tests/` | the library from outside, on concrete bytes |
| `app/` | what talks to servers, streams and other crates |

The library works on bytes and plain values. Three things it asks of its
caller, and is handed back:

- more bytes: a reader that runs out returns `NotEnoughData`, and the laws in
  `src/native/locality.rs` and `src/native/decode_locality.rs` say that reading
  again with more of them changes nothing that was already read;
- the texts of floating point cells (`native::texts`), and floating point
  arithmetic and IPv6 parsing for the row encoder (`dynamic::answers`);
- the steps of an insert (`dynamic::insert::Step`): fetch the schema, open the
  sink, send a row or a block.

What the codec promises is stated as `law_*` proof functions next to the code
they speak of:

- encoding rows and decoding the block gives back every row, byte for byte
  (`law_rows_round_trip`), and every value (`law_block_round_trip`);
- a block that decodes has one column per schema entry, and every column with a
  typed form has as many rows as the block declares (`law_block_is_consistent`);
- a rendering is JSON (`law_rendering_is_json`);
- rendering a cell and skipping one depend on the bytes they consume and on no
  others (`law_rendering_is_local`, `law_skipping_is_local`);
- a JSON string is UTF-8 whatever bytes it was made of, and reads back as those
  bytes where they are UTF-8 (`law_quoted_is_utf8`, `law_quoted_is_read_back`);
- type names mean what they are made of (`src/native/name_laws.rs`);
- a row of the dynamic encoder is one that the block encoder takes
  (`law_rows_suit_their_headers`);
- after any history of calls the schema cache returns the last insert that was
  neither dropped nor expired (`law_cache_over_any_history`).
