# zif_tiff

Reading and writing ZIF, a tiled multi-resolution image container that is a
constrained, little-endian, 64-bit-offset subset of BigTIFF. The library does
no I/O: the reader asks for byte ranges and is handed chunks, the writer emits
write operations for the caller to apply.

The library in `src/` is written in Verus and verified: every public function
carries a contract over a mathematical model of its values, and the laws that
tie the functions together are proof functions.

## Layout

- `src/format.rs`: little-endian encoding, tile grid arithmetic.
- `src/model.rs`: requests, chunks, regions, levels, tiles and the parsed
  image; tile walks and cropping (`lemma_crop_selects_covering_tiles`).
- `src/reader.rs`: the Sans-IO reader, a byte cache and a parse of the
  directory chain stated as `spec_parse`. The reader knows the file's
  length from a chunk that records it (`Chunk::whole_file`,
  `Chunk::with_file_len`), or, while every chunk it was given began at
  offset 0, takes the end of those bytes for it (`known_file_len`); a
  prefix followed by a chunk that begins elsewhere is not taken for the
  whole file. Laws: two readers that know the same bytes reach
  the same outcome, unless one was told a length that a tile runs past
  (`lemma_feeds_agree`); a requested range is never wholly known already
  (`lemma_need_is_unknown`); with the length known, a finished parse keeps
  every tile inside the file (`lemma_done_tiles_inside`).
- `src/writer.rs`: the builder and the writer, with the layout of a file and
  the writes each operation emits.
- `src/http.rs`: `Content-Range` parsing, the chunk an HTTP response gives,
  and the `Range` header a request asks with.
- `src/sample.rs`: the sample image.
- `src/file_image.rs`, `src/readback.rs`, `src/writeback.rs`,
  `src/level_edits.rs`, `src/resizing.rs`, `src/history.rs`: the file that
  writes leave, and the laws over it:
  - a file that holds what the writer wrote reads back as the writer's
    levels (`lemma_written_file_reads_back`);
  - the first write, a tile write, adding, removing and resizing a level each
    leave such a file (`lemma_init_realizes`, `lemma_tile_realizes`,
    `lemma_add_realizes`, `lemma_remove_realizes`, `lemma_resize_realizes`);
  - appending bytes keeps such a file (`lemma_append_keeps_levels`), so the
    writes of adding or resizing a level, which append first and switch one
    pointer last, leave such a file after every prefix
    (`lemma_add_every_prefix`, `lemma_resize_every_prefix`); so do the
    three writes of a tile, the payload first and the offset last, the
    middle state holding the tile at its old offset with its new length
    (`lemma_tile_prefixes`);
  - over a writer's whole life (`src/history.rs`): a file that holds what
    the writer has written (`holds_writes`, empty before the first write)
    still does once the batch of any operation is applied
    (`lemma_put_tile_keeps_writes`, `lemma_add_level_keeps_writes`,
    `lemma_remove_level_keeps_writes`, `lemma_set_dimensions_keeps_writes`),
    and a refused operation leaves the writer as it was; a tile's payload
    lands at the offset the tile records, and with payloads kept apart from
    the header, directories and arrays (`payloads_apart`), no operation
    touches the payload of a tile that it keeps, so every tile reads back
    the last payload written to it (`lemma_put_tile_keeps_payloads`,
    `lemma_add_level_keeps_payloads`, `lemma_remove_level_keeps_payloads`,
    `lemma_set_dimensions_keeps_payloads`);
  - referenced tile arrays start at multiples of 8 (part of the writer's
    invariant, `level_placed`).
- `app/`: adapters for `std` I/O, Tokio and HTTP services, which hand the
  library plain values.
- `tests/`: tests on concrete files.
