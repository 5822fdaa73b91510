# pngstreamdec

A PNG decoder that hands out rows in batches while it reads the stream, in
little memory. The decoder is written in Verus: what it does is stated in
contracts and proved.

- `src/` is the library. It reads no files: `PngDecoder::new` and
  `decode_scanlines` say which bytes they need, and are handed them with
  `resume`.
  - `open`, `header`, `error`: opening a stream, up to its first image data
    chunk.
  - `decoder`, `inflate`, `checksum`: batches of rows out of image data chunks.
  - `scanlines`, `filter`, `palette`: scanlines to rows.
  - `open_laws`, `decode_laws`, `batch_laws`, `cut_laws`, `encoding`: what holds
    of whole streams and images.
  - `netpbm`, `ppm`, `pam`, `budget`, `metadata`, `report`, `last_error`: what
    the programs need to convert images.
- `app/` is the C interface and the two converters, around the library.
- `tests/` runs the library.

Inflating and CRC-32 come from `flate2`; what is taken for granted of it stands
in `inflate` and `checksum`.
