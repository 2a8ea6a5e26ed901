# ffxiv_tools

Readers for the data files of a game client, written in Verus and proved
against specifications of the file formats.

- `src/sqpack/`: the sqpack block container. `decoder` decodes a compressed
  file in one pass; `raw_file` splits a compressed file into its extra header
  and blocks, decodes it, and writes it back; `reader` holds the packages that
  keep the provider through which `app/` fetches compressed files, and pairs
  the files of a batch with the hashes they answer. Deflate-compressed blocks
  are inflated by `miniz_oxide`, in both decoders. The `compression` crate's
  `Deflater` decodes the same raw deflate streams, but it panics on some
  malformed streams (an `unreachable!` on the reserved block type, table
  lookups out of range on bad length and distance codes), and no short
  precondition can leave those streams out; `miniz_oxide` returns an error on
  them instead, which the decoders report.
- `src/havok/`: the Havok binary tag file format. `format` states the format
  as functions over the bytes and a reader state, `reader` reads a file into a
  table of types and objects: `try_read` on any bytes, giving `None` exactly
  for those the format does not admit, and `read` on bytes known to be a tag
  file. `laws` proves that every file that reads
  successfully has a closed object graph and well-formed type inheritance,
  and that resolving an object's references a second time changes nothing.
- `src/ex/`: the pages of a game-data sheet per language and the lookup of a
  row by id.
- `src/name_compare.rs`: the state of the view that compares row names across
  languages, which sheet can be shown, the regions and languages read for it,
  and the merging of names, with the laws that successive merges join
  each row's names in order.
- `src/body.rs`: which body's equipment model is drawn for a body that has
  none of its own.
- `src/util.rs`: rounding up to a multiple and little-endian words.
- `app/`: file and provider input, and the points where a malformed file stops
  the program.
