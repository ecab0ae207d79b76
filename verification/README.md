# ucd_tables

Two-level packed tables for Unicode code-point properties, with the routines
that build them and the lookups that read them, specified and proved with Verus.

A property column gives one value per code point (`0..0x110000`). It is cut
into chunks; `column::dedup` keeps each distinct chunk once and builds an index
from chunk number to kept chunk; `column::compress` packs the kept chunks and
the index into bytes at the width `column::get_width` gives; `codegen` writes
the Rust source of a lookup file for such a table; the `radical`, `dash`,
`composition_exclusion` and `id_compat_math_start` modules hold four such
tables and look code points up in them through `lookup::lookup_bool`.

Layout:

- `src/column.rs` — deduplication, packing, width, and the column builders
  (`map_bool_to_int`, `map_char_to_int`, `map_str_to_int`).
- `src/bits.rs` — what inserting a value into packed bytes does, bit by bit.
- `src/lookup.rs` — the packed table layout, the meaning of a lookup, and the
  verified reader.
- `src/codegen.rs` — the text of a generated lookup file; names are converted
  with the `convert_case` crate.
- `src/laws.rs` — properties that span functions: packed values read back,
  deduplicated tables look up the column, a packed table reads back its column,
  and the others.
- `app/lib.rs` — writes generated lookup files to disk.
