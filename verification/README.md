# torrent

A verified parser for the bencoded metainfo (`.torrent`) format, written in
Verus.

- `src/primitives.rs`: the error type, byte-level steps (tags, counted takes,
  digit runs), byte-string equality and lexicographic order, and the two calls
  into `nom` that read decimal numbers.
- `src/torrent_file/mod.rs`: the metainfo types (`Torrent`, `Info`,
  `FileLayout`, `FileV1`, `FileTreeNode`), `ByteMap` (a map keyed by byte
  strings, kept sorted), and the mathematical models of all of them.
- `src/torrent_file/skip_values.rs`: the grammar of bencode values as spec
  functions, and `skip_bencode_value`, which steps over one value.
- `src/torrent_file/parser.rs`: the grammar of the metainfo parts and their
  parsers (integers, strings, string lists, file entries and lists, file trees,
  the `info` dictionary).
- `src/torrent_file/keys.rs`: the dictionary keys the parsers look for.

Every parser is proved to return exactly what its grammar rule describes: the
unread rest of the input and the model of the parsed value, or the error,
with its kind (`Error`, recoverable; `Failure`, fatal), its code (`Tag`,
`Digit`, `Eof`, `Fail`) and the input from the point where it arose.

Design notes:

- File trees and piece layers are `ByteMap`s, sorted vectors keyed by byte
  strings (see the doc comment on `ByteMap`).
- When a value is stepped over, dictionary keys must be strings: a key that
  is an integer, a list or a dictionary ends the entries (a recoverable
  error), and a key that starts with a byte that starts no value is fatal.
- `Info::name` is optional.
- Integers are read by `parse_bencode_int`.

The laws proved about the grammar (in `skip_values.rs` and `parser.rs`):
every successful parse reads a non-empty prefix; a value delimits itself
(bytes after it change nothing); integers, strings and string lists written
in bencode are read back; the file trees and info dictionaries read are
well-formed; stepping over a value passes over exactly what parsing reads;
and the fields of an info dictionary can be reordered, and unknown fields
added, without changing what is read.
