# cacti

Dependency-free handling of DEFLATE streams and zip archives, with the small
platform-independent pieces of the cacti utilities (temporary files, file
system watching, hot reloading, windowing), verified with Verus.

## Layout

- `src/` is the verified library.
  - `bits`, `bit_reader`: bit-level reading of byte sequences, least
    significant bit first.
  - `huffman`: canonical Huffman codes built from code lengths, and decoding.
  - `window`: the sliding window of recent output that back-references copy
    from.
  - `inflate_spec`, `inflate`, `deflate`: the DEFLATE format as a step
    function over the input bits, and the streaming decompressors proved
    against it.
  - `crc32`, `text`, `zip_spec`, `zip`: the zip archive format, its checksum
    and the text encodings of its file names.
  - `display`, `dyn_lib`, `naming`, `temp`, `watch`, `hot_reload`: the
    decisions of the windowing, library loading, temporary file, file watching
    and hot reloading code, as functions from plain values to plain values.
- `tests/` runs the library on concrete inputs.
- `app/` holds what Verus does not see: the command-line decompressor, file
  and stream I/O, the operating system calls and the floating-point sizes of
  the windowing code, all built on the library.
