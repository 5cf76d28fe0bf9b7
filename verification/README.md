# syc

An archiver on top of zstd, LZMA and PPMd, with its core verified by
[Verus](https://github.com/verus-lang/verus). An archive is one solid compressed
stream without an index; the library holds it in memory as a whole.

## What is proved

The library takes plain values and gives plain values: bytes of files in, bytes
of an archive out, and back. Every function states what it returns for every
input, over mathematical models of its data, and the laws that hold of several
functions together stand beside them as proof functions. The main ones:

- An archive reads back as the entries it was made of, whatever compressor and
  filter were chosen (`add::lemma_added_reads`), also with media files in a
  frame of their own (`add::lemma_routed_reads`). Every name must fit its field,
  and with chunk records no two different chunks may share a fingerprint.
- Appending keeps every byte that was there and adds the new entries behind the
  old ones (`add::lemma_appended_reads`).
- Verifying an archive stops at the first entry that is not the same, and
  succeeds exactly where there is none (`report::lemma_verify_outcome`).
- Each filter is undone by its reader: REP, SREP, LZP, delta, the word
  dictionary, and the chunk records of deduplicated bodies.
- Numbers, strings, headers, attribute blocks and preambles read back as they
  were written.

Compressors, hash functions and a few functions of the standard library are not
proved. What is believed of them stands in the doc comments of the functions
that call them, in `src/codec.rs`, `src/hashes.rs`, `src/text.rs` and
`src/dict.rs`.

## Layout

- `src/wire.rs`, `src/archive.rs`, `src/entry.rs`, `src/reader.rs`: the format.
- `src/lz.rs`, `src/rep.rs`, `src/srep.rs`, `src/lzp.rs`, `src/delta.rs`,
  `src/dict_fa.rs`, `src/fastcdc.rs`: filters and chunking.
- `src/codec.rs`, `src/hashes.rs`, `src/frame.rs`: compressors, hashes, and
  whole archives.
- `src/cli.rs`, `src/plan.rs`, `src/select.rs`, `src/order.rs`, `src/dict.rs`,
  `src/add.rs`, `src/parts.rs`: from a command line to an archive.
- `src/report.rs`, `src/tree.rs`, `src/pipeline.rs`, `src/progress.rs`,
  `src/snapshot.rs`, `src/color.rs`: what the other commands decide and show.
- `tests/`: examples that run the library.
- `app/`: the program, which reads and writes files, walks directories, runs
  threads and prints.
