# nod

A reader and writer for GameCube and Wii disc images in the CISO and WBFS formats. The logic is
verified with Verus. The contracts of the public functions say what they return for every input.
A function that allocates a buffer with `zerocopy` can also fail for want of memory, which depends
on the machine; beside it stands one that takes the buffer and has no such error.

- `src/` is the verified library.
  - `check.rs` decides whether a block of a disc is content, zeroes or junk data, or belongs to a
    partition that is scrubbed. It rests on `lfg.rs` (junk data), `crypt.rs` (sector decryption),
    `usage.rs` (the used ranges of a partition) and `spans.rs`.
  - `processor.rs` does so for the blocks of a disc, in any order; `order.rs` puts them back in
    order; `block.rs` assembles them from what is read.
  - `writer.rs` is what the writers have in common; `ciso.rs` and `wbfs.rs` are the formats, with
    their readers, their writers, and the proof that a reader finds what a writer wrote.
  - `removal.rs` takes scrubbed partitions out of the partition tables.
  - `nkit.rs` holds what an NKit header says about an image; `image.rs`, `disc.rs`, `options.rs`
    and `error.rs` the remaining types.
  - `buffers.rs` and `endian.rs` are the boundary to the crates `bytes` and `zerocopy`.
- `app/` is the I/O around it: files, threads, and the traits for what comes from elsewhere (the
  disc itself, NKit headers as bytes, digests).
- `tests/` runs the library on concrete values.
