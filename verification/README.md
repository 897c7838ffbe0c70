# Frozen roaring bitmaps

A verified library for compressed sets of integers in the frozen format.

A `RoaringBitmap` holds 32-bit integers, a `RoaringTreemap` 64-bit integers. A bitmap is
written in the frozen format with `frozen_serialize_into` and read in place through a
`FrozenRoaringBitmapView`, which answers queries without unpacking the bytes. Inside `rkyv`
archives, `ArchivedRoaringBitmap` and `ArchivedRoaringTreemap` read the same format.

- `src/model.rs`, `src/format.rs` and `src/parts.rs` say what the data are.
- `src/store.rs`, `src/bitmap.rs` and `src/treemap.rs` are the owned sets.
- `src/freeze.rs` writes the frozen format, and `src/frozen.rs` reads it.
- `src/archive.rs` and `src/treemap_archive.rs` read archives.
- `src/layout.rs` says where things stand in an archive, and so what fits into one.
- `src/laws.rs` and `src/archive_laws.rs` state what holds of all of them together.
- `src/rkyv_calls.rs` lists what is relied on of `rkyv` without proof.
- `app/` implements the traits of `rkyv`.
