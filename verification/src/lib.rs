//! Roaring bitmaps in the frozen format, and inside `rkyv` archives.
//!
//! A roaring bitmap is a compressed set of 32-bit integers. Its frozen form is a byte string
//! that can be queried in place: [`freeze`] writes it, and [`frozen`] reads it. [`format`]
//! says what the byte string is, [`model`] what set it stands for, and [`laws`] what holds of
//! both together. [`treemap`] is about sets of 64-bit integers, and [`archive`] and
//! [`treemap_archive`] about bitmaps and treemaps inside archives; [`layout`] says how an archive
//! is laid out, and [`rkyv_calls`] lists what is relied on of `rkyv`.
//!
//! What holds of all of it is stated in the modules of laws: [`byte_laws`] tells frozen bitmaps by
//! their single bytes, [`query_laws`], [`answer_laws`] and [`entry_laws`] say how the answers hang
//! together, [`form_laws`] what form sets take, and [`layout_laws`] how much room there is.

pub mod answer_laws;
pub mod archive;
pub mod archive_laws;
pub mod bitmap;
pub mod bits;
pub mod byte_laws;
pub mod bytes;
pub mod entry_laws;
pub mod form_laws;
pub mod format;
pub mod freeze;
pub mod frozen;
pub mod laws;
pub mod layout;
pub mod layout_laws;
pub mod model;
pub mod parts;
pub mod query_laws;
pub mod rkyv_calls;
pub mod round_trip;
pub mod search;
pub mod store;
pub mod text;
pub mod treemap;
pub mod treemap_archive;
pub mod zones;
