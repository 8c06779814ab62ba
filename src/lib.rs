//! Core of a converter between voxel "schematic" file formats: primitive
//! codecs, the canonical block model, per-format grid layouts and the
//! volume splitter.
pub mod bedrock;
pub mod bg;
pub mod bits;
pub mod decode;
pub mod encode;
pub mod error;
pub mod formats;
pub mod grid;
pub mod le_io;
pub mod metadata;
pub mod model;
pub mod nbt;
pub mod nbt_access;
pub mod nbt_read;
pub mod palette;
pub mod palette_entry;
pub mod replace;
pub mod split;
pub mod text;
pub mod worldedit;
pub mod varint;
