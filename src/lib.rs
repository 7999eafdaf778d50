//! Decoder for the binary tree format of game level files.
//!
//! A file is a twelve-byte header, a package name, a string table and one
//! root element; elements carry typed attributes and child elements. Every
//! decoding function is verified against a spec decoder over the bytes.
pub mod cursor;
pub mod tree;
pub mod decode;
pub mod laws;
pub mod statistics;
pub mod mods;

pub use cursor::{parse_short, parse_string, read_varlen_length, DecodeError};
pub use decode::{parse, parse_attribute, parse_lookup_string};
pub use statistics::{bounding_box, room_details, BoundingBox, RoomDetail};
pub use tree::{Attribute, Element, LevelMap};
pub use mods::{is_map_mod, latest_file, FileDetails, ModDetail};
