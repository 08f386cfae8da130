//! Splits a linked x86 image back into relocatable objects.
//!
//! The image and what a disassembler exported of it are decoded to a model. Its
//! functions and data ranges are grouped into objects, each of which is drafted,
//! finished and written: bytes of the image with relocated fields cleared, symbols
//! that other objects can refer to, and relocations against them.

pub mod addr_map;
pub mod addresses;
pub mod blocks;
pub mod bytes;
pub mod code_laws;
pub mod coff;
pub mod coff_laws;
pub mod draft;
pub mod emitter;
pub mod export;
pub mod export_laws;
pub mod file_laws;
pub mod fixup_laws;
pub mod fixups;
pub mod format;
pub mod function_code;
pub mod groups;
pub mod image_laws;
pub mod laws;
pub mod limits;
pub mod meta_laws;
pub mod model;
pub mod objects;
pub mod ownership;
pub mod ownership_laws;
pub mod pe;
pub mod plan;
pub mod range_laws;
pub mod ranges;
pub mod readobj;
pub mod recover;
pub mod recover_laws;
pub mod reloc_laws;
pub mod report;
pub mod resolver;
pub mod resolver_laws;
pub mod resources;
pub mod seqs;
pub mod shared;
pub mod sorting;
pub mod sound_laws;
pub mod split;
pub mod split_laws;
pub mod split_meta;
pub mod stats_laws;
pub mod symbol_laws;
pub mod table_laws;
pub mod table_walk_laws;
pub mod tables;
pub mod text;
pub mod text_map;
pub mod unit_laws;
pub mod units;
pub mod writer;
pub mod x86;
