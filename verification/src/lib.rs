//! The logic of a viewer for PSD and PSB files.
//!
//! Reading a file leads from [`psd::parse`] to [`document::Document`]; drawing it from
//! [`plan::plan_row`] and [`composite`] to the tiles of [`tiles`], which [`worker::Scheduler`] hands
//! out and [`session::Session`] takes in.

pub mod blend;
pub mod bounds;
pub mod bytes;
pub mod channel;
pub mod composite;
pub mod dnd;
pub mod document;
pub mod drag;
pub mod effects;
pub mod error;
pub mod folders;
pub mod fonts;
pub mod forest;
pub mod labels;
pub mod layer_info;
pub mod layers;
pub mod locate;
pub mod merged;
pub mod nearest;
pub mod node;
pub mod packbits;
pub mod pictures;
pub mod pipe;
pub mod plan;
pub mod psd;
pub mod readback;
pub mod reader;
pub mod recovery;
pub mod session;
pub mod text;
pub mod tile_cache;
pub mod tiles;
pub mod uri;
pub mod warning;
pub mod worker;
pub mod writing;
pub mod written_blocks;
pub mod written_files;
pub mod written_layers;
pub mod written_psd;
