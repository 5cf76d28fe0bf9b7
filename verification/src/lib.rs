//! Verified core of the `syc` archiver.

pub mod add;
pub mod archive;
pub mod cli;
pub mod codec;
pub mod color;
pub mod dates;
pub mod delta;
pub mod detect;
pub mod dict;
pub mod dict_fa;
pub mod entry;
pub mod error;
pub mod fastcdc;
pub mod frame;
pub mod hashes;
pub mod lz;
pub mod lzp;
pub mod numbers;
pub mod order;
pub mod parts;
pub mod paths;
pub mod pipeline;
pub mod plan;
pub mod progress;
pub mod reader;
pub mod rep;
pub mod report;
pub mod select;
pub mod snapshot;
pub mod srep;
pub mod text;
pub mod tree;
pub mod wire;
