//! JPEG 2000 Part 1 encoding (JP2 / J2K) and a focused JP2 decoder.
mod text;
mod bytes;
pub mod plan_types;
pub mod decode_markers;
pub mod header;
pub mod mq;
pub mod jp2_parse;
pub mod codestream;
pub mod t2_read;
pub mod t2_decode;
pub mod tier1;
pub mod t1_decode;
pub mod dwt53;
pub mod rct;
pub mod reconstruct;
pub mod decode;
pub mod content;
pub mod rate_types;
pub mod profile;
pub mod counters;
pub mod plan;
pub mod markers;
pub mod codestream_write;
pub mod jp2_write;
pub mod context;
pub mod t1_encode;
pub mod t2_encode;
pub mod header_bits;
pub mod encoder;
pub mod lossy;
pub mod batch;
pub mod cli;
pub mod error;
pub mod model;

pub use error::{Jp2LamError, Result};
pub use decode::{DecodeMetadata, decode_jp2, decode_jp2_coefficients, inspect_jp2};
pub use encoder::encode;
pub use lossy::encode_quantized;
pub use batch::{BatchComponentProfile, BatchDecoder, BatchEncoder, BatchProfile, decode_batch, encode_batch};
pub use content::ContentClass;
pub use profile::{ProfileScope, clear_timing_data, print_timing_data, profile_enter};
pub use model::{ColorSpace, Component, EncodeOptions, Image, OutputFormat, Preset};
