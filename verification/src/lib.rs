//! Embeds a byte stream in the pixel blocks of video frames and recovers it.
//!
//! A payload is spread over a sequence of frames. Each frame is cut into
//! square blocks; a block carries one bit (black or white) or one RGB triple.
//! A header frame in front of the data frames records how the payload was laid
//! out, so that a reader needs nothing but the frames.
//!
//! `bits` turns bytes and words into bits and back, `blocks` writes and reads
//! the blocks of one frame, `instructions` the header frame, `writer` makes the
//! frames of a payload and `reader` finds the payload in frames. `roundtrip`
//! states when a reader finds what a writer wrote.
pub mod arith;
pub mod bits;
pub mod blocks;
pub mod embedsource;
pub mod error;
pub mod instructions;
pub mod layout;
pub mod reader;
pub mod roundtrip;
pub mod settings;
pub mod writer;

pub use crate::bits::{rip_binary, rip_binary_u32, translate_u32, translate_u8};
pub use crate::blocks::{etch_bw, etch_color, etch_pixel, get_pixel, read_bw, read_color};
pub use crate::instructions::{etch_instructions, read_instructions};
pub use crate::reader::{read, read_frame};
pub use crate::writer::{chunk_data_size, etch, etch_chunk_bw, etch_chunk_color};
