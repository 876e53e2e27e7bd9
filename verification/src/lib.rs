//! A blind audio watermark codec, worked in fixed point.
//!
//! A short text message is hidden in a recording by scaling bins of the
//! spectrum of every frame, and read back later from the marked recording
//! alone. This crate holds everything about the codec that is decided in
//! whole numbers:
//!
//! * [`protocol`]: the bit sequence that a message travels as;
//! * [`frames`]: cutting samples into frames and sizing their transforms;
//! * [`encoder`]: by how much each bin is to be scaled;
//! * [`scores`], [`pilot`], [`aggregate`], [`decision`], [`length_search`]:
//!   the stages of the decoder;
//! * [`decoder`]: the stages put together.
//!
//! Transforms, logarithms and samples are the caller's. The encoder hands
//! out gains as fractions of thirty; the decoder takes log-magnitudes in
//! fixed point.

pub mod aggregate;
pub mod decision;
pub mod decoder;
pub mod encoder;
pub mod error;
pub mod frames;
pub mod length_search;
pub mod paths;
pub mod pilot;
pub mod protocol;
pub mod scores;

pub use decoder::DecodedWatermark;
pub use error::DecodeError;
pub use protocol::PILOT_PATTERN;
