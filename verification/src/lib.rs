//! File-backed sources of IQ samples.
//!
//! There are two kinds of sources:
//!
//! * [`RawIqFileSource`]: IQ recordings without a header, `.bin` (`i16` scaled by
//!   `1/32768`) or raw `f32`. The centre frequency is supplied by the caller,
//!   because the file itself has no metadata.
//! * [`SigmfFileSource`]: SigMF recordings, a `.sigmf-meta` file (JSON) and a
//!   `.sigmf-data` file (the samples). Centre frequency, sample rate and datatype
//!   all come from the metadata. Each capture is tagged with its own
//!   `core:frequency`, and packets are cut at every `core:sample_start`, so that
//!   no packet spans two captures.
//!
//! Nothing here touches a file. A source starts a [`session::Session`], which
//! says what to open and read, takes the bytes, and hands out the packets;
//! [`sigmf::SigmfWriter`] gives the bytes of the two files of a recording.
//!
//! Samples, rates and frequencies are IEEE 754 numbers, held as bit patterns
//! ([`ieee::Binary32`], [`ieee::Binary64`]); what is computed with them is stated
//! and proved over the integers.

pub mod accounts;
pub mod alike;
pub mod datatype;
pub mod disk;
pub mod ieee;
pub mod laws;
pub mod metadata;
pub mod packets;
pub mod pair;
pub mod playback;
pub mod raw;
pub mod recording;
pub mod runs;
pub mod segments;
pub mod session;
pub mod sigmf;
pub mod source;
pub mod text;
pub mod writer;
pub mod written;

pub use segments::UNKNOWN_CENTER_HZ;
pub use sigmf::{looks_like_sigmf, DataType as SigmfDataType, SigmfMetadata};
pub use source::{RawIqFileSource, SigmfFileSource};
