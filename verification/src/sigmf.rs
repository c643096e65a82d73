//! SigMF (Signal Metadata Format) recordings: a `.sigmf-meta` file (JSON) and a
//! `.sigmf-data` file (the samples).
//!
//! Out of scope are `.sigmf` archives, `.sigmf-collection` metadata, the content
//! of annotations, and datatypes other than `cf32_le`, `ci16_le` and `ci8`.

pub use crate::datatype::{DataType, Sample, UnsupportedDataType};
pub use crate::metadata::{
    channel_count, Capture, ChannelCount, Global, SigmfMetadata, UnsupportedChannels,
};
pub use crate::pair::{looks_like_sigmf, pair_paths, resolve_pair, PairError};
pub use crate::writer::{
    point_members, Document, Field, FieldValue, Finished, MetadataError, Section, SigmfCapture,
    SigmfWriter, SigmfWriterMeta,
};
