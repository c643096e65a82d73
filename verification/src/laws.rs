//! What holds of the library as a whole, in terms of what goes in and what comes
//! out.

pub mod codec;
pub mod document;
pub mod floats;
pub mod paths;
pub mod sessions;
pub mod stream;
