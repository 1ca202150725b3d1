//! LZMA decompression, verified.
//!
//! `LzmaStream` decodes slices into slices and does no input or output of its
//! own. `LzmaReader` pulls its input out of a source. What both of them make of
//! a payload is said in `format`, over the machine that `symbol` and `progress`
//! describe, and `laws` holds what follows for streams as a whole. `encoder` and
//! `spelling` describe what an encoder writes, and `roundtrip` says that it comes
//! back, and what is refused.

pub mod accounting;
pub mod coding;
pub mod crc;
pub mod decoder;
pub mod encoder;
pub mod engine;
pub mod error;
pub mod exactness;
pub mod filter;
pub mod format;
pub mod input;
pub mod laws;
pub mod locality;
pub mod lz;
pub mod progress;
pub mod props;
pub mod range;
pub mod reader;
pub mod roundtrip;
pub mod sdk;
pub mod spelling;
pub mod stream;
pub mod symbol;

pub use crate::crc::{Crc32, Crc64};
pub use crate::error::{Error, ErrorKind};
pub use crate::filter::{FilterConfig, FilterType};
pub use crate::input::{Read, ReadError};
pub use crate::props::{get_memory_usage, get_memory_usage_by_props};
pub use crate::reader::LzmaReader;
pub use crate::stream::{Action, LzmaStream, Status, StreamResult};
