//! Tables of contents for CommonMark documents: heading extraction with unique anchor
//! slugs, bullet rendering, and splicing of the rendered table between two markers.

pub mod format;
pub mod header;
pub mod normalize;
pub mod parse;
pub mod slug;
pub mod write;

pub use crate::format::{Format, Formatter};
pub use crate::header::{headers, Header, Headers};
pub use crate::write::{Writer, WriterBuilder, WriterFormatBuilder};
pub mod check;
