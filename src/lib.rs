//! Wrapping of text that holds inline markup tags: the tags are kept whole
//! and take no room on a line.
pub mod isolate;
pub mod layout;
pub mod words;

pub use isolate::{isolate_tags_owned, IsolateTags, IsolateTagsSection};
