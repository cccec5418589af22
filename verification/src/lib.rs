//! Matroska file metadata: the file's information, tracks, attachments and chapters.
//!
//! A Matroska file is read with a [`MatroskaReader`], which asks for the bytes it needs
//! one request at a time, or all at once from memory with [`Matroska::parse`].
use vstd::prelude::*;

pub mod ids;
pub mod ebml;
pub mod fields;
pub mod chapters;
pub mod tracks;
pub mod attachments;
pub mod info;
pub mod seek;
pub mod segment;
pub mod reader;
pub mod leading;

pub use ebml::{Element, ElementType, FloatBits, MatroskaError};
pub use info::{Info, ScaledDuration};
pub use tracks::{Audio, Settings, Track, Tracktype, Video};
pub use attachments::Attachment;
pub use chapters::{Chapter, ChapterDisplay, ChapterEdition};
pub use seek::{Seek, Seektable};
pub use segment::Matroska;
pub use reader::{Action, MatroskaReader};

verus! {

} // verus!
