//! Verified core of a clip editor: the byte formats, timelines and frame
//! arithmetic behind preparing, trimming and exporting recorded clips.
pub mod nal;
pub mod wav;
pub mod thumbnail;
pub mod media;
pub mod timeline;
pub mod packets;
pub mod cache;
