//! Incremental decoder for ICY (Shoutcast/Icecast) in-band stream metadata.
//!
//! An ICY audio stream interleaves a length-prefixed metadata block after
//! every `metaint` bytes of audio. The [`frame::FrameMachine`] consumes the
//! raw byte stream in arbitrarily sized chunks, discards the audio payload,
//! and assembles complete metadata blocks; [`meta::decode_meta`] parses one
//! block into key/value records such as `StreamTitle='Artist - Song';`.

pub mod frame;
pub mod meta;
