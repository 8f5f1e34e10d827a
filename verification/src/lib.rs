//! The logic of continuous audio and video playout.
//!
//! A playout reads a list of inputs and turns them into one uninterrupted
//! output: to a file, to a server, into HLS playlists or into a window. This
//! library decides what is written when and with which timestamps. Opening
//! inputs, decoding, encoding and drawing are left to its callers.
pub mod audio_buffer;
pub mod clip;
pub mod config;
pub mod continuity;
pub mod desktop;
pub mod encoding;
pub mod frame_rate;
pub mod hls;
pub mod inputs;
pub mod live;
pub mod order;
pub mod pacing;
pub mod paths;
pub mod picture;
pub mod rational;
pub mod session;
pub mod text;
pub mod timeline;
pub mod vtt;
