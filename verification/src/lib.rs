//! Terminal dashboard core for multiplexed byte-stream channels.
//!
//! Each channel carries raw bytes from an embedded target; the library
//! decodes them per channel as newline-delimited text, fixed-width binary
//! samples, or structured log frames, keeps a bounded scrollback window
//! over the decoded lines, and drives the tabbed dashboard state machine.
//! Transport, terminal drawing and file I/O live outside the library and
//! hand it plain values.

pub mod app;
pub mod binary;
pub mod channel;
pub mod external;
pub mod strutil;
pub mod text;
pub mod window;
