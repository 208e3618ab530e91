//! Core of a line-framed group-chat server: the frame codec, the group
//! registry with its broadcast fan-out, and the per-connection dispatch
//! rules. The asynchronous I/O shell around this core lives elsewhere;
//! everything here is plain data in, plain data out.

pub mod connection;
pub mod frame;
pub mod group;
pub mod text;
