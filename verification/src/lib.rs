//! Core of a single-threaded HTTP/1.1 server.

pub mod assoc;
pub mod bytes;
pub mod cgi;
pub mod clock;
pub mod config;
pub mod encoding;
pub mod event_loop;
pub mod handler;
pub mod listener;
pub mod multipart;
pub mod number;
pub mod path;
pub mod request;
pub mod response;
pub mod router;
pub mod seqs;
pub mod server;
pub mod session;
pub mod string_map;
pub mod text;
pub mod turns;
pub mod wire;
