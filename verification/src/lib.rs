//! Decoding of CAN bus logs: BLF files (Vector Binary Logging Format) read
//! against a DBC signal database, shaped into a table of signal values.

pub mod blf;
pub mod blf_laws;
pub mod bits;
pub mod bits_laws;
pub mod bytes;
pub mod calendar;
pub mod cli;
pub mod clock;
pub mod config;
pub mod convert;
pub mod convert_laws;
pub mod dbc;
pub mod dbc_laws;
pub mod dbc_text_laws;
pub mod decode;
pub mod decode_laws;
pub mod export;
pub mod frame;
pub mod frame_laws;
pub mod inflate;
pub mod job;
pub mod lexer;
pub mod lexer_laws;
pub mod messages;
pub mod paths;
pub mod queue;
pub mod queue_laws;
pub mod shape;
pub mod shape_laws;
pub mod text;
