//! ush: parallel command execution, as a verified library.
pub mod text;
pub mod numeral;
pub mod codec;
pub mod time;
pub mod json;
pub mod strutil;
pub mod exec;
pub mod freq;
pub mod update;
