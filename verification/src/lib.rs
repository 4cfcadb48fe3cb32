//! Reading, writing and replaying portsmith trace files (format v1).

pub mod base64;
pub mod replay;
pub mod std_text;
pub mod text;
pub mod trace;
