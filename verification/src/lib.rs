//! Best-effort bind path mappings: the rules that decide where a guest path lands.

pub mod bind;
pub mod bytes;
pub mod cli;
pub mod directory;
pub mod invocation;
pub mod linux;
pub mod mapping;
pub mod number;
pub mod path;
pub mod root;
pub mod text;
pub mod whiteout;
