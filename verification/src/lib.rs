//! Mail parsing and archive access for public-inbox mailing lists.
pub mod archive;
pub mod encoding;
pub mod filter;
pub mod forest;
pub mod header;
pub mod mail;
pub mod number;
pub mod order;
pub mod parse;
pub mod patch;
pub mod text;
pub mod thread;
pub mod time;
pub mod unicode;
