//! Client library for the L database: the K value model, its wire
//! encoding, IPC framing and LZ4 inflation, temporal formatting and
//! parsing, the table helpers behind CSV / JSON files, and the decisions of
//! the `lconn` console.

pub mod calendar;
pub mod cli;
pub mod convert;
pub mod error;
pub mod io;
pub mod ipc;
pub mod k;
pub mod le;
pub mod literal;
pub mod lz4;
pub mod num;
pub mod render;
pub mod serialize;
pub mod text;
pub mod types;

pub use error::LError;
pub use k::K;
pub use types::KType;
