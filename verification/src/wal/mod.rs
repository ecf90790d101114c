//! The write-ahead log: byte encodings, records, frames and the scanner.

pub mod bytes;
pub mod codec;
pub mod crc;
pub mod error;
pub mod layout;
pub mod record;
pub mod scanner;
pub mod wire;
pub mod writer;

pub use codec::{
    WalFrame, WalHeader, FRAME_OVERHEAD, HEADER_SIZE, MAX_RECORD_SIZE, RECORD_VERSION, WAL_MAGIC,
    WAL_VERSION,
};
pub use error::{WalError, WalResult};
pub use record::WalRecord;
pub use scanner::{repair_truncated_tail, scan_wal, ScanResult};
pub use writer::{TestableWalWriter, WalWriter};
