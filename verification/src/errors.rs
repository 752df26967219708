//! The kinds of failure that the store reports.

use vstd::prelude::*;
use vstd::std_specs::convert::FromSpecImpl;

verus! {

/// `std::io::Error`, carried through as an opaque value.
#[verifier::external_type_specification]
#[verifier::external_body]
pub struct ExIoError(std::io::Error);

/// `serde_json::Error`, carried through as an opaque value.
#[verifier::external_type_specification]
#[verifier::external_body]
pub struct ExJsonError(serde_json::Error);

/// Network failures. No transport exists; the kind is reserved.
#[derive(Debug)]
pub enum NetError {
    Disconnect(std::io::Error),
}

/// Failures of the file that holds the log.
#[derive(Debug)]
pub enum DiskError {
    UnKnown(String),
    PathIsDir,
    /// The path, then the reason the file could not be opened.
    FileOpen(String, String),
}

/// Failures of an operation on a key.
#[derive(Debug)]
pub enum KeyError {
    /// The key that is not in the store.
    KeyNotFound(String),
}

/// Failures of the framing of records.
#[derive(Debug)]
pub enum BinaryError {
    ParseLogSize(String),
}

/// Every failure that an operation of the store can report.
#[derive(Debug)]
pub enum KvStoreError {
    IOError(std::io::Error),
    DiskError(DiskError),
    KeyError(KeyError),
    NetError(NetError),
    SerialError(serde_json::Error),
    BinaryError(BinaryError),
}

/// The result of an operation of the store.
pub type Result<T> = std::result::Result<T, KvStoreError>;

impl From<std::io::Error> for KvStoreError {
    fn from(e: std::io::Error) -> (r: Self) {
        KvStoreError::IOError(e)
    }
}

impl FromSpecImpl<std::io::Error> for KvStoreError {
    open spec fn obeys_from_spec() -> bool {
        true
    }

    open spec fn from_spec(e: std::io::Error) -> Self {
        KvStoreError::IOError(e)
    }
}

impl From<DiskError> for KvStoreError {
    fn from(e: DiskError) -> (r: Self) {
        KvStoreError::DiskError(e)
    }
}

impl FromSpecImpl<DiskError> for KvStoreError {
    open spec fn obeys_from_spec() -> bool {
        true
    }

    open spec fn from_spec(e: DiskError) -> Self {
        KvStoreError::DiskError(e)
    }
}

impl From<KeyError> for KvStoreError {
    fn from(e: KeyError) -> (r: Self) {
        KvStoreError::KeyError(e)
    }
}

impl FromSpecImpl<KeyError> for KvStoreError {
    open spec fn obeys_from_spec() -> bool {
        true
    }

    open spec fn from_spec(e: KeyError) -> Self {
        KvStoreError::KeyError(e)
    }
}

impl From<NetError> for KvStoreError {
    fn from(e: NetError) -> (r: Self) {
        KvStoreError::NetError(e)
    }
}

impl FromSpecImpl<NetError> for KvStoreError {
    open spec fn obeys_from_spec() -> bool {
        true
    }

    open spec fn from_spec(e: NetError) -> Self {
        KvStoreError::NetError(e)
    }
}

impl From<serde_json::Error> for KvStoreError {
    fn from(e: serde_json::Error) -> (r: Self) {
        KvStoreError::SerialError(e)
    }
}

impl FromSpecImpl<serde_json::Error> for KvStoreError {
    open spec fn obeys_from_spec() -> bool {
        true
    }

    open spec fn from_spec(e: serde_json::Error) -> Self {
        KvStoreError::SerialError(e)
    }
}

impl From<BinaryError> for KvStoreError {
    fn from(e: BinaryError) -> (r: Self) {
        KvStoreError::BinaryError(e)
    }
}

impl FromSpecImpl<BinaryError> for KvStoreError {
    open spec fn obeys_from_spec() -> bool {
        true
    }

    open spec fn from_spec(e: BinaryError) -> Self {
        KvStoreError::BinaryError(e)
    }
}

impl From<std::io::Error> for NetError {
    fn from(e: std::io::Error) -> (r: Self) {
        NetError::Disconnect(e)
    }
}

impl FromSpecImpl<std::io::Error> for NetError {
    open spec fn obeys_from_spec() -> bool {
        true
    }

    open spec fn from_spec(e: std::io::Error) -> Self {
        NetError::Disconnect(e)
    }
}

} // verus!
