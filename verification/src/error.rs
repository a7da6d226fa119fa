//! Error type shared by the whole engine.

use vstd::prelude::*;

verus! {

/// Why an operation of the engine failed.  Every variant carries a
/// human-readable detail string.
#[derive(Debug, Clone)]
pub enum Error {
    /// Malformed bencode data.
    BencodeError(String),
    /// Malformed torrent metainfo.
    MetainfoError(String),
    /// Peer or tracker connection failure.
    NetworkError(String),
    /// Filesystem failure.
    IoError(String),
    /// Malformed wire data (handshake or message).
    InvalidData(String),
    /// The torrent is not known to the engine.
    TorrentNotFound(String),
    /// An operation timed out.
    Timeout(String),
    /// A cryptographic operation failed.
    CryptoError(String),
    /// The persistent store failed.
    DatabaseError(String),
    /// A debrid service reported a failure.
    DebridError(String),
    /// Anything else.
    Other(String),
}

impl Error {
    /// The detail string carried by the error.
    pub fn detail(&self) -> (r: &String)
        ensures
            r@ == self.spec_detail(),
    {
        match self {
            Error::BencodeError(m) => m,
            Error::MetainfoError(m) => m,
            Error::NetworkError(m) => m,
            Error::IoError(m) => m,
            Error::InvalidData(m) => m,
            Error::TorrentNotFound(m) => m,
            Error::Timeout(m) => m,
            Error::CryptoError(m) => m,
            Error::DatabaseError(m) => m,
            Error::DebridError(m) => m,
            Error::Other(m) => m,
        }
    }

    /// The detail string, as a sequence of characters.
    pub open spec fn spec_detail(self) -> Seq<char> {
        match self {
            Error::BencodeError(m) => m@,
            Error::MetainfoError(m) => m@,
            Error::NetworkError(m) => m@,
            Error::IoError(m) => m@,
            Error::InvalidData(m) => m@,
            Error::TorrentNotFound(m) => m@,
            Error::Timeout(m) => m@,
            Error::CryptoError(m) => m@,
            Error::DatabaseError(m) => m@,
            Error::DebridError(m) => m@,
            Error::Other(m) => m@,
        }
    }
}

} // verus!
