//! Local-state engine of a peer-to-peer file synchroniser.
//!
//! The crate turns what was read of a directory tree into an ordered snapshot,
//! folds a snapshot into a 64-bit fingerprint, decides whether a local file is
//! fresher than a remote claim, and plans the filesystem steps that write,
//! move and delete files atomically. It performs no I/O itself: callers hand
//! in what they read from disk and carry out the steps that come back.

use vstd::prelude::*;

pub mod config;
pub mod crypto;
pub mod fs;
pub mod parts;
pub mod path;
pub mod pieces;
pub mod sort;
pub mod text;
pub mod time;
pub mod walk;

verus! {

/// The declared shape of `bincode::ErrorKind`, the payload of `bincode::Error`.
/// Nothing is known of its contents: a value is only carried through.
#[verifier::external_type_specification]
#[verifier::external_body]
pub struct ExBincodeErrorKind(bincode::ErrorKind);

/// The result of an operation that may fail with an [`IronCarrierError`].
pub type Result<T> = std::result::Result<T, IronCarrierError>;

/// Every failure that the synchroniser reports.
#[derive(Debug)]
pub enum IronCarrierError {
    /// Configuration file was not found
    ConfigFileNotFound,
    /// Configuration file is not a valid file
    /// or it contains invalid configuration
    ConfigFileIsInvalid,
    /// Peer address is not correct:
    /// a valid ip:port string should be provided
    InvalidPeerAddress,
    /// Provided alias was not configured for the current peer
    AliasNotAvailable(String),
    /// It wasn't possible to read a file
    IOReadingError,
    /// It wasn't possible to write a file
    IOWritingError,
    /// It wasn't possible to start the server
    ServerStartError(String),
    /// The target peer is disconnected
    PeerDisconectedError(String),
    /// It wasn't possible to read from the network socket
    NetworkIOReadingError,
    /// It wasn't possible to write to the network socket
    NetworkIOWritingError,
    /// It wasn't possible to parse a command frame
    ParseCommandError,
}

impl IronCarrierError {
    /// The text shown to a user for this error.
    pub open spec fn message_spec(self) -> Seq<char> {
        match self {
            IronCarrierError::ConfigFileNotFound => "Configuration file not found on provided path"@,
            IronCarrierError::ConfigFileIsInvalid => "Configuration file has invalid configuration"@,
            IronCarrierError::InvalidPeerAddress => "Invalid Peer Address"@,
            IronCarrierError::AliasNotAvailable(alias) => "Alias "@ + alias@
                + " not available on this node"@,
            IronCarrierError::IOReadingError => "There was an error reading information from disk"@,
            IronCarrierError::IOWritingError => "There was an error writing information to disk"@,
            IronCarrierError::ServerStartError(reason) => "There was an error starting the server: "@
                + reason@,
            IronCarrierError::NetworkIOReadingError => "There was an error reading information from network stream"@,
            IronCarrierError::NetworkIOWritingError => "There was an error writing information to network stream"@,
            IronCarrierError::ParseCommandError => "There was an error parsing the provide command"@,
            IronCarrierError::PeerDisconectedError(peer_address) => "The target peer is not available: "@
                + peer_address@,
        }
    }

    /// Renders the error as the sentence that is shown to a user.
    pub fn message(&self) -> (text: String)
        ensures
            text@ == self.message_spec(),
    {
        match self {
            IronCarrierError::ConfigFileNotFound => "Configuration file not found on provided path".to_owned(),
            IronCarrierError::ConfigFileIsInvalid => "Configuration file has invalid configuration".to_owned(),
            IronCarrierError::InvalidPeerAddress => "Invalid Peer Address".to_owned(),
            IronCarrierError::AliasNotAvailable(alias) => {
                let mut text = "Alias ".to_owned();
                text.push_str(alias.as_str());
                text.push_str(" not available on this node");
                text
            },
            IronCarrierError::IOReadingError => "There was an error reading information from disk".to_owned(),
            IronCarrierError::IOWritingError => "There was an error writing information to disk".to_owned(),
            IronCarrierError::ServerStartError(reason) => {
                let mut text = "There was an error starting the server: ".to_owned();
                text.push_str(reason.as_str());
                text
            },
            IronCarrierError::NetworkIOReadingError => "There was an error reading information from network stream".to_owned(),
            IronCarrierError::NetworkIOWritingError => "There was an error writing information to network stream".to_owned(),
            IronCarrierError::ParseCommandError => "There was an error parsing the provide command".to_owned(),
            IronCarrierError::PeerDisconectedError(peer_address) => {
                let mut text = "The target peer is not available: ".to_owned();
                text.push_str(peer_address.as_str());
                text
            },
        }
    }
}

impl From<bincode::Error> for IronCarrierError {
    /// A frame that could not be decoded is reported as a command that could
    /// not be parsed, whatever the decoder said of it.
    fn from(_error: bincode::Error) -> (converted: IronCarrierError) {
        IronCarrierError::ParseCommandError
    }
}

impl vstd::std_specs::convert::FromSpecImpl<bincode::Error> for IronCarrierError {
    open spec fn obeys_from_spec() -> bool {
        true
    }

    open spec fn from_spec(_error: bincode::Error) -> IronCarrierError {
        IronCarrierError::ParseCommandError
    }
}

} // verus!
