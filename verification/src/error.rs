//! The error type that the application's layers hand to each other.

use vstd::prelude::*;
use vstd::string::*;

verus! {

/// An application-wide error: the layer it arose in, and a message.
#[derive(Debug, Clone)]
pub enum Error {
    /// Configuration error.
    Config(String),
    /// Network error.
    Network(String),
    /// Cryptographic error.
    Crypto(String),
    /// Storage or database error.
    Storage(String),
    /// Serialization error.
    Serialization(String),
    /// File system error.
    FileSystem(String),
    /// Wallet error.
    Wallet(String),
    /// Sync error.
    Sync(String),
    /// Media error.
    Media(String),
    /// Migration error.
    Migration(String),
    /// Internal error.
    Internal(String),
}

/// The layer an [`Error`] arose in.
#[derive(Clone, Copy, Debug, PartialEq, Eq, Structural)]
pub enum ErrorKind {
    Config,
    Network,
    Crypto,
    Storage,
    Serialization,
    FileSystem,
    Wallet,
    Sync,
    Media,
    Migration,
    Internal,
}

/// Mathematical model of an [`Error`].
pub struct ErrorModel {
    pub kind: ErrorKind,
    pub message: Seq<char>,
}

impl View for Error {
    type V = ErrorModel;

    open spec fn view(&self) -> ErrorModel {
        match self {
            Error::Config(m) => ErrorModel { kind: ErrorKind::Config, message: m@ },
            Error::Network(m) => ErrorModel { kind: ErrorKind::Network, message: m@ },
            Error::Crypto(m) => ErrorModel { kind: ErrorKind::Crypto, message: m@ },
            Error::Storage(m) => ErrorModel { kind: ErrorKind::Storage, message: m@ },
            Error::Serialization(m) => ErrorModel { kind: ErrorKind::Serialization, message: m@ },
            Error::FileSystem(m) => ErrorModel { kind: ErrorKind::FileSystem, message: m@ },
            Error::Wallet(m) => ErrorModel { kind: ErrorKind::Wallet, message: m@ },
            Error::Sync(m) => ErrorModel { kind: ErrorKind::Sync, message: m@ },
            Error::Media(m) => ErrorModel { kind: ErrorKind::Media, message: m@ },
            Error::Migration(m) => ErrorModel { kind: ErrorKind::Migration, message: m@ },
            Error::Internal(m) => ErrorModel { kind: ErrorKind::Internal, message: m@ },
        }
    }
}

/// The words that introduce the message of an error of `kind`.
pub open spec fn prefix_of(kind: ErrorKind) -> Seq<char> {
    match kind {
        ErrorKind::Config => "Configuration error: "@,
        ErrorKind::Network => "Network error: "@,
        ErrorKind::Crypto => "Cryptographic error: "@,
        ErrorKind::Storage => "Storage error: "@,
        ErrorKind::Serialization => "Serialization error: "@,
        ErrorKind::FileSystem => "File system error: "@,
        ErrorKind::Wallet => "Wallet error: "@,
        ErrorKind::Sync => "Sync error: "@,
        ErrorKind::Media => "Media error: "@,
        ErrorKind::Migration => "Migration error: "@,
        ErrorKind::Internal => "Internal error: "@,
    }
}

impl Error {
    /// An error of `kind` with `message`.
    pub fn new(kind: ErrorKind, message: String) -> (e: Error)
        ensures
            e@ == (ErrorModel { kind, message: message@ }),
    {
        match kind {
            ErrorKind::Config => Error::Config(message),
            ErrorKind::Network => Error::Network(message),
            ErrorKind::Crypto => Error::Crypto(message),
            ErrorKind::Storage => Error::Storage(message),
            ErrorKind::Serialization => Error::Serialization(message),
            ErrorKind::FileSystem => Error::FileSystem(message),
            ErrorKind::Wallet => Error::Wallet(message),
            ErrorKind::Sync => Error::Sync(message),
            ErrorKind::Media => Error::Media(message),
            ErrorKind::Migration => Error::Migration(message),
            ErrorKind::Internal => Error::Internal(message),
        }
    }

    /// The layer the error arose in.
    pub fn kind(&self) -> (kind: ErrorKind)
        ensures
            kind == self@.kind,
    {
        match self {
            Error::Config(_) => ErrorKind::Config,
            Error::Network(_) => ErrorKind::Network,
            Error::Crypto(_) => ErrorKind::Crypto,
            Error::Storage(_) => ErrorKind::Storage,
            Error::Serialization(_) => ErrorKind::Serialization,
            Error::FileSystem(_) => ErrorKind::FileSystem,
            Error::Wallet(_) => ErrorKind::Wallet,
            Error::Sync(_) => ErrorKind::Sync,
            Error::Media(_) => ErrorKind::Media,
            Error::Migration(_) => ErrorKind::Migration,
            Error::Internal(_) => ErrorKind::Internal,
        }
    }

    /// The message without the words that name the layer.
    pub fn detail(&self) -> (message: &String)
        ensures
            message@ == self@.message,
    {
        match self {
            Error::Config(m) => m,
            Error::Network(m) => m,
            Error::Crypto(m) => m,
            Error::Storage(m) => m,
            Error::Serialization(m) => m,
            Error::FileSystem(m) => m,
            Error::Wallet(m) => m,
            Error::Sync(m) => m,
            Error::Media(m) => m,
            Error::Migration(m) => m,
            Error::Internal(m) => m,
        }
    }

    /// The error as one line of text: the layer, a colon and the message.
    pub fn message(&self) -> (text: String)
        ensures
            text@ == prefix_of(self@.kind) + self@.message,
    {
        let prefix = match self.kind() {
            ErrorKind::Config => "Configuration error: ",
            ErrorKind::Network => "Network error: ",
            ErrorKind::Crypto => "Cryptographic error: ",
            ErrorKind::Storage => "Storage error: ",
            ErrorKind::Serialization => "Serialization error: ",
            ErrorKind::FileSystem => "File system error: ",
            ErrorKind::Wallet => "Wallet error: ",
            ErrorKind::Sync => "Sync error: ",
            ErrorKind::Media => "Media error: ",
            ErrorKind::Migration => "Migration error: ",
            ErrorKind::Internal => "Internal error: ",
        };
        String::from_str(prefix).concat(self.detail().as_str())
    }
}

} // verus!
