use vstd::prelude::*;

verus! {

/// The failures of the library's operations.
#[derive(Debug)]
pub enum BIP39Error {
    /// A requested or observed word count that is neither 12 nor 24.
    InvalidWordCount(u8),
    /// Entropy whose length is neither 16 nor 32 bytes.
    InvalidEntropy(String),
    /// A checksum that does not match.
    ChecksumError,
    /// A word that is not in the dictionary; the message names it.
    WordListError(String),
    /// A dictionary that does not hold 2048 distinct words.
    WordListLoadError,
    /// A configuration that could not be read or written.
    ConfigError(String),
    /// A failed read or write.
    IoError(String),
}

/// The result type of the library's fallible operations.
pub type Result<T> = core::result::Result<T, BIP39Error>;

} // verus!
