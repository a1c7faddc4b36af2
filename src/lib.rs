//! A BIP39 mnemonic codec: entropy to words with an embedded checksum, and words
//! back to a checked verdict, over a fixed 2048-word dictionary.

pub mod bits;
pub mod checksum;
pub mod config;
pub mod error;
pub mod generator;
pub mod text;
pub mod validation;
pub mod wordlist;

pub use config::Config;
pub use error::{BIP39Error, Result};
pub use generator::SeedPhraseGenerator;
pub use validation::SeedPhraseValidator;
pub use wordlist::WordList;
