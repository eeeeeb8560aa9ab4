//! Classical substitution and polygraphic ciphers — Caesar, Vigenère,
//! Playfair and Hill — with verified encrypt/decrypt transforms, key
//! parsing and validation, and the letter-counting core of the Caesar
//! frequency-analysis breaker.

pub mod alphabet;
pub mod caesar;
pub mod dispatch;
pub mod error;
pub mod hill;
pub mod numbers;
pub mod playfair;
pub mod text;
pub mod vigenere;

pub use caesar::CaesarCipher;
pub use dispatch::{encrypt, decrypt};
pub use alphabet::{char_to_index, index_to_char, letter_counts};
pub use error::CipherError;
pub use hill::HillCipher;
pub use playfair::PlayfairCipher;
pub use vigenere::VigenereCipher;
