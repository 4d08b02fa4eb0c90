//! Classical cryptanalysis of single- and dual-keyword Vigenère and Beaufort
//! ciphers: tables, scoring against known text, text statistics and key search.
pub mod alphabet;
pub mod analysis;
pub mod decipher;
pub mod kasiski;
pub mod kullback;
pub mod score;
pub mod search;
pub mod stats;
pub mod table;
pub mod toolkit;
pub mod vigenere;
