//! Smooshed Morse code: encoding words to run-together Morse strings,
//! decoding them against a word list, and recovering an alphabet
//! permutation from the concatenation of all 26 letter codes.

pub mod decode;
pub mod encode;
pub mod extra1;
pub mod extra2;
pub mod extra3;
pub mod extra4;
pub mod input;
pub mod merses;
pub mod model;
pub mod morses;
pub mod permutations;
pub mod trusted;
