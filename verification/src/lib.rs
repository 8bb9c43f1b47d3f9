//! A compact file format for duck chess games.
pub mod common;
pub mod error;
pub mod text;
pub mod sums;
pub mod board;
pub mod boards;
pub mod moves;
pub mod symmetry;
pub mod rules;
pub mod fen;
pub mod format;
pub mod header;
pub mod games;
pub mod layout;
pub mod movetext;
pub mod pgn;
pub mod tokens;
pub mod draft;
pub mod wording;
pub mod spelling;
pub mod reader;
pub mod recovery;
pub mod initial;
pub mod forsyth;
pub mod notation;
pub mod coordinates;
pub mod san;
pub mod convert;
pub mod hashing;
pub mod analyse;
pub mod counting;
pub mod stored;
pub mod bullet;
pub mod interleave;
pub mod mixing;
pub mod cli;
pub mod options;
