//! Primitives for LZ77-family codecs: an LSB-first bit stream codec over
//! fields of 1 to 24 bits, and a match finder over backward distances.
pub mod bits;
pub mod bitseq;
pub mod lz;
pub mod reader;
pub mod writer;

pub use bits::{count_bits, nearest_power_of_two, BitSize, Nibble, VarBitValue};
pub use lz::{find_distance_matches, matching_len, Matches};
pub use reader::BitStreamReader;
pub use writer::{BitStreamWriter, Write};
