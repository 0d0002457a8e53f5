//! Core of the Higher architecture: symbol widths from 1 to 32 bits, bit
//! packing, symbol tables, the `.hgr` stream header and the codec.

use vstd::prelude::*;

pub mod bitseq;
pub mod model;
pub mod packing;
pub mod hgr;
pub mod trie;
pub mod table;
pub mod codec;
pub mod training;
pub mod ranking;
pub mod names;
pub mod messages;

pub use names::VERSION;

verus! {

} // verus!
