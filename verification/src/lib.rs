//! Experimental lossless codecs for the Hutter Prize corpus: block Huffman,
//! LZ77, byte- and bit-level PPM variants driven by a shared binary
//! arithmetic coder, a match model and the WikiMix-5 mixed model.
use vstd::prelude::*;

pub mod error;
pub mod bits;
pub mod arith;
pub mod lz77;
pub mod context;
pub mod history;
pub mod byte_ppm;
pub mod candidates;
pub mod ranking;
pub mod ppm;
pub mod ppmd;
pub mod adaptive_huffman;
pub mod ppm_match_mix;
pub mod codec;
pub mod cli;
pub mod hybrid_ppm;
pub mod ppmd_bit;
pub mod ppmd_mix;
pub mod wikimix;

verus! {

} // verus!
