//! A file-compression core built from three engines: a suffix array by
//! induced sorting over a generic bucketed alphabet, a back-reference index
//! derived from the suffix array, and LZ77-style stream codecs that
//! interleave literal runs with back-reference tokens. Every public function
//! carries its contract; the stream codecs are proved to invert each other.

pub mod bwt;
pub mod head;
pub mod lex;
pub mod lz77;
pub mod match_layout;
pub mod packed_bits;
pub mod suffix_array;
pub mod suffix_reference;
