//! A software-simulated striped storage array with single-error correction.
//!
//! Data bits are striped round-robin across a fixed set of virtual data
//! disks; a Hamming-code parity layer, kept on dedicated parity disks, is
//! computed once per complete stripe ("layer"). Reads reconstruct each
//! spanned layer's codeword, decode it, and repair at most one flipped bit
//! in place before the data is returned.

pub mod hamming;
pub mod raid;
