//! Hypervector algebra for vector symbolic architectures: sparse binary
//! hypervectors (binding by XOR, bundling by majority vote, permutation by
//! cyclic shift, Hamming similarity) and the position bookkeeping of dense
//! hypervectors.
pub mod binary;
pub mod cyclic;
pub mod dense;
pub mod errors;
pub mod laws;
mod trusted;
