//! Federated discovery of a directly-follows graph between two organizations.
//!
//! Organization A holds the private key, organization B the evaluation key. The
//! shared cases are merged by an oblivious two-pointer interleave that only uses
//! comparisons and selections of the façade in [`facade`].
pub mod facade;
pub mod merge;
pub mod dfg;
pub mod log;
pub mod codec;
pub mod psi;
pub mod organization;
pub mod protocol;
mod shuffle;
