//! What the operations of the library are for, as laws on their arguments and results.
//!
//! A law speaks of a call of an operation by `call_ensures`: of every result that the operation can
//! have on the given arguments.
pub mod arithmetic;
pub mod bte;
pub mod digests;
pub mod dlog;
pub mod encodings;
pub mod extraction;
pub mod keys;
pub mod partial;
pub mod polynomials;
pub mod provers;
pub mod range;
pub mod schnorr;
pub mod ste;
pub mod transcripts;
