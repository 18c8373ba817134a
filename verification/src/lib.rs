//! Deterministic master-password derivation.
//!
//! A seed phrase is trimmed of surrounding whitespace, digested with
//! SHA-256, and rendered as 64 lowercase hexadecimal characters; that hash
//! step is iterated a user-chosen number of times (the "depth"), and the
//! value after the final iteration is the derived master password.  The
//! depth arrives as a text token and is validated before any derivation
//! runs: only a positive count authorizes one.
//!
//! The crate is pure computation: it performs no I/O, so front ends
//! (command line, prompt, clipboard) sit outside it and exchange plain
//! strings with it.

pub mod args;
pub mod depth;
pub mod derivation;
pub mod digest;
pub mod hex;
pub mod trim;
