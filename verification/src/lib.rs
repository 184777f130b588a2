//! Finds the files that are present in one of two directory trees and absent
//! from the other, under a caller-chosen definition of "same file": by name,
//! by name and size, or by the digest of the content.
//!
//! The heart of the crate is [`customhashset::CustomHashSet`], a bucketed hash
//! set whose notion of identity is a stored pair of functions.
//!
//! - [`identity`]: what it means for a pair of functions to be an identity.
//! - [`model`]: the set as a mathematical value; the contracts speak of it.
//! - [`layout`]: facts about buckets and the sequence of their elements.
//! - [`laws`]: what holds of the set whatever the identity.
//! - [`customhashset`]: the set itself and its cursors.
//! - [`filedata`]: file records, digests, paths and the three comparisons.
//! - [`strategies`]: ready-made pairs of functions, each with its identity.
//! - [`utils`]: content digests, the configuration, and the comparison of
//!   two scans.

pub mod customhashset;
pub mod filedata;
pub mod identity;
pub mod laws;
pub mod layout;
pub mod model;
pub mod strategies;
pub mod utils;
