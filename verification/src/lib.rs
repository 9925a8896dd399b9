//! Finds the files of one directory tree whose content is absent from another,
//! matching files by a checksum of their bytes rather than by name.
//!
//! A comparison has four parts. The walk over each tree ([`walker`], with the
//! reach of its depth budget in [`depth`]) finds the regular files. Each file
//! gets a digest of its content under the chosen algorithm ([`generator`],
//! [`checksum`], [`decimal`]). The digests of the old tree are indexed by
//! path and those of the new tree by digest ([`index`], in the order of
//! [`order`]). Reconciliation ([`reconcile`]) lists the paths of the old tree
//! whose digest the new tree lacks; [`laws`] states what holds of that list
//! for every pair of trees. [`config`] and [`error`] hold the parameters of a
//! run and the ways in which it can fail.
//!
//! The library reads no file and lists no directory itself: the caller does
//! both and hands over bytes and listings.

pub mod checksum;
pub mod config;
pub mod decimal;
pub mod depth;
pub mod error;
pub mod generator;
pub mod index;
pub mod laws;
pub mod order;
pub mod reconcile;
pub mod walker;
