//! A verified decoder for Bao: content bytes stored next to, or interleaved with, a binary tree of
//! hashes, so that any part of the content can be checked against one root hash.
//!
//! - [`hash`] hashes single nodes and whole contents, and reads and writes the length header.
//! - [`tree`] says what the tree over some content is, and what its encodings are.
//! - [`parse`] walks through a tree whose length is known.
//! - [`verify`] checks the nodes on the way against the root hash.
//! - [`decode`] reads, seeks, and hands out verified bytes.
//! - [`encode`] makes encodings, and extracts slices from them.
//!
//! The rest is what holds of them:
//!
//! - [`reading`] describes readers as functions on their states.
//! - [`complete`] and [`slice`] show that what is encoded is decoded.
//! - [`sound`], [`binding`], [`origin`] and [`slice_sound`] show that nothing else is.
//! - [`partial`], [`slice_partial`], [`rest`] and [`root`] show that no more is asked for than what
//!   it takes.
//! - [`damage`], [`fault`] and [`slice_damage`] show what becomes of encodings and slices that are
//!   damaged, [`truncated`] and [`cut`] of those that are cut off.

pub mod binding;
pub mod complete;
pub mod cut;
pub mod damage;
pub mod decode;
pub mod encode;
pub mod error;
pub mod fault;
pub mod hash;
pub mod origin;
pub mod parse;
pub mod partial;
pub mod parts;
pub mod reading;
pub mod rest;
pub mod root;
pub mod slice;
pub mod slice_damage;
pub mod slice_partial;
pub mod slice_sound;
pub mod sound;
pub mod source;
mod stack;
pub mod testing;
pub mod tree;
pub mod truncated;
pub mod verify;
