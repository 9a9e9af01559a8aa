//! A storage-and-marshalling core for a small key-value contract.
//!
//! The crate provides a value codec over a closed universe of value shapes,
//! a typed key space that addresses a persistent byte store, an
//! authorization context consulted before every mutation, and the operation
//! surface that composes them.

pub mod auth;
pub mod bytes;
pub mod contract;
pub mod error;
pub mod values;
pub mod codec;
pub mod keys;
pub mod store;
