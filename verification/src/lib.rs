//! Rustilleus is a deterministic, in-memory limit order matching engine.
//!
//! - [`domain`] owns the exchange rules: orders, the book, matching.
//! - [`application`] runs commands against an engine and publishes events.
//! - [`config`] validates the service's start-up settings.
//! - [`api`] holds the HTTP API's rules for queries and refusals.
//!
//! The remaining modules hold small, self-contained verified examples of
//! everyday Rust: basics, ownership, structs and traits, collections,
//! algorithms, patterns, error handling and the arithmetic handed to worker
//! threads, on top of [`text`] helpers.

pub mod algorithms;
pub mod api;
pub mod application;
pub mod basics;
pub mod collections;
pub mod concurrency;
pub mod config;
pub mod domain;
pub mod errors;
pub mod oop;
pub mod ownership;
pub mod patterns;
pub mod text;
