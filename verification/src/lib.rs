//! Verified core of the microchan imageboard engine.
use vstd::prelude::*;

pub mod des;
pub mod text;
pub mod hashes;
pub mod codecs;
pub mod tripcode;
pub mod error;
pub mod net;
pub mod config;
pub mod models;
pub mod views;
pub mod repo;
pub mod forms;
pub mod media;
pub mod markup;
pub mod security;

verus! {
}
