//! A statistical corrector for short tokens such as host names.
//!
//! A [`URL`] learns how often each token occurs in training text and then
//! proposes, for an unknown token, the most frequent known token within two
//! single-character edits.

pub mod corrector;
pub mod edits;
pub mod extract;
pub mod frequency;
pub mod laws;
pub mod ranking;

pub use crate::corrector::URL;
