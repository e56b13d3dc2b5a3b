//! Background image cache and preload engine of an image-dataset tagging tool,
//! with the tag dictionary and the rules of tag lists that surround it.
//!
//! Workers decode, resize and fingerprint image files off the interactive thread
//! ([`worker`], [`fingerprint`]) under a tracker that keeps two of them from taking
//! the same image ([`inflight`], [`dispatch`]). The interactive thread owns the
//! registry, the cache store and the pause gate, applies what the workers send and
//! decides what to prepare next ([`engine`], [`registry`], [`cache`], [`window`],
//! [`messages`]); what holds of whole runs is stated in [`scan`]. Tags are looked up
//! and suggested by [`booru`], and read, written, edited and sorted by [`tags`],
//! [`sorting`] and [`editing`] over the texts of [`text`].

pub mod booru;
pub mod cache;
pub mod dispatch;
pub mod editing;
pub mod engine;
pub mod fingerprint;
pub mod inflight;
pub mod messages;
pub mod registry;
pub mod scan;
pub mod sorting;
pub mod tags;
pub mod text;
pub mod window;
pub mod worker;
