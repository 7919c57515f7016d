//! Recovery of a single-number shift key from an RTF document whose Unicode
//! text has been obscured by adding the key to every code point.
//!
//! The pieces are: an extractor from RTF bytes to code points, the shift
//! transform, a plausibility scorer for Turkmen text, the key search driver,
//! and a re-encoder back to RTF.
pub mod extract;
pub mod score;
pub mod search;
pub mod shift;
pub mod encode;
