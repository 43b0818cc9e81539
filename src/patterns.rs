//! Chord-order patterns such as `1-2-3-2`: numbers joined by dashes.
pub mod old_validation;
pub mod validation;
