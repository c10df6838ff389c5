//! Training library for keystroke-efficient editing: a grading engine over
//! par-based thresholds, a keystroke counter for compact key notation, text
//! normalization for buffer comparison, and a progress store with versioned
//! best results and a bounded attempt history.

pub mod challenge;
pub mod digits;
pub mod nvim;
pub mod state;
pub mod text;
