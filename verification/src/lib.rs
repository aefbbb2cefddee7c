//! The selection-and-extraction engine of a `cut`-style utility: a verified
//! parser for comma-separated position lists, the three extraction functions
//! (characters, bytes, fields) that replay such a list over one input unit,
//! and the run-level mode selection — together with the line-count reading
//! of a `head`-style tool and the counting core of a `wc`-style tool.

pub mod count;
pub mod digits;
pub mod errors;
pub mod extract;
pub mod position;
pub mod take;
