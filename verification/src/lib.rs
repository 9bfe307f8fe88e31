//! Checklist boards read from markdown, with the interval set that records
//! which bytes of the source belong to each item.
//!
//! [`Board::parse`] tokenizes a markdown text and folds the events into a
//! [`Board`]: lists of items, each with its checkbox, the ranges of its own
//! text as a [`RangeSet`], and at most one nested list. Every node carries
//! the range of the source it was read from.

pub mod board;
pub mod coverage;
pub mod event;
pub mod parser;
pub mod position;
pub mod provenance;
pub mod range;
pub mod rangeset;

pub use crate::board::{Board, Item, List, Span};
pub use crate::event::{Event, EventKind};
pub use crate::parser::ParseError;
pub use crate::range::Range;
pub use crate::rangeset::RangeSet;
