//! Tracker for a simulated game calendar (twelve months of thirty days each)
//! with one-shot reminders: a date value with total order and day arithmetic,
//! a parser for the text the OCR collaborator produces, a reminder store with
//! one-shot trigger semantics, the decision logic of the clock-synchronization
//! loop, a concurrently readable current-date cell, and a persistence codec.

pub mod date;
pub mod parse;
pub mod store;
pub mod sync;
pub mod cell;
pub mod codec;
