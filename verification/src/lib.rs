//! A flat-text store of tasks: a record codec and the operations that
//! split, render and rewrite a whole store held in memory as one text.

pub mod joining;
pub mod lines;
pub mod round_trip;
pub mod stability;
pub mod store;
pub mod task;
pub mod text;
