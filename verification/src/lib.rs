//! Verified hash aggregation over arrow columns.

pub mod accumulator;
pub mod answers;
pub mod calls;
pub mod columns;
pub mod data_type;
pub mod driving;
pub mod encoding;
pub mod error;
pub mod group_values;
pub mod grouping;
pub mod keeping;
pub mod kinds;
pub mod laws;
pub mod limits;
pub mod memory;
pub mod ordering;
pub mod output;
pub mod polling;
pub mod reservation;
pub mod room;
pub mod rows;
pub mod stream;
pub mod table;
pub mod trace;
