//! Verified core of the FreeStati statistics application.
pub mod order;
pub mod ranking;
pub mod text;
pub mod grouping;
pub mod tally;
pub mod selection;
pub mod json;
pub mod params;
pub mod procedure;
pub mod meta;
pub mod variables;
pub mod files;
pub mod engine;
pub mod spss;
pub mod analysis;
pub mod cells;
