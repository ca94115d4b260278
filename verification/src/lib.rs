//! Turning the daily archives of aggregate trades into one file of JSON rows:
//! the command line, the choice of symbols and days, the course of a run, the
//! reading of trade files and the writing of rows, each key once.
pub mod archive;
pub mod calendar;
pub mod checksum;
pub mod clock;
pub mod course;
pub mod index;
pub mod ingest;
pub mod json;
pub mod number;
pub mod options;
pub mod plan;
pub mod seen;
pub mod select;
pub mod symbols;
pub mod text;
pub mod trade;
