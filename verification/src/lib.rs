//! Verified building blocks for a family of CSV command-line tools.
//!
//! The centre of the crate is a streaming geocoding pipeline: rows are read
//! from a table, grouped into batches, sent to a geocoding service, and
//! written back out in the order in which they came, with the geocoded
//! columns appended.  Everything that decides *what* happens lives here and is
//! proved against its contract; reading, writing, networking and scheduling
//! are left to the program built around the library.

pub mod text;
pub mod errors;
pub mod structure;
pub mod addresses;
pub mod unpack_vec;
pub mod smartystreets;
pub mod geocoder;
pub mod population_csv;
pub mod zip2010;
pub mod fixed2csv;
pub mod hashcsv;
pub mod clean_column_names;
