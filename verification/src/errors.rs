//! The errors that the library reports.

use vstd::prelude::*;
use vstd::string::*;

use crate::text::{decimal, decimal_text, quote, quote_list, quoted, quoted_list, texts};

verus! {

/// Everything that can go wrong inside the library.
#[derive(Clone, Debug, PartialEq, Eq)]
pub enum Error {
    /// A table has no column with this name.
    NoSuchColumn(String),
    /// A zip code field did not hold UTF-8 text; the line is given if known.
    NonUtf8Zip(Option<u64>),
    /// The header row holds this name more than once.
    DuplicateHeaderColumn(String),
    /// A column specification names a column that the header lacks.
    ColumnNotFound(String),
    /// Input columns carry the names of geocoding columns; the names are
    /// listed, separated by a comma and a space.
    ColumnConflict(String),
    /// A row has another number of fields than the header.
    UnequalLengths { expected: usize, found: usize },
    /// A field selection is not a JSON object.
    NotAnObject,
    /// A field selection holds something other than `true`, `false` or one
    /// level of nesting at this path.
    InvalidStructure { path: Vec<String> },
    /// A response holds a list or an object where a plain value belongs.
    UnexpectedValue { path: Vec<String> },
    /// A response carries an index beyond the number of requests.
    IndexOutOfRange { output_len: usize, index: usize },
    /// Two responses carry the same index.
    DuplicateIndex { index: usize },
    /// The number of results does not fit the batch.
    ResultCountMismatch { expected_rows: usize, groups: usize, found: usize },
    /// The stream of batches stopped without its end marker.
    MissingEndOfStream,
    /// The geocoding service answered with a failure status.
    Service { status: String, body: String },
    /// The web address of the geocoding service could not be built.
    InvalidUrl,
    /// The name of a match strategy is not known.
    UnknownMatchStrategy(String),
    /// A column name cannot be made into an identifier.
    InvalidColumnName(String),
    /// Two column names would become the same identifier.
    ConflictingColumnNames { first: String, second: String, identifier: String },
    /// The name of a column name cleaner is not known.
    UnknownCleaner(String),
    /// The name of a policy for duplicate columns is not known.
    UnknownDuplicateColumns(String),
    /// A batch could not be handed to the geocoding stage.
    GeocoderGone,
    /// The end marker could not be handed to the geocoding stage.
    GeocoderGoneAtEnd,
    /// A batch could not be handed to the writing stage.
    WriterGone,
    /// One or more stages of a run failed.
    PipelineFailed,
    /// The table of zip codes and their population cannot be read.
    InvalidPopulationData,
    /// The table of zip codes counts more people than can be counted.
    PopulationTooLarge,
}

impl Error {
    /// This error says that a table has no column `name`.
    pub open spec fn is_no_such_column(self, name: Seq<char>) -> bool {
        self matches Error::NoSuchColumn(n) && n@ == name
    }

    /// This error says that a header lacks the column `name`.
    pub open spec fn is_column_not_found(self, name: Seq<char>) -> bool {
        self matches Error::ColumnNotFound(n) && n@ == name
    }

    /// This error says that input columns carry the names `names`.
    pub open spec fn is_column_conflict(self, names: Seq<char>) -> bool {
        self matches Error::ColumnConflict(n) && n@ == names
    }

    /// This error says that a response holds a list or an object at `path`.
    pub open spec fn is_unexpected_value(self, path: Seq<Seq<char>>) -> bool {
        self matches Error::UnexpectedValue { path: p } && texts(p@) == path
    }

    /// This error says that a header holds `name` twice.
    pub open spec fn is_duplicate_header(self, name: Seq<char>) -> bool {
        self matches Error::DuplicateHeaderColumn(n) && n@ == name
    }

    /// The error for a column that a table lacks.
    pub fn no_such_column(name: &str) -> (e: Error)
        ensures
            e.is_no_such_column(name@),
    {
        Error::NoSuchColumn(name.to_owned())
    }

    /// The error for a zip code that is not UTF-8 text, found at `line`.
    pub fn non_utf8_zip(line: Option<u64>) -> (e: Error)
        ensures
            e == Error::NonUtf8Zip(line),
    {
        Error::NonUtf8Zip(line)
    }
}

/// The text of an optional line number, as a programmer would write it.
pub open spec fn optional_line_text(line: Option<u64>) -> Seq<char> {
    match line {
        Some(n) => "Some("@ + decimal_text(n as nat) + ")"@,
        None => "None"@,
    }
}

impl Error {
    /// What this error says to the user.
    pub open spec fn message_text(self) -> Seq<char> {
        match self {
            Error::NoSuchColumn(name) => "No CSV column with name '"@ + name@ + "'"@,
            Error::NonUtf8Zip(line) => "Non-UTF8 zip code data at line "@ + optional_line_text(line),
            Error::DuplicateHeaderColumn(name) => "duplicate header column `"@ + name@ + "`"@,
            Error::ColumnNotFound(name) => "could not find column `"@ + name@ + "` in header"@,
            Error::ColumnConflict(names) => "input columns would conflict with geocoding columns: "@
                + names@,
            Error::UnequalLengths { expected, found } => "found record with "@ + decimal_text(
                found as nat,
            ) + " fields, but the header has "@ + decimal_text(expected as nat) + " fields"@,
            Error::NotAnObject => "invalid structure: expected an object"@,
            Error::InvalidStructure { path } => "invalid structure at "@ + quoted_list(texts(path@)),
            Error::UnexpectedValue { path } => "unexpected value at "@ + quoted_list(texts(path@)),
            Error::IndexOutOfRange { output_len, index } => "output has length "@ + decimal_text(
                output_len as nat,
            ) + ", but found index "@ + decimal_text(index as nat),
            Error::DuplicateIndex { index } => "index "@ + decimal_text(index as nat)
                + " appears twice"@,
            Error::ResultCountMismatch { expected_rows, groups, found } => "expected results for "@
                + decimal_text(expected_rows as nat) + " rows and "@ + decimal_text(groups as nat)
                + " address groups, but found "@ + decimal_text(found as nat),
            Error::MissingEndOfStream => "did not receive end-of-stream from geocoder (perhaps it failed)"@,
            Error::Service { status, body } => "geocoding error: "@ + status@ + "\n"@ + body@,
            Error::InvalidUrl => "invalid web address for the geocoding service"@,
            Error::UnknownMatchStrategy(name) => "unknown match strategy "@ + quoted(name@),
            Error::InvalidColumnName(name) => "invalid column name: "@ + quoted(name@),
            Error::ConflictingColumnNames { first, second, identifier } => "conflicting column names "@
                + quoted(first@) + " and "@ + quoted(second@) + " would both map to "@ + quoted(
                identifier@,
            ),
            Error::UnknownCleaner(name) => "invalid --clean-column-names argument: "@ + quoted(name@),
            Error::UnknownDuplicateColumns(name) => "unknown policy for duplicate columns "@
                + quoted(name@),
            Error::GeocoderGone => "could not send rows to geocoder (perhaps it failed)"@,
            Error::GeocoderGoneAtEnd => "could not send end-of-stream to geocoder (perhaps it failed)"@,
            Error::WriterGone => "could not send message to output thread"@,
            Error::PipelineFailed => "geocoding stdio failed"@,
            Error::InvalidPopulationData => "invalid zip code population data"@,
            Error::PopulationTooLarge => "zip code population data counts too many people"@,
        }
    }

    /// What this error says to the user.
    pub fn message(&self) -> (out: String)
        ensures
            out@ == self.message_text(),
    {
        match self {
            Error::NoSuchColumn(name) => {
                let mut out = "No CSV column with name '".to_owned();
                out.append(name.as_str());
                out.append("'");
                out
            },
            Error::NonUtf8Zip(line) => {
                let mut out = "Non-UTF8 zip code data at line ".to_owned();
                match line {
                    Some(n) => {
                        let mut shown = "Some(".to_owned();
                        shown.append(decimal(*n).as_str());
                        shown.append(")");
                        out.append(shown.as_str());
                    },
                    None => {
                        out.append("None");
                    },
                }
                out
            },
            Error::DuplicateHeaderColumn(name) => {
                let mut out = "duplicate header column `".to_owned();
                out.append(name.as_str());
                out.append("`");
                out
            },
            Error::ColumnNotFound(name) => {
                let mut out = "could not find column `".to_owned();
                out.append(name.as_str());
                out.append("` in header");
                out
            },
            Error::ColumnConflict(names) => {
                let mut out = "input columns would conflict with geocoding columns: ".to_owned();
                out.append(names.as_str());
                out
            },
            Error::UnequalLengths { expected, found } => {
                let mut out = "found record with ".to_owned();
                out.append(decimal(*found as u64).as_str());
                out.append(" fields, but the header has ");
                out.append(decimal(*expected as u64).as_str());
                out.append(" fields");
                out
            },
            Error::NotAnObject => "invalid structure: expected an object".to_owned(),
            Error::InvalidStructure { path } => {
                let mut out = "invalid structure at ".to_owned();
                out.append(quote_list(path).as_str());
                out
            },
            Error::UnexpectedValue { path } => {
                let mut out = "unexpected value at ".to_owned();
                out.append(quote_list(path).as_str());
                out
            },
            Error::IndexOutOfRange { output_len, index } => {
                let mut out = "output has length ".to_owned();
                out.append(decimal(*output_len as u64).as_str());
                out.append(", but found index ");
                out.append(decimal(*index as u64).as_str());
                out
            },
            Error::DuplicateIndex { index } => {
                let mut out = "index ".to_owned();
                out.append(decimal(*index as u64).as_str());
                out.append(" appears twice");
                out
            },
            Error::ResultCountMismatch { expected_rows, groups, found } => {
                let mut out = "expected results for ".to_owned();
                out.append(decimal(*expected_rows as u64).as_str());
                out.append(" rows and ");
                out.append(decimal(*groups as u64).as_str());
                out.append(" address groups, but found ");
                out.append(decimal(*found as u64).as_str());
                out
            },
            Error::MissingEndOfStream => "did not receive end-of-stream from geocoder (perhaps it failed)".to_owned(),
            Error::Service { status, body } => {
                let mut out = "geocoding error: ".to_owned();
                out.append(status.as_str());
                out.append("\n");
                out.append(body.as_str());
                out
            },
            Error::InvalidUrl => "invalid web address for the geocoding service".to_owned(),
            Error::UnknownMatchStrategy(name) => {
                let mut out = "unknown match strategy ".to_owned();
                out.append(quote(name.as_str()).as_str());
                out
            },
            Error::InvalidColumnName(name) => {
                let mut out = "invalid column name: ".to_owned();
                out.append(quote(name.as_str()).as_str());
                out
            },
            Error::ConflictingColumnNames { first, second, identifier } => {
                let mut out = "conflicting column names ".to_owned();
                out.append(quote(first.as_str()).as_str());
                out.append(" and ");
                out.append(quote(second.as_str()).as_str());
                out.append(" would both map to ");
                out.append(quote(identifier.as_str()).as_str());
                out
            },
            Error::UnknownCleaner(name) => {
                let mut out = "invalid --clean-column-names argument: ".to_owned();
                out.append(quote(name.as_str()).as_str());
                out
            },
            Error::UnknownDuplicateColumns(name) => {
                let mut out = "unknown policy for duplicate columns ".to_owned();
                out.append(quote(name.as_str()).as_str());
                out
            },
            Error::GeocoderGone => "could not send rows to geocoder (perhaps it failed)".to_owned(),
            Error::GeocoderGoneAtEnd => "could not send end-of-stream to geocoder (perhaps it failed)".to_owned(),
            Error::WriterGone => "could not send message to output thread".to_owned(),
            Error::PipelineFailed => "geocoding stdio failed".to_owned(),
            Error::InvalidPopulationData => "invalid zip code population data".to_owned(),
            Error::PopulationTooLarge => "zip code population data counts too many people".to_owned(),
        }
    }
}

} // verus!