use csv_tools::errors::Error;

#[test]
fn no_such_column_names_the_column() {
    let error = Error::no_such_column("postcode");
    assert_eq!(error, Error::NoSuchColumn("postcode".to_owned()));
    assert_eq!(error.message(), "No CSV column with name 'postcode'");
}

#[test]
fn non_utf8_zip_names_the_line() {
    assert_eq!(Error::non_utf8_zip(Some(12)).message(), "Non-UTF8 zip code data at line Some(12)");
    assert_eq!(Error::non_utf8_zip(None).message(), "Non-UTF8 zip code data at line None");
}

#[test]
fn messages_say_what_went_wrong() {
    assert_eq!(
        Error::DuplicateHeaderColumn("zip".to_owned()).message(),
        "duplicate header column `zip`",
    );
    assert_eq!(
        Error::ColumnNotFound("zip".to_owned()).message(),
        "could not find column `zip` in header",
    );
    assert_eq!(
        Error::UnequalLengths { expected: 3, found: 2 }.message(),
        "found record with 2 fields, but the header has 3 fields",
    );
    assert_eq!(Error::NotAnObject.message(), "invalid structure: expected an object");
    assert_eq!(
        Error::InvalidStructure { path: vec!["metadata".to_owned(), "pre\"cision".to_owned()] }.message(),
        "invalid structure at [\"metadata\", \"pre\\\"cision\"]",
    );
    assert_eq!(
        Error::UnexpectedValue { path: vec!["addressee".to_owned()] }.message(),
        "unexpected value at [\"addressee\"]",
    );
    assert_eq!(
        Error::IndexOutOfRange { output_len: 72, index: 1000 }.message(),
        "output has length 72, but found index 1000",
    );
    assert_eq!(Error::DuplicateIndex { index: 0 }.message(), "index 0 appears twice");
    assert_eq!(
        Error::ResultCountMismatch { expected_rows: 36, groups: 2, found: 71 }.message(),
        "expected results for 36 rows and 2 address groups, but found 71",
    );
    assert_eq!(
        Error::MissingEndOfStream.message(),
        "did not receive end-of-stream from geocoder (perhaps it failed)",
    );
    assert_eq!(Error::InvalidUrl.message(), "invalid web address for the geocoding service");
    assert_eq!(
        Error::UnknownMatchStrategy("lax\n".to_owned()).message(),
        "unknown match strategy \"lax\\n\"",
    );
    assert_eq!(
        Error::InvalidColumnName("a,".to_owned()).message(),
        "invalid column name: \"a,\"",
    );
    assert_eq!(
        Error::ConflictingColumnNames {
            first: "A b".to_owned(),
            second: "a_b".to_owned(),
            identifier: "a_b".to_owned(),
        }
        .message(),
        "conflicting column names \"A b\" and \"a_b\" would both map to \"a_b\"",
    );
    assert_eq!(
        Error::UnknownCleaner("fast".to_owned()).message(),
        "invalid --clean-column-names argument: \"fast\"",
    );
    assert_eq!(
        Error::UnknownDuplicateColumns("drop".to_owned()).message(),
        "unknown policy for duplicate columns \"drop\"",
    );
    assert_eq!(
        Error::GeocoderGone.message(),
        "could not send rows to geocoder (perhaps it failed)",
    );
    assert_eq!(
        Error::GeocoderGoneAtEnd.message(),
        "could not send end-of-stream to geocoder (perhaps it failed)",
    );
    assert_eq!(Error::WriterGone.message(), "could not send message to output thread");
    assert_eq!(Error::PipelineFailed.message(), "geocoding stdio failed");
}
