use csv_tools::fixed2csv::{extract_fields, extract_line_fields};

fn fields(line: &str, widths: &[usize]) -> Vec<String> {
    extract_line_fields(line.as_bytes(), widths)
        .into_iter()
        .map(|field| String::from_utf8(field).unwrap())
        .collect()
}

#[test]
fn extracts_fields() {
    let input = "\
first     last      middle
John      Smith     Q
Sally     Jones
";
    let cols = &[10, 10, 6];
    let expected = "\
first,last,middle
John,Smith,Q
Sally,Jones,
";

    let mut w = vec![];
    {
        let mut out = csv::Writer::from_writer(&mut w);
        let (records, total) = extract_fields(input.as_bytes(), cols);
        assert_eq!(total, input.len());
        for record in records {
            out.write_record(&record).unwrap();
        }
        out.flush().unwrap();
    }
    assert_eq!(String::from_utf8_lossy(&w), expected);
}

#[test]
fn fields_are_cut_at_their_widths_and_lose_trailing_spaces() {
    assert_eq!(fields("ab  cd ef\n", &[4, 3, 2]), vec!["ab", "cd", "ef"]);
    assert_eq!(fields("  ab  cd\n", &[4, 4]), vec!["  ab", "  cd"]);
    assert_eq!(fields("abcdef\n", &[2, 2]), vec!["ab", "cd"]);
    assert_eq!(fields("abc\n", &[2, 2, 2]), vec!["ab", "c", ""]);
    assert_eq!(fields("    \n", &[2, 2]), vec!["", ""]);
    assert_eq!(fields("abc\n", &[]), Vec::<String>::new());
    assert_eq!(fields("abc\n", &[0, 3]), vec!["", "abc"]);
    assert_eq!(fields("abc\n", &[usize::MAX, 3]), vec!["abc", ""]);
    assert_eq!(fields("abc\n", &[1, usize::MAX, usize::MAX]), vec!["a", "bc", ""]);
}

#[test]
fn a_carriage_return_before_the_line_feed_is_no_field_data() {
    assert_eq!(fields("ab cd\r\n", &[3, 3]), vec!["ab", "cd"]);
    assert_eq!(fields("\r\n", &[3]), vec![""]);
    assert_eq!(fields("\n", &[3]), vec![""]);
    // The last byte of a line is taken for its line feed, whatever it is.
    assert_eq!(fields("abcd", &[4]), vec!["abc"]);
    assert_eq!(fields("ab\rd", &[4]), vec!["ab"]);
}

#[test]
fn the_input_is_read_line_by_line() {
    let (records, total) = extract_fields(b"a b\r\nc d\n\ne f", &[2, 2]);
    assert_eq!(total, 13);
    let records: Vec<Vec<String>> = records
        .into_iter()
        .map(|r| r.into_iter().map(|f| String::from_utf8(f).unwrap()).collect())
        .collect();
    assert_eq!(records, vec![vec!["a", "b"], vec!["c", "d"], vec!["", ""], vec!["e", ""]]);
    let (records, total) = extract_fields(b"", &[2, 2]);
    assert_eq!((records.len(), total), (0, 0));
}
