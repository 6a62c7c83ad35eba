use csv_tools::errors::Error;
use csv_tools::structure::{Json, Structure};

fn record(fields: &[&str]) -> Vec<String> {
    fields.iter().map(|f| (*f).to_owned()).collect()
}

fn object(entries: Vec<(&str, Json)>) -> Json {
    Json::Object(entries.into_iter().map(|(k, v)| (k.to_owned(), v)).collect())
}

fn text(s: &str) -> Json {
    Json::Text(s.to_owned())
}

#[test]
fn add_header_columns() {
    let structure = Structure::complete().unwrap();
    let mut header = record(&["existing"]);
    structure.add_header_columns("x", &mut header).unwrap();
    let expected = record(
        &[
            "existing",
            "x_addressee",
            "x_delivery_line_1",
            "x_delivery_line_2",
            "x_last_line",
            "x_delivery_point_barcode",
            "x_urbanization",
            "x_primary_number",
            "x_street_name",
            "x_street_predirection",
            "x_street_postdirection",
            "x_street_suffix",
            "x_secondary_number",
            "x_secondary_designator",
            "x_extra_secondary_number",
            "x_extra_secondary_designator",
            "x_pmb_designator",
            "x_pmb_number",
            "x_city_name",
            "x_default_city_name",
            "x_state_abbreviation",
            "x_zipcode",
            "x_plus4_code",
            "x_delivery_point",
            "x_delivery_point_check_digit",
            "x_record_type",
            "x_zip_type",
            "x_county_fips",
            "x_county_name",
            "x_carrier_route",
            "x_congressional_district",
            "x_building_default_indicator",
            "x_rdi",
            "x_elot_sequence",
            "x_elot_sort",
            "x_latitude",
            "x_longitude",
            "x_precision",
            "x_time_zone",
            "x_utc_offset",
            "x_dst",
            "x_dpv_match_code",
            "x_dpv_footnotes",
            "x_dpv_cmra",
            "x_dpv_vacant",
            "x_active",
            "x_ews_match",
            "x_footnotes",
            "x_lacslink_code",
            "x_lacslink_indicator",
            "x_suitelink_match",
        ][..],
    );
    assert_eq!(header, expected);
}

#[test]
fn add_value_columns() {
    let structure = Structure::complete().unwrap();

    let data = object(vec![
        ("addressee", text("ACME, Inc.")),
        ("metadata", object(vec![("precision", text("Zip5"))])),
    ]);

    let mut row = record(&["existing"]);
    structure.add_value_columns_to_row(&data, &mut row).unwrap();
    let mut expected = record(&["existing", "ACME, Inc."]);
    for _ in 0..35 {
        expected.push("".to_owned());
    }
    expected.push("Zip5".to_owned());
    for _ in 0..13 {
        expected.push("".to_owned());
    }
    assert_eq!(row.len(), 51);
    assert_eq!(row, expected);
}

#[test]
fn complete_structure_has_fifty_columns() {
    assert_eq!(Structure::complete().unwrap().column_count(), 50);
}

#[test]
fn add_empty_columns_adds_one_empty_column_for_each_field() {
    let structure = Structure::complete().unwrap();
    let mut row = record(&["a", "b"]);
    structure.add_empty_columns_to_row(&mut row).unwrap();
    assert_eq!(row.len(), 52);
    assert_eq!(&row[..2], &record(&["a", "b"])[..]);
    assert!(row[2..].iter().all(|field| field.is_empty()));
}

#[test]
fn column_count_is_the_same_with_and_without_a_match() {
    let structure = Structure::complete().unwrap();
    let mut matched = record(&["a"]);
    let mut unmatched = record(&["a"]);
    let data = object(vec![("addressee", text("Somebody")), ("unknown", text("ignored"))]);
    structure.add_value_columns_to_row(&data, &mut matched).unwrap();
    structure.add_empty_columns_to_row(&mut unmatched).unwrap();
    assert_eq!(matched.len(), unmatched.len());
    assert_eq!(matched.len(), 1 + structure.column_count());
}

#[test]
fn values_are_written_by_their_kind() {
    let selection = object(vec![
        ("flag", Json::Bool(true)),
        ("off", Json::Bool(true)),
        ("nothing", Json::Bool(true)),
        ("number", Json::Bool(true)),
        ("text", Json::Bool(true)),
        ("missing", Json::Bool(true)),
        ("skipped", Json::Bool(false)),
        ("nested", object(vec![("inner", Json::Bool(true)), ("other", Json::Bool(false)), ("gone", Json::Bool(true))])),
    ]);
    let structure = Structure::from_json(&selection).unwrap();
    assert_eq!(structure.column_count(), 8);
    let data = object(vec![
        ("flag", Json::Bool(true)),
        ("off", Json::Bool(false)),
        ("nothing", Json::Null),
        ("number", Json::Number("40.74853".to_owned())),
        ("text", text("hello")),
        ("skipped", text("not selected")),
        ("nested", object(vec![("inner", text("deep")), ("other", text("not selected"))])),
    ]);
    let mut row = Vec::new();
    structure.add_value_columns_to_row(&data, &mut row).unwrap();
    assert_eq!(row, record(&["T", "F", "", "40.74853", "hello", "", "deep", ""]));
    let mut header = Vec::new();
    structure.add_header_columns("p", &mut header).unwrap();
    assert_eq!(
        header,
        record(&["p_flag", "p_off", "p_nothing", "p_number", "p_text", "p_missing", "p_inner", "p_gone"]),
    );
}

#[test]
fn a_nested_field_of_a_plain_value_is_missing() {
    let selection = object(vec![("metadata", object(vec![("precision", Json::Bool(true))]))]);
    let structure = Structure::from_json(&selection).unwrap();
    let mut row = Vec::new();
    structure
        .add_value_columns_to_row(&object(vec![("metadata", text("flat"))]), &mut row)
        .unwrap();
    assert_eq!(row, record(&[""]));
    let mut row = Vec::new();
    structure.add_value_columns_to_row(&Json::Null, &mut row).unwrap();
    assert_eq!(row, record(&[""]));
}

#[test]
fn a_list_or_an_object_at_a_selected_field_is_an_error() {
    let selection = object(vec![("a", Json::Bool(true)), ("b", Json::Bool(true)), ("c", Json::Bool(true))]);
    let structure = Structure::from_json(&selection).unwrap();
    let data = object(vec![("a", text("x")), ("b", Json::Array(vec![])), ("c", object(vec![]))]);
    let mut row = record(&["first"]);
    assert_eq!(
        structure.add_value_columns_to_row(&data, &mut row),
        Err(Error::UnexpectedValue { path: record(&["b"]) }),
    );
    assert_eq!(row, record(&["first", "x"]));
}

#[test]
fn from_json_refuses_what_is_not_a_selection() {
    assert_eq!(Structure::from_json(&Json::Bool(true)).unwrap_err(), Error::NotAnObject);
    assert_eq!(Structure::from_json(&Json::Array(vec![])).unwrap_err(), Error::NotAnObject);
    assert_eq!(
        Structure::from_json(&object(vec![("a", Json::Bool(true)), ("b", text("yes")), ("c", Json::Null)]))
            .unwrap_err(),
        Error::InvalidStructure { path: record(&["b"]) },
    );
    assert_eq!(
        Structure::from_json(&object(vec![
            ("a", object(vec![("x", Json::Bool(false)), ("y", object(vec![]))])),
            ("b", text("yes")),
        ]))
        .unwrap_err(),
        Error::InvalidStructure { path: record(&["a", "y"]) },
    );
    assert_eq!(Structure::from_json(&object(vec![])).unwrap().column_count(), 0);
}

#[test]
fn get_finds_the_first_entry_of_a_key() {
    let data = object(vec![("a", text("1")), ("b", text("2")), ("a", text("3"))]);
    assert_eq!(data.get("a"), Some(&text("1")));
    assert_eq!(data.get("b"), Some(&text("2")));
    assert_eq!(data.get("c"), None);
    assert_eq!(text("a").get("a"), None);
}
