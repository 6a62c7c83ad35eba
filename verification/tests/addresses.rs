use csv_tools::addresses::{Address, AddressColumnKeys, AddressColumnSpec, ColumnKeyOrKeys};
use csv_tools::errors::Error;
use csv_tools::structure::Structure;

fn record(fields: &[&str]) -> Vec<String> {
    fields.iter().map(|f| (*f).to_owned()).collect()
}

fn named(street: ColumnKeyOrKeys<String>) -> AddressColumnKeys<String> {
    AddressColumnKeys { street, city: None, state: None, zipcode: None }
}

#[test]
fn extract_simple_address_from_record() {
    let record = record(&["1600 Pennsylvania Avenue NW, Washington DC, 20500"]);
    let keys = AddressColumnKeys {
        street: ColumnKeyOrKeys::Key(0),
        city: None,
        state: None,
        zipcode: None,
    };
    assert_eq!(
        keys.extract_address_from_record(&record).unwrap(),
        Address {
            street: "1600 Pennsylvania Avenue NW, Washington DC, 20500".to_owned(),
            city: None,
            state: None,
            zipcode: None,
        },
    );
}

#[test]
fn extract_complex_address_from_record() {
    let record = record(&["1600", "Pennsylvania Avenue NW", "Washington", "DC", "20500"]);
    let keys = AddressColumnKeys {
        street: ColumnKeyOrKeys::Keys(vec![0, 1]),
        city: Some(2),
        state: Some(3),
        zipcode: Some(4),
    };
    assert_eq!(
        keys.extract_address_from_record(&record).unwrap(),
        Address {
            street: "1600 Pennsylvania Avenue NW".to_owned(),
            city: Some("Washington".to_owned()),
            state: Some("DC".to_owned()),
            zipcode: Some("20500".to_owned()),
        },
    );
}

#[test]
fn convert_address_column_spec_to_indices() {
    let headers = record(&[
        "home_number",
        "home_street",
        "home_city",
        "home_state",
        "home_zip",
        "work_address",
    ]);
    let address_column_spec: AddressColumnSpec<String> = AddressColumnSpec::new()
        .with_prefix(
            "home",
            AddressColumnKeys {
                street: ColumnKeyOrKeys::Keys(vec![
                    "home_number".to_owned(),
                    "home_street".to_owned(),
                ]),
                city: Some("home_city".to_owned()),
                state: Some("home_state".to_owned()),
                zipcode: Some("home_zip".to_owned()),
            },
        )
        .with_prefix("work", named(ColumnKeyOrKeys::Key("work_address".to_owned())));

    let expected = AddressColumnSpec::<usize>::new()
        .with_prefix(
            "home",
            AddressColumnKeys {
                street: ColumnKeyOrKeys::Keys(vec![0, 1]),
                city: Some(2),
                state: Some(3),
                zipcode: Some(4),
            },
        )
        .with_prefix(
            "work",
            AddressColumnKeys {
                street: ColumnKeyOrKeys::Key(5),
                city: None,
                state: None,
                zipcode: None,
            },
        );
    assert_eq!(
        address_column_spec.convert_to_indices_using_headers(&headers).unwrap(),
        expected,
    );
}

#[test]
fn extract_from_record_joins_several_columns_with_spaces() {
    let record = record(&["20 W 34th St", "", "New York"]);
    assert_eq!(
        ColumnKeyOrKeys::Keys(vec![0, 1, 2]).extract_from_record(&record).unwrap(),
        "20 W 34th St  New York",
    );
    assert_eq!(ColumnKeyOrKeys::Keys(vec![]).extract_from_record(&record).unwrap(), "");
    assert_eq!(ColumnKeyOrKeys::Key(2).extract_from_record(&record).unwrap(), "New York");
    assert_eq!(ColumnKeyOrKeys::Keys(vec![2, 0]).extract_from_record(&record).unwrap(), "New York 20 W 34th St");
}

#[test]
fn prefixes_come_in_ascending_order_whatever_the_order_of_insertion() {
    let spec: AddressColumnSpec<usize> = AddressColumnSpec::new()
        .with_prefix("work", AddressColumnKeys { street: ColumnKeyOrKeys::Key(1), city: None, state: None, zipcode: None })
        .with_prefix("home", AddressColumnKeys { street: ColumnKeyOrKeys::Key(0), city: None, state: None, zipcode: None })
        .with_prefix("billing", AddressColumnKeys { street: ColumnKeyOrKeys::Key(2), city: None, state: None, zipcode: None })
        .with_prefix("Zoo", AddressColumnKeys { street: ColumnKeyOrKeys::Key(3), city: None, state: None, zipcode: None });
    assert_eq!(spec.prefixes(), vec!["Zoo", "billing", "home", "work"]);
    assert_eq!(spec.prefix_count(), 4);
    assert_eq!(spec.prefix_at(1), "billing");
    assert_eq!(spec.keys_at(1).street, ColumnKeyOrKeys::Key(2));
}

#[test]
fn get_finds_the_keys_of_a_prefix() {
    let spec: AddressColumnSpec<usize> = AddressColumnSpec::new()
        .with_prefix("work", AddressColumnKeys { street: ColumnKeyOrKeys::Key(1), city: None, state: None, zipcode: Some(7) })
        .with_prefix("home", AddressColumnKeys { street: ColumnKeyOrKeys::Key(0), city: None, state: None, zipcode: None });
    assert_eq!(spec.get("work").unwrap().zipcode, Some(7));
    assert_eq!(spec.get("home").unwrap().street, ColumnKeyOrKeys::Key(0));
    assert!(spec.get("hom").is_none());
    assert!(spec.get("").is_none());
    assert!(AddressColumnSpec::<usize>::new().get("home").is_none());
}

#[test]
fn with_prefix_replaces_the_keys_of_a_known_prefix() {
    let spec: AddressColumnSpec<usize> = AddressColumnSpec::new()
        .with_prefix("home", AddressColumnKeys { street: ColumnKeyOrKeys::Key(0), city: None, state: None, zipcode: None })
        .with_prefix("work", AddressColumnKeys { street: ColumnKeyOrKeys::Key(1), city: None, state: None, zipcode: None })
        .with_prefix("home", AddressColumnKeys { street: ColumnKeyOrKeys::Key(9), city: None, state: None, zipcode: None });
    assert_eq!(spec.prefix_count(), 2);
    assert_eq!(spec.prefixes(), vec!["home", "work"]);
    assert_eq!(spec.get("home").unwrap().street, ColumnKeyOrKeys::Key(9));
}

#[test]
fn convert_reports_the_first_duplicate_header() {
    let headers = record(&["a", "b", "a", "b"]);
    let spec = AddressColumnSpec::new().with_prefix("gc", named(ColumnKeyOrKeys::Key("a".to_owned())));
    assert_eq!(
        spec.convert_to_indices_using_headers(&headers),
        Err(Error::DuplicateHeaderColumn("a".to_owned())),
    );
    let headers = record(&["a", "b", "c", "c", "a"]);
    assert_eq!(
        spec.convert_to_indices_using_headers(&headers),
        Err(Error::DuplicateHeaderColumn("c".to_owned())),
    );
}

#[test]
fn convert_reports_the_first_missing_column() {
    let headers = record(&["street", "zip"]);
    let spec = AddressColumnSpec::new()
        .with_prefix(
            "b",
            AddressColumnKeys {
                street: ColumnKeyOrKeys::Keys(vec!["street".to_owned(), "street2".to_owned()]),
                city: Some("city".to_owned()),
                state: None,
                zipcode: Some("zip".to_owned()),
            },
        )
        .with_prefix("a", named(ColumnKeyOrKeys::Key("street".to_owned())));
    assert_eq!(
        spec.convert_to_indices_using_headers(&headers),
        Err(Error::ColumnNotFound("street2".to_owned())),
    );
    let spec = AddressColumnSpec::new().with_prefix(
        "b",
        AddressColumnKeys {
            street: ColumnKeyOrKeys::Key("street".to_owned()),
            city: None,
            state: Some("state".to_owned()),
            zipcode: Some("postcode".to_owned()),
        },
    );
    assert_eq!(
        spec.convert_to_indices_using_headers(&headers),
        Err(Error::ColumnNotFound("state".to_owned())),
    );
}

#[test]
fn duplicate_columns_lists_colliding_input_columns_in_header_order() {
    let structure = Structure::complete().unwrap();
    let spec = AddressColumnSpec::new()
        .with_prefix("gc", named(ColumnKeyOrKeys::Key("address".to_owned())))
        .with_prefix("alt", named(ColumnKeyOrKeys::Key("address".to_owned())));
    let headers = record(&["gc_zipcode", "address", "alt_rdi", "gc_addressee", "zip", "gc_"]);
    assert_eq!(
        spec.duplicate_columns(&structure, &headers).unwrap(),
        vec![
            ("gc_zipcode".to_owned(), 0),
            ("alt_rdi".to_owned(), 2),
            ("gc_addressee".to_owned(), 3),
        ],
    );
    assert_eq!(spec.duplicate_columns(&structure, &record(&["address", "zip"])).unwrap(), vec![]);
}

#[test]
fn output_column_names_go_group_by_group() {
    let structure = Structure::complete().unwrap();
    let spec = AddressColumnSpec::new()
        .with_prefix("shipping", named(ColumnKeyOrKeys::Key("a".to_owned())))
        .with_prefix("billing", named(ColumnKeyOrKeys::Key("a".to_owned())));
    let names = spec.output_column_names(&structure);
    assert_eq!(names.len(), 100);
    assert_eq!(names[0], "billing_addressee");
    assert_eq!(names[49], "billing_suitelink_match");
    assert_eq!(names[50], "shipping_addressee");
    assert_eq!(names[99], "shipping_suitelink_match");
}
