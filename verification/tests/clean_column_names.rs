use csv_tools::clean_column_names::stable::{check_safe_name, normalize, StableCleaner};
use csv_tools::clean_column_names::unique::Uniquifier;
use csv_tools::clean_column_names::{Cleaner, ColumnNameCleaner, ColumnNameCleanerType};
use csv_tools::errors::Error;

fn clean(kind: ColumnNameCleanerType, names: &[&str]) -> Result<Vec<String>, Error> {
    let mut cleaner = kind.build_cleaner();
    names.iter().map(|name| cleaner.unique_id_for(name)).collect()
}

#[test]
fn clean_column_names_unique() {
    assert_eq!(
        clean(ColumnNameCleanerType::Unique, &["", "", "a", "a"]).unwrap(),
        vec!["_", "__2", "a", "a_2"],
    );
}

#[test]
fn clean_column_names_stable() {
    assert_eq!(
        clean(ColumnNameCleanerType::Stable, &["a", "B", "C d"]).unwrap(),
        vec!["a", "b", "c_d"],
    );
}

#[test]
fn clean_column_names_stable_rejects_certain_names() {
    let invalid_column_names: &[(&[&str], &str)] = &[
        (&["a", ""], "invalid column name"),
        (&["1"], "invalid column name"),
        (&["A", "a"], "conflicting column names"),
        (&["A b", "a_b"], "conflicting column names"),
    ];

    for &(names, err) in invalid_column_names {
        let error = clean(ColumnNameCleanerType::Stable, names).unwrap_err();
        assert!(error.message().contains(err));
    }
}

#[test]
fn stable_errors_name_the_columns() {
    let mut cleaner = StableCleaner::default();
    assert_eq!(cleaner.unique_id_for("A b").unwrap(), "a_b");
    assert_eq!(
        cleaner.unique_id_for("a_b").unwrap_err(),
        Error::ConflictingColumnNames {
            first: "A b".to_owned(),
            second: "a_b".to_owned(),
            identifier: "a_b".to_owned(),
        },
    );
    // The name that came last is the one that is remembered.
    assert_eq!(
        cleaner.unique_id_for("A_B").unwrap_err(),
        Error::ConflictingColumnNames {
            first: "a_b".to_owned(),
            second: "A_B".to_owned(),
            identifier: "a_b".to_owned(),
        },
    );
    assert_eq!(
        cleaner.unique_id_for("héllo").unwrap_err(),
        Error::InvalidColumnName("héllo".to_owned()),
    );
    assert_eq!(cleaner.unique_id_for("_x9").unwrap(), "_x9");
}

#[test]
fn names_are_put_into_lower_case_with_underscores_for_spaces() {
    assert_eq!(normalize("Hello World"), "hello_world");
    assert_eq!(normalize("AZ az 09 _-É"), "az_az_09__-É");
    assert_eq!(normalize(""), "");
    assert!(check_safe_name("hello_world"));
    assert!(check_safe_name("_"));
    assert!(check_safe_name("a1"));
    assert!(!check_safe_name(""));
    assert!(!check_safe_name("1a"));
    assert!(!check_safe_name("A"));
    assert!(!check_safe_name("a-b"));
    assert!(!check_safe_name("a\n"));
    assert!(!check_safe_name("é"));
}

#[test]
fn unique_ids_are_identifiers_that_differ() {
    let mut cleaner = Uniquifier::default();
    let names = ["Name", "name", "NAME", "2nd", "a b", "a-b", "a_b", "é", "", "name_2", "Name"];
    let mut ids = Vec::new();
    for name in names {
        let id = cleaner.unique_id_for(name).unwrap();
        assert!(check_safe_name(&id));
        assert!(!ids.contains(&id));
        ids.push(id);
    }
    assert_eq!(
        ids,
        vec!["name", "name_2", "name_3", "_2nd", "a_b", "a_b_2", "a_b_3", "_", "__2", "name_2_2", "name_4"],
    );
}

#[test]
fn cleaner_types_are_read_from_their_names() {
    assert_eq!(ColumnNameCleanerType::from_str("unique"), Ok(ColumnNameCleanerType::Unique));
    assert_eq!(ColumnNameCleanerType::from_str("stable"), Ok(ColumnNameCleanerType::Stable));
    assert_eq!(
        ColumnNameCleanerType::from_str("Stable"),
        Err(Error::UnknownCleaner("Stable".to_owned())),
    );
    assert!(matches!(ColumnNameCleanerType::Unique.build_cleaner(), Cleaner::Unique(_)));
    assert!(matches!(ColumnNameCleanerType::Stable.build_cleaner(), Cleaner::Stable(_)));
}
