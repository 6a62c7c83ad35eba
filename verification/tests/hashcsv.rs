use csv_tools::hashcsv::{add_id_header, add_row_id, hash_input, row_id};

fn record(fields: &[&str]) -> Vec<Vec<u8>> {
    fields.iter().map(|f| f.as_bytes().to_vec()).collect()
}

#[test]
fn assigns_hashes_based_on_row_contents() {
    let mut header = record(&["a", "b", "c"]);
    add_id_header(&mut header, "id");
    assert_eq!(header, record(&["a", "b", "c", "id"]));

    let mut rows = vec![record(&["1", "2", "3"]), record(&["1", "2", "3"]), record(&["4", "5", "6"])];
    for row in rows.iter_mut() {
        assert!(add_row_id(row));
    }
    assert_eq!(
        rows,
        vec![
            record(&["1", "2", "3", "ab37bf3a-c35c-51a9-802d-8eda9ee2f50a"]),
            record(&["1", "2", "3", "ab37bf3a-c35c-51a9-802d-8eda9ee2f50a"]),
            record(&["4", "5", "6", "481492ee-82c7-58b9-95ec-d92cbcd332c4"]),
        ],
    );
}

#[test]
fn allows_setting_column_name() {
    let mut header = record(&["a", "b", "c"]);
    add_id_header(&mut header, "hash");
    assert_eq!(header, record(&["a", "b", "c", "hash"]));
    let mut row = record(&["1", "2", "3"]);
    assert!(add_row_id(&mut row));
    assert_eq!(row, record(&["1", "2", "3", "ab37bf3a-c35c-51a9-802d-8eda9ee2f50a"]));
}

#[test]
fn every_field_is_hashed_with_a_zero_byte_behind_it() {
    assert_eq!(hash_input(&record(&["1", "2", "3"])), b"1\x002\x003\x00".to_vec());
    assert_eq!(hash_input(&record(&["ab", "", "c"])), b"ab\x00\x00c\x00".to_vec());
    assert_eq!(hash_input(&record(&[])), Vec::<u8>::new());
    assert_eq!(hash_input(&vec![vec![0xff, 0x00]]), vec![0xff, 0x00, 0x00]);
}

#[test]
fn fields_are_told_apart_by_where_they_end() {
    assert_ne!(row_id(&record(&["ab", "c"])), row_id(&record(&["a", "bc"])));
    assert_ne!(row_id(&record(&["a"])), row_id(&record(&["a", ""])));
    assert_eq!(row_id(&record(&["1", "2", "3"])).unwrap(), "ab37bf3a-c35c-51a9-802d-8eda9ee2f50a");
}
