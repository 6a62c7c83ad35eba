use csv_tools::addresses::{AddressColumnKeys, AddressColumnSpec, ColumnKeyOrKeys};
use csv_tools::errors::Error;
use csv_tools::geocoder::{
    begin_chunk, WorkerStep, build_requests, chunk_size_for, combine_stage_results, merge_responses, remove_columns,
    write_all, ChunkAssembler, Failure, Message, OnDuplicateColumns, RetryDecision, RetryState,
    WriterState, CHANNEL_BUFFER, CONCURRENCY, GEOCODE_SIZE,
};
use csv_tools::smartystreets::{unpack_responses, AddressRequest, AddressResponse, MatchStrategy};
use csv_tools::structure::{Json, Structure};

fn record(fields: &[&str]) -> Vec<String> {
    fields.iter().map(|f| (*f).to_owned()).collect()
}

fn keys(street: &[&str], city: Option<&str>, state: Option<&str>, zipcode: Option<&str>) -> AddressColumnKeys<String> {
    let street = if street.len() == 1 {
        ColumnKeyOrKeys::Key(street[0].to_owned())
    } else {
        ColumnKeyOrKeys::Keys(record(street))
    };
    AddressColumnKeys {
        street,
        city: city.map(|s| s.to_owned()),
        state: state.map(|s| s.to_owned()),
        zipcode: zipcode.map(|s| s.to_owned()),
    }
}

fn simple_spec() -> AddressColumnSpec<String> {
    AddressColumnSpec::new().with_prefix("gc", keys(&["address"], None, None, Some("zip")))
}

fn empire_state(request: &AddressRequest) -> Option<Json> {
    if request.address.street.starts_with("20 W 34th St") {
        Some(Json::Object(vec![
            ("addressee".to_owned(), Json::Text("Empire State Building".to_owned())),
            (
                "metadata".to_owned(),
                Json::Object(vec![("rdi".to_owned(), Json::Text("Commercial".to_owned()))]),
            ),
        ]))
    } else {
        None
    }
}

/// Runs a table through the stages of the pipeline, one after the other,
/// with `service` in place of the geocoding service.
fn geocode_table(
    spec: AddressColumnSpec<String>,
    policy: OnDuplicateColumns,
    header: &[&str],
    rows: Vec<Vec<String>>,
    service: fn(&AddressRequest) -> Option<Json>,
) -> Result<Vec<Vec<String>>, Error> {
    let structure = Structure::complete()?;
    let assembler = ChunkAssembler::new(spec, structure, policy, record(header))?;
    let messages = assembler.assemble_all(rows)?;
    let mut geocoded_messages = Vec::new();
    for message in messages {
        match message {
            Message::Chunk(chunk) => {
                let requests = build_requests(&chunk, MatchStrategy::Strict);
                // The service answers in reverse, and leaves out what it does not find.
                let mut responses = Vec::new();
                for (input_index, request) in requests.iter().enumerate().rev() {
                    if let Some(fields) = service(request) {
                        responses.push(AddressResponse { input_index, fields });
                    }
                }
                let geocoded = unpack_responses(responses, requests.len())?;
                geocoded_messages.push(Message::Chunk(merge_responses(chunk, geocoded)?));
            }
            Message::EndOfStream => geocoded_messages.push(Message::EndOfStream),
        }
    }
    write_all(geocoded_messages)
}

#[test]
fn all_fields() {
    let spec = AddressColumnSpec::new().with_prefix(
        "gc",
        keys(&["address_1", "address_2"], Some("city"), Some("state"), Some("zip_code")),
    );
    let written = geocode_table(
        spec,
        OnDuplicateColumns::Error,
        &["address_1", "address_2", "city", "state", "zip_code"],
        vec![record(&["20 W 34th St", "", "New York", "NY", "10118"])],
        empire_state,
    )
    .unwrap();
    assert_eq!(written.len(), 2);
    assert_eq!(written[0].len(), 55);
    assert_eq!(&written[0][..6], &record(&["address_1", "address_2", "city", "state", "zip_code", "gc_addressee"])[..]);
    assert_eq!(written[1].len(), 55);
    assert_eq!(&written[1][..6], &record(&["20 W 34th St", "", "New York", "NY", "10118", "Empire State Building"])[..]);
    let rdi = written[0].iter().position(|name| name == "gc_rdi").unwrap();
    assert_eq!(written[1][rdi], "Commercial");
    for (i, field) in written[1].iter().enumerate() {
        if i > 5 && i != rdi {
            assert_eq!(field, "");
        }
    }
}

#[test]
fn requests_carry_the_address_and_the_strategy() {
    let spec = AddressColumnSpec::new().with_prefix(
        "gc",
        keys(&["address_1", "address_2"], Some("city"), Some("state"), Some("zip_code")),
    );
    let assembler = ChunkAssembler::new(
        spec,
        Structure::complete().unwrap(),
        OnDuplicateColumns::Error,
        record(&["address_1", "address_2", "city", "state", "zip_code"]),
    )
    .unwrap();
    let mut messages = assembler
        .assemble_all(vec![record(&["20 W 34th St", "", "New York", "NY", "10118"])])
        .unwrap();
    assert_eq!(messages.len(), 2);
    let chunk = match messages.remove(0) {
        Message::Chunk(chunk) => chunk,
        Message::EndOfStream => panic!("the end marker came first"),
    };
    let requests = build_requests(&chunk, MatchStrategy::Range);
    assert_eq!(requests.len(), 1);
    assert_eq!(requests[0].match_strategy, MatchStrategy::Range);
    assert_eq!(requests[0].address.street, "20 W 34th St ");
    assert_eq!(requests[0].address.city.as_deref(), Some("New York"));
    assert_eq!(requests[0].address.state.as_deref(), Some("NY"));
    assert_eq!(requests[0].address.zipcode.as_deref(), Some("10118"));
}

#[test]
fn single_address_field() {
    let spec = AddressColumnSpec::new()
        .with_prefix("gc", keys(&["address_1"], Some("city"), Some("state"), Some("zip_code")));
    let written = geocode_table(
        spec,
        OnDuplicateColumns::Error,
        &["address_1", "address_2", "city", "state", "zip_code"],
        vec![record(&["20 W 34th St", "", "New York", "NY", "10118"])],
        empire_state,
    )
    .unwrap();
    assert!(written[0].contains(&"gc_addressee".to_owned()));
    assert!(written[1].contains(&"Commercial".to_owned()));
}

#[test]
fn no_city_or_state() {
    let spec = AddressColumnSpec::new()
        .with_prefix("gc", keys(&["address_1", "address_2"], None, None, Some("zip_code")));
    let written = geocode_table(
        spec,
        OnDuplicateColumns::Error,
        &["address_1", "address_2", "city", "state", "zip_code"],
        vec![record(&["20 W 34th St", "", "New York", "NY", "10118"])],
        empire_state,
    )
    .unwrap();
    assert!(written[0].contains(&"gc_addressee".to_owned()));
    assert!(written[1].contains(&"Commercial".to_owned()));
}

#[test]
fn freeform() {
    let spec = AddressColumnSpec::new().with_prefix(
        "gc",
        keys(&["address_1", "address_2", "city", "state", "zip_code"], None, None, None),
    );
    let written = geocode_table(
        spec,
        OnDuplicateColumns::Error,
        &["address_1", "address_2", "city", "state", "zip_code"],
        vec![record(&["20 W 34th St", "", "New York", "NY", "10118"])],
        empire_state,
    )
    .unwrap();
    assert!(written[0].contains(&"gc_addressee".to_owned()));
    assert!(written[1].contains(&"Commercial".to_owned()));
}

#[test]
fn multiple_addresses() {
    let spec = AddressColumnSpec::new()
        .with_prefix("shipping", keys(&["address_1", "address_2"], None, None, Some("zip_code")))
        .with_prefix("billing", keys(&["address_1", "address_2"], None, None, Some("zip_code")));
    let written = geocode_table(
        spec,
        OnDuplicateColumns::Error,
        &["address_1", "address_2", "city", "state", "zip_code"],
        vec![record(&["20 W 34th St", "", "New York", "NY", "10118"])],
        empire_state,
    )
    .unwrap();
    assert_eq!(written[0].len(), 105);
    assert_eq!(written[1].len(), 105);
    let shipping = written[0].iter().position(|name| name == "shipping_addressee").unwrap();
    let billing = written[0].iter().position(|name| name == "billing_addressee").unwrap();
    assert_eq!(billing, 5);
    assert_eq!(shipping, 55);
    assert_eq!(written[1][billing], "Empire State Building");
    assert_eq!(written[1][shipping], "Empire State Building");
}

#[test]
fn duplicate_columns_error() {
    let result = geocode_table(
        simple_spec(),
        OnDuplicateColumns::Error,
        &["address", "gc_addressee", "zip"],
        vec![record(&["20 W 34th St", "", "10118"])],
        empire_state,
    );
    let error = result.unwrap_err();
    assert_eq!(error, Error::ColumnConflict("gc_addressee".to_owned()));
    assert_eq!(
        error.message(),
        "input columns would conflict with geocoding columns: gc_addressee",
    );
}

#[test]
fn duplicate_columns_error_names_every_colliding_column() {
    let result = geocode_table(
        simple_spec(),
        OnDuplicateColumns::Error,
        &["gc_rdi", "address", "gc_addressee", "zip"],
        vec![],
        empire_state,
    );
    assert_eq!(result.unwrap_err(), Error::ColumnConflict("gc_rdi, gc_addressee".to_owned()));
}

#[test]
fn duplicate_columns_replace() {
    let written = geocode_table(
        simple_spec(),
        OnDuplicateColumns::Replace,
        &["address", "gc_addressee", "zip"],
        vec![record(&["20 W 34th St", "old", "10118"])],
        empire_state,
    )
    .unwrap();
    assert_eq!(&written[0][..3], &record(&["address", "zip", "gc_addressee"])[..]);
    assert_eq!(written[0].len(), 52);
    assert_eq!(&written[1][..3], &record(&["20 W 34th St", "10118", "Empire State Building"])[..]);
    assert!(written[1].contains(&"Commercial".to_owned()));
    assert!(!written[1].contains(&"old".to_owned()));
}

#[test]
fn duplicate_columns_append() {
    let written = geocode_table(
        simple_spec(),
        OnDuplicateColumns::Append,
        &["address", "gc_addressee", "zip"],
        vec![record(&["20 W 34th St", "old", "10118"])],
        empire_state,
    )
    .unwrap();
    assert_eq!(&written[0][..4], &record(&["address", "gc_addressee", "zip", "gc_addressee"])[..]);
    assert_eq!(written[0].len(), 53);
    assert_eq!(
        &written[1][..4],
        &record(&["20 W 34th St", "old", "10118", "Empire State Building"])[..],
    );
    assert!(written[1].contains(&"Commercial".to_owned()));
}

#[test]
fn policies_without_a_collision_change_nothing() {
    for policy in [OnDuplicateColumns::Error, OnDuplicateColumns::Replace, OnDuplicateColumns::Append] {
        let written = geocode_table(
            simple_spec(),
            policy,
            &["address", "zip"],
            vec![record(&["20 W 34th St", "10118"])],
            empire_state,
        )
        .unwrap();
        assert_eq!(&written[0][..3], &record(&["address", "zip", "gc_addressee"])[..]);
        assert_eq!(&written[1][..3], &record(&["20 W 34th St", "10118", "Empire State Building"])[..]);
    }
}

#[test]
fn a_replaced_column_cannot_hold_an_address() {
    let spec = AddressColumnSpec::new().with_prefix("gc", keys(&["gc_addressee"], None, None, None));
    let result = geocode_table(
        spec,
        OnDuplicateColumns::Replace,
        &["address", "gc_addressee", "zip"],
        vec![],
        empire_state,
    );
    assert_eq!(result.unwrap_err(), Error::ColumnNotFound("gc_addressee".to_owned()));
}

#[test]
fn every_row_comes_out_once_and_in_order() {
    for groups in [1usize, 2, 5, 72, 80] {
        for count in [0usize, 1, 13, 14, 15, 71, 72, 73, 144, 300] {
            let mut spec = AddressColumnSpec::new();
            for g in 0..groups {
                spec = spec.with_prefix(&format!("g{}", g), keys(&["address"], None, None, None));
            }
            let rows: Vec<Vec<String>> =
                (0..count).map(|i| vec![i.to_string(), format!("{} Main St", i)]).collect();
            let written = geocode_table(
                spec,
                OnDuplicateColumns::Error,
                &["id", "address"],
                rows.clone(),
                empire_state,
            )
            .unwrap();
            assert_eq!(written.len(), count + 1);
            for (i, row) in rows.iter().enumerate() {
                assert_eq!(&written[i + 1][..2], &row[..]);
                assert_eq!(written[i + 1].len(), 2 + 50 * groups);
            }
        }
    }
}

#[test]
fn batches_hold_as_many_rows_as_fit_into_one_request() {
    let assembler = ChunkAssembler::new(
        AddressColumnSpec::new()
            .with_prefix("a", keys(&["address"], None, None, None))
            .with_prefix("b", keys(&["address"], None, None, None)),
        Structure::complete().unwrap(),
        OnDuplicateColumns::Error,
        record(&["address"]),
    )
    .unwrap();
    assert_eq!(assembler.batch_size(), 36);
    let rows: Vec<Vec<String>> = (0..80).map(|i| vec![format!("{} Main St", i)]).collect();
    let messages = assembler.assemble_all(rows).unwrap();
    let sizes: Vec<Option<usize>> = messages
        .iter()
        .map(|m| match m {
            Message::Chunk(chunk) => Some(chunk.len()),
            Message::EndOfStream => None,
        })
        .collect();
    assert_eq!(sizes, vec![Some(36), Some(36), Some(8), None]);
}

#[test]
fn a_full_last_batch_is_followed_by_the_end_marker_alone() {
    let assembler = ChunkAssembler::new(
        simple_spec(),
        Structure::complete().unwrap(),
        OnDuplicateColumns::Error,
        record(&["address", "zip"]),
    )
    .unwrap();
    let rows: Vec<Vec<String>> = (0..144).map(|i| vec![format!("{} Main St", i), "10118".to_owned()]).collect();
    let messages = assembler.assemble_all(rows).unwrap();
    assert_eq!(messages.len(), 3);
    assert!(matches!(&messages[0], Message::Chunk(chunk) if chunk.len() == 72));
    assert!(matches!(&messages[1], Message::Chunk(chunk) if chunk.len() == 72));
    assert!(matches!(&messages[2], Message::EndOfStream));
}

#[test]
fn a_table_without_rows_gives_its_header_and_a_clean_end() {
    let mut assembler = ChunkAssembler::new(
        simple_spec(),
        Structure::complete().unwrap(),
        OnDuplicateColumns::Error,
        record(&["address", "zip"]),
    )
    .unwrap();
    assert_eq!(assembler.out_headers().len(), 52);
    assert!(assembler.push_row(record(&["1 Main St", "10118"])).unwrap().is_none());
    let messages = assembler.finish();
    assert_eq!(messages.len(), 2);

    let written = geocode_table(
        simple_spec(),
        OnDuplicateColumns::Error,
        &["address", "zip"],
        vec![],
        empire_state,
    )
    .unwrap();
    assert_eq!(written.len(), 1);
    assert_eq!(written[0].len(), 52);
    assert_eq!(&written[0][..3], &record(&["address", "zip", "gc_addressee"])[..]);
}

#[test]
fn push_row_hands_out_a_batch_when_it_is_full() {
    let mut spec = AddressColumnSpec::new();
    for g in 0..36 {
        spec = spec.with_prefix(&format!("g{:02}", g), keys(&["address"], None, None, None));
    }
    let mut assembler = ChunkAssembler::new(
        spec,
        Structure::complete().unwrap(),
        OnDuplicateColumns::Error,
        record(&["address"]),
    )
    .unwrap();
    assert_eq!(assembler.batch_size(), 2);
    assert!(assembler.push_row(record(&["a"])).unwrap().is_none());
    match assembler.push_row(record(&["b"])).unwrap() {
        Some(Message::Chunk(chunk)) => {
            assert_eq!(chunk.rows_ref(), &vec![record(&["a"]), record(&["b"])]);
            assert_eq!(chunk.out_headers().len(), 1 + 36 * 50);
        }
        _ => panic!("a full batch should have been handed out"),
    }
    assert!(assembler.push_row(record(&["c"])).unwrap().is_none());
    let last = assembler.finish();
    assert_eq!(last.len(), 2);
    assert!(matches!(&last[0], Message::Chunk(chunk) if chunk.rows_ref() == &vec![record(&["c"])]));
    assert!(matches!(&last[1], Message::EndOfStream));
}

#[test]
fn a_row_of_another_width_is_refused() {
    let mut assembler = ChunkAssembler::new(
        simple_spec(),
        Structure::complete().unwrap(),
        OnDuplicateColumns::Error,
        record(&["address", "zip"]),
    )
    .unwrap();
    assert_eq!(
        assembler.push_row(record(&["only one"])).unwrap_err(),
        Error::UnequalLengths { expected: 2, found: 1 },
    );
    assert_eq!(
        assembler.push_row(record(&["a", "b", "c"])).unwrap_err(),
        Error::UnequalLengths { expected: 2, found: 3 },
    );
    assert!(assembler.push_row(record(&["a", "b"])).unwrap().is_none());
    assert_eq!(
        assembler.assemble_all(vec![record(&["a", "b"]), record(&["c"])]).unwrap_err(),
        Error::UnequalLengths { expected: 2, found: 1 },
    );
}

#[test]
fn chunk_size_is_the_request_size_divided_by_the_groups() {
    assert_eq!(GEOCODE_SIZE, 72);
    assert_eq!(CONCURRENCY, 48);
    assert_eq!(CHANNEL_BUFFER, 8);
    assert_eq!(chunk_size_for(1), 72);
    assert_eq!(chunk_size_for(2), 36);
    assert_eq!(chunk_size_for(5), 14);
    assert_eq!(chunk_size_for(36), 2);
    assert_eq!(chunk_size_for(37), 1);
    assert_eq!(chunk_size_for(72), 1);
    assert_eq!(chunk_size_for(73), 1);
    assert_eq!(chunk_size_for(1000), 1);
}

#[test]
fn remove_columns_drops_the_flagged_columns() {
    assert_eq!(
        remove_columns(&record(&["a", "b", "c", "d"]), &vec![false, true, false, true]),
        record(&["a", "c"]),
    );
    assert_eq!(remove_columns(&record(&["a", "b"]), &vec![false, false]), record(&["a", "b"]));
    assert_eq!(remove_columns(&record(&["a", "b"]), &vec![true, true]), record(&[]));
    assert_eq!(remove_columns(&record(&["a", "b", "c"]), &vec![true]), record(&[]));
    assert_eq!(remove_columns(&record(&["a"]), &vec![false, false, true]), record(&["a"]));
}

#[test]
fn rows_without_a_match_gain_empty_columns() {
    let written = geocode_table(
        AddressColumnSpec::new()
            .with_prefix("home", keys(&["home"], None, None, None))
            .with_prefix("work", keys(&["work"], None, None, None)),
        OnDuplicateColumns::Error,
        &["home", "work"],
        vec![
            record(&["nowhere", "20 W 34th St"]),
            record(&["20 W 34th St", "nowhere"]),
            record(&["nowhere", "nowhere"]),
        ],
        empire_state,
    )
    .unwrap();
    assert_eq!(written.len(), 4);
    for row in &written {
        assert_eq!(row.len(), 102);
    }
    assert_eq!(written[0][2], "home_addressee");
    assert_eq!(written[0][52], "work_addressee");
    assert_eq!(written[1][2], "");
    assert_eq!(written[1][52], "Empire State Building");
    assert_eq!(written[2][2], "Empire State Building");
    assert_eq!(written[2][52], "");
    assert!(written[3][2..].iter().all(|field| field.is_empty()));
}

#[test]
fn output_groups_stand_in_ascending_order_of_prefix() {
    let written = geocode_table(
        AddressColumnSpec::new()
            .with_prefix("work", keys(&["address"], None, None, None))
            .with_prefix("home", keys(&["address"], None, None, None))
            .with_prefix("alt", keys(&["address"], None, None, None)),
        OnDuplicateColumns::Error,
        &["address"],
        vec![],
        empire_state,
    )
    .unwrap();
    assert_eq!(written[0][1], "alt_addressee");
    assert_eq!(written[0][51], "home_addressee");
    assert_eq!(written[0][101], "work_addressee");
    assert_eq!(written[0].len(), 151);
}

#[test]
fn merge_refuses_a_wrong_number_of_results() {
    let assembler = ChunkAssembler::new(
        simple_spec(),
        Structure::complete().unwrap(),
        OnDuplicateColumns::Error,
        record(&["address", "zip"]),
    )
    .unwrap();
    let mut messages = assembler.assemble_all(vec![record(&["a", "1"]), record(&["b", "2"])]).unwrap();
    let chunk = match messages.remove(0) {
        Message::Chunk(chunk) => chunk,
        Message::EndOfStream => panic!("the end marker came first"),
    };
    assert_eq!(
        merge_responses(chunk, vec![None]).unwrap_err(),
        Error::ResultCountMismatch { expected_rows: 2, groups: 1, found: 1 },
    );
}

#[test]
fn merge_refuses_a_response_with_a_list_at_a_selected_field() {
    let assembler = ChunkAssembler::new(
        simple_spec(),
        Structure::complete().unwrap(),
        OnDuplicateColumns::Error,
        record(&["address", "zip"]),
    )
    .unwrap();
    let mut messages = assembler.assemble_all(vec![record(&["a", "1"]), record(&["b", "2"])]).unwrap();
    let chunk = match messages.remove(0) {
        Message::Chunk(chunk) => chunk,
        Message::EndOfStream => panic!("the end marker came first"),
    };
    let bad = AddressResponse {
        input_index: 1,
        fields: Json::Object(vec![("last_line".to_owned(), Json::Array(vec![]))]),
    };
    assert_eq!(
        merge_responses(chunk, vec![None, Some(bad)]).unwrap_err(),
        Error::UnexpectedValue { path: record(&["last_line"]) },
    );
}

#[test]
fn five_failures_are_retried_and_the_sixth_gives_up() {
    let mut state = RetryState::new();
    for _ in 0..5 {
        assert_eq!(state.on_failure(Failure::Network), RetryDecision::RetryAfter { seconds: 2 });
    }
    assert_eq!(state.on_failure(Failure::Network), RetryDecision::GiveUp);
    assert_eq!(state.on_failure(Failure::Network), RetryDecision::GiveUp);
}

#[test]
fn failures_that_cannot_pass_are_not_retried() {
    assert!(Failure::Network.retryable());
    assert!(Failure::Status(500).retryable());
    assert!(Failure::Status(503).retryable());
    assert!(Failure::Status(599).retryable());
    assert!(!Failure::Status(600).retryable());
    assert!(!Failure::Status(499).retryable());
    assert!(!Failure::Status(400).retryable());
    assert!(!Failure::Status(401).retryable());
    assert!(!Failure::Status(301).retryable());
    assert!(!Failure::MalformedResponse.retryable());
    assert!(!Failure::InvalidRequest.retryable());

    let mut state = RetryState::new();
    assert_eq!(state.on_failure(Failure::Status(400)), RetryDecision::GiveUp);
    assert_eq!(state.on_failure(Failure::Status(502)), RetryDecision::RetryAfter { seconds: 2 });
    assert_eq!(state.on_failure(Failure::MalformedResponse), RetryDecision::GiveUp);
}

/// Makes the calls for one batch the way a worker does: again after each
/// failure that is to be retried.
fn call_with_retries(
    outcomes: &[Result<&'static str, Failure>],
) -> (Result<&'static str, Failure>, usize, u64) {
    let mut state = RetryState::new();
    let mut attempts = 0;
    let mut waited = 0;
    loop {
        let outcome = outcomes[attempts];
        attempts += 1;
        match outcome {
            Ok(value) => return (Ok(value), attempts, waited),
            Err(failure) => match state.on_failure(failure) {
                RetryDecision::RetryAfter { seconds } => waited += seconds,
                RetryDecision::GiveUp => return (Err(failure), attempts, waited),
            },
        }
    }
}

#[test]
fn a_retried_call_gives_what_an_immediate_success_gives() {
    let immediate = call_with_retries(&[Ok("geocoded")]);
    assert_eq!(immediate, (Ok("geocoded"), 1, 0));
    let retried = call_with_retries(&[
        Err(Failure::Network),
        Err(Failure::Status(503)),
        Err(Failure::Network),
        Err(Failure::Status(500)),
        Ok("geocoded"),
    ]);
    assert_eq!(retried.0, immediate.0);
    assert_eq!(retried.1, 5);
    assert_eq!(retried.2, 8);
    let last_chance = call_with_retries(&[
        Err(Failure::Network),
        Err(Failure::Network),
        Err(Failure::Network),
        Err(Failure::Network),
        Err(Failure::Network),
        Ok("geocoded"),
    ]);
    assert_eq!(last_chance, (Ok("geocoded"), 6, 10));
}

#[test]
fn a_call_that_fails_six_times_aborts() {
    let outcome = call_with_retries(&[
        Err(Failure::Network),
        Err(Failure::Network),
        Err(Failure::Network),
        Err(Failure::Network),
        Err(Failure::Network),
        Err(Failure::Status(502)),
        Ok("late"),
    ]);
    assert_eq!(outcome, (Err(Failure::Status(502)), 6, 10));
}

#[test]
fn a_call_that_fails_for_good_aborts_at_once() {
    let outcome = call_with_retries(&[Err(Failure::Network), Err(Failure::Status(404)), Ok("late")]);
    assert_eq!(outcome, (Err(Failure::Status(404)), 2, 2));
}

#[test]
fn the_writer_puts_the_header_first_and_once() {
    let assembler = ChunkAssembler::new(
        AddressColumnSpec::new().with_prefix("gc", keys(&["address"], None, None, None)),
        Structure::from_json(&Json::Object(vec![("addressee".to_owned(), Json::Bool(true))])).unwrap(),
        OnDuplicateColumns::Error,
        record(&["address"]),
    )
    .unwrap();
    let rows: Vec<Vec<String>> = (0..100).map(|i| vec![i.to_string()]).collect();
    let messages = assembler.assemble_all(rows).unwrap();
    assert_eq!(messages.len(), 3);
    let mut state = WriterState::new();
    assert!(!state.has_written_headers());
    let mut written = Vec::new();
    for message in messages {
        assert!(!state.is_done());
        written.push(state.on_message(message));
    }
    assert!(state.is_done());
    assert!(state.has_written_headers());
    assert_eq!(state.finish(), Ok(()));
    assert_eq!(written[0].len(), 73);
    assert_eq!(written[0][0], record(&["address", "gc_addressee"]));
    assert_eq!(written[0][1], record(&["0"]));
    assert_eq!(written[1].len(), 28);
    assert_eq!(written[1][0], record(&["72"]));
    assert_eq!(written[2].len(), 0);
}

#[test]
fn a_stream_without_its_end_marker_is_an_error() {
    assert_eq!(WriterState::new().finish(), Err(Error::MissingEndOfStream));
    assert_eq!(write_all(Vec::new()), Err(Error::MissingEndOfStream));
    let assembler = ChunkAssembler::new(
        simple_spec(),
        Structure::complete().unwrap(),
        OnDuplicateColumns::Error,
        record(&["address", "zip"]),
    )
    .unwrap();
    let mut messages = assembler.assemble_all(vec![record(&["a", "b"])]).unwrap();
    messages.pop();
    assert_eq!(write_all(messages), Err(Error::MissingEndOfStream));
}

#[test]
fn a_run_succeeds_only_if_all_stages_succeed() {
    let fine = combine_stage_results(Ok(()), Ok(()), Ok(()));
    assert_eq!(fine.result, Ok(()));
    assert!(fine.diagnostics.is_empty());

    let one = combine_stage_results(Ok(()), Err("smartystreets error".to_owned()), Ok(()));
    assert_eq!(one.result, Err(Error::PipelineFailed));
    assert_eq!(one.diagnostics, vec!["Error: error geocoding\n  caused by: smartystreets error\n".to_owned()]);

    let all = combine_stage_results(Err("r".to_owned()), Err("g".to_owned()), Err("w".to_owned()));
    assert_eq!(all.result, Err(Error::PipelineFailed));
    assert_eq!(
        all.diagnostics,
        vec![
            "Error: error reading input\n  caused by: r\n".to_owned(),
            "Error: error geocoding\n  caused by: g\n".to_owned(),
            "Error: error writing output\n  caused by: w\n".to_owned(),
        ],
    );

    let ends = combine_stage_results(Err("r".to_owned()), Ok(()), Err("w".to_owned()));
    assert_eq!(ends.diagnostics.len(), 2);
    assert_eq!(ends.diagnostics[1], "Error: error writing output\n  caused by: w\n");
}

#[test]
fn duplicate_column_policies_are_read_from_their_names() {
    assert_eq!(OnDuplicateColumns::from_str("error"), Ok(OnDuplicateColumns::Error));
    assert_eq!(OnDuplicateColumns::from_str("replace"), Ok(OnDuplicateColumns::Replace));
    assert_eq!(OnDuplicateColumns::from_str("append"), Ok(OnDuplicateColumns::Append));
    assert_eq!(
        OnDuplicateColumns::from_str("Error"),
        Err(Error::UnknownDuplicateColumns("Error".to_owned())),
    );
    assert_eq!(OnDuplicateColumns::default(), OnDuplicateColumns::Error);
}

#[test]
fn colliding_columns_are_warned_of_unless_they_fail_the_run() {
    let warning = |policy: OnDuplicateColumns, header: &[&str]| {
        ChunkAssembler::new(simple_spec(), Structure::complete().unwrap(), policy, record(header))
            .unwrap()
            .warning()
            .map(|text| text.to_owned())
    };
    assert_eq!(
        warning(OnDuplicateColumns::Replace, &["gc_rdi", "address", "gc_addressee", "zip"]),
        Some("replacing input columns: gc_rdi, gc_addressee".to_owned()),
    );
    assert_eq!(
        warning(OnDuplicateColumns::Append, &["address", "gc_addressee", "zip"]),
        Some("output contains duplicate columns: gc_addressee".to_owned()),
    );
    assert_eq!(warning(OnDuplicateColumns::Replace, &["address", "zip"]), None);
    assert_eq!(warning(OnDuplicateColumns::Append, &["address", "zip"]), None);
    assert_eq!(warning(OnDuplicateColumns::Error, &["address", "zip"]), None);
}

#[test]
fn a_batch_without_rows_asks_for_nothing() {
    let assembler = ChunkAssembler::new(
        simple_spec(),
        Structure::complete().unwrap(),
        OnDuplicateColumns::Error,
        record(&["address", "zip"]),
    )
    .unwrap();
    let mut messages = assembler.assemble_all(vec![]).unwrap();
    let chunk = match messages.remove(0) {
        Message::Chunk(chunk) => chunk,
        Message::EndOfStream => panic!("the end marker came first"),
    };
    match begin_chunk(chunk, MatchStrategy::Strict) {
        WorkerStep::Done(chunk) => {
            assert_eq!(chunk.len(), 0);
            assert_eq!(chunk.out_headers().len(), 52);
        }
        WorkerStep::Call { .. } => panic!("there is nothing to ask for"),
    }

    let assembler = ChunkAssembler::new(
        simple_spec(),
        Structure::complete().unwrap(),
        OnDuplicateColumns::Error,
        record(&["address", "zip"]),
    )
    .unwrap();
    let mut messages = assembler.assemble_all(vec![record(&["1 Main St", "10118"])]).unwrap();
    let chunk = match messages.remove(0) {
        Message::Chunk(chunk) => chunk,
        Message::EndOfStream => panic!("the end marker came first"),
    };
    match begin_chunk(chunk, MatchStrategy::Invalid) {
        WorkerStep::Call { chunk, requests } => {
            assert_eq!(chunk.len(), 1);
            assert_eq!(requests.len(), 1);
            assert_eq!(requests[0].address.street, "1 Main St");
            assert_eq!(requests[0].address.zipcode.as_deref(), Some("10118"));
            assert_eq!(requests[0].match_strategy, MatchStrategy::Invalid);
        }
        WorkerStep::Done(_) => panic!("there is a row to ask for"),
    }
}
