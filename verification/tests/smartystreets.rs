use csv_tools::errors::Error;
use csv_tools::smartystreets::{
    add_query_pair, check_status, request_url, unpack_responses, AddressResponse, Credentials,
    MatchStrategy,
};
use csv_tools::structure::Json;

#[test]
fn request_url_carries_the_credentials_in_its_query() {
    let credentials = Credentials::new("my id".to_owned(), "s3cr&t=+/é".to_owned());
    assert_eq!(credentials.auth_id(), "my id");
    assert_eq!(credentials.auth_token(), "s3cr&t=+/é");
    assert_eq!(
        request_url(&credentials).unwrap(),
        "https://api.smartystreets.com/street-address?auth-id=my+id&auth-token=s3cr%26t%3D%2B%2F%C3%A9",
    );
}

#[test]
fn add_query_pair_adds_to_the_query_that_is_there() {
    assert_eq!(
        add_query_pair("https://example.net?lang=fr#nav", "foo", "bar").unwrap(),
        "https://example.net/?lang=fr&foo=bar#nav",
    );
    assert_eq!(add_query_pair("not a web address", "foo", "bar"), Err(Error::InvalidUrl));
}

#[test]
fn match_strategies_are_read_from_their_names() {
    assert_eq!(MatchStrategy::from_str("strict"), Ok(MatchStrategy::Strict));
    assert_eq!(MatchStrategy::from_str("range"), Ok(MatchStrategy::Range));
    assert_eq!(MatchStrategy::from_str("invalid"), Ok(MatchStrategy::Invalid));
    assert_eq!(
        MatchStrategy::from_str("Strict"),
        Err(Error::UnknownMatchStrategy("Strict".to_owned())),
    );
    assert_eq!(MatchStrategy::from_str(""), Err(Error::UnknownMatchStrategy("".to_owned())));
    assert_eq!(MatchStrategy::default(), MatchStrategy::Strict);
    for strategy in [MatchStrategy::Strict, MatchStrategy::Range, MatchStrategy::Invalid] {
        assert_eq!(MatchStrategy::from_str(strategy.name()), Ok(strategy));
    }
}

#[test]
fn statuses_from_200_to_299_are_successes() {
    assert_eq!(check_status(200, "200 OK", "[]"), Ok(()));
    assert_eq!(check_status(299, "299", ""), Ok(()));
    assert_eq!(
        check_status(199, "199", "early"),
        Err(Error::Service { status: "199".to_owned(), body: "early".to_owned() }),
    );
    assert_eq!(
        check_status(300, "300 Multiple Choices", ""),
        Err(Error::Service { status: "300 Multiple Choices".to_owned(), body: "".to_owned() }),
    );
    let error = check_status(401, "401 Unauthorized", "no such id").unwrap_err();
    assert_eq!(error.message(), "geocoding error: 401 Unauthorized\nno such id");
}

fn response(input_index: usize, name: &str) -> AddressResponse {
    AddressResponse {
        input_index,
        fields: Json::Object(vec![("addressee".to_owned(), Json::Text(name.to_owned()))]),
    }
}

#[test]
fn responses_go_to_the_place_of_their_request() {
    let unpacked = unpack_responses(vec![response(2, "c"), response(0, "a")], 4).unwrap();
    let names: Vec<Option<&Json>> =
        unpacked.iter().map(|r| r.as_ref().and_then(|r| r.fields.get("addressee"))).collect();
    assert_eq!(
        names,
        vec![Some(&Json::Text("a".to_owned())), None, Some(&Json::Text("c".to_owned())), None],
    );
    assert_eq!(unpacked[2].as_ref().unwrap().input_index, 2);
}

#[test]
fn responses_with_a_bad_index_are_refused() {
    assert_eq!(
        unpack_responses(vec![response(0, "a"), response(3, "b")], 3).unwrap_err(),
        Error::IndexOutOfRange { output_len: 3, index: 3 },
    );
    assert_eq!(
        unpack_responses(vec![response(1, "a"), response(1, "b")], 3).unwrap_err(),
        Error::DuplicateIndex { index: 1 },
    );
}
