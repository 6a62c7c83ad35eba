//! What is sent to the SmartyStreets street address service and what comes
//! back, as far as it can be said without talking to the service.

use vstd::prelude::*;
use vstd::string::*;
use vstd::utf8::*;

use crate::addresses::Address;
use crate::errors::Error;
use crate::structure::Json;
use crate::text::same_text;
use crate::unpack_vec::{placeable, unpack_indexed, unpacked};

verus! {

/// Credentials for authenticating with SmartyStreets.
#[derive(Debug, Clone)]
pub struct Credentials {
    auth_id: String,
    auth_token: String,
}

impl Credentials {
    /// The identifier of the account.
    pub closed spec fn id_text(self) -> Seq<char> {
        self.auth_id@
    }

    /// The secret that goes with the identifier.
    pub closed spec fn token_text(self) -> Seq<char> {
        self.auth_token@
    }

    /// Credentials made of an identifier and its secret.
    pub fn new(auth_id: String, auth_token: String) -> (c: Credentials)
        ensures
            c.id_text() == auth_id@,
            c.token_text() == auth_token@,
    {
        Credentials { auth_id, auth_token }
    }

    /// The identifier of the account.
    pub fn auth_id(&self) -> (s: &str)
        ensures
            s@ == self.id_text(),
    {
        self.auth_id.as_str()
    }

    /// The secret that goes with the identifier.
    pub fn auth_token(&self) -> (s: &str)
        ensures
            s@ == self.token_text(),
    {
        self.auth_token.as_str()
    }
}

/// What match candidates should we output when geocoding?
#[derive(Clone, Copy, Debug, PartialEq, Eq, Structural)]
pub enum MatchStrategy {
    /// Only match valid USPS addresses.
    Strict,
    /// Match addresses that are within the known range on a street,
    /// but which are not valid USPS addresses.
    Range,
    /// Return a candidate for every address.
    Invalid,
}

impl Default for MatchStrategy {
    fn default() -> (r: Self)
        ensures
            r == MatchStrategy::Strict,
    {
        MatchStrategy::Strict
    }
}

/// The strategy that goes by the name `s`, if any does.
pub open spec fn strategy_named(s: Seq<char>) -> Option<MatchStrategy> {
    if s == "strict"@ {
        Some(MatchStrategy::Strict)
    } else if s == "range"@ {
        Some(MatchStrategy::Range)
    } else if s == "invalid"@ {
        Some(MatchStrategy::Invalid)
    } else {
        None
    }
}

impl MatchStrategy {
    /// The name by which the service knows this strategy.
    pub open spec fn name_text(self) -> Seq<char> {
        match self {
            MatchStrategy::Strict => "strict"@,
            MatchStrategy::Range => "range"@,
            MatchStrategy::Invalid => "invalid"@,
        }
    }

    /// The name by which the service knows this strategy.
    pub fn name(&self) -> (s: &'static str)
        ensures
            s@ == self.name_text(),
    {
        match self {
            MatchStrategy::Strict => "strict",
            MatchStrategy::Range => "range",
            MatchStrategy::Invalid => "invalid",
        }
    }

    /// Reads a strategy from its name: `strict`, `range` or `invalid`.
    pub fn from_str(s: &str) -> (r: Result<MatchStrategy, Error>)
        ensures
            match strategy_named(s@) {
                Some(strategy) => r == Ok::<MatchStrategy, Error>(strategy),
                None => r matches Err(Error::UnknownMatchStrategy(t)) && t@ == s@,
            },
    {
        if same_text(s, "strict") {
            Ok(MatchStrategy::Strict)
        } else if same_text(s, "range") {
            Ok(MatchStrategy::Range)
        } else if same_text(s, "invalid") {
            Ok(MatchStrategy::Invalid)
        } else {
            Err(Error::UnknownMatchStrategy(s.to_owned()))
        }
    }
}

/// Every strategy is read back from its own name.
pub proof fn lemma_strategy_names_round_trip(strategy: MatchStrategy)
    ensures
        strategy_named(strategy.name_text()) == Some(strategy),
{
    reveal_strlit("strict");
    reveal_strlit("range");
    reveal_strlit("invalid");
    assert("strict"@.len() == 6);
    assert("range"@.len() == 5);
    assert("invalid"@.len() == 7);
}

/// A SmartyStreets address request.
#[derive(Clone, Debug)]
pub struct AddressRequest {
    /// The address to geocode.
    pub address: Address,
    /// What match strategy should we use?
    pub match_strategy: MatchStrategy,
}

/// A SmartyStreets address response.
#[derive(Debug)]
pub struct AddressResponse {
    /// The index of the corresponding `AddressRequest`.
    pub input_index: usize,
    /// Fields returned by SmartyStreets.
    pub fields: Json,
}

/// The indices that a list of responses carries.
pub open spec fn input_indices(responses: Seq<AddressResponse>) -> Seq<usize> {
    responses.map_values(|r: AddressResponse| r.input_index)
}

/// Puts each response at the place of the request that it answers.  A
/// request without a response gets `None`.  A response that names a request
/// beyond the last, or a request that another response has named, is an
/// error: what belongs to which row is then no longer known.
pub fn unpack_responses(responses: Vec<AddressResponse>, request_count: usize) -> (r: Result<
    Vec<Option<AddressResponse>>,
    Error,
>)
    ensures
        unpacked(responses@, input_indices(responses@), request_count, r),
        r is Ok <==> placeable(input_indices(responses@), request_count),
{
    let mut indices: Vec<usize> = Vec::new();
    let mut i: usize = 0;
    while i < responses.len()
        invariant
            i <= responses.len(),
            indices@ == input_indices(responses@).subrange(0, i as int),
        decreases responses.len() - i,
    {
        indices.push(responses[i].input_index);
        assert(indices@ =~= input_indices(responses@).subrange(0, i + 1));
        i += 1;
    }
    assert(indices@ =~= input_indices(responses@));
    unpack_indexed(responses, &indices, request_count)
}

/// Whether an HTTP status code reports success.
pub open spec fn is_success(status_code: u16) -> bool {
    200 <= status_code < 300
}

/// Judges the status of a reply.  A status from 200 to 299 lets the reply
/// through; any other makes an error that carries the status line and the
/// body of the reply.
pub fn check_status(status_code: u16, status_line: &str, body: &str) -> (r: Result<(), Error>)
    ensures
        is_success(status_code) ==> r is Ok,
        !is_success(status_code) ==> (r matches Err(Error::Service { status, body: b }) && status@
            == status_line@ && b@ == body@),
{
    if 200 <= status_code && status_code < 300 {
        Ok(())
    } else {
        Err(Error::Service { status: status_line.to_owned(), body: body.to_owned() })
    }
}

#[verifier::external_type_specification]
#[verifier::external_body]
pub struct ExParseError(url::ParseError);

/// The text of the web address `url` once the pair of `key` and `value` has
/// been added to its query; `None` where `url` is no web address.
pub uninterp spec fn url_with_pair(url: Seq<char>, key: Seq<char>, value: Seq<char>) -> Option<
    Seq<char>,
>;

/// The texts are short enough for the `url` crate, which counts the bytes of
/// a web address in 32 bits.  Escaping makes a byte into three at most.
pub open spec fn pair_fits(url: Seq<char>, key: Seq<char>, value: Seq<char>) -> bool {
    3 * (encode_utf8(url).len() + encode_utf8(key).len() + encode_utf8(value).len()) + 8
        <= u32::MAX
}

/// Adds one pair to the query of a web address.
///
/// Calls `Url::parse`, `Url::query_pairs_mut`, `Serializer::append_pair`,
/// `Serializer::finish` and `Url::as_str` of the `url` crate, in that order.
/// The contract gives the outcome a name and says nothing more of it: the
/// same three texts give the same address, and a text that does not parse
/// gives the error of the parser.
#[verifier::external_body]
fn append_query_pair(url: &str, key: &str, value: &str) -> (r: Result<String, url::ParseError>)
    requires
        pair_fits(url@, key@, value@),
    ensures
        match r {
            Ok(text) => url_with_pair(url@, key@, value@) == Some(text@),
            Err(_) => url_with_pair(url@, key@, value@) is None,
        },
{
    let mut parsed = url::Url::parse(url)?;
    parsed.query_pairs_mut().append_pair(key, value).finish();
    Ok(parsed.as_str().to_owned())
}

/// `url_with_pair`, where the texts are short enough to try.
pub open spec fn url_with_pair_checked(url: Seq<char>, key: Seq<char>, value: Seq<char>) -> Option<
    Seq<char>,
> {
    if pair_fits(url, key, value) {
        url_with_pair(url, key, value)
    } else {
        None
    }
}

/// Adds one pair to the query of a web address, if the texts are short
/// enough and `url` is a web address.
pub fn add_query_pair(url: &str, key: &str, value: &str) -> (r: Result<String, Error>)
    ensures
        match url_with_pair_checked(url@, key@, value@) {
            Some(text) => r matches Ok(s) && s@ == text,
            None => r == Err::<String, Error>(Error::InvalidUrl),
        },
{
    let total: u128 = url.as_bytes().len() as u128 + key.as_bytes().len() as u128
        + value.as_bytes().len() as u128;
    if 3 * total + 8 > 0xffff_ffff {
        return Err(Error::InvalidUrl);
    }
    match append_query_pair(url, key, value) {
        Ok(text) => Ok(text),
        Err(_) => Err(Error::InvalidUrl),
    }
}

/// The web address of the street address service.
pub open spec fn service_url() -> Seq<char> {
    "https://api.smartystreets.com/street-address"@
}

/// The web address to which requests under the given credentials go.
pub open spec fn request_url_text(auth_id: Seq<char>, auth_token: Seq<char>) -> Option<Seq<char>> {
    match url_with_pair_checked(service_url(), "auth-id"@, auth_id) {
        None => None,
        Some(with_id) => url_with_pair_checked(with_id, "auth-token"@, auth_token),
    }
}

/// Builds the web address to which requests under `credentials` go: that of
/// the service, with the identifier and the secret in its query.
pub fn request_url(credentials: &Credentials) -> (r: Result<String, Error>)
    ensures
        match request_url_text(credentials.id_text(), credentials.token_text()) {
            Some(text) => r matches Ok(s) && s@ == text,
            None => r == Err::<String, Error>(Error::InvalidUrl),
        },
{
    let with_id = match add_query_pair(
        "https://api.smartystreets.com/street-address",
        "auth-id",
        credentials.auth_id(),
    ) {
        Ok(text) => text,
        Err(e) => {
            return Err(e);
        },
    };
    add_query_pair(with_id.as_str(), "auth-token", credentials.auth_token())
}

} // verus!
