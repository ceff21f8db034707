//! Requests and responses.
use vstd::prelude::*;
use vstd::utf8::*;

use crate::foreign::{form_pairs, UriParts};
use crate::protocol::wire::{response_encoding, MultiResponse};
use crate::server::error::{param_value, parse_query_params, AppError, AppFault};
use crate::text::{
    decimal, is_digit, lemma_decimal_digits, lemma_decimal_reads_back, parse_unsigned, text_eq,
    unsigned_digits, unsigned_value,
};

verus! {

/// What a request asks for.
#[derive(Debug, Clone, Copy, PartialEq, Eq, Structural)]
pub enum Route {
    Publish,
    Lookup,
    /// The path exists, for another method.
    MethodNotAllowed,
    NotFound,
}

pub open spec fn route_of(method: Seq<char>, path: Seq<char>) -> Route {
    if path == "/publish"@ {
        if method == "POST"@ {
            Route::Publish
        } else {
            Route::MethodNotAllowed
        }
    } else if path == "/lookup"@ {
        if method == "GET"@ {
            Route::Lookup
        } else {
            Route::MethodNotAllowed
        }
    } else {
        Route::NotFound
    }
}

/// What a request asks for.
pub fn route(method: &str, path: &str) -> (r: Route)
    ensures
        r == route_of(method@, path@),
{
    if text_eq(path, "/publish") {
        if text_eq(method, "POST") {
            Route::Publish
        } else {
            Route::MethodNotAllowed
        }
    } else if text_eq(path, "/lookup") {
        if text_eq(method, "GET") {
            Route::Lookup
        } else {
            Route::MethodNotAllowed
        }
    } else {
        Route::NotFound
    }
}

/// A response.
#[derive(Debug, PartialEq, Eq)]
pub struct Response {
    pub status: u16,
    pub body: Vec<u8>,
    /// Whether the body is a multi-record response, which a header tells.
    pub multi: bool,
}

/// The contents of a [`Response`].
pub struct ResponseModel {
    pub status: u16,
    pub body: Seq<u8>,
    pub multi: bool,
}

impl View for Response {
    type V = ResponseModel;

    open spec fn view(&self) -> ResponseModel {
        ResponseModel { status: self.status, body: self.body@, multi: self.multi }
    }
}

pub open spec fn text_response(status: u16, text: Seq<char>) -> ResponseModel {
    ResponseModel { status, body: vstd::utf8::encode_utf8(text), multi: false }
}

/// A response with a text.
pub fn body_response(status: u16, text: &str) -> (r: Response)
    ensures
        r@ == text_response(status, text@),
{
    Response { status, body: text.as_bytes_vec(), multi: false }
}

/// The response to a refused request.
pub fn write_error(err: &AppError) -> (r: Response)
    ensures
        r@ == text_response(err@.status(), err@.text()),
{
    body_response(err.status(), err.message().as_str())
}

/// The response to a request that is neither to publish nor to look up.
pub fn unrouted_response(route: Route) -> (r: Option<Response>)
    ensures
        match route {
            Route::MethodNotAllowed => r is Some && (r->0)@ == text_response(
                405,
                "Method Not Allowed"@,
            ),
            Route::NotFound => r is Some && (r->0)@ == text_response(404, "Not Found"@),
            _ => r is None,
        },
{
    match route {
        Route::MethodNotAllowed => Some(body_response(405, "Method Not Allowed")),
        Route::NotFound => Some(body_response(404, "Not Found")),
        Route::Publish => None,
        Route::Lookup => None,
    }
}

/// The response to a request that was done.
pub fn done_response() -> (r: Response)
    ensures
        r@ == text_response(200, "OK"@),
{
    body_response(200, "OK")
}

/// What a lookup asks for.
#[derive(Debug, PartialEq, Eq)]
pub struct LookupRequest {
    pub host: String,
    pub limit: Option<usize>,
}

/// The limit that a parameter gives: a number above zero, or no limit.
pub open spec fn limit_of(text: Option<Seq<char>>) -> Option<usize> {
    match text {
        Some(text) => match unsigned_value(text, usize::MAX as nat) {
            Some(n) => if n > 0 {
                Some(n as usize)
            } else {
                None
            },
            None => None,
        },
        None => None,
    }
}

/// The parameters of a URI.
pub open spec fn uri_params(uri: UriParts) -> Seq<(Seq<char>, Seq<char>)> {
    form_pairs(
        match uri@.query {
            Some(query) => query,
            None => ""@,
        },
    )
}

/// Reads what a lookup asks for from its URI.
pub fn lookup_request(uri: &UriParts) -> (r: Result<LookupRequest, AppError>)
    ensures
        match (r, param_value(uri_params(*uri), "host"@)) {
            (Ok(request), Some(host)) => request.host@ == host && request.limit == limit_of(
                param_value(uri_params(*uri), "limit"@),
            ),
            (Err(e), None) => e@ == AppFault::MissingHostParam,
            _ => false,
        },
{
    let params = parse_query_params(uri);
    let host = match params.get("host") {
        Some(host) => host.clone(),
        None => return Err(AppError::MissingHostParam),
    };
    let limit = match params.get("limit") {
        Some(text) => parse_limit(text.as_str()),
        None => None,
    };
    Ok(LookupRequest { host, limit })
}

/// The limit that a text gives: a number above zero, or no limit.
pub fn parse_limit(text: &str) -> (r: Option<usize>)
    ensures
        r == limit_of(Some(text@)),
{
    match parse_unsigned(text) {
        Some(n) => if n > 0 && n <= usize::MAX as u64 {
            Some(n as usize)
        } else {
            None
        },
        None => None,
    }
}

/// The host that a publish request names.
pub fn publish_host(uri: &UriParts) -> (r: Option<String>)
    ensures
        (match r {
            Some(host) => Some(host@),
            None => None,
        }) == param_value(uri_params(*uri), "host"@),
{
    let params = parse_query_params(uri);
    match params.get("host") {
        Some(host) => Some(host.clone()),
        None => None,
    }
}

/// The response to a lookup: the encoded records, or that there are none.
pub fn lookup_response(records: Option<MultiResponse>) -> (r: Response)
    requires
        records is Some ==> response_encoding((records->0)@).len() <= isize::MAX,
    ensures
        r@ == (match records {
            Some(records) => ResponseModel {
                status: 200,
                body: response_encoding(records@),
                multi: true,
            },
            None => text_response(404, "Not Found"@),
        }),
{
    match records {
        Some(records) => Response { status: 200, body: records.encode(), multi: true },
        None => body_response(404, "Not Found"),
    }
}

/// Packets are posted to one path and names are got from another; another method on one of
/// them is not allowed, and nothing else is served.
pub proof fn law_requests_are_routed_by_path_and_method(method: Seq<char>, path: Seq<char>)
    ensures
        route_of(method, path) is Publish <==> path == "/publish"@ && method == "POST"@,
        route_of(method, path) is Lookup <==> path == "/lookup"@ && method == "GET"@,
        route_of(method, path) is NotFound <==> path != "/publish"@ && path != "/lookup"@,
        route_of(method, path) is MethodNotAllowed <==> (path == "/publish"@ && method != "POST"@)
            || (path == "/lookup"@ && method != "GET"@),
{
    reveal_strlit("/publish");
    reveal_strlit("/lookup");
    assert("/publish"@.len() != "/lookup"@.len());
}

/// The limit of a lookup is the number that is written, unless it is none or zero.
pub proof fn law_limits_are_positive_numbers(n: nat, text: Seq<char>)
    ensures
        0 < n <= usize::MAX ==> limit_of(Some(decimal(n))) == Some(n as usize),
        n > usize::MAX ==> limit_of(Some(decimal(n))) is None,
        limit_of(Some(decimal(0))) is None,
        limit_of(None) is None,
        text.len() == 0 ==> limit_of(Some(text)) is None,
        (exists|i: int|
            0 < i < text.len() && !(48 <= (#[trigger] text[i]) as u32 <= 57)) ==> limit_of(
            Some(text),
        ) is None,
{
    lemma_decimal_digits(n);
    lemma_decimal_digits(0);
    if n <= usize::MAX {
        lemma_decimal_reads_back(n, usize::MAX as nat);
    }
    lemma_decimal_reads_back(0, usize::MAX as nat);
    assert(is_digit(decimal(n)[0]));
    if exists|i: int| 0 < i < text.len() && !(48 <= (#[trigger] text[i]) as u32 <= 57) {
        let i = choose|i: int| 0 < i < text.len() && !(48 <= (#[trigger] text[i]) as u32 <= 57);
        let digits = unsigned_digits(text);
        if text[0] == '+' {
            assert(digits[i - 1] == text[i]);
        } else {
            assert(digits[i] == text[i]);
        }
    }
}

/// A text is answered as it is, with the status that goes with it.
pub proof fn law_texts_are_answered_as_they_are(status: u16, text: Seq<char>)
    ensures
        text_response(status, text).status == status,
        !text_response(status, text).multi,
        valid_utf8(text_response(status, text).body),
        decode_utf8(text_response(status, text).body) == text,
{
    encode_utf8_valid_utf8(text);
    encode_utf8_decode_utf8(text);
}

/// A request without a query has the parameters of an empty query.
pub proof fn law_parameters_are_those_of_the_query(uri: UriParts)
    ensures
        uri.query matches Some(query) ==> uri_params(uri) == form_pairs(query@),
        uri.query is None ==> uri_params(uri) == form_pairs(Seq::<char>::empty()),
{
    reveal_strlit("");
    assert(""@ =~= Seq::<char>::empty());
}

} // verus!
