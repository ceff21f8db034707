//! Publication over HTTP/3 and HTTP.
use vstd::prelude::*;

use crate::foreign::{
    join_url, optional_text, query_bytes, set_url_query, url_has_room, url_joined,
    url_with_query,
};
use crate::h3::lookup::is_roomy;
use crate::protocol::packet::{Answer, Endpoint};
use crate::protocol::signature::{
    SignatureFields, SignatureFieldsModel, CONTENT_DIGEST_HEADER, SIGNATURE_HEADER,
    SIGNATURE_INPUT_HEADER,
};
use crate::protocol::wire::{lemma_views_push, views};
use crate::publishers::packet::announcing;
use crate::report::ErrorReport;
use crate::text::join2;

verus! {

/// The URL that a packet of a name is published to.
pub open spec fn publish_address(base_url: Seq<char>, name: Seq<char>) -> Option<Seq<char>> {
    match url_joined(base_url, "publish"@) {
        Some(url) => if url_has_room(url, query_bytes("host="@ + name)) {
            url_with_query(url, "host="@ + name)
        } else {
            None
        },
        None => None,
    }
}

/// The URL that a packet of a name is published to. There is none where nothing can be
/// below the base URL, or where it has no room for the query.
pub fn publish_url(base_url: &str, name: &str) -> (r: Option<String>)
    ensures
        optional_text(r) == publish_address(base_url@, name@),
{
    match join_url(base_url, "publish") {
        Some(url) => {
            let query = join2("host=", name);
            if is_roomy(url.as_str(), query.as_str().unicode_len() as u128, 1) {
                set_url_query(url.as_str(), query.as_str())
            } else {
                None
            }
        },
        None => None,
    }
}

/// The records among those of some addresses: an address that cannot be put into a record has
/// none.
pub open spec fn present_records(records: Seq<Option<Endpoint>>) -> Seq<Endpoint>
    decreases records.len(),
{
    if records.len() == 0 {
        Seq::empty()
    } else {
        let front = present_records(records.drop_last());
        match records.last() {
            Some(record) => front.push(record),
            None => front,
        }
    }
}

/// The answers of the packet that announces endpoints for a name. Addresses that cannot be
/// put into a record are left out.
pub fn publish_endpoints_answers(name: &str, records: &Vec<Option<Endpoint>>) -> (r: Vec<Answer>)
    ensures
        views(r@) == announcing(name@, present_records(records@), None),
{
    let mut answers: Vec<Answer> = Vec::new();
    let mut i: usize = 0;
    assert(views(answers@) =~= announcing(name@, present_records(records@.take(0)), None));
    while i < records.len()
        invariant
            i <= records@.len(),
            views(answers@) == announcing(
                name@,
                present_records(records@.take(i as int)),
                None,
            ),
        decreases records@.len() - i,
    {
        proof {
            assert(records@.take(i + 1).drop_last() =~= records@.take(i as int));
            assert(records@.take(i + 1).last() == records@[i as int]);
        }
        match records[i] {
            Some(record) => {
                let answer = Answer { name: name.to_owned(), endpoint: Some(record) };
                proof {
                    lemma_views_push(answers@, answer);
                    let front = present_records(records@.take(i as int));
                    assert(announcing(name@, front.push(record), None) =~= announcing(
                        name@,
                        front,
                        None,
                    ).push(answer@));
                }
                answers.push(answer);
            },
            None => {},
        }
        i = i + 1;
    }
    assert(records@.take(i as int) =~= records@);
    answers
}

/// A header of a request.
#[derive(Debug, PartialEq, Eq)]
pub struct RequestHeader {
    pub name: &'static str,
    pub value: Vec<u8>,
}

/// The headers that carry a signature. There are none without one.
pub open spec fn signature_header_values(fields: SignatureFieldsModel) -> Seq<
    (Seq<char>, Seq<u8>),
> {
    if fields == SignatureFieldsModel::unsigned() {
        Seq::empty()
    } else {
        seq![
            (CONTENT_DIGEST_HEADER@, fields.content_digest),
            (SIGNATURE_INPUT_HEADER@, fields.signature_input),
            (SIGNATURE_HEADER@, fields.signature),
        ]
    }
}

/// The headers that carry a signature. There are none without one.
pub fn signature_headers(fields: &SignatureFields) -> (r: Vec<RequestHeader>)
    ensures
        r@.map_values(|h: RequestHeader| (h.name@, h.value@)) == signature_header_values(fields@),
{
    let mut headers: Vec<RequestHeader> = Vec::new();
    if !fields.is_empty() {
        headers.push(
            RequestHeader {
                name: CONTENT_DIGEST_HEADER,
                value: vstd::slice::slice_to_vec(fields.content_digest.as_slice()),
            },
        );
        headers.push(
            RequestHeader {
                name: SIGNATURE_INPUT_HEADER,
                value: vstd::slice::slice_to_vec(fields.signature_input.as_slice()),
            },
        );
        headers.push(
            RequestHeader {
                name: SIGNATURE_HEADER,
                value: vstd::slice::slice_to_vec(fields.signature.as_slice()),
            },
        );
    }
    assert(headers@.map_values(|h: RequestHeader| (h.name@, h.value@))
        =~= signature_header_values(fields@));
    headers
}

/// Why a publication failed.
#[derive(Debug, PartialEq, Eq)]
pub enum H3PublishError {
    Request { source: ErrorReport },
    /// The server answered with another status, as it is shown.
    Status { status: String },
}

/// What the status of a response to a publication says: it was done, or why not.
pub fn publish_outcome(status: u16, shown: &str) -> (r: Result<(), H3PublishError>)
    ensures
        match r {
            Ok(()) => status == 200,
            Err(H3PublishError::Status { status: text }) => status != 200 && text@ == shown@,
            Err(_) => false,
        },
{
    if status == 200 {
        Ok(())
    } else {
        Err(H3PublishError::Status { status: shown.to_owned() })
    }
}

/// Records that are there are published, in order, and those that are missing are left out.
pub proof fn law_missing_records_are_left_out(
    records: Seq<Option<Endpoint>>,
    more: Seq<Option<Endpoint>>,
    record: Endpoint,
)
    ensures
        present_records(records + more) == present_records(records) + present_records(more),
        present_records(seq![Some(record)]) == seq![record],
        present_records(seq![None::<Endpoint>]).len() == 0,
    decreases more.len(),
{
    if more.len() > 0 {
        law_missing_records_are_left_out(records, more.drop_last(), record);
        assert((records + more).drop_last() =~= records + more.drop_last());
        assert((records + more).last() == more.last());
    } else {
        assert(records + more =~= records);
    }
    assert(present_records(records + more) =~= present_records(records) + present_records(more));
    reveal_with_fuel(present_records, 2);
    assert(seq![Some(record)].drop_last() =~= Seq::<Option<Endpoint>>::empty());
    assert(seq![None::<Endpoint>].drop_last() =~= Seq::<Option<Endpoint>>::empty());
    assert(present_records(seq![Some(record)]) =~= seq![record]);
}

/// A publication carries its three signature fields, each in its own header, where it is
/// signed, and none where it is not.
pub proof fn law_signatures_are_sent_in_their_headers(fields: SignatureFieldsModel)
    ensures
        fields.content_digest.len() == 0 && fields.signature_input.len() == 0
            && fields.signature.len() == 0 ==> signature_header_values(fields).len() == 0,
        fields.content_digest.len() > 0 || fields.signature_input.len() > 0
            || fields.signature.len() > 0 ==> {
            let sent = signature_header_values(fields);
            &&& sent.len() == 3
            &&& sent[0].0 == "content-digest"@ && sent[0].1 == fields.content_digest
            &&& sent[1].0 == "signature-input"@ && sent[1].1 == fields.signature_input
            &&& sent[2].0 == "signature"@ && sent[2].1 == fields.signature
        },
{
    if fields.content_digest.len() == 0 && fields.signature_input.len() == 0
        && fields.signature.len() == 0 {
        assert(fields.content_digest =~= Seq::<u8>::empty());
        assert(fields.signature_input =~= Seq::<u8>::empty());
        assert(fields.signature =~= Seq::<u8>::empty());
    }
}

/// A publication goes to the publishing path below the base, with the host in the query as it
/// is written.
pub proof fn law_publications_name_their_host(base_url: Seq<char>, name: Seq<char>)
    ensures
        url_joined(base_url, "publish"@) is None ==> publish_address(base_url, name) is None,
        url_joined(base_url, "publish"@) matches Some(url) ==> url_has_room(
            url,
            query_bytes(seq!['h', 'o', 's', 't', '='] + name),
        ) ==> publish_address(base_url, name) == url_with_query(
            url,
            seq!['h', 'o', 's', 't', '='] + name,
        ),
{
    reveal_strlit("host=");
    assert("host="@ =~= seq!['h', 'o', 's', 't', '=']);
}

} // verus!
