//! What one mDNS binding serves.
use vstd::prelude::*;

use crate::net::{Family, IpAddress, Source, SourceModel};
use crate::protocol::packet::Endpoint;
use crate::protocol::wire::views;
use crate::publishers::packet::{all_records, EncodeEndpointPacketError};
use crate::report::{ErrorModel, ErrorReport};
use crate::text::{join2, strip_suffix, text_eq};

verus! {

/// The suffix of the names that are served under the service name.
pub const DHTTP_NAME_SUFFIX: &'static str = ".dhttp.net";

/// The local name of a host: under the service name in place of the global suffix.
pub open spec fn local(service_name: Seq<char>, name: Seq<char>) -> Seq<char> {
    if DHTTP_NAME_SUFFIX@.is_suffix_of(name) {
        name.take(name.len() - DHTTP_NAME_SUFFIX@.len()) + "."@ + service_name
    } else {
        name
    }
}

/// The local name of a host: under the service name in place of the global suffix.
pub fn local_name(service_name: &str, name: &str) -> (r: String)
    ensures
        r@ == local(service_name@, name@),
{
    match strip_suffix(name, DHTTP_NAME_SUFFIX) {
        Some(prefix) => {
            let mut out = join2(prefix, ".");
            out.append(service_name);
            out
        },
        None => name.to_owned(),
    }
}

/// Whether a text occurs in another.
pub open spec fn occurs_in(part: Seq<char>, text: Seq<char>) -> bool {
    exists|i: int|
        0 <= i <= text.len() - part.len() && #[trigger] text.subrange(i, i + part.len()) == part
}

/// Whether a text occurs in another.
pub fn contains_text(text: &str, part: &str) -> (r: bool)
    ensures
        r == occurs_in(part@, text@),
{
    let n = text.unicode_len();
    let m = part.unicode_len();
    if m > n {
        return false;
    }
    let mut i: usize = 0;
    while i < n - m && !text_eq(text.substring_char(i, i + m), part)
        invariant
            n == text@.len(),
            m == part@.len(),
            i <= n - m,
            forall|j: int| 0 <= j < i ==> #[trigger] text@.subrange(j, j + m) != part@,
        decreases n - m - i,
    {
        i = i + 1;
    }
    let found = text_eq(text.substring_char(i, i + m), part);
    assert(found == (text@.subrange(i as int, i + m) == part@));
    found
}

/// What a binding is called where it is the source of endpoints: its device and the family
/// of its address.
pub fn binding_source(device: &str, ip: IpAddress) -> (r: Source)
    ensures
        r@ == (SourceModel::Mdns {
            nic: device@,
            family: if ip is V4 {
                Family::V4
            } else {
                Family::V6
            },
        }),
{
    let family = if ip.is_ipv4() {
        Family::V4
    } else {
        Family::V6
    };
    Source::Mdns { nic: device.to_owned(), family }
}

/// Whether a binding has to be made anew: its device or its address is another one.
pub fn needs_rebinding(bound_device: &str, bound_ip: IpAddress, device: &str, ip: IpAddress) -> (r:
    bool)
    ensures
        r == (bound_device@ != device@ || bound_ip != ip),
{
    !text_eq(bound_device, device) || bound_ip != ip
}

/// The hosts that a binding serves, with their endpoints.
#[derive(Debug, PartialEq, Eq)]
pub struct HostTable {
    service_name: String,
    entries: Vec<(String, Vec<Endpoint>)>,
}

/// The endpoints under a name.
pub open spec fn entry_of(entries: Seq<(String, Vec<Endpoint>)>, name: Seq<char>) -> Option<
    Seq<Endpoint>,
>
    decreases entries.len(),
{
    if entries.len() == 0 {
        None
    } else if entries.last().0@ == name {
        Some(entries.last().1@)
    } else {
        entry_of(entries.drop_last(), name)
    }
}

proof fn lemma_entry_of(entries: Seq<(String, Vec<Endpoint>)>, name: Seq<char>)
    ensures
        entry_of(entries, name) is Some <==> (exists|i: int|
            0 <= i < entries.len() && (#[trigger] entries[i]).0@ == name),
    decreases entries.len(),
{
    if entries.len() > 0 {
        lemma_entry_of(entries.drop_last(), name);
        if entries.last().0@ == name {
            assert(entries[entries.len() - 1].0@ == name);
        } else {
            if exists|i: int| 0 <= i < entries.len() && (#[trigger] entries[i]).0@ == name {
                let i = choose|i: int| 0 <= i < entries.len() && (#[trigger] entries[i]).0@ == name;
                assert(entries.drop_last()[i].0@ == name);
            }
            if entry_of(entries.drop_last(), name) is Some {
                let i = choose|i: int|
                    0 <= i < entries.drop_last().len() && (#[trigger] entries.drop_last()[i]).0@
                        == name;
                assert(entries[i].0@ == name);
            }
        }
    }
}

proof fn lemma_entry_of_without(
    entries: Seq<(String, Vec<Endpoint>)>,
    k: int,
    name: Seq<char>,
)
    requires
        0 <= k < entries.len(),
        entries[k].0@ != name,
    ensures
        entry_of(entries.remove(k), name) == entry_of(entries, name),
    decreases entries.len(),
{
    if k == entries.len() - 1 {
        assert(entries.remove(k) =~= entries.drop_last());
    } else {
        assert(entries.remove(k).drop_last() =~= entries.drop_last().remove(k));
        assert(entries.remove(k).last() == entries.last());
        lemma_entry_of_without(entries.drop_last(), k, name);
    }
}

impl HostTable {
    pub closed spec fn service_name(self) -> Seq<char> {
        self.service_name@
    }

    /// The endpoints under a local name.
    pub closed spec fn endpoints(self, local_name: Seq<char>) -> Option<Seq<Endpoint>> {
        entry_of(self.entries@, local_name)
    }

    pub fn new(service_name: &str) -> (r: Self)
        ensures
            r.service_name() == service_name@,
            forall|name: Seq<char>| #[trigger] r.endpoints(name) is None,
    {
        HostTable { service_name: service_name.to_owned(), entries: Vec::new() }
    }

    /// Serves a host with some endpoints, in place of those that it had. The local name is
    /// handed back.
    pub fn insert_host(&mut self, host_name: &str, endpoints: Vec<Endpoint>) -> (r: String)
        ensures
            r@ == local(old(self).service_name(), host_name@),
            final(self).service_name() == old(self).service_name(),
            forall|name: Seq<char>| #[trigger]
                final(self).endpoints(name) == (if name == r@ {
                    Some(endpoints@)
                } else {
                    old(self).endpoints(name)
                }),
    {
        let local_name = local_name(self.service_name.as_str(), host_name);
        let ghost given = self.entries@;
        let mut i: usize = 0;
        while i < self.entries.len()
            invariant
                i <= self.entries@.len(),
                self.service_name == old(self).service_name,
                forall|name: Seq<char>|
                    name != local_name@ ==> #[trigger] entry_of(self.entries@, name) == entry_of(
                        given,
                        name,
                    ),
            decreases self.entries@.len() - i,
        {
            if text_eq(self.entries[i].0.as_str(), local_name.as_str()) {
                let ghost before = self.entries@;
                self.entries.remove(i);
                proof {
                    assert(self.entries@ =~= before.remove(i as int));
                    assert forall|name: Seq<char>|
                        name != local_name@ implies #[trigger] entry_of(self.entries@, name)
                        == entry_of(given, name) by {
                        lemma_entry_of_without(before, i as int, name);
                    }
                }
            } else {
                i = i + 1;
            }
        }
        let ghost kept = self.entries@;
        self.entries.push((local_name.clone(), endpoints));
        proof {
            assert(self.entries@.drop_last() =~= kept);
            assert forall|name: Seq<char>| #[trigger]
                entry_of(self.entries@, name) == (if name == local_name@ {
                    Some(endpoints@)
                } else {
                    entry_of(given, name)
                }) by {
                if name != local_name@ {
                    assert(entry_of(self.entries@, name) == entry_of(kept, name));
                }
            }
        }
        local_name
    }

    /// Serves a host no longer.
    pub fn remove_host(&mut self, local_name: &str)
        ensures
            final(self).service_name() == old(self).service_name(),
            forall|name: Seq<char>| #[trigger]
                final(self).endpoints(name) == (if name == local_name@ {
                    None
                } else {
                    old(self).endpoints(name)
                }),
    {
        let ghost given = self.entries@;
        let mut i: usize = 0;
        while i < self.entries.len()
            invariant
                i <= self.entries@.len(),
                self.service_name == old(self).service_name,
                forall|j: int| 0 <= j < i ==> (#[trigger] self.entries@[j]).0@ != local_name@,
                forall|name: Seq<char>|
                    name != local_name@ ==> #[trigger] entry_of(self.entries@, name) == entry_of(
                        given,
                        name,
                    ),
            decreases self.entries@.len() - i,
        {
            if text_eq(self.entries[i].0.as_str(), local_name) {
                let ghost before = self.entries@;
                self.entries.remove(i);
                proof {
                    assert(self.entries@ =~= before.remove(i as int));
                    assert forall|name: Seq<char>|
                        name != local_name@ implies #[trigger] entry_of(self.entries@, name)
                        == entry_of(given, name) by {
                        lemma_entry_of_without(before, i as int, name);
                    }
                }
            } else {
                i = i + 1;
            }
        }
        proof {
            lemma_entry_of(self.entries@, local_name@);
        }
    }

    /// The endpoints that a host is served with.
    pub fn published_endpoints(&self, host_name: &str) -> (r: Option<Vec<Endpoint>>)
        ensures
            (match r {
                Some(endpoints) => Some(endpoints@),
                None => None,
            }) == self.endpoints(local(self.service_name(), host_name@)),
    {
        let local_name = local_name(self.service_name.as_str(), host_name);
        let mut n: usize = self.entries.len();
        assert(self.entries@.take(n as int) =~= self.entries@);
        while n > 0
            invariant
                n <= self.entries@.len(),
                local_name@ == local(self.service_name@, host_name@),
                entry_of(self.entries@, local_name@) == entry_of(
                    self.entries@.take(n as int),
                    local_name@,
                ),
            decreases n,
        {
            proof {
                assert(self.entries@.take(n as int).last() == self.entries@[n - 1]);
                assert(self.entries@.take(n as int).drop_last() =~= self.entries@.take(n - 1));
            }
            if text_eq(self.entries[n - 1].0.as_str(), local_name.as_str()) {
                return Some(vstd::slice::slice_to_vec(self.entries[n - 1].1.as_slice()));
            }
            n = n - 1;
        }
        None
    }

    /// Whether a query is answered: a name that it asks for occurs in the local name of a
    /// host that is served.
    pub open spec fn answered(self, questions: Seq<Seq<char>>) -> bool {
        exists|name: Seq<char>, i: int| #[trigger]
            self.endpoints(name) is Some && 0 <= i < questions.len() && occurs_in(
                #[trigger] questions[i],
                local(self.service_name(), name),
            )
    }

    /// Whether a query is answered: a name that it asks for occurs in the local name of a
    /// host that is served.
    pub fn answers(&self, questions: &Vec<String>) -> (r: bool)
        ensures
            r == self.answered(views(questions@)),
    {
        let ghost asked = views(questions@);
        assert(asked.len() == questions@.len());
        assert(forall|i: int| 0 <= i < asked.len() ==> asked[i] == (#[trigger] questions@[i])@);
        let mut k: usize = 0;
        while k < self.entries.len()
            invariant
                k <= self.entries@.len(),
                asked == views(questions@),
                asked.len() == questions@.len(),
                forall|j: int| 0 <= j < asked.len() ==> asked[j] == (#[trigger] questions@[j])@,
                forall|j: int, i: int|
                    0 <= j < k && 0 <= i < questions@.len() ==> !occurs_in(
                        (#[trigger] questions@[i])@,
                        local(self.service_name@, (#[trigger] self.entries@[j]).0@),
                    ),
            decreases self.entries@.len() - k,
        {
            let host = local_name(self.service_name.as_str(), self.entries[k].0.as_str());
            let mut i: usize = 0;
            while i < questions.len()
                invariant
                    i <= questions@.len(),
                    asked.len() == questions@.len(),
                    forall|j: int| 0 <= j < asked.len() ==> asked[j] == (#[trigger] questions@[j])@,
                    k < self.entries@.len(),
                    asked == views(questions@),
                    host@ == local(self.service_name@, self.entries@[k as int].0@),
                    forall|j: int|
                        0 <= j < i ==> !occurs_in((#[trigger] questions@[j])@, host@),
                decreases questions@.len() - i,
            {
                if contains_text(host.as_str(), questions[i].as_str()) {
                    proof {
                        lemma_entry_of(self.entries@, self.entries@[k as int].0@);
                        assert(self.endpoints(self.entries@[k as int].0@) is Some);
                        assert(occurs_in(asked[i as int], host@));
                    }
                    return true;
                }
                i = i + 1;
            }
            k = k + 1;
        }
        proof {
            assert forall|name: Seq<char>, i: int| #[trigger]
                self.endpoints(name) is Some && 0 <= i < asked.len() implies !occurs_in(
                #[trigger] asked[i],
                local(self.service_name(), name),
            ) by {
                assert(asked[i] == questions@[i]@);
                lemma_entry_of(self.entries@, name);
                let j = choose|j: int|
                    0 <= j < self.entries@.len() && (#[trigger] self.entries@[j]).0@ == name;
                assert(self.entries@[j].0@ == name);
            }
        }
        false
    }
}

/// A host that is served is answered: a query for its local name is, and for a host of the
/// DHTTP domain one for the service name is, too. The local name has to be local: where a
/// service name makes it one of the DHTTP domain, it is taken for a host again.
pub proof fn law_served_hosts_are_answered(
    table: HostTable,
    host: Seq<char>,
    questions: Seq<Seq<char>>,
    i: int,
)
    requires
        table.endpoints(local(table.service_name(), host)) is Some,
        !DHTTP_NAME_SUFFIX@.is_suffix_of(local(table.service_name(), host)),
        0 <= i < questions.len(),
        questions[i] == local(table.service_name(), host) || (DHTTP_NAME_SUFFIX@.is_suffix_of(host)
            && questions[i] == table.service_name()),
    ensures
        table.answered(questions),
{
    let served = local(table.service_name(), host);
    let asked = questions[i];
    let start = served.len() - asked.len();
    assert(served.subrange(start, start + asked.len()) =~= asked);
    assert(occurs_in(asked, served));
    assert(local(table.service_name(), served) == served);
}

/// The endpoints to serve. `records` are the records of the addresses, where an address can be
/// put into one.
pub fn mdns_endpoints(records: &Vec<Option<Endpoint>>) -> (r: Result<
    Vec<Endpoint>,
    EncodeEndpointPacketError,
>)
    ensures
        match (r, all_records(records@)) {
            (Ok(endpoints), Some(all)) => endpoints@ == all,
            (Err(e), None) => e is EncodeEndpoint,
            _ => false,
        },
{
    let mut out: Vec<Endpoint> = Vec::new();
    let mut i: usize = 0;
    while i < records.len()
        invariant
            i <= records@.len(),
            out@.len() == i,
            forall|j: int|
                0 <= j < i ==> (#[trigger] records@[j]) is Some && out@[j] == records@[j]->0,
        decreases records@.len() - i,
    {
        match records[i] {
            Some(record) => {
                out.push(record);
            },
            None => {
                assert(records@[i as int] is None);
                return Err(EncodeEndpointPacketError::EncodeEndpoint);
            },
        }
        i = i + 1;
    }
    assert(out@ =~= all_records(records@)->0);
    Ok(out)
}

/// The position of the first endpoint with an address, or the number of endpoints where
/// there is none.
pub open spec fn position_of(endpoints: Seq<Endpoint>, ip: IpAddress) -> int
    decreases endpoints.len(),
{
    if endpoints.len() == 0 {
        0
    } else if endpoints[0].addr.spec_ip() == ip {
        0
    } else {
        1 + position_of(endpoints.skip(1), ip)
    }
}

/// The endpoints of an answer: the first one at the address that the answer came from is
/// swapped to the front.
pub open spec fn preferred(endpoints: Seq<Endpoint>, source: IpAddress) -> Seq<Endpoint> {
    let k = position_of(endpoints, source);
    if k < endpoints.len() {
        endpoints.update(k, endpoints[0]).update(0, endpoints[k])
    } else {
        endpoints
    }
}

proof fn lemma_position_of(endpoints: Seq<Endpoint>, ip: IpAddress, k: int)
    requires
        0 <= k <= endpoints.len(),
        forall|j: int| 0 <= j < k ==> (#[trigger] endpoints[j]).addr.spec_ip() != ip,
        k < endpoints.len() ==> endpoints[k].addr.spec_ip() == ip,
    ensures
        position_of(endpoints, ip) == k,
    decreases endpoints.len(),
{
    if k > 0 {
        assert(endpoints[0].addr.spec_ip() != ip);
        assert forall|j: int| 0 <= j < k - 1 implies (#[trigger] endpoints.skip(
            1,
        )[j]).addr.spec_ip() != ip by {
            assert(endpoints.skip(1)[j] == endpoints[j + 1]);
        }
        lemma_position_of(endpoints.skip(1), ip, k - 1);
    }
}

/// The endpoints of an answer. One that the answer came from goes first, and an answer
/// without endpoints is an error.
pub fn answer_endpoints(source: IpAddress, endpoints: Vec<Endpoint>) -> (r: Result<
    Vec<Endpoint>,
    ErrorReport,
>)
    ensures
        match r {
            Ok(ordered) => endpoints@.len() > 0 && ordered@ == preferred(endpoints@, source),
            Err(e) => endpoints@.len() == 0 && e@ == (ErrorModel {
                message: "empty dns result"@,
                sources: Seq::empty(),
            }),
        },
{
    let ghost given = endpoints@;
    let mut endpoints = endpoints;
    if endpoints.is_empty() {
        return Err(ErrorReport::plain("empty dns result"));
    }
    let mut k: usize = 0;
    while k < endpoints.len() && endpoints[k].addr.ip() != source
        invariant
            endpoints@ == given,
            k <= endpoints@.len(),
            forall|j: int| 0 <= j < k ==> (#[trigger] given[j]).addr.spec_ip() != source,
        decreases endpoints@.len() - k,
    {
        k = k + 1;
    }
    proof {
        lemma_position_of(given, source, k as int);
    }
    if k < endpoints.len() {
        let first = endpoints[0];
        let found = endpoints[k];
        endpoints.set(k, first);
        endpoints.set(0, found);
    }
    Ok(endpoints)
}

/// A name in the DHTTP domain is served under the name of the service in place of the domain.
/// Any other name is served as it is.
pub proof fn law_names_are_served_below_the_service(
    service_name: Seq<char>,
    stem: Seq<char>,
    name: Seq<char>,
)
    ensures
        local(service_name, stem + ".dhttp.net"@) == stem + seq!['.'] + service_name,
        !".dhttp.net"@.is_suffix_of(name) ==> local(service_name, name) == name,
{
    reveal_strlit(".dhttp.net");
    reveal_strlit(".");
    let whole = stem + ".dhttp.net"@;
    assert(whole.subrange(whole.len() - ".dhttp.net"@.len(), whole.len() as int)
        =~= ".dhttp.net"@);
    assert(whole.take(whole.len() - ".dhttp.net"@.len()) =~= stem);
    assert("."@ =~= seq!['.']);
}

/// A text occurs where it stands with something before it and something behind it.
pub proof fn law_texts_occur_where_they_stand(
    before: Seq<char>,
    part: Seq<char>,
    after: Seq<char>,
    text: Seq<char>,
)
    ensures
        occurs_in(part, before + part + after),
        occurs_in(part, text) ==> exists|before: Seq<char>, after: Seq<char>|
            text == #[trigger] (before + part + after),
{
    let whole = before + part + after;
    let n = before.len() as int;
    assert(whole.subrange(n, n + part.len()) =~= part);
    if occurs_in(part, text) {
        let n = choose|n: int|
            0 <= n <= text.len() - part.len() && #[trigger] text.subrange(n, n + part.len())
                == part;
        let front = text.take(n);
        let back = text.skip(n + part.len());
        assert forall|i: int| 0 <= i < text.len() implies text[i] == (front + part + back)[i] by {
            if n <= i < n + part.len() {
                assert(text.subrange(n, n + part.len())[i - n] == text[i]);
            }
        }
        assert(text =~= front + part + back);
    }
}

/// Questions are answered only where one of them occurs in the name of a host that is served.
pub proof fn law_other_questions_are_not_answered(table: HostTable, questions: Seq<Seq<char>>)
    ensures
        questions.len() == 0 ==> !table.answered(questions),
        (forall|name: Seq<char>| #[trigger] table.endpoints(name) is None) ==> !table.answered(
            questions,
        ),
        table.answered(questions) ==> exists|name: Seq<char>, i: int| #[trigger]
            table.endpoints(name) is Some && 0 <= i < questions.len() && occurs_in(
                #[trigger] questions[i],
                local(table.service_name(), name),
            ),
{
}

proof fn lemma_position_from_zero(endpoints: Seq<Endpoint>, ip: IpAddress)
    ensures
        0 <= position_of(endpoints, ip),
    decreases endpoints.len(),
{
    if endpoints.len() > 0 {
        lemma_position_from_zero(endpoints.skip(1), ip);
    }
}

/// The endpoint that answered itself comes first, in exchange with the one that came first
/// before. The others stay where they are, and all do where none of them answered.
pub proof fn law_the_endpoint_that_answers_comes_first(
    endpoints: Seq<Endpoint>,
    source: IpAddress,
    k: int,
)
    ensures
        preferred(endpoints, source).len() == endpoints.len(),
        0 <= k < endpoints.len() && endpoints[k].addr.spec_ip() == source && (forall|j: int|
            0 <= j < k ==> (#[trigger] endpoints[j]).addr.spec_ip() != source) ==> {
            &&& preferred(endpoints, source)[0] == endpoints[k]
            &&& preferred(endpoints, source)[k] == endpoints[0]
            &&& forall|j: int|
                0 < j < endpoints.len() && j != k ==> #[trigger] preferred(endpoints, source)[j]
                    == endpoints[j]
        },
        (forall|j: int|
            0 <= j < endpoints.len() ==> (#[trigger] endpoints[j]).addr.spec_ip() != source)
            ==> preferred(endpoints, source) == endpoints,
{
    lemma_position_from_zero(endpoints, source);
    if 0 <= k < endpoints.len() && endpoints[k].addr.spec_ip() == source && (forall|j: int|
        0 <= j < k ==> (#[trigger] endpoints[j]).addr.spec_ip() != source) {
        lemma_position_of(endpoints, source, k);
    }
    if forall|j: int|
        0 <= j < endpoints.len() ==> (#[trigger] endpoints[j]).addr.spec_ip() != source {
        lemma_position_of(endpoints, source, endpoints.len() as int);
    }
}

} // verus!
