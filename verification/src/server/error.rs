//! What the server answers where it refuses a request, and the rules for host
//! names.
use vstd::prelude::*;

use crate::foreign::{domain_to_ascii, form_pairs, idna_ascii, parse_form, UriParts};
use crate::protocol::wire::views;
use crate::text::{
    all_digits, contains_char, insert_sorted, is_all_digits, is_space, join2, last_index,
    law_texts_are_ordered_by_their_first_difference, law_trimming_takes_the_spaces_around_away,
    lemma_last_index, lemma_text_before_total, lowered, rsplit_once, strictly_sorted,
    strip_suffix, text_before, text_eq, to_lower, trim, trimmed,
};

verus! {

/// Why a request was refused.
#[derive(Debug, PartialEq, Eq)]
pub enum AppError {
    MissingHostParam,
    InvalidHost,
    ForbiddenHost,
    DomainNotAllowed,
    HostMismatch,
    MissingClientCertificate,
    ClientCertDomainNotAllowed,
    InvalidDnsPacket { message: String },
    PublisherCertificateSelector,
    EndpointRecordSelector,
    EndpointSelectorMismatch,
    NoAnswersInPacket,
    SignatureRequired,
    InvalidSignature,
    Redis { message: String },
}

/// The contents of an [`AppError`].
pub enum AppFault {
    MissingHostParam,
    InvalidHost,
    ForbiddenHost,
    DomainNotAllowed,
    HostMismatch,
    MissingClientCertificate,
    ClientCertDomainNotAllowed,
    InvalidDnsPacket { message: Seq<char> },
    PublisherCertificateSelector,
    EndpointRecordSelector,
    EndpointSelectorMismatch,
    NoAnswersInPacket,
    SignatureRequired,
    InvalidSignature,
    Redis { message: Seq<char> },
}

impl View for AppError {
    type V = AppFault;

    open spec fn view(&self) -> AppFault {
        match *self {
            AppError::MissingHostParam => AppFault::MissingHostParam,
            AppError::InvalidHost => AppFault::InvalidHost,
            AppError::ForbiddenHost => AppFault::ForbiddenHost,
            AppError::DomainNotAllowed => AppFault::DomainNotAllowed,
            AppError::HostMismatch => AppFault::HostMismatch,
            AppError::MissingClientCertificate => AppFault::MissingClientCertificate,
            AppError::ClientCertDomainNotAllowed => AppFault::ClientCertDomainNotAllowed,
            AppError::InvalidDnsPacket { message } => AppFault::InvalidDnsPacket {
                message: message@,
            },
            AppError::PublisherCertificateSelector => AppFault::PublisherCertificateSelector,
            AppError::EndpointRecordSelector => AppFault::EndpointRecordSelector,
            AppError::EndpointSelectorMismatch => AppFault::EndpointSelectorMismatch,
            AppError::NoAnswersInPacket => AppFault::NoAnswersInPacket,
            AppError::SignatureRequired => AppFault::SignatureRequired,
            AppError::InvalidSignature => AppFault::InvalidSignature,
            AppError::Redis { message } => AppFault::Redis { message: message@ },
        }
    }
}

impl AppFault {
    /// The HTTP status of the answer.
    pub open spec fn status(self) -> u16 {
        match self {
            AppFault::DomainNotAllowed => 403,
            AppFault::MissingClientCertificate => 401,
            AppFault::ClientCertDomainNotAllowed => 403,
            AppFault::NoAnswersInPacket => 422,
            AppFault::Redis { .. } => 503,
            _ => 400,
        }
    }

    /// The body of the answer.
    pub open spec fn text(self) -> Seq<char> {
        match self {
            AppFault::MissingHostParam => "missing host parameter"@,
            AppFault::InvalidHost => "invalid host"@,
            AppFault::ForbiddenHost => "forbidden host"@,
            AppFault::DomainNotAllowed => "domain not allowed"@,
            AppFault::HostMismatch => "host mismatch"@,
            AppFault::MissingClientCertificate => "missing client certificate"@,
            AppFault::ClientCertDomainNotAllowed => "client certificate domain not allowed"@,
            AppFault::InvalidDnsPacket { message } => "invalid DNS packet: "@ + message,
            AppFault::PublisherCertificateSelector => "publisher certificate selector is invalid"@,
            AppFault::EndpointRecordSelector => "endpoint record selector is invalid"@,
            AppFault::EndpointSelectorMismatch =>
                "endpoint record selector does not match publisher certificate selector"@,
            AppFault::NoAnswersInPacket => "no answers in packet"@,
            AppFault::SignatureRequired => "signature required"@,
            AppFault::InvalidSignature => "invalid signature"@,
            AppFault::Redis { message } => "redis error: "@ + message,
        }
    }
}

impl AppError {
    /// The HTTP status of the answer.
    pub fn status(&self) -> (r: u16)
        ensures
            r == self@.status(),
    {
        match self {
            AppError::MissingHostParam => 400,
            AppError::InvalidHost => 400,
            AppError::ForbiddenHost => 400,
            AppError::DomainNotAllowed => 403,
            AppError::HostMismatch => 400,
            AppError::MissingClientCertificate => 401,
            AppError::ClientCertDomainNotAllowed => 403,
            AppError::InvalidDnsPacket { .. } => 400,
            AppError::PublisherCertificateSelector => 400,
            AppError::EndpointRecordSelector => 400,
            AppError::EndpointSelectorMismatch => 400,
            AppError::NoAnswersInPacket => 422,
            AppError::SignatureRequired => 400,
            AppError::InvalidSignature => 400,
            AppError::Redis { .. } => 503,
        }
    }

    /// The body of the answer.
    pub fn message(&self) -> (r: String)
        ensures
            r@ == self@.text(),
    {
        match self {
            AppError::MissingHostParam => "missing host parameter".to_owned(),
            AppError::InvalidHost => "invalid host".to_owned(),
            AppError::ForbiddenHost => "forbidden host".to_owned(),
            AppError::DomainNotAllowed => "domain not allowed".to_owned(),
            AppError::HostMismatch => "host mismatch".to_owned(),
            AppError::MissingClientCertificate => "missing client certificate".to_owned(),
            AppError::ClientCertDomainNotAllowed =>
                "client certificate domain not allowed".to_owned(),
            AppError::InvalidDnsPacket { message } => join2(
                "invalid DNS packet: ",
                message.as_str(),
            ),
            AppError::PublisherCertificateSelector =>
                "publisher certificate selector is invalid".to_owned(),
            AppError::EndpointRecordSelector => "endpoint record selector is invalid".to_owned(),
            AppError::EndpointSelectorMismatch =>
                "endpoint record selector does not match publisher certificate selector".to_owned(),
            AppError::NoAnswersInPacket => "no answers in packet".to_owned(),
            AppError::SignatureRequired => "signature required".to_owned(),
            AppError::InvalidSignature => "invalid signature".to_owned(),
            AppError::Redis { message } => join2("redis error: ", message.as_str()),
        }
    }
}

/// The host without a port. What follows the last colon is a port where it is made
/// of digits alone, also where it is empty.
pub open spec fn without_port(host: Seq<char>) -> Seq<char> {
    let i = last_index(host, ':');
    if i >= 0 && all_digits(host.skip(i + 1)) {
        host.take(i)
    } else {
        host
    }
}

/// The host without one dot at its end.
pub open spec fn without_dot(host: Seq<char>) -> Seq<char> {
    if host.len() > 0 && host.last() == '.' {
        host.drop_last()
    } else {
        host
    }
}

/// The normal form of a host name: without white space, port and final dot, in
/// ASCII and in lower case.
pub open spec fn normal_host(host: Seq<char>) -> Result<Seq<char>, AppFault> {
    let host = trimmed(host);
    if host.len() == 0 {
        Err(AppFault::InvalidHost)
    } else if host.contains('*') {
        Err(AppFault::ForbiddenHost)
    } else {
        match idna_ascii(without_dot(without_port(host))) {
            Some(ascii) => Ok(lowered(ascii)),
            None => Err(AppFault::InvalidHost),
        }
    }
}

/// A text result with the contents of its parts.
pub open spec fn text_outcome(r: Result<String, AppError>) -> Result<Seq<char>, AppFault> {
    match r {
        Ok(text) => Ok(text@),
        Err(e) => Err(e@),
    }
}

/// The normal form of a host name.
pub fn normalize_host_raw(host: &str) -> (r: Result<String, AppError>)
    ensures
        text_outcome(r) == normal_host(host@),
{
    let host = trim(host);
    if host.is_empty() {
        return Err(AppError::InvalidHost);
    }
    if contains_char(host, '*') {
        return Err(AppError::ForbiddenHost);
    }
    let host = match rsplit_once(host, ':') {
        Some((name, port)) => if is_all_digits(port) {
            name
        } else {
            host
        },
        None => host,
    };
    let n = host.unicode_len();
    let host = if n > 0 && host.get_char(n - 1) == '.' {
        let shorter = host.substring_char(0, n - 1);
        assert(shorter@ == host@.drop_last());
        shorter
    } else {
        host
    };
    match domain_to_ascii(host) {
        Some(ascii) => Ok(to_lower(ascii.as_str())),
        None => Err(AppError::InvalidHost),
    }
}

/// Whether the host is the suffix itself or a name under it.
pub open spec fn under_suffix(host: Seq<char>, suffix: Seq<char>) -> bool {
    host == suffix || (suffix.is_suffix_of(host) && host.len() > suffix.len() && host[host.len()
        - suffix.len() - 1] == '.')
}

/// Whether the host is the suffix itself or a name under it.
pub fn host_matches_suffix(host: &str, suffix: &str) -> (r: bool)
    ensures
        r == under_suffix(host@, suffix@),
{
    if text_eq(host, suffix) {
        return true;
    }
    match strip_suffix(host, suffix) {
        Some(prefix) => {
            let n = prefix.unicode_len();
            n > 0 && prefix.get_char(n - 1) == '.'
        },
        None => false,
    }
}

/// Whether the host is under one of the allowed suffixes.
pub open spec fn host_allowed(host: Seq<char>, allowlist: Seq<Seq<char>>) -> bool {
    exists|i: int| 0 <= i < allowlist.len() && under_suffix(host, #[trigger] allowlist[i])
}

/// The normal form of a host name that has to be under an allowed suffix.
pub open spec fn allowed_host(host: Seq<char>, allowlist: Seq<Seq<char>>) -> Result<
    Seq<char>,
    AppFault,
> {
    match normal_host(host) {
        Err(fault) => Err(fault),
        Ok(host) => if host_allowed(host, allowlist) {
            Ok(host)
        } else {
            Err(AppFault::DomainNotAllowed)
        },
    }
}

/// The normal form of a host name that has to be under an allowed suffix.
pub fn normalize_host(host: &str, allowlist: &Vec<String>) -> (r: Result<String, AppError>)
    ensures
        text_outcome(r) == allowed_host(host@, views(allowlist@)),
{
    let normal = match normalize_host_raw(host) {
        Ok(normal) => normal,
        Err(e) => return Err(e),
    };
    let mut i: usize = 0;
    while i < allowlist.len()
        invariant
            i <= allowlist@.len(),
            normal_host(host@) == Ok::<_, AppFault>(normal@),
            forall|j: int| 0 <= j < i ==> !under_suffix(normal@, #[trigger] views(allowlist@)[j]),
        decreases allowlist@.len() - i,
    {
        assert(views(allowlist@)[i as int] == allowlist@[i as int]@);
        if host_matches_suffix(normal.as_str(), allowlist[i].as_str()) {
            return Ok(normal);
        }
        i = i + 1;
    }
    Err(AppError::DomainNotAllowed)
}

/// The list is the sorted set of the normal forms of the entries, each of which
/// has one.
pub open spec fn normal_allowlist(entries: Seq<Seq<char>>, list: Seq<Seq<char>>) -> bool {
    &&& strictly_sorted(list)
    &&& forall|i: int| 0 <= i < entries.len() ==> normal_host(#[trigger] entries[i]) is Ok
    &&& list.to_set() == entries.map_values(|e: Seq<char>| normal_host(e)->Ok_0).to_set()
}

/// The normal forms of the entries, sorted and without repetitions. The first entry
/// that has none decides the error.
pub fn normalize_host_allowlist(entries: &Vec<String>) -> (r: Result<Vec<String>, AppError>)
    ensures
        match r {
            Ok(list) => normal_allowlist(views(entries@), views(list@)),
            Err(e) => exists|i: int|
                {
                    &&& 0 <= i < entries@.len()
                    &&& normal_host(#[trigger] views(entries@)[i]) == Err::<Seq<char>, _>(e@)
                    &&& forall|j: int|
                        0 <= j < i ==> normal_host(#[trigger] views(entries@)[j]) is Ok
                },
        },
{
    let ghost texts = views(entries@);
    let ghost forms = |e: Seq<char>| normal_host(e)->Ok_0;
    let mut list: Vec<String> = Vec::new();
    let mut i: usize = 0;
    assert(views(list@).to_set() =~= texts.take(0).map_values(forms).to_set());
    while i < entries.len()
        invariant
            i <= entries@.len(),
            texts == views(entries@),
            forms == (|e: Seq<char>| normal_host(e)->Ok_0),
            strictly_sorted(views(list@)),
            forall|j: int| 0 <= j < i ==> normal_host(#[trigger] texts[j]) is Ok,
            views(list@).to_set() == texts.take(i as int).map_values(forms).to_set(),
        decreases entries@.len() - i,
    {
        assert(texts[i as int] == entries@[i as int]@);
        match normalize_host_raw(entries[i].as_str()) {
            Ok(host) => {
                proof {
                    let done = texts.take(i as int).map_values(forms);
                    assert(texts.take(i + 1).map_values(forms) =~= done.push(host@));
                    done.lemma_push_to_set_commute(host@);
                }
                insert_sorted(&mut list, host);
            },
            Err(e) => return Err(e),
        }
        i = i + 1;
    }
    assert(texts.take(i as int) == texts);
    Ok(list)
}

/// The parameters of a query, in order.
#[derive(Debug, PartialEq, Eq)]
pub struct QueryParams {
    pub pairs: Vec<(String, String)>,
}

impl View for QueryParams {
    type V = Seq<(Seq<char>, Seq<char>)>;

    open spec fn view(&self) -> Seq<(Seq<char>, Seq<char>)> {
        self.pairs@.map_values(|p: (String, String)| (p.0@, p.1@))
    }
}

/// The value of a parameter. Where it is given more than once, the last one counts.
pub open spec fn param_value(pairs: Seq<(Seq<char>, Seq<char>)>, name: Seq<char>) -> Option<
    Seq<char>,
>
    decreases pairs.len(),
{
    if pairs.len() == 0 {
        None
    } else if pairs.last().0 == name {
        Some(pairs.last().1)
    } else {
        param_value(pairs.drop_last(), name)
    }
}

/// The parameters in the query of a URI.
pub fn parse_query_params(uri: &UriParts) -> (r: QueryParams)
    ensures
        r@ == form_pairs(
            match uri@.query {
                Some(query) => query,
                None => ""@,
            },
        ),
{
    let pairs = match &uri.query {
        Some(query) => parse_form(query.as_str()),
        None => parse_form(""),
    };
    QueryParams { pairs }
}

impl QueryParams {
    /// The value of a parameter.
    pub fn get<'a>(&'a self, name: &str) -> (r: Option<&'a String>)
        ensures
            r is Some <==> param_value(self@, name@) is Some,
            r is Some ==> param_value(self@, name@) == Some((r->0)@),
    {
        let mut n: usize = self.pairs.len();
        assert(self@.take(n as int) == self@);
        while n > 0
            invariant
                n <= self.pairs@.len(),
                param_value(self@, name@) == param_value(self@.take(n as int), name@),
            decreases n,
        {
            let ghost front = self@.take(n as int);
            assert(front.last() == (self.pairs@[n - 1].0@, self.pairs@[n - 1].1@));
            assert(front.drop_last() == self@.take(n - 1));
            if text_eq(self.pairs[n - 1].0.as_str(), name) {
                return Some(&self.pairs[n - 1].1);
            }
            n = n - 1;
        }
        None
    }
}

/// The statuses of the refusals: who has no certificate is told so, who is not allowed is
/// forbidden, an empty packet cannot be processed, and a broken store is not available. The
/// request is bad in every other case.
pub proof fn law_refusals_have_their_status(fault: AppFault)
    ensures
        fault.status() == 401 <==> fault is MissingClientCertificate,
        fault.status() == 403 <==> fault is DomainNotAllowed || fault is ClientCertDomainNotAllowed,
        fault.status() == 422 <==> fault is NoAnswersInPacket,
        fault.status() == 503 <==> fault is Redis,
        fault.status() == 400 <==> !(fault is MissingClientCertificate || fault is DomainNotAllowed
            || fault is ClientCertDomainNotAllowed || fault is NoAnswersInPacket || fault is Redis),
{
}

/// A host as it is written without anything around it: no space at its ends, no wildcard and
/// no dot at its end.
pub open spec fn is_bare(host: Seq<char>) -> bool {
    &&& host.len() > 0
    &&& !is_space(host[0])
    &&& !is_space(host.last())
    &&& !host.contains('*')
    &&& host.last() != '.'
}

proof fn lemma_bare(host: Seq<char>)
    requires
        host.len() > 0,
        !is_space(host[0]),
        !is_space(host.last()),
    ensures
        trimmed(host) == host,
{
    law_trimming_takes_the_spaces_around_away(Seq::empty(), host, Seq::empty());
    assert(Seq::<char>::empty() + host + Seq::<char>::empty() =~= host);
}

/// The normal form of a host is its ASCII form in small letters, and a host without an ASCII
/// form is refused.
pub proof fn law_hosts_are_normalized_to_small_ascii(host: Seq<char>)
    requires
        is_bare(host),
        !host.contains(':'),
    ensures
        idna_ascii(host) matches Some(ascii) ==> normal_host(host) == Ok::<_, AppFault>(
            lowered(ascii),
        ),
        idna_ascii(host) is None ==> normal_host(host) == Err::<Seq<char>, _>(
            AppFault::InvalidHost,
        ),
{
    lemma_bare(host);
    lemma_last_index(host, ':');
}

/// Neither a port, nor a dot at the end, nor spaces around change the normal form of a host.
pub proof fn law_ports_dots_and_spaces_do_not_count(
    before: Seq<char>,
    host: Seq<char>,
    port: Seq<char>,
    after: Seq<char>,
)
    requires
        is_bare(host),
        !host.contains(':'),
        forall|i: int| 0 <= i < port.len() ==> 48 <= (#[trigger] port[i]) as u32 <= 57,
        forall|i: int| 0 <= i < before.len() ==> is_space(#[trigger] before[i]),
        forall|i: int| 0 <= i < after.len() ==> is_space(#[trigger] after[i]),
    ensures
        normal_host(host + seq![':'] + port) == normal_host(host),
        normal_host(host + seq!['.']) == normal_host(host),
        normal_host(host + seq!['.', ':'] + port) == normal_host(host),
        normal_host(before + host + after) == normal_host(host),
{
    lemma_bare(host);
    lemma_last_index(host, ':');
    law_trimming_takes_the_spaces_around_away(before, host, after);

    let ported = host + seq![':'] + port;
    lemma_port(host, port);

    let dotted = host + seq!['.'];
    assert(dotted[0] == host[0]);
    lemma_bare(dotted);
    lemma_last_index(dotted, ':');
    assert forall|i: int| 0 <= i < dotted.len() implies dotted[i] != ':' && dotted[i] != '*' by {
        if i < host.len() {
            assert(dotted[i] == host[i]);
            assert(host.contains(dotted[i]));
        }
    }
    assert(dotted.drop_last() =~= host);

    assert(dotted + seq![':'] + port =~= host + seq!['.', ':'] + port);
    lemma_port(dotted, port);
    assert(normal_host(dotted + seq![':'] + port) == normal_host(dotted));
}

proof fn lemma_port(host: Seq<char>, port: Seq<char>)
    requires
        host.len() > 0,
        !is_space(host[0]),
        !is_space(host.last()),
        forall|i: int| 0 <= i < host.len() ==> host[i] != ':' && host[i] != '*',
        forall|i: int| 0 <= i < port.len() ==> 48 <= (#[trigger] port[i]) as u32 <= 57,
    ensures
        normal_host(host + seq![':'] + port) == normal_host(host),
{
    let ported = host + seq![':'] + port;
    let n = host.len() as int;
    assert(ported[0] == host[0]);
    assert(ported[n] == ':');
    if port.len() > 0 {
        assert(ported.last() == port.last());
    } else {
        assert(ported.last() == ':');
    }
    lemma_bare(ported);
    lemma_bare(host);
    lemma_last_index(host, ':');
    lemma_last_index(ported, ':');
    let i = last_index(ported, ':');
    if i > n {
        assert(ported[i] == port[i - n - 1]);
    }
    assert(i == n);
    assert(ported.skip(n + 1) =~= port);
    assert(ported.take(n) =~= host);
    assert(!ported.contains('*')) by {
        if ported.contains('*') {
            let k = ported.index_of('*');
            if k < n {
                assert(ported[k] == host[k]);
            } else if k > n {
                assert(ported[k] == port[k - n - 1]);
            }
        }
    }
    assert(!host.contains('*'));
}

/// A host of nothing but spaces is invalid, and one with a wildcard is forbidden.
pub proof fn law_empty_hosts_and_wildcards_are_refused(host: Seq<char>)
    ensures
        (forall|i: int| 0 <= i < host.len() ==> is_space(#[trigger] host[i])) ==> normal_host(host)
            == Err::<Seq<char>, _>(AppFault::InvalidHost),
        host.len() > 0 && !is_space(host[0]) && !is_space(host.last()) && host.contains('*')
            ==> normal_host(host) == Err::<Seq<char>, _>(AppFault::ForbiddenHost),
{
    if forall|i: int| 0 <= i < host.len() ==> is_space(#[trigger] host[i]) {
        law_trimming_takes_the_spaces_around_away(host, Seq::empty(), Seq::empty());
        assert(host + Seq::<char>::empty() + Seq::<char>::empty() =~= host);
    }
    if host.len() > 0 && !is_space(host[0]) && !is_space(host.last()) {
        lemma_bare(host);
    }
}

/// A host is allowed exactly where its normal form is an entry of the list, or ends in a dot
/// and an entry.
pub proof fn law_hosts_below_an_entry_are_allowed(
    host: Seq<char>,
    allowlist: Seq<Seq<char>>,
    normal: Seq<char>,
)
    requires
        normal_host(host) == Ok::<_, AppFault>(normal),
    ensures
        allowed_host(host, allowlist) == Ok::<_, AppFault>(normal) <==> (exists|i: int|
            0 <= i < allowlist.len() && (normal == #[trigger] allowlist[i] || (seq!['.']
                + allowlist[i]).is_suffix_of(normal))),
        allowed_host(host, allowlist) is Err ==> allowed_host(host, allowlist) == Err::<
            Seq<char>,
            _,
        >(AppFault::DomainNotAllowed),
{
    assert forall|suffix: Seq<char>| #[trigger] under_suffix(normal, suffix) <==> (normal == suffix
        || (seq!['.'] + suffix).is_suffix_of(normal)) by {
        let dotted = seq!['.'] + suffix;
        let n = normal.len() as int;
        let m = suffix.len() as int;
        if dotted.is_suffix_of(normal) {
            assert(dotted =~= normal.subrange(n - m - 1, n));
            assert(normal.subrange(n - m - 1, n)[0] == '.');
            assert(suffix =~= normal.subrange(n - m, n)) by {
                assert forall|k: int| 0 <= k < m implies suffix[k] == normal.subrange(n - m, n)[k] by {
                    assert(dotted[k + 1] == suffix[k]);
                    assert(normal.subrange(n - m - 1, n)[k + 1] == normal[n - m + k]);
                }
            }
        }
        if suffix.is_suffix_of(normal) && n > m && normal[n - m - 1] == '.' {
            assert(suffix =~= normal.subrange(n - m, n));
            assert(dotted =~= normal.subrange(n - m - 1, n)) by {
                assert forall|k: int| 0 <= k < m + 1 implies dotted[k] == normal.subrange(
                    n - m - 1,
                    n,
                )[k] by {
                    if k > 0 {
                        assert(suffix[k - 1] == normal.subrange(n - m, n)[k - 1]);
                    }
                }
            }
        }
    }
    if host_allowed(normal, allowlist) {
        let i = choose|i: int|
            0 <= i < allowlist.len() && under_suffix(normal, #[trigger] allowlist[i]);
        assert(normal == allowlist[i] || (seq!['.'] + allowlist[i]).is_suffix_of(normal));
    }
    if exists|i: int|
        0 <= i < allowlist.len() && (normal == #[trigger] allowlist[i] || (seq!['.']
            + allowlist[i]).is_suffix_of(normal)) {
        let i = choose|i: int|
            0 <= i < allowlist.len() && (normal == #[trigger] allowlist[i] || (seq!['.']
                + allowlist[i]).is_suffix_of(normal));
        assert(under_suffix(normal, allowlist[i]));
    }
}

/// A host that has no normal form is refused for that, whatever is allowed.
pub proof fn law_hosts_without_a_normal_form_are_refused(
    host: Seq<char>,
    allowlist: Seq<Seq<char>>,
)
    ensures
        normal_host(host) is Err ==> allowed_host(host, allowlist) == normal_host(host),
{
}

/// The last of several parameters of one name counts.
pub proof fn law_the_last_parameter_counts(
    pairs: Seq<(Seq<char>, Seq<char>)>,
    name: Seq<char>,
    i: int,
)
    ensures
        0 <= i < pairs.len() && pairs[i].0 == name && (forall|j: int|
            i < j < pairs.len() ==> (#[trigger] pairs[j]).0 != name) ==> param_value(pairs, name)
            == Some(pairs[i].1),
        (forall|j: int| 0 <= j < pairs.len() ==> (#[trigger] pairs[j]).0 != name) ==> param_value(
            pairs,
            name,
        ) is None,
    decreases pairs.len(),
{
    if pairs.len() > 0 {
        let front = pairs.drop_last();
        law_the_last_parameter_counts(front, name, i);
        if pairs.last().0 != name {
            if 0 <= i < pairs.len() && pairs[i].0 == name && (forall|j: int|
                i < j < pairs.len() ==> (#[trigger] pairs[j]).0 != name) {
                assert(front[i] == pairs[i]);
                assert forall|j: int| i < j < front.len() implies (
                #[trigger] front[j]).0 != name by {
                    assert(pairs[j].0 != name);
                }
            }
            if forall|j: int| 0 <= j < pairs.len() ==> (#[trigger] pairs[j]).0 != name {
                assert forall|j: int| 0 <= j < front.len() implies (
                #[trigger] front[j]).0 != name by {
                    assert(pairs[j].0 != name);
                }
            }
        } else {
            assert(pairs[pairs.len() - 1].0 == name);
        }
    }
}

/// Every error stands for the fault of its own kind, with its message.
pub proof fn law_errors_stand_for_their_faults(error: AppError)
    ensures
        error is MissingHostParam <==> error@ is MissingHostParam,
        error is InvalidHost <==> error@ is InvalidHost,
        error is ForbiddenHost <==> error@ is ForbiddenHost,
        error is DomainNotAllowed <==> error@ is DomainNotAllowed,
        error is HostMismatch <==> error@ is HostMismatch,
        error is MissingClientCertificate <==> error@ is MissingClientCertificate,
        error is ClientCertDomainNotAllowed <==> error@ is ClientCertDomainNotAllowed,
        error is PublisherCertificateSelector <==> error@ is PublisherCertificateSelector,
        error is EndpointRecordSelector <==> error@ is EndpointRecordSelector,
        error is EndpointSelectorMismatch <==> error@ is EndpointSelectorMismatch,
        error is NoAnswersInPacket <==> error@ is NoAnswersInPacket,
        error is SignatureRequired <==> error@ is SignatureRequired,
        error is InvalidSignature <==> error@ is InvalidSignature,
        error matches AppError::InvalidDnsPacket { message } ==> error@
            == (AppFault::InvalidDnsPacket { message: message@ }),
        error matches AppError::Redis { message } ==> error@ == (AppFault::Redis {
            message: message@,
        }),
{
}

/// What went wrong with a packet, or with the store, is told in full, and the two are told
/// apart.
pub proof fn law_refusals_tell_what_went_wrong(message: Seq<char>, other: Seq<char>)
    ensures
        message.is_suffix_of((AppFault::InvalidDnsPacket { message }).text()),
        message.is_suffix_of((AppFault::Redis { message }).text()),
        (AppFault::InvalidDnsPacket { message }).text() != (AppFault::Redis {
            message: other,
        }).text(),
        AppFault::SignatureRequired.text() != AppFault::InvalidSignature.text(),
        AppFault::InvalidHost.text() != AppFault::ForbiddenHost.text(),
        AppFault::DomainNotAllowed.text() != AppFault::ClientCertDomainNotAllowed.text(),
{
    reveal_strlit("invalid DNS packet: ");
    reveal_strlit("redis error: ");
    reveal_strlit("signature required");
    reveal_strlit("invalid signature");
    reveal_strlit("invalid host");
    reveal_strlit("forbidden host");
    reveal_strlit("domain not allowed");
    reveal_strlit("client certificate domain not allowed");
    let packet = (AppFault::InvalidDnsPacket { message }).text();
    let store = (AppFault::Redis { message }).text();
    assert(packet.subrange(packet.len() - message.len(), packet.len() as int) =~= message);
    assert(store.subrange(store.len() - message.len(), store.len() as int) =~= message);
    assert(packet[0] == 'i');
    assert((AppFault::Redis { message: other }).text()[0] == 'r');
    assert("signature required"@[0] == 's');
    assert("invalid signature"@[0] == 'i');
    assert("forbidden host"@[0] == 'f');
    assert("invalid host"@[0] == 'i');
    assert("domain not allowed"@[0] == 'd');
    assert("client certificate domain not allowed"@[0] == 'c');
}

/// A list of allowed hosts holds the normal forms of its entries, each once, and nothing else.
pub proof fn law_allowlists_hold_the_normal_forms(
    entries: Seq<Seq<char>>,
    list: Seq<Seq<char>>,
    name: Seq<char>,
)
    requires
        normal_allowlist(entries, list),
    ensures
        list.no_duplicates(),
        list.contains(name) <==> exists|i: int|
            0 <= i < entries.len() && normal_host(#[trigger] entries[i]) == Ok::<_, AppFault>(name),
{
    let forms = entries.map_values(|e: Seq<char>| normal_host(e)->Ok_0);
    assert(list.to_set().contains(name) <==> forms.to_set().contains(name));
    if list.contains(name) {
        let i = forms.index_of(name);
        assert(normal_host(entries[i]) is Ok);
        assert(normal_host(entries[i]) == Ok::<_, AppFault>(name));
    }
    if exists|i: int|
        0 <= i < entries.len() && normal_host(#[trigger] entries[i]) == Ok::<_, AppFault>(name) {
        let i = choose|i: int|
            0 <= i < entries.len() && normal_host(#[trigger] entries[i]) == Ok::<_, AppFault>(name);
        assert(forms[i] == name);
        assert(forms.to_set().contains(name));
    }
    assert forall|i: int, j: int| 0 <= i < list.len() && 0 <= j < list.len() && i != j implies
        list[i] != list[j] by {
        lemma_text_before_total(list[i], list[j]);
        law_texts_are_ordered_by_their_first_difference(list[i], 'a', 'a', list[i], list[i]);
        if i < j {
            assert(text_before(list[i], list[j]));
        } else {
            assert(text_before(list[j], list[i]));
        }
    }
}

/// An outcome is told with its own text, or with the fault that its error stands for.
pub proof fn law_outcomes_are_told_as_they_are(text: String, error: AppError)
    ensures
        text_outcome(Ok(text)) == Ok::<_, AppFault>(text@),
        text_outcome(Err(error)) == Err::<Seq<char>, _>(error@),
{
}

} // verus!
