//! Which publisher may publish what.
use vstd::prelude::*;

use crate::foreign::{
    certificate_alt_names, digestible, optional_text, optional_texts, read_alt_names,
};
use crate::protocol::packet::{Answer, AnswerModel};
use crate::protocol::signature::{
    fields_bounded, verification, SignatureFault, SignatureFields, SignatureFieldsModel,
};
use crate::protocol::wire::{lemma_views_push, views};
use crate::server::error::{allowed_host, normalize_host, AppError, AppFault};
use crate::text::{strip_suffix, text_eq};

verus! {

/// How the records of a host are protected.
#[derive(Debug, Clone, Copy, PartialEq, Eq, Structural)]
pub enum DomainPolicy {
    /// The certificate of the publisher has to be for the host.
    Standard,
    /// Any publisher with a certificate may publish.
    OpenMulti,
}

/// The hosts that a policy is for.
#[derive(Debug, PartialEq, Eq)]
pub enum PolicyRule {
    Exact(String),
    Suffix(String),
}

impl PolicyRule {
    pub open spec fn covers(self, host: Seq<char>) -> bool {
        match self {
            PolicyRule::Exact(exact) => host == exact@,
            PolicyRule::Suffix(suffix) => host == suffix@ || (seq!['.'] + suffix@).is_suffix_of(
                host,
            ),
        }
    }

    /// Whether the rule is for the host.
    pub fn matches(&self, host: &str) -> (r: bool)
        ensures
            r == self.covers(host@),
    {
        match self {
            PolicyRule::Exact(exact) => text_eq(host, exact.as_str()),
            PolicyRule::Suffix(suffix) => {
                if text_eq(host, suffix.as_str()) {
                    return true;
                }
                let mut dotted = String::new();
                dotted.append(".");
                dotted.append(suffix.as_str());
                proof {
                    reveal_strlit(".");
                    assert(dotted@ == seq!['.'] + suffix@);
                }
                strip_suffix(host, dotted.as_str()).is_some()
            },
        }
    }
}

/// Policies in the order in which they are tried.
#[derive(Debug, PartialEq, Eq)]
pub struct DomainPolicies(pub Vec<(PolicyRule, DomainPolicy)>);

impl Default for DomainPolicies {
    fn default() -> (r: Self)
        ensures
            r.0@ == Seq::<(PolicyRule, DomainPolicy)>::empty(),
    {
        DomainPolicies(Vec::new())
    }
}

/// The policy of the first rule that is for the host, and the standard policy where
/// there is none.
pub open spec fn policy_of(
    policies: Seq<(PolicyRule, DomainPolicy)>,
    host: Seq<char>,
) -> DomainPolicy
    decreases policies.len(),
{
    if policies.len() == 0 {
        DomainPolicy::Standard
    } else if policies[0].0.covers(host) {
        policies[0].1
    } else {
        policy_of(policies.skip(1), host)
    }
}

impl DomainPolicies {
    /// The policy for a host.
    pub fn policy_for(&self, host: &str) -> (r: DomainPolicy)
        ensures
            r == policy_of(self.0@, host@),
    {
        let mut i: usize = 0;
        assert(self.0@.skip(0) == self.0@);
        while i < self.0.len()
            invariant
                i <= self.0@.len(),
                policy_of(self.0@, host@) == policy_of(self.0@.skip(i as int), host@),
            decreases self.0@.len() - i,
        {
            assert(self.0@.skip(i as int).skip(1) == self.0@.skip(i + 1));
            if self.0[i].0.matches(host) {
                return self.0[i].1;
            }
            i = i + 1;
        }
        DomainPolicy::Standard
    }
}

/// The DNS names among the subject alternative names of a certificate, in order.
pub open spec fn dns_names(names: Seq<Option<Seq<char>>>) -> Seq<Seq<char>>
    decreases names.len(),
{
    if names.len() == 0 {
        Seq::empty()
    } else {
        let front = dns_names(names.drop_last());
        match names.last() {
            Some(name) => front.push(name),
            None => front,
        }
    }
}

/// The DNS names that the leaf certificate of a chain is for.
pub open spec fn chain_dns_names(chain: Seq<Seq<u8>>) -> Seq<Seq<char>> {
    if chain.len() == 0 {
        Seq::empty()
    } else {
        match certificate_alt_names(chain[0]) {
            Some(names) => dns_names(names),
            None => Seq::empty(),
        }
    }
}

/// The DNS names among the subject alternative names of a certificate, in order. A name of
/// another kind is `None`.
pub fn dns_alt_names(names: Vec<Option<String>>) -> (r: Vec<String>)
    ensures
        views(r@) == dns_names(optional_texts(names@)),
{
    let ghost all = optional_texts(names@);
    let mut out: Vec<String> = Vec::new();
    assert(views(out@) =~= dns_names(all.take(0)));
    for name in iter: names
        invariant
            all == optional_texts(iter.seq()),
            views(out@) == dns_names(all.take(iter.index())),
    {
        let ghost n = iter.index();
        proof {
            assert(all.take(n + 1).drop_last() =~= all.take(n));
            assert(all.take(n + 1).last() == optional_text(name));
        }
        if let Some(name) = name {
            proof {
                lemma_views_push(out@, name);
            }
            out.push(name);
        }
    }
    assert(all.take(all.len() as int) =~= all);
    out
}

/// The DNS names that the leaf certificate of a chain is for. The leaf comes first.
pub fn extract_client_dns_sans(cert_chain: &Vec<Vec<u8>>) -> (r: Vec<String>)
    ensures
        views(r@) == chain_dns_names(views(cert_chain@)),
{
    let none: Vec<String> = Vec::new();
    assert(views(none@) =~= Seq::<Seq<char>>::empty());
    if cert_chain.is_empty() {
        return none;
    }
    assert(views(cert_chain@)[0] == cert_chain@[0]@);
    match read_alt_names(cert_chain[0].as_slice()) {
        Some(names) => dns_alt_names(names),
        None => none,
    }
}

/// One of the names has this normal form, and it is allowed.
pub open spec fn names_host(
    names: Seq<Seq<char>>,
    allowlist: Seq<Seq<char>>,
    host: Seq<char>,
) -> bool {
    exists|i: int|
        0 <= i < names.len() && allowed_host(#[trigger] names[i], allowlist) == Ok::<_, AppFault>(
            host,
        )
}

/// `host` is the one allowed host that the names are for.
pub open spec fn sole_host(
    names: Seq<Seq<char>>,
    allowlist: Seq<Seq<char>>,
    host: Seq<char>,
) -> bool {
    names_host(names, allowlist, host) && forall|other: Seq<char>|
        names_host(names, allowlist, other) ==> other == host
}

/// The one allowed host among some names. Names that are not allowed do not count,
/// and the same host may be named more than once.
pub fn sole_allowed_host(names: &Vec<String>, allowlist: &Vec<String>) -> (r: Result<
    String,
    AppError,
>)
    ensures
        match r {
            Ok(host) => sole_host(views(names@), views(allowlist@), host@),
            Err(e) => e is ClientCertDomainNotAllowed && forall|host: Seq<char>|
                !sole_host(views(names@), views(allowlist@), host),
        },
{
    let ghost texts = views(names@);
    let ghost allow = views(allowlist@);
    let mut found: Option<String> = None;
    let mut i: usize = 0;
    while i < names.len()
        invariant
            i <= names@.len(),
            texts == views(names@),
            allow == views(allowlist@),
            found is Some ==> names_host(texts, allow, (found->0)@),
            forall|j: int|
                0 <= j < i ==> match allowed_host(#[trigger] texts[j], allow) {
                    Ok(host) => found is Some && host == (found->0)@,
                    Err(_) => true,
                },
        decreases names@.len() - i,
    {
        assert(texts[i as int] == names@[i as int]@);
        match normalize_host(names[i].as_str(), allowlist) {
            Ok(host) => {
                let ghost text = host@;
                assert(names_host(texts, allow, text));
                match &found {
                    Some(first) => {
                        if !text_eq(first.as_str(), host.as_str()) {
                            proof {
                                let one = first@;
                                assert forall|h: Seq<char>| !sole_host(texts, allow, h) by {
                                    if sole_host(texts, allow, h) {
                                        assert(one == h);
                                        assert(text == h);
                                    }
                                }
                            }
                            return Err(AppError::ClientCertDomainNotAllowed);
                        }
                    },
                    None => {
                        found = Some(host);
                    },
                }
            },
            Err(_) => {},
        }
        i = i + 1;
    }
    match found {
        Some(host) => {
            assert forall|other: Seq<char>| names_host(texts, allow, other) implies other
                == host@ by {
                let k = choose|k: int|
                    0 <= k < texts.len() && allowed_host(#[trigger] texts[k], allow) == Ok::<
                        _,
                        AppFault,
                    >(other);
                assert(allowed_host(texts[k], allow) is Ok);
            }
            Ok(host)
        },
        None => {
            assert forall|h: Seq<char>| !names_host(texts, allow, h) by {
                if names_host(texts, allow, h) {
                    let k = choose|k: int|
                        0 <= k < texts.len() && allowed_host(#[trigger] texts[k], allow) == Ok::<
                            _,
                            AppFault,
                        >(h);
                    assert(allowed_host(texts[k], allow) is Ok);
                }
            }
            Err(AppError::ClientCertDomainNotAllowed)
        },
    }
}

/// The one allowed host that the leaf certificate of a client is for.
pub fn client_allowed_host(cert_chain: &Vec<Vec<u8>>, allowlist: &Vec<String>) -> (r: Result<
    String,
    AppError,
>)
    ensures
        match r {
            Ok(host) => sole_host(
                chain_dns_names(views(cert_chain@)),
                views(allowlist@),
                host@,
            ),
            Err(e) => e is ClientCertDomainNotAllowed && forall|host: Seq<char>|
                !sole_host(chain_dns_names(views(cert_chain@)), views(allowlist@), host),
        },
{
    let names = extract_client_dns_sans(cert_chain);
    sole_allowed_host(&names, allowlist)
}

/// A packet that may be published.
#[derive(Debug, PartialEq, Eq)]
pub enum ValidatedDnsPacket {
    /// The packet has answers. The name is that of the first one, as it is written.
    Records { host: String },
    /// The packet has no answers: it clears what was published.
    Empty,
}

/// Whether a packet is signed by the holder of the leaf certificate of a chain, with
/// the signature in the fields.
pub open spec fn signature_check(
    answers: Seq<AnswerModel>,
    packet: Seq<u8>,
    chain: Seq<Seq<u8>>,
    fields: SignatureFieldsModel,
) -> Result<(), AppFault> {
    if fields == SignatureFieldsModel::unsigned() {
        Err(AppFault::SignatureRequired)
    } else if chain.len() == 0 {
        Err(AppFault::MissingClientCertificate)
    } else if verification(fields, packet, chain[0]) != Ok::<bool, SignatureFault>(true) {
        Err(AppFault::InvalidSignature)
    } else if exists|i: int|
        0 <= i < answers.len() && (#[trigger] answers[i]).endpoint is Some
            && answers[i].endpoint->0.signed {
        Err(AppFault::InvalidSignature)
    } else {
        Ok(())
    }
}

/// Whether all answers are for the expected host. The first one that is not
/// decides.
pub open spec fn answers_check(
    answers: Seq<AnswerModel>,
    allowlist: Seq<Seq<char>>,
    expected: Seq<char>,
) -> Result<(), AppFault>
    decreases answers.len(),
{
    if answers.len() == 0 {
        Ok(())
    } else {
        match answers_check(answers.drop_last(), allowlist, expected) {
            Err(fault) => Err(fault),
            Ok(_) => match allowed_host(answers.last().name, allowlist) {
                Err(fault) => Err(fault),
                Ok(host) => if host == expected {
                    Ok(())
                } else {
                    Err(AppFault::HostMismatch)
                },
            },
        }
    }
}

/// Whether a packet may be published for a host. `decoded` holds the answers of the
/// packet, or why it could not be decoded. The result is the name of the first
/// answer, or nothing where there is no answer.
pub open spec fn validation(
    decoded: Result<Seq<AnswerModel>, Seq<char>>,
    packet: Seq<u8>,
    require_signature: bool,
    chain: Seq<Seq<u8>>,
    fields: SignatureFieldsModel,
    allowlist: Seq<Seq<char>>,
    expected: Seq<char>,
) -> Result<Option<Seq<char>>, AppFault> {
    match decoded {
        Err(message) => Err(AppFault::InvalidDnsPacket { message }),
        Ok(answers) => if require_signature && signature_check(
            answers,
            packet,
            chain,
            fields,
        ) is Err {
            Err(signature_check(answers, packet, chain, fields)->Err_0)
        } else if answers.len() == 0 {
            Ok(None)
        } else {
            match answers_check(answers, allowlist, expected) {
                Err(fault) => Err(fault),
                Ok(_) => Ok(Some(answers[0].name)),
            }
        },
    }
}

/// The answers of a packet, or why it could not be decoded.
pub open spec fn decoded_answers(decoded: Result<Vec<Answer>, String>) -> Result<
    Seq<AnswerModel>,
    Seq<char>,
> {
    match decoded {
        Ok(answers) => Ok(views(answers@)),
        Err(message) => Err(message@),
    }
}

proof fn lemma_answers_check_fails_on(
    answers: Seq<AnswerModel>,
    allowlist: Seq<Seq<char>>,
    expected: Seq<char>,
    n: int,
)
    requires
        0 <= n <= answers.len(),
        answers_check(answers.take(n), allowlist, expected) is Err,
    ensures
        answers_check(answers, allowlist, expected) == answers_check(
            answers.take(n),
            allowlist,
            expected,
        ),
    decreases answers.len() - n,
{
    if n < answers.len() {
        assert(answers.take(n + 1).drop_last() == answers.take(n));
        lemma_answers_check_fails_on(answers, allowlist, expected, n + 1);
    } else {
        assert(answers.take(n) == answers);
    }
}

fn check_signature(
    answers: &Vec<Answer>,
    packet: &[u8],
    cert_chain: &Vec<Vec<u8>>,
    signature_fields: &SignatureFields,
) -> (r: Result<(), AppError>)
    requires
        digestible(packet@),
        cert_chain@.len() > 0 ==> digestible(cert_chain@[0]@),
        fields_bounded(signature_fields@),
    ensures
        match r {
            Ok(_) => signature_check(
                views(answers@),
                packet@,
                views(cert_chain@),
                signature_fields@,
            ) is Ok,
            Err(e) => signature_check(
                views(answers@),
                packet@,
                views(cert_chain@),
                signature_fields@,
            ) == Err::<(), _>(e@),
        },
{
    if signature_fields.is_empty() {
        return Err(AppError::SignatureRequired);
    }
    if cert_chain.is_empty() {
        return Err(AppError::MissingClientCertificate);
    }
    assert(views(cert_chain@)[0] == cert_chain@[0]@);
    match signature_fields.verify(packet, cert_chain[0].as_slice()) {
        Ok(true) => {},
        _ => return Err(AppError::InvalidSignature),
    }
    let mut i: usize = 0;
    while i < answers.len()
        invariant
            i <= answers@.len(),
            signature_fields@ != SignatureFieldsModel::unsigned(),
            views(cert_chain@).len() > 0,
            verification(signature_fields@, packet@, views(cert_chain@)[0]) == Ok::<
                bool,
                SignatureFault,
            >(true),
            forall|j: int|
                0 <= j < i ==> !((#[trigger] views(answers@)[j]).endpoint is Some && views(
                    answers@,
                )[j].endpoint->0.signed),
        decreases answers@.len() - i,
    {
        assert(views(answers@)[i as int] == answers@[i as int]@);
        if let Some(endpoint) = answers[i].endpoint {
            if endpoint.signed {
                assert(views(answers@)[i as int].endpoint->0.signed);
                return Err(AppError::InvalidSignature);
            }
        }
        i = i + 1;
    }
    Ok(())
}

/// Checks that a packet may be published for a host. `decoded` holds the answers of
/// the packet, or why it could not be decoded.
pub fn validate_dns_packet(
    decoded: &Result<Vec<Answer>, String>,
    packet: &[u8],
    require_signature: bool,
    cert_chain: &Vec<Vec<u8>>,
    signature_fields: &SignatureFields,
    allowlist: &Vec<String>,
    expected_host: &str,
) -> (r: Result<ValidatedDnsPacket, AppError>)
    requires
        digestible(packet@),
        cert_chain@.len() > 0 ==> digestible(cert_chain@[0]@),
        fields_bounded(signature_fields@),
    ensures
        validation(
            decoded_answers(*decoded),
            packet@,
            require_signature,
            views(cert_chain@),
            signature_fields@,
            views(allowlist@),
            expected_host@,
        ) == (match r {
            Ok(ValidatedDnsPacket::Records { host }) => Ok(Some(host@)),
            Ok(ValidatedDnsPacket::Empty) => Ok(None),
            Err(e) => Err(e@),
        }),
{
    let answers = match decoded {
        Ok(answers) => answers,
        Err(message) => return Err(AppError::InvalidDnsPacket { message: message.clone() }),
    };
    let ghost texts = views(answers@);
    if require_signature {
        match check_signature(answers, packet, cert_chain, signature_fields) {
            Ok(()) => {},
            Err(e) => return Err(e),
        }
    }
    if answers.is_empty() {
        return Ok(ValidatedDnsPacket::Empty);
    }
    let mut i: usize = 0;
    while i < answers.len()
        invariant
            i <= answers@.len(),
            texts == views(answers@),
            answers_check(texts.take(i as int), views(allowlist@), expected_host@) is Ok,
            decoded_answers(*decoded) == Ok::<_, Seq<char>>(texts),
            answers@.len() > 0,
            require_signature ==> signature_check(
                texts,
                packet@,
                views(cert_chain@),
                signature_fields@,
            ) is Ok,
        decreases answers@.len() - i,
    {
        proof {
            assert(texts[i as int] == answers@[i as int]@);
            assert(texts.take(i + 1).drop_last() == texts.take(i as int));
            if answers_check(texts.take(i + 1), views(allowlist@), expected_host@) is Err {
                lemma_answers_check_fails_on(texts, views(allowlist@), expected_host@, i + 1);
            }
        }
        match normalize_host(answers[i].name.as_str(), allowlist) {
            Ok(host) => {
                if !text_eq(host.as_str(), expected_host) {
                    return Err(AppError::HostMismatch);
                }
            },
            Err(e) => return Err(e),
        }
        i = i + 1;
    }
    assert(texts.take(i as int) == texts);
    Ok(ValidatedDnsPacket::Records { host: answers[0].name.clone() })
}

/// A packet that passes with its signature required was signed for this very packet
/// with the key of the leaf certificate, and all its answers are for the host.
pub proof fn law_published_packet_is_signed_for_its_host(
    answers: Seq<AnswerModel>,
    packet: Seq<u8>,
    chain: Seq<Seq<u8>>,
    fields: SignatureFieldsModel,
    allowlist: Seq<Seq<char>>,
    expected: Seq<char>,
)
    requires
        validation(
            Ok(answers),
            packet,
            true,
            chain,
            fields,
            allowlist,
            expected,
        ) is Ok,
    ensures
        chain.len() > 0,
        verification(fields, packet, chain[0]) == Ok::<bool, SignatureFault>(true),
        forall|i: int|
            0 <= i < answers.len() ==> allowed_host((#[trigger] answers[i]).name, allowlist)
                == Ok::<_, AppFault>(expected),
{
    if answers.len() > 0 {
        lemma_checked_answers(answers, allowlist, expected);
    }
}

/// Answers that pass the check are all for the expected host.
pub proof fn lemma_checked_answers(
    answers: Seq<AnswerModel>,
    allowlist: Seq<Seq<char>>,
    expected: Seq<char>,
)
    requires
        answers_check(answers, allowlist, expected) is Ok,
    ensures
        forall|i: int|
            0 <= i < answers.len() ==> allowed_host((#[trigger] answers[i]).name, allowlist)
                == Ok::<_, AppFault>(expected),
    decreases answers.len(),
{
    if answers.len() > 0 {
        lemma_checked_answers(answers.drop_last(), allowlist, expected);
        assert forall|i: int| 0 <= i < answers.len() implies allowed_host(
            (#[trigger] answers[i]).name,
            allowlist,
        ) == Ok::<_, AppFault>(expected) by {
            if i < answers.len() - 1 {
                assert(answers[i] == answers.drop_last()[i]);
            }
        }
    }
}

/// An exact rule is for its own host alone. A rule for a suffix is for the suffix and for
/// every host that ends in a dot and the suffix.
pub proof fn law_rules_cover_their_hosts(
    exact: String,
    host: Seq<char>,
    above: Seq<char>,
)
    ensures
        PolicyRule::Exact(exact).covers(host) <==> host == exact@,
        PolicyRule::Suffix(exact).covers(exact@),
        PolicyRule::Suffix(exact).covers(above + seq!['.'] + exact@),
        PolicyRule::Suffix(exact).covers(host) && host != exact@ ==> exists|above: Seq<char>|
            host == #[trigger] (above + seq!['.']) + exact@,
{
    let below = above + seq!['.'] + exact@;
    let dotted = seq!['.'] + exact@;
    assert(below.subrange(below.len() - dotted.len(), below.len() as int) =~= dotted);
    if dotted.is_suffix_of(host) {
        let n = host.len() - dotted.len();
        assert(dotted =~= host.subrange(n, host.len() as int));
        let front = host.take(n);
        assert forall|k: int| 0 <= k < host.len() implies host[k] == ((front + seq!['.'])
            + exact@)[k] by {
            if k >= n {
                assert(dotted[k - n] == host.subrange(n, host.len() as int)[k - n]);
            }
        }
        assert(host =~= (front + seq!['.']) + exact@);
    }
}

/// The first rule that is for a host decides. Where none is, the certificate of a publisher
/// has to be for the host.
pub proof fn law_the_first_rule_decides(
    policies: Seq<(PolicyRule, DomainPolicy)>,
    host: Seq<char>,
    i: int,
)
    ensures
        0 <= i < policies.len() && policies[i].0.covers(host) && (forall|j: int|
            0 <= j < i ==> !(#[trigger] policies[j]).0.covers(host)) ==> policy_of(policies, host)
            == policies[i].1,
        (forall|j: int| 0 <= j < policies.len() ==> !(#[trigger] policies[j]).0.covers(host))
            ==> policy_of(policies, host) == DomainPolicy::Standard,
    decreases policies.len(),
{
    if policies.len() > 0 && !policies[0].0.covers(host) {
        let rest = policies.skip(1);
        law_the_first_rule_decides(rest, host, i - 1);
        if 0 <= i < policies.len() && policies[i].0.covers(host) && (forall|j: int|
            0 <= j < i ==> !(#[trigger] policies[j]).0.covers(host)) {
            assert(rest[i - 1] == policies[i]);
            assert forall|j: int| 0 <= j < i - 1 implies !(#[trigger] rest[j]).0.covers(host) by {
                assert(rest[j] == policies[j + 1]);
            }
        }
        if forall|j: int| 0 <= j < policies.len() ==> !(#[trigger] policies[j]).0.covers(host) {
            assert forall|j: int| 0 <= j < rest.len() implies !(#[trigger] rest[j]).0.covers(
                host,
            ) by {
                assert(rest[j] == policies[j + 1]);
            }
        }
    } else if policies.len() > 0 {
        if 0 < i < policies.len() && (forall|j: int|
            0 <= j < i ==> !(#[trigger] policies[j]).0.covers(host)) {
            assert(!policies[0].0.covers(host));
        }
        if forall|j: int| 0 <= j < policies.len() ==> !(#[trigger] policies[j]).0.covers(host) {
            assert(!policies[0].0.covers(host));
        }
    }
}

/// Names of other kinds do not count, and the DNS names stay in order.
pub proof fn law_dns_names_are_taken_in_order(
    names: Seq<Option<Seq<char>>>,
    more: Seq<Option<Seq<char>>>,
    name: Seq<char>,
)
    ensures
        dns_names(seq![Some(name)]) == seq![name],
        dns_names(seq![None]) == Seq::<Seq<char>>::empty(),
        dns_names(names + more) == dns_names(names) + dns_names(more),
    decreases more.len(),
{
    reveal_with_fuel(dns_names, 2);
    assert(seq![Some(name)].drop_last() =~= Seq::<Option<Seq<char>>>::empty());
    assert(seq![None::<Seq<char>>].drop_last() =~= Seq::<Option<Seq<char>>>::empty());
    assert(dns_names(seq![Some(name)]) =~= seq![name]);
    if more.len() > 0 {
        law_dns_names_are_taken_in_order(names, more.drop_last(), name);
        assert((names + more).drop_last() =~= names + more.drop_last());
        assert((names + more).last() == more.last());
        assert(dns_names(names + more) =~= dns_names(names) + dns_names(more));
    } else {
        assert(names + more =~= names);
        assert(dns_names(names + more) =~= dns_names(names) + dns_names(more));
    }
}

proof fn lemma_answers_pass(
    answers: Seq<AnswerModel>,
    allowlist: Seq<Seq<char>>,
    expected: Seq<char>,
)
    requires
        forall|i: int|
            0 <= i < answers.len() ==> allowed_host((#[trigger] answers[i]).name, allowlist)
                == Ok::<_, AppFault>(expected),
    ensures
        answers_check(answers, allowlist, expected) is Ok,
    decreases answers.len(),
{
    if answers.len() > 0 {
        let front = answers.drop_last();
        assert forall|i: int| 0 <= i < front.len() implies allowed_host(
            (#[trigger] front[i]).name,
            allowlist,
        ) == Ok::<_, AppFault>(expected) by {
            assert(front[i] == answers[i]);
        }
        lemma_answers_pass(front, allowlist, expected);
        assert(allowed_host(answers[answers.len() - 1].name, allowlist) == Ok::<_, AppFault>(
            expected,
        ));
    }
}

/// Whether nothing stands against the signature of a packet: it is the one over the packet of
/// the first certificate, and no endpoint has a signature of its own.
pub open spec fn well_signed(
    answers: Seq<AnswerModel>,
    packet: Seq<u8>,
    chain: Seq<Seq<u8>>,
    fields: SignatureFieldsModel,
) -> bool {
    &&& fields.content_digest.len() > 0 || fields.signature_input.len() > 0
        || fields.signature.len() > 0
    &&& chain.len() > 0
    &&& verification(fields, packet, chain[0]) == Ok::<bool, SignatureFault>(true)
    &&& forall|i: int|
        0 <= i < answers.len() && (#[trigger] answers[i]).endpoint is Some
            ==> !answers[i].endpoint->0.signed
}

proof fn lemma_signed_fields(fields: SignatureFieldsModel)
    ensures
        fields == SignatureFieldsModel::unsigned() <==> fields.content_digest.len() == 0
            && fields.signature_input.len() == 0 && fields.signature.len() == 0,
{
    if fields.content_digest.len() == 0 && fields.signature_input.len() == 0
        && fields.signature.len() == 0 {
        assert(fields.content_digest =~= Seq::<u8>::empty());
        assert(fields.signature_input =~= Seq::<u8>::empty());
        assert(fields.signature =~= Seq::<u8>::empty());
    }
}

/// A packet passes exactly where nothing stands against its signature, if that is required,
/// and every answer is for the expected host. It is then known by the name of its first
/// answer, and a packet without answers is an empty one.
pub proof fn law_packets_pass_exactly_for_their_host(
    answers: Seq<AnswerModel>,
    packet: Seq<u8>,
    require_signature: bool,
    chain: Seq<Seq<u8>>,
    fields: SignatureFieldsModel,
    allowlist: Seq<Seq<char>>,
    expected: Seq<char>,
)
    ensures
        ({
            let r = validation(
                Ok(answers),
                packet,
                require_signature,
                chain,
                fields,
                allowlist,
                expected,
            );
            let signed = require_signature ==> well_signed(answers, packet, chain, fields);
            let named = forall|i: int|
                0 <= i < answers.len() ==> allowed_host((#[trigger] answers[i]).name, allowlist)
                    == Ok::<_, AppFault>(expected);
            &&& r is Ok <==> signed && named
            &&& signed && named && answers.len() > 0 ==> r == Ok::<_, AppFault>(
                Some(answers[0].name),
            )
            &&& signed && answers.len() == 0 ==> r == Ok::<Option<Seq<char>>, AppFault>(None)
        }),
{
    lemma_signed_fields(fields);
    let named = forall|i: int|
        0 <= i < answers.len() ==> allowed_host((#[trigger] answers[i]).name, allowlist) == Ok::<
            _,
            AppFault,
        >(expected);
    if named {
        lemma_answers_pass(answers, allowlist, expected);
    }
    if answers_check(answers, allowlist, expected) is Ok {
        lemma_checked_answers(answers, allowlist, expected);
    }
    if well_signed(answers, packet, chain, fields) {
        assert(signature_check(answers, packet, chain, fields) is Ok);
    } else if signature_check(answers, packet, chain, fields) is Ok {
        let i = choose|i: int|
            0 <= i < answers.len() && (#[trigger] answers[i]).endpoint is Some
                && answers[i].endpoint->0.signed;
        assert(false);
    }
}

/// Why a packet is refused: it cannot be decoded, it is not signed, there is no certificate to
/// check its signature with, or the signature is not good. A well signed packet is refused for
/// its first answer that is for another host or for none.
pub proof fn law_packets_are_refused_for_what_is_wrong(
    answers: Seq<AnswerModel>,
    message: Seq<char>,
    packet: Seq<u8>,
    chain: Seq<Seq<u8>>,
    fields: SignatureFieldsModel,
    allowlist: Seq<Seq<char>>,
    expected: Seq<char>,
    required: bool,
    n: int,
)
    ensures
        validation(Err(message), packet, required, chain, fields, allowlist, expected) == Err::<
            Option<Seq<char>>,
            _,
        >(AppFault::InvalidDnsPacket { message }),
        fields.content_digest.len() == 0 && fields.signature_input.len() == 0
            && fields.signature.len() == 0 ==> validation(
            Ok(answers),
            packet,
            true,
            chain,
            fields,
            allowlist,
            expected,
        ) == Err::<Option<Seq<char>>, _>(AppFault::SignatureRequired),
        fields.signature.len() > 0 && chain.len() == 0 ==> validation(
            Ok(answers),
            packet,
            true,
            chain,
            fields,
            allowlist,
            expected,
        ) == Err::<Option<Seq<char>>, _>(AppFault::MissingClientCertificate),
        fields.signature.len() > 0 && chain.len() > 0 && !well_signed(
            answers,
            packet,
            chain,
            fields,
        ) ==> validation(
            Ok(answers),
            packet,
            true,
            chain,
            fields,
            allowlist,
            expected,
        ) == Err::<Option<Seq<char>>, _>(AppFault::InvalidSignature),
        (required ==> well_signed(answers, packet, chain, fields)) && 0 <= n < answers.len() && (
        forall|i: int|
            0 <= i < n ==> allowed_host((#[trigger] answers[i]).name, allowlist) == Ok::<
                _,
                AppFault,
            >(expected)) ==> {
            let r = validation(Ok(answers), packet, required, chain, fields, allowlist, expected);
            match allowed_host(answers[n].name, allowlist) {
                Err(fault) => r == Err::<Option<Seq<char>>, _>(fault),
                Ok(host) => host != expected ==> r == Err::<Option<Seq<char>>, _>(
                    AppFault::HostMismatch,
                ),
            }
        },
{
    lemma_signed_fields(fields);
    if well_signed(answers, packet, chain, fields) {
        assert(signature_check(answers, packet, chain, fields) is Ok);
    } else if signature_check(answers, packet, chain, fields) is Ok {
        let i = choose|i: int|
            0 <= i < answers.len() && (#[trigger] answers[i]).endpoint is Some
                && answers[i].endpoint->0.signed;
        assert(false);
    }
    if 0 <= n < answers.len() && (forall|i: int|
        0 <= i < n ==> allowed_host((#[trigger] answers[i]).name, allowlist) == Ok::<_, AppFault>(
            expected,
        )) {
        let front = answers.take(n);
        assert forall|i: int| 0 <= i < front.len() implies allowed_host(
            (#[trigger] front[i]).name,
            allowlist,
        ) == Ok::<_, AppFault>(expected) by {
            assert(front[i] == answers[i]);
        }
        lemma_answers_pass(front, allowlist, expected);
        let upto = answers.take(n + 1);
        assert(upto.drop_last() =~= front);
        assert(upto.last() == answers[n]);
        if answers_check(upto, allowlist, expected) is Err {
            lemma_answers_check_fails_on(answers, allowlist, expected, n + 1);
        }
    }
}

/// What a packet was decoded to is told as it is.
pub proof fn law_decoded_packets_are_told_as_they_are(answers: Vec<Answer>, message: String)
    ensures
        decoded_answers(Ok(answers)) == Ok::<_, Seq<char>>(views(answers@)),
        decoded_answers(Err(message)) == Err::<Seq<AnswerModel>, _>(message@),
{
}

} // verus!
