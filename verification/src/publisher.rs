//! Publication of signed endpoint records through resolvers.
use vstd::prelude::*;
use std::sync::Arc;

use crate::net::Family;
use crate::protocol::certificate::CertificateChainKey;
use crate::protocol::packet::{Answer, Endpoint};
use crate::protocol::wire::views;
use crate::publishers::address::{PublishScope, ScopeModel};
use crate::publishers::packet::{all_records, announcing, endpoint_packet_with_chain_key};
use crate::report::{chain_of, ErrorModel, ErrorReport};
use crate::text::join2;

verus! {

/// How often endpoints are published, in nanoseconds: every twenty seconds.
pub const DEFAULT_PUBLISH_INTERVAL: u128 = 20_000_000_000;

/// How long one attempt may take, in nanoseconds: ten seconds.
pub const DEFAULT_PUBLISH_TIMEOUT: u128 = 10_000_000_000;

/// Why a publisher cannot be made.
#[derive(Debug, Clone, Copy, PartialEq, Eq, Structural)]
pub enum CreatePublisherError {
    AnonymousEndpoint,
}

impl CreatePublisherError {
    pub fn message(&self) -> (r: &'static str)
        ensures
            r@ == "anonymous endpoint cannot publish dns records"@,
    {
        "anonymous endpoint cannot publish dns records"
    }
}

/// Why endpoint records could not be signed.
#[derive(Debug, PartialEq, Eq)]
pub enum SignEndpointRecordsError {
    EncodeEndpoint,
    SignEndpoint { source: ErrorReport },
}

impl SignEndpointRecordsError {
    pub open spec fn text(self) -> Seq<char> {
        match self {
            SignEndpointRecordsError::EncodeEndpoint => "failed to encode endpoint address"@,
            SignEndpointRecordsError::SignEndpoint { .. } => "failed to sign endpoint address"@,
        }
    }

    pub fn message(&self) -> (r: &'static str)
        ensures
            r@ == self.text(),
    {
        match self {
            SignEndpointRecordsError::EncodeEndpoint => "failed to encode endpoint address",
            SignEndpointRecordsError::SignEndpoint { .. } => "failed to sign endpoint address",
        }
    }

    /// What caused the error, outermost first.
    pub open spec fn causes(self) -> Seq<Seq<char>> {
        match self {
            SignEndpointRecordsError::EncodeEndpoint => Seq::empty(),
            SignEndpointRecordsError::SignEndpoint { source } => chain_of(source@),
        }
    }

    /// The error with its causes.
    pub fn report(&self) -> (r: ErrorReport)
        ensures
            r@ == (ErrorModel { message: self.text(), sources: self.causes() }),
    {
        match self {
            SignEndpointRecordsError::EncodeEndpoint => ErrorReport::plain(self.message()),
            SignEndpointRecordsError::SignEndpoint { source } => ErrorReport::caused_by(
                self.message(),
                source,
            ),
        }
    }
}

/// Why a publication failed.
#[allow(inconsistent_fields)]
#[derive(Debug, PartialEq, Eq)]
pub enum PublishOnceError {
    NoPublisherResolver,
    SignEndpointRecords { source: SignEndpointRecordsError },
    Publish { publisher: String, source: ErrorReport },
}

impl PublishOnceError {
    pub open spec fn text(self) -> Seq<char> {
        match self {
            PublishOnceError::NoPublisherResolver => "no publisher resolver available"@,
            PublishOnceError::SignEndpointRecords { .. } => "failed to sign endpoint records"@,
            PublishOnceError::Publish { publisher, .. } => "failed to publish dns packet with "@
                + publisher@,
        }
    }

    pub fn message(&self) -> (r: String)
        ensures
            r@ == self.text(),
    {
        match self {
            PublishOnceError::NoPublisherResolver => "no publisher resolver available".to_owned(),
            PublishOnceError::SignEndpointRecords { .. } =>
                "failed to sign endpoint records".to_owned(),
            PublishOnceError::Publish { publisher, .. } => join2(
                "failed to publish dns packet with ",
                publisher.as_str(),
            ),
        }
    }

    /// What caused the error, outermost first.
    pub open spec fn causes(self) -> Seq<Seq<char>> {
        match self {
            PublishOnceError::NoPublisherResolver => Seq::empty(),
            PublishOnceError::SignEndpointRecords { source } => seq![source.text()]
                + source.causes(),
            PublishOnceError::Publish { source, .. } => chain_of(source@),
        }
    }

    /// The error with its causes.
    pub fn report(&self) -> (r: ErrorReport)
        ensures
            r@ == (ErrorModel { message: self.text(), sources: self.causes() }),
    {
        let message = self.message();
        match self {
            PublishOnceError::NoPublisherResolver => ErrorReport::plain(message.as_str()),
            PublishOnceError::SignEndpointRecords { source } => ErrorReport::caused_by(
                message.as_str(),
                &source.report(),
            ),
            PublishOnceError::Publish { source, .. } => ErrorReport::caused_by(
                message.as_str(),
                source,
            ),
        }
    }
}

/// Options of the publication of endpoint records. `server_id` is ignored: the certificate
/// of the publisher tells which certificate chain its records are of.
#[derive(Debug, Clone, Copy, PartialEq, Eq, Structural)]
pub struct PublishOptions {
    pub server_id: Option<u8>,
}

impl Default for PublishOptions {
    fn default() -> (r: Self)
        ensures
            r.server_id is None,
    {
        PublishOptions { server_id: None }
    }
}

/// Makes the records that an authority signs.
pub struct EndpointRecordSigner<A> {
    authority: Arc<A>,
    options: PublishOptions,
}

impl<A> EndpointRecordSigner<A> {
    pub closed spec fn signing_authority(self) -> Arc<A> {
        self.authority
    }

    pub closed spec fn publish_options(self) -> PublishOptions {
        self.options
    }

    pub fn new(authority: Arc<A>) -> (r: Self)
        ensures
            r.signing_authority() == authority,
            r.publish_options() == (PublishOptions { server_id: None }),
    {
        EndpointRecordSigner { authority, options: PublishOptions::default() }
    }

    pub fn with_options(self, options: PublishOptions) -> (r: Self)
        ensures
            r.signing_authority() == self.signing_authority(),
            r.publish_options() == options,
    {
        EndpointRecordSigner { authority: self.authority, options }
    }

    pub fn options(&self) -> (r: PublishOptions)
        ensures
            r == self.publish_options(),
    {
        self.options
    }

    pub fn authority(&self) -> (r: &Arc<A>)
        ensures
            *r == self.signing_authority(),
    {
        &self.authority
    }

    /// The answers to sign for a name: the records of the certificate chain of the
    /// authority, whatever the options say. `records` are the records of the addresses, where
    /// an address can be put into one.
    pub fn unsigned_answers(
        &self,
        name: &str,
        records: &Vec<Option<Endpoint>>,
        chain_key: &CertificateChainKey,
    ) -> (r: Result<Vec<Answer>, SignEndpointRecordsError>)
        ensures
            match (r, all_records(records@)) {
                (Ok(answers), Some(all)) => views(answers@) == announcing(
                    name@,
                    all,
                    Some(*chain_key),
                ),
                (Err(e), None) => e is EncodeEndpoint,
                _ => false,
            },
    {
        match endpoint_packet_with_chain_key(name, records, Some(chain_key)) {
            Ok(answers) => Ok(answers),
            Err(_) => Err(SignEndpointRecordsError::EncodeEndpoint),
        }
    }
}

/// What a resolver is, as far as publication is concerned.
#[derive(Debug, PartialEq, Eq)]
pub enum ResolverKind {
    Http,
    H3,
    /// An H3 resolver that is set later.
    DeferredH3 { initialized: bool },
    /// The devices and address families that mDNS is bound to.
    Mdns { bound: Vec<(String, Family)> },
    Other,
}

/// The scopes of some mDNS bindings.
pub open spec fn bound_scopes(bound: Seq<(String, Family)>) -> Seq<ScopeModel> {
    bound.map_values(
        |b: (String, Family)| ScopeModel::LocalLink { device: b.0@, family: b.1 },
    )
}

/// Where records are published through a resolver, one publication for each scope. A
/// resolver of another kind publishes nothing, and a deferred one has to be set.
pub fn publish_single_resolver(label: &str, kind: &ResolverKind) -> (r: Result<
    Vec<PublishScope>,
    PublishOnceError,
>)
    ensures
        match *kind {
            ResolverKind::DeferredH3 { initialized: false } => r matches Err(
                PublishOnceError::Publish { publisher, source },
            ) && publisher@ == label@ && source@ == (ErrorModel {
                message: "deferred h3 resolver has not been initialized"@,
                sources: Seq::empty(),
            }),
            ResolverKind::Mdns { bound } => r matches Ok(scopes) && views(scopes@) == bound_scopes(
                bound@,
            ),
            ResolverKind::Other => r matches Ok(scopes) && scopes@.len() == 0,
            _ => r matches Ok(scopes) && views(scopes@) == seq![ScopeModel::WideArea],
        },
{
    let mut scopes: Vec<PublishScope> = Vec::new();
    match kind {
        ResolverKind::Other => {},
        ResolverKind::Mdns { bound } => {
            let mut i: usize = 0;
            while i < bound.len()
                invariant
                    i <= bound@.len(),
                    scopes@.len() == i,
                    forall|j: int|
                        0 <= j < i ==> (#[trigger] scopes@[j])@ == bound_scopes(bound@)[j],
                decreases bound@.len() - i,
            {
                scopes.push(
                    PublishScope::LocalLink { device: bound[i].0.clone(), family: bound[i].1 },
                );
                i = i + 1;
            }
            assert(views(scopes@) =~= bound_scopes(bound@));
        },
        ResolverKind::DeferredH3 { initialized } => {
            if !*initialized {
                return Err(
                    PublishOnceError::Publish {
                        publisher: label.to_owned(),
                        source: ErrorReport::plain("deferred h3 resolver has not been initialized"),
                    },
                );
            }
            scopes.push(PublishScope::WideArea);
            assert(views(scopes@) =~= seq![ScopeModel::WideArea]);
        },
        ResolverKind::Http => {
            scopes.push(PublishScope::WideArea);
            assert(views(scopes@) =~= seq![ScopeModel::WideArea]);
        },
        ResolverKind::H3 => {
            scopes.push(PublishScope::WideArea);
            assert(views(scopes@) =~= seq![ScopeModel::WideArea]);
        },
    }
    Ok(scopes)
}

/// Whether the connections of a resolver are dropped before the next publication.
pub fn clears_publish_state(kind: &ResolverKind) -> (r: bool)
    ensures
        r == (kind is H3 || *kind == (ResolverKind::DeferredH3 { initialized: true })),
{
    match kind {
        ResolverKind::H3 => true,
        ResolverKind::DeferredH3 { initialized } => *initialized,
        _ => false,
    }
}

/// What the resolvers answered together: the first error, or whether one of them
/// published.
pub open spec fn publish_outcome(replies: Seq<Result<bool, PublishOnceError>>) -> Result<
    (),
    PublishOnceError,
> {
    if exists|i: int| 0 <= i < replies.len() && (#[trigger] replies[i]) is Err {
        Err(first_error(replies))
    } else if exists|i: int|
        0 <= i < replies.len() && #[trigger] replies[i] == Ok::<bool, PublishOnceError>(true) {
        Ok(())
    } else {
        Err(PublishOnceError::NoPublisherResolver)
    }
}

/// The first error.
pub open spec fn first_error(replies: Seq<Result<bool, PublishOnceError>>) -> PublishOnceError
    decreases replies.len(),
{
    if replies.len() <= 1 || replies[0] is Err {
        replies[0]->Err_0
    } else {
        first_error(replies.skip(1))
    }
}

proof fn lemma_first_error(replies: Seq<Result<bool, PublishOnceError>>, n: int)
    requires
        0 <= n < replies.len(),
        forall|i: int| 0 <= i < n ==> (#[trigger] replies[i]) is Ok,
        replies[n] is Err,
    ensures
        first_error(replies) == replies[n]->Err_0,
    decreases replies.len(),
{
    if n > 0 {
        assert(replies[0] is Ok);
        assert forall|i: int| 0 <= i < n - 1 implies (#[trigger] replies.skip(1)[i]) is Ok by {
            assert(replies.skip(1)[i] == replies[i + 1]);
        }
        lemma_first_error(replies.skip(1), n - 1);
    }
}

/// What a publication through several resolvers comes to: an error ends it, and one of them
/// has to publish.
pub fn publish_once(replies: Vec<Result<bool, PublishOnceError>>) -> (r: Result<
    (),
    PublishOnceError,
>)
    ensures
        r == publish_outcome(replies@),
{
    let ghost all = replies@;
    let mut published = false;
    for reply in iter: replies
        invariant
            iter.seq() == all,
            forall|i: int| 0 <= i < iter.index() ==> (#[trigger] all[i]) is Ok,
            published == exists|i: int|
                0 <= i < iter.index() && #[trigger] all[i] == Ok::<bool, PublishOnceError>(true),
    {
        assert(all[iter.index()] == reply);
        match reply {
            Ok(done) => {
                published = published || done;
            },
            Err(error) => {
                proof {
                    lemma_first_error(all, iter.index());
                }
                return Err(error);
            },
        }
    }
    if published {
        Ok(())
    } else {
        Err(PublishOnceError::NoPublisherResolver)
    }
}

/// What a location tells of.
#[derive(Debug, Clone, Copy, PartialEq, Eq, Structural)]
pub enum LocationKind {
    /// The bound address.
    BoundAddress,
    /// What a STUN client sees.
    StunClient,
    Other,
}

/// A change of a location.
#[derive(Debug, Clone, Copy, PartialEq, Eq, Structural)]
pub enum LocationEvent {
    /// `known` tells whether an address is known, or why not.
    Upsert { kind: LocationKind, known: bool },
    Remove { kind: LocationKind },
    Closed,
}

/// Whether a change is published at once. A failure to find an address out is none that
/// could be published.
pub fn location_event_requires_publish(event: LocationEvent) -> (r: bool)
    ensures
        r == (match event {
            LocationEvent::Upsert { kind, known } => known && !(kind is Other),
            LocationEvent::Remove { kind } => !(kind is Other),
            LocationEvent::Closed => true,
        }),
{
    match event {
        LocationEvent::Upsert { kind, known } => known && match kind {
            LocationKind::BoundAddress => true,
            LocationKind::StunClient => true,
            LocationKind::Other => false,
        },
        LocationEvent::Remove { kind } => match kind {
            LocationKind::BoundAddress => true,
            LocationKind::StunClient => true,
            LocationKind::Other => false,
        },
        LocationEvent::Closed => true,
    }
}

/// What happens while endpoints are published.
#[derive(Debug, Clone, Copy, PartialEq, Eq, Structural)]
pub enum LoopEvent {
    PublishFinished,
    /// The attempt took too long.
    PublishTimedOut,
    IntervalElapsed,
    /// A location changed. `observed` tells whether it is one of those that are published.
    LocationChanged { observed: bool, event: LocationEvent },
    /// No more changes will be told of.
    LocationsClosed,
}

/// What follows from an event.
#[derive(Debug, Clone, Copy, PartialEq, Eq, Structural)]
pub struct LoopAction {
    pub reset_interval: bool,
    /// Connections of the resolvers are dropped.
    pub clear_state: bool,
    /// A publication starts, in place of the one that is under way.
    pub start_publish: bool,
}

/// Decides what follows from an event. The end of an interval and a change that can be
/// published start anew, with fresh connections; an attempt that took too long is not
/// repeated before that.
pub fn on_loop_event(event: LoopEvent) -> (r: LoopAction)
    ensures
        r.reset_interval == (event is IntervalElapsed),
        r.start_publish == (match event {
            LoopEvent::IntervalElapsed => true,
            LoopEvent::LocationChanged { observed, event } => observed && (match event {
                LocationEvent::Upsert { kind, known } => known && !(kind is Other),
                LocationEvent::Remove { kind } => !(kind is Other),
                LocationEvent::Closed => true,
            }),
            _ => false,
        }),
        r.clear_state == (r.start_publish || event is PublishTimedOut),
{
    match event {
        LoopEvent::PublishFinished => LoopAction {
            reset_interval: false,
            clear_state: false,
            start_publish: false,
        },
        LoopEvent::PublishTimedOut => LoopAction {
            reset_interval: false,
            clear_state: true,
            start_publish: false,
        },
        LoopEvent::IntervalElapsed => LoopAction {
            reset_interval: true,
            clear_state: true,
            start_publish: true,
        },
        LoopEvent::LocationChanged { observed, event } => {
            let start = observed && location_event_requires_publish(event);
            LoopAction { reset_interval: false, clear_state: start, start_publish: start }
        },
        LoopEvent::LocationsClosed => LoopAction {
            reset_interval: false,
            clear_state: false,
            start_publish: false,
        },
    }
}

/// A publication succeeds exactly where some resolver published and none failed. Otherwise the
/// first failure is told, or that there was no resolver to publish with.
pub proof fn law_publication_fails_with_the_first_failure(
    replies: Seq<Result<bool, PublishOnceError>>,
    n: int,
)
    ensures
        publish_outcome(replies) is Ok <==> (forall|i: int|
            0 <= i < replies.len() ==> (#[trigger] replies[i]) is Ok) && (exists|i: int|
            0 <= i < replies.len() && #[trigger] replies[i] == Ok::<bool, PublishOnceError>(true)),
        0 <= n < replies.len() && replies[n] is Err && (forall|i: int|
            0 <= i < n ==> (#[trigger] replies[i]) is Ok) ==> publish_outcome(replies) == Err::<
            (),
            PublishOnceError,
        >(replies[n]->Err_0),
        (forall|i: int|
            0 <= i < replies.len() ==> #[trigger] replies[i] == Ok::<bool, PublishOnceError>(
                false,
            )) ==> publish_outcome(replies) == Err::<(), PublishOnceError>(
            PublishOnceError::NoPublisherResolver,
        ),
{
    if 0 <= n < replies.len() && replies[n] is Err && (forall|i: int|
        0 <= i < n ==> (#[trigger] replies[i]) is Ok) {
        lemma_first_error(replies, n);
    }
}

/// An mDNS resolver publishes on every link that it is bound to, in order.
pub proof fn law_bound_links_are_published_on(bound: Seq<(String, Family)>, i: int)
    ensures
        bound_scopes(bound).len() == bound.len(),
        0 <= i < bound.len() ==> bound_scopes(bound)[i] == (ScopeModel::LocalLink {
            device: bound[i].0@,
            family: bound[i].1,
        }),
{
}

/// Nothing is lost of what made a publication fail.
pub proof fn law_publications_tell_what_made_them_fail(
    publisher: String,
    source: ErrorReport,
    signing: SignEndpointRecordsError,
)
    ensures
        (PublishOnceError::Publish { publisher, source }).causes() == seq![source@.message]
            + source@.sources,
        (SignEndpointRecordsError::SignEndpoint { source }).causes() == seq![source@.message]
            + source@.sources,
        SignEndpointRecordsError::EncodeEndpoint.causes().len() == 0,
        (PublishOnceError::SignEndpointRecords { source: signing }).causes() == seq![
            signing.text(),
        ] + signing.causes(),
        PublishOnceError::NoPublisherResolver.causes().len() == 0,
{
}

} // verus!
