//! The addresses that are published, and where.
use vstd::prelude::*;

use crate::net::{EndpointAddr, Family, SocketAddress};
use crate::text::text_eq;

verus! {

/// Which addresses are asked for.
#[derive(Debug, Clone, Copy, PartialEq, Eq)]
pub enum AddressSelector<'a> {
    WideArea,
    LocalLink { device: &'a str, family: Family },
}

/// The contents of an [`AddressSelector`] or of a [`PublishScope`].
pub enum ScopeModel {
    WideArea,
    LocalLink { device: Seq<char>, family: Family },
}

impl<'a> View for AddressSelector<'a> {
    type V = ScopeModel;

    open spec fn view(&self) -> ScopeModel {
        match *self {
            AddressSelector::WideArea => ScopeModel::WideArea,
            AddressSelector::LocalLink { device, family } => ScopeModel::LocalLink {
                device: device@,
                family,
            },
        }
    }
}

/// What addresses can be asked of.
pub trait AddressView {
    /// Whether the view can be asked.
    spec fn ready(&self) -> bool;

    /// Whether these may be the addresses that a selector selects.
    spec fn may_select(&self, selector: AddressSelector<'_>, endpoints: Seq<EndpointAddr>) -> bool;

    /// The addresses that a selector selects.
    fn endpoints(&self, selector: AddressSelector<'_>) -> (r: Vec<EndpointAddr>)
        requires
            self.ready(),
        ensures
            self.may_select(selector, r@),
    ;
}

/// Addresses that a function selects.
pub struct FnAddressView<F> {
    f: F,
}

impl<F> FnAddressView<F> {
    /// The function that selects.
    pub closed spec fn function(self) -> F {
        self.f
    }

    pub fn new(f: F) -> (r: Self)
        ensures
            r.function() == f,
    {
        FnAddressView { f }
    }
}

impl<F: for <'b>Fn(AddressSelector<'b>) -> Vec<EndpointAddr>> AddressView for FnAddressView<F> {
    open spec fn ready(&self) -> bool {
        forall|selector: AddressSelector<'_>| call_requires(self.function(), (selector,))
    }

    open spec fn may_select(
        &self,
        selector: AddressSelector<'_>,
        endpoints: Seq<EndpointAddr>,
    ) -> bool {
        exists|selected: Vec<EndpointAddr>| #[trigger]
            call_ensures(self.function(), (selector,), selected) && selected@ == endpoints
    }

    fn endpoints(&self, selector: AddressSelector<'_>) -> (r: Vec<EndpointAddr>) {
        assert(call_requires(self.function(), (selector,)));
        assert(self.function() == self.f);
        let selected = (self.f)(selector);
        assert(call_ensures(self.f, (selector,), selected));
        selected
    }
}

/// Where addresses are published.
#[derive(Debug, PartialEq, Eq)]
pub enum PublishScope {
    WideArea,
    LocalLink { device: String, family: Family },
}

impl View for PublishScope {
    type V = ScopeModel;

    open spec fn view(&self) -> ScopeModel {
        match self {
            PublishScope::WideArea => ScopeModel::WideArea,
            PublishScope::LocalLink { device, family } => ScopeModel::LocalLink {
                device: device@,
                family: *family,
            },
        }
    }
}

impl PublishScope {
    /// The selector of the addresses that are published there.
    pub fn selector(&self) -> (r: AddressSelector<'_>)
        ensures
            r@ == self@,
    {
        match self {
            PublishScope::WideArea => AddressSelector::WideArea,
            PublishScope::LocalLink { device, family } => AddressSelector::LocalLink {
                device: device.as_str(),
                family: *family,
            },
        }
    }
}

/// Addresses for one scope.
#[derive(Debug, PartialEq, Eq)]
pub struct PublishAddressGroup {
    pub scope: PublishScope,
    pub endpoints: Vec<EndpointAddr>,
}

impl PublishAddressGroup {
    pub fn wide_area(endpoints: Vec<EndpointAddr>) -> (r: Self)
        ensures
            r.scope@ == ScopeModel::WideArea,
            r.endpoints == endpoints,
    {
        PublishAddressGroup { scope: PublishScope::WideArea, endpoints }
    }

    pub fn local_link(device: &str, family: Family, endpoints: Vec<EndpointAddr>) -> (r: Self)
        ensures
            r.scope@ == (ScopeModel::LocalLink { device: device@, family }),
            r.endpoints == endpoints,
    {
        PublishAddressGroup {
            scope: PublishScope::LocalLink { device: device.to_owned(), family },
            endpoints,
        }
    }

    /// Whether the addresses are for what is asked.
    pub fn matches(&self, selector: AddressSelector<'_>) -> (r: bool)
        ensures
            r == (self.scope@ == selector@),
    {
        match (&self.scope, selector) {
            (PublishScope::WideArea, AddressSelector::WideArea) => true,
            (
                PublishScope::LocalLink { device, family },
                AddressSelector::LocalLink { device: selected_device, family: selected_family },
            ) => text_eq(device.as_str(), selected_device) && *family == selected_family,
            _ => false,
        }
    }
}

/// The addresses of the groups for a scope, in order.
pub open spec fn scope_endpoints(groups: Seq<PublishAddressGroup>, scope: ScopeModel) -> Seq<
    EndpointAddr,
>
    decreases groups.len(),
{
    if groups.len() == 0 {
        Seq::empty()
    } else {
        let front = scope_endpoints(groups.drop_last(), scope);
        if groups.last().scope@ == scope {
            front + groups.last().endpoints@
        } else {
            front
        }
    }
}

/// Addresses for several scopes.
#[derive(Debug, PartialEq, Eq)]
pub struct PublishAddresses {
    pub groups: Vec<PublishAddressGroup>,
}

impl PublishAddresses {
    pub fn new() -> (r: Self)
        ensures
            r.groups@ == Seq::<PublishAddressGroup>::empty(),
    {
        PublishAddresses { groups: Vec::new() }
    }

    pub fn group(self, group: PublishAddressGroup) -> (r: Self)
        ensures
            r.groups@ == self.groups@.push(group),
    {
        let mut groups = self.groups;
        groups.push(group);
        PublishAddresses { groups }
    }

    pub fn wide_area(self, endpoints: Vec<EndpointAddr>) -> (r: Self)
        ensures
            r.groups@.drop_last() == self.groups@,
            r.groups@.len() == self.groups@.len() + 1,
            r.groups@.last().scope@ == ScopeModel::WideArea,
            r.groups@.last().endpoints == endpoints,
    {
        let r = self.group(PublishAddressGroup::wide_area(endpoints));
        assert(r.groups@.drop_last() =~= self.groups@);
        r
    }

    pub fn local_link(self, device: &str, family: Family, endpoints: Vec<EndpointAddr>) -> (r: Self)
        ensures
            r.groups@.drop_last() == self.groups@,
            r.groups@.len() == self.groups@.len() + 1,
            r.groups@.last().scope@ == (ScopeModel::LocalLink { device: device@, family }),
            r.groups@.last().endpoints == endpoints,
    {
        let r = self.group(PublishAddressGroup::local_link(device, family, endpoints));
        assert(r.groups@.drop_last() =~= self.groups@);
        r
    }
}

impl AddressView for PublishAddresses {
    open spec fn ready(&self) -> bool {
        true
    }

    open spec fn may_select(
        &self,
        selector: AddressSelector<'_>,
        endpoints: Seq<EndpointAddr>,
    ) -> bool {
        endpoints == scope_endpoints(self.groups@, selector@)
    }

    fn endpoints(&self, selector: AddressSelector<'_>) -> (r: Vec<EndpointAddr>) {
        let mut out: Vec<EndpointAddr> = Vec::new();
        let mut i: usize = 0;
        assert(out@ =~= scope_endpoints(self.groups@.take(0), selector@));
        while i < self.groups.len()
            invariant
                i <= self.groups@.len(),
                out@ == scope_endpoints(self.groups@.take(i as int), selector@),
            decreases self.groups@.len() - i,
        {
            proof {
                assert(self.groups@.take(i + 1).drop_last() =~= self.groups@.take(i as int));
                assert(self.groups@.take(i + 1).last() == self.groups@[i as int]);
            }
            if self.groups[i].matches(selector) {
                let mut more = vstd::slice::slice_to_vec(self.groups[i].endpoints.as_slice());
                out.append(&mut more);
            }
            i = i + 1;
        }
        assert(self.groups@.take(i as int) =~= self.groups@);
        out
    }
}

/// What a NAT does, as far as it is known.
#[derive(Debug, Clone, Copy, PartialEq, Eq, Structural)]
pub enum NatState {
    /// It is not known yet.
    Pending,
    FullCone,
    /// Any other kind that is known.
    Restricted,
    Failed,
}

/// What a STUN client of an interface observed.
#[derive(Debug, Clone, Copy, PartialEq, Eq, Structural)]
pub struct StunClient {
    pub agent: SocketAddress,
    /// The address that the agent sees, where it is known.
    pub outer: Option<SocketAddress>,
    pub nat_type: NatState,
}

/// The address to publish for an interface behind a NAT: its own where everybody reaches
/// it and it is not translated, or else through the agent.
pub open spec fn stun_endpoint(
    bound: SocketAddress,
    agent: SocketAddress,
    outer: SocketAddress,
    nat_type: NatState,
) -> EndpointAddr {
    if nat_type is FullCone && bound == outer {
        EndpointAddr::Direct { addr: outer }
    } else {
        EndpointAddr::Mediate { agent, outer }
    }
}

/// The address to publish for an interface behind a NAT.
pub fn publish_endpoint_from_stun(
    bound: SocketAddress,
    agent: SocketAddress,
    outer: SocketAddress,
    nat_type: NatState,
) -> (r: EndpointAddr)
    ensures
        r == stun_endpoint(bound, agent, outer, nat_type),
{
    let full_cone = match nat_type {
        NatState::FullCone => true,
        _ => false,
    };
    if full_cone && bound == outer {
        EndpointAddr::direct(outer)
    } else {
        EndpointAddr::with_agent(agent, outer)
    }
}

/// An interface that is bound for a pattern.
#[derive(Debug, PartialEq, Eq)]
pub struct BindingAddress {
    /// Whether the pattern is one of interfaces.
    pub interface_pattern: bool,
    /// The address family that the pattern asks for.
    pub pattern_family: Option<Family>,
    /// Whether the pattern matches the device of the interface.
    pub pattern_matches: bool,
    /// The address family and the device of the interface, where it is one.
    pub interface: Option<(Family, String)>,
    pub bound: Option<SocketAddress>,
    /// Whether the bound address is on the default route.
    pub on_default_route: bool,
    pub clients: Vec<StunClient>,
}

/// The addresses that STUN clients of an interface make known.
pub open spec fn stun_endpoints(clients: Seq<StunClient>, bound: Option<SocketAddress>) -> Seq<
    EndpointAddr,
>
    decreases clients.len(),
{
    if clients.len() == 0 {
        Seq::empty()
    } else {
        let front = stun_endpoints(clients.drop_last(), bound);
        let client = clients.last();
        match (client.outer, bound) {
            (Some(outer), Some(bound)) => match client.nat_type {
                NatState::Failed => front,
                NatState::Pending => front.push(
                    EndpointAddr::Mediate { agent: client.agent, outer },
                ),
                nat_type => front.push(stun_endpoint(bound, client.agent, outer, nat_type)),
            },
            _ => front,
        }
    }
}

impl BindingAddress {
    /// Whether the interface may have addresses for a scope.
    pub open spec fn concerns(self, scope: ScopeModel) -> bool {
        match scope {
            ScopeModel::WideArea => true,
            ScopeModel::LocalLink { device, family } => {
                &&& self.interface_pattern
                &&& self.pattern_family is Some ==> self.pattern_family == Some(family)
                &&& self.pattern_matches
                &&& self.interface matches Some((bound_family, bound_device)) && bound_family
                    == family && bound_device@ == device
            },
        }
    }

    /// The addresses of the interface in the wide area: what STUN clients make known, and
    /// its own where it is on the default route.
    pub open spec fn wide_area(self) -> Seq<EndpointAddr> {
        let known = stun_endpoints(self.clients@, self.bound);
        match self.bound {
            Some(addr) => if self.on_default_route {
                known.push(EndpointAddr::Direct { addr })
            } else {
                known
            },
            None => known,
        }
    }

    /// The address of the interface in its local network.
    pub open spec fn local_link(self, family: Family) -> Seq<EndpointAddr> {
        match (self.bound, family) {
            (Some(SocketAddress::V4 { ip, port }), Family::V4) => seq![
                EndpointAddr::Direct { addr: SocketAddress::V4 { ip, port } },
            ],
            (Some(SocketAddress::V6 { ip, port, flowinfo, scope_id }), Family::V6) => seq![
                EndpointAddr::Direct { addr: SocketAddress::V6 { ip, port, flowinfo, scope_id } },
            ],
            _ => Seq::empty(),
        }
    }

    /// The addresses of the interface for a scope.
    pub open spec fn selected(self, scope: ScopeModel) -> Seq<EndpointAddr> {
        if !self.concerns(scope) {
            Seq::empty()
        } else {
            match scope {
                ScopeModel::WideArea => self.wide_area(),
                ScopeModel::LocalLink { family, .. } => self.local_link(family),
            }
        }
    }

    /// Whether the interface may have addresses for what is asked.
    pub fn may_match(&self, selector: AddressSelector<'_>) -> (r: bool)
        ensures
            r == self.concerns(selector@),
    {
        match selector {
            AddressSelector::WideArea => true,
            AddressSelector::LocalLink { device, family } => {
                if !self.interface_pattern || !self.pattern_matches {
                    return false;
                }
                match self.pattern_family {
                    Some(pattern_family) => if pattern_family != family {
                        return false;
                    },
                    None => {},
                }
                match &self.interface {
                    Some((bound_family, bound_device)) => *bound_family == family && text_eq(
                        bound_device.as_str(),
                        device,
                    ),
                    None => false,
                }
            },
        }
    }

    /// The addresses of the interface in the wide area.
    pub fn public_endpoints(&self) -> (r: Vec<EndpointAddr>)
        ensures
            r@ == self.wide_area(),
    {
        let mut out: Vec<EndpointAddr> = Vec::new();
        let mut i: usize = 0;
        assert(out@ =~= stun_endpoints(self.clients@.take(0), self.bound));
        while i < self.clients.len()
            invariant
                i <= self.clients@.len(),
                out@ == stun_endpoints(self.clients@.take(i as int), self.bound),
            decreases self.clients@.len() - i,
        {
            proof {
                assert(self.clients@.take(i + 1).drop_last() =~= self.clients@.take(i as int));
                assert(self.clients@.take(i + 1).last() == self.clients@[i as int]);
            }
            let client = self.clients[i];
            match (client.outer, self.bound) {
                (Some(outer), Some(bound)) => match client.nat_type {
                    NatState::Failed => {},
                    NatState::Pending => {
                        out.push(EndpointAddr::with_agent(client.agent, outer));
                    },
                    nat_type => {
                        out.push(publish_endpoint_from_stun(bound, client.agent, outer, nat_type));
                    },
                },
                _ => {},
            }
            i = i + 1;
        }
        assert(self.clients@.take(i as int) =~= self.clients@);
        match self.bound {
            Some(addr) => if self.on_default_route {
                out.push(EndpointAddr::direct(addr));
            },
            None => {},
        }
        out
    }

    /// The address of the interface in its local network.
    pub fn local_endpoints(&self, family: Family) -> (r: Vec<EndpointAddr>)
        ensures
            r@ == self.local_link(family),
    {
        let mut out: Vec<EndpointAddr> = Vec::new();
        match self.bound {
            Some(addr) => {
                let same = match (family, addr) {
                    (Family::V4, SocketAddress::V4 { .. }) => true,
                    (Family::V6, SocketAddress::V6 { .. }) => true,
                    _ => false,
                };
                if same {
                    out.push(EndpointAddr::direct(addr));
                }
            },
            None => {},
        }
        assert(out@ =~= self.local_link(family));
        out
    }
}

/// Addresses without those that occurred before.
pub open spec fn distinct(endpoints: Seq<EndpointAddr>) -> Seq<EndpointAddr>
    decreases endpoints.len(),
{
    if endpoints.len() == 0 {
        Seq::empty()
    } else {
        let front = distinct(endpoints.drop_last());
        if front.contains(endpoints.last()) {
            front
        } else {
            front.push(endpoints.last())
        }
    }
}

/// The addresses of some interfaces for a scope, in order.
pub open spec fn binding_endpoints(bindings: Seq<BindingAddress>, scope: ScopeModel) -> Seq<
    EndpointAddr,
>
    decreases bindings.len(),
{
    if bindings.len() == 0 {
        Seq::empty()
    } else {
        binding_endpoints(bindings.drop_last(), scope) + bindings.last().selected(scope)
    }
}

/// The interfaces that are bound.
#[derive(Debug, PartialEq, Eq)]
pub struct EndpointBindingAddressView {
    pub bindings: Vec<BindingAddress>,
}

fn push_distinct(out: &mut Vec<EndpointAddr>, more: &Vec<EndpointAddr>, given: Ghost<Seq<EndpointAddr>>)
    requires
        old(out)@ == distinct(given@),
    ensures
        final(out)@ == distinct(given@ + more@),
{
    let mut i: usize = 0;
    assert(given@ + more@.take(0) =~= given@);
    while i < more.len()
        invariant
            i <= more@.len(),
            out@ == distinct(given@ + more@.take(i as int)),
        decreases more@.len() - i,
    {
        let ghost next = given@ + more@.take(i + 1);
        proof {
            assert(next.drop_last() =~= given@ + more@.take(i as int));
            assert(next.last() == more@[i as int]);
        }
        let endpoint = more[i];
        let mut k: usize = 0;
        while k < out.len() && out[k] != endpoint
            invariant
                k <= out@.len(),
                forall|j: int| 0 <= j < k ==> out@[j] != endpoint,
            decreases out@.len() - k,
        {
            k = k + 1;
        }
        if k == out.len() {
            assert(!out@.contains(endpoint));
            out.push(endpoint);
        } else {
            assert(out@[k as int] == endpoint);
        }
        i = i + 1;
    }
    assert(more@.take(i as int) =~= more@);
}

impl AddressView for EndpointBindingAddressView {
    open spec fn ready(&self) -> bool {
        true
    }

    open spec fn may_select(
        &self,
        selector: AddressSelector<'_>,
        endpoints: Seq<EndpointAddr>,
    ) -> bool {
        endpoints == distinct(binding_endpoints(self.bindings@, selector@))
    }

    fn endpoints(&self, selector: AddressSelector<'_>) -> (r: Vec<EndpointAddr>) {
        let mut out: Vec<EndpointAddr> = Vec::new();
        let mut i: usize = 0;
        assert(out@ =~= distinct(binding_endpoints(self.bindings@.take(0), selector@)));
        while i < self.bindings.len()
            invariant
                i <= self.bindings@.len(),
                out@ == distinct(binding_endpoints(self.bindings@.take(i as int), selector@)),
            decreases self.bindings@.len() - i,
        {
            let ghost known = binding_endpoints(self.bindings@.take(i as int), selector@);
            proof {
                assert(self.bindings@.take(i + 1).drop_last() =~= self.bindings@.take(i as int));
                assert(self.bindings@.take(i + 1).last() == self.bindings@[i as int]);
            }
            if self.bindings[i].may_match(selector) {
                let more = match selector {
                    AddressSelector::WideArea => self.bindings[i].public_endpoints(),
                    AddressSelector::LocalLink { family, .. } => self.bindings[i].local_endpoints(
                        family,
                    ),
                };
                push_distinct(&mut out, &more, Ghost(known));
            } else {
                assert(known + self.bindings@[i as int].selected(selector@) =~= known);
            }
            i = i + 1;
        }
        assert(self.bindings@.take(i as int) =~= self.bindings@);
        out
    }
}

/// No address is published twice, and every address of an interface is published.
pub proof fn law_distinct_addresses(endpoints: Seq<EndpointAddr>)
    ensures
        distinct(endpoints).no_duplicates(),
        forall|endpoint: EndpointAddr| #[trigger]
            distinct(endpoints).contains(endpoint) <==> endpoints.contains(endpoint),
    decreases endpoints.len(),
{
    if endpoints.len() > 0 {
        let last = endpoints.last();
        let front = endpoints.drop_last();
        law_distinct_addresses(front);
        assert forall|endpoint: EndpointAddr| #[trigger]
            distinct(endpoints).contains(endpoint) <==> endpoints.contains(endpoint) by {
            assert(endpoints =~= front.push(last));
            if front.contains(endpoint) {
                let i = front.index_of(endpoint);
                assert(endpoints[i] == endpoint);
            }
            if endpoints.contains(endpoint) {
                let i = endpoints.index_of(endpoint);
                if i < front.len() {
                    assert(front[i] == endpoint);
                }
            }
            if endpoint == last {
                assert(endpoints[endpoints.len() - 1] == endpoint);
            }
            let known = distinct(front);
            if !known.contains(last) {
                assert(known.push(last)[known.len() as int] == last);
                if known.contains(endpoint) {
                    let i = known.index_of(endpoint);
                    assert(known.push(last)[i] == endpoint);
                }
                if known.push(last).contains(endpoint) && endpoint != last {
                    let i = known.push(last).index_of(endpoint);
                    assert(known[i] == endpoint);
                }
            }
        }
    }
}

/// What one STUN client makes known of a bound interface: nothing where it failed or sees no
/// address; the address itself where everybody reaches it and it is not translated; and
/// otherwise the address behind the agent.
pub proof fn law_stun_clients_make_addresses_known(client: StunClient, bound: SocketAddress)
    ensures
        ({
            let known = stun_endpoints(seq![client], Some(bound));
            &&& client.outer is None || client.nat_type is Failed ==> known.len() == 0
            &&& client.outer matches Some(outer) ==> !(client.nat_type is Failed) ==> {
                &&& known.len() == 1
                &&& client.nat_type is FullCone && outer == bound ==> known[0]
                    == EndpointAddr::Direct { addr: bound }
                &&& !(client.nat_type is FullCone) || outer != bound ==> known[0]
                    == EndpointAddr::Mediate { agent: client.agent, outer }
            }
        }),
        stun_endpoints(seq![client], None).len() == 0,
{
    reveal_with_fuel(stun_endpoints, 2);
    assert(seq![client].drop_last() =~= Seq::<StunClient>::empty());
    assert(seq![client].last() == client);
}

/// What several STUN clients make known follows each other in their order.
pub proof fn law_stun_clients_add_up(
    clients: Seq<StunClient>,
    more: Seq<StunClient>,
    bound: Option<SocketAddress>,
)
    ensures
        stun_endpoints(clients + more, bound) == stun_endpoints(clients, bound) + stun_endpoints(
            more,
            bound,
        ),
    decreases more.len(),
{
    if more.len() > 0 {
        law_stun_clients_add_up(clients, more.drop_last(), bound);
        assert((clients + more).drop_last() =~= clients + more.drop_last());
        assert((clients + more).last() == more.last());
    } else {
        assert(clients + more =~= clients);
    }
    assert(stun_endpoints(clients + more, bound) =~= stun_endpoints(clients, bound)
        + stun_endpoints(more, bound));
}

proof fn lemma_binding_endpoints_contain(
    bindings: Seq<BindingAddress>,
    scope: ScopeModel,
    endpoint: EndpointAddr,
)
    ensures
        binding_endpoints(bindings, scope).contains(endpoint) <==> exists|i: int|
            0 <= i < bindings.len() && (#[trigger] bindings[i]).selected(scope).contains(endpoint),
    decreases bindings.len(),
{
    if bindings.len() > 0 {
        let front = bindings.drop_last();
        lemma_binding_endpoints_contain(front, scope, endpoint);
        let known = binding_endpoints(front, scope);
        let own = bindings.last().selected(scope);
        let all = binding_endpoints(bindings, scope);
        assert(all == known + own);
        if known.contains(endpoint) {
            assert(all[known.index_of(endpoint)] == endpoint);
            let i = choose|i: int|
                0 <= i < front.len() && (#[trigger] front[i]).selected(scope).contains(endpoint);
            assert(bindings[i] == front[i]);
        }
        if own.contains(endpoint) {
            assert(all[known.len() + own.index_of(endpoint)] == endpoint);
            assert(bindings[bindings.len() - 1].selected(scope).contains(endpoint));
        }
        if all.contains(endpoint) {
            let at = all.index_of(endpoint);
            if at < known.len() {
                assert(known[at] == endpoint);
            } else {
                assert(own[at - known.len()] == endpoint);
            }
        }
        if exists|i: int|
            0 <= i < bindings.len() && (#[trigger] bindings[i]).selected(scope).contains(
                endpoint,
            ) {
            let i = choose|i: int|
                0 <= i < bindings.len() && (#[trigger] bindings[i]).selected(scope).contains(
                    endpoint,
                );
            if i < front.len() {
                assert(front[i] == bindings[i]);
            }
        }
    }
}

proof fn lemma_stun_endpoints_contain(
    clients: Seq<StunClient>,
    bound: SocketAddress,
    endpoint: EndpointAddr,
)
    ensures
        stun_endpoints(clients, Some(bound)).contains(endpoint) <==> exists|i: int|
            0 <= i < clients.len() && told_by(#[trigger] clients[i], bound, endpoint),
    decreases clients.len(),
{
    if clients.len() > 0 {
        let front = clients.drop_last();
        lemma_stun_endpoints_contain(front, bound, endpoint);
        let known = stun_endpoints(front, Some(bound));
        let all = stun_endpoints(clients, Some(bound));
        if known.contains(endpoint) {
            assert(all[known.index_of(endpoint)] == endpoint);
            let i = choose|i: int|
                0 <= i < front.len() && told_by(#[trigger] front[i], bound, endpoint);
            assert(clients[i] == front[i]);
        }
        if told_by(clients.last(), bound, endpoint) {
            assert(all[all.len() - 1] == endpoint);
            assert(told_by(clients[clients.len() - 1], bound, endpoint));
        }
        if all.contains(endpoint) && !known.contains(endpoint) {
            let at = all.index_of(endpoint);
            if at < known.len() {
                assert(known[at] == endpoint);
            }
            assert(told_by(clients[clients.len() - 1], bound, endpoint));
        }
        if exists|i: int| 0 <= i < clients.len() && told_by(#[trigger] clients[i], bound, endpoint) {
            let i = choose|i: int|
                0 <= i < clients.len() && told_by(#[trigger] clients[i], bound, endpoint);
            if i < front.len() {
                assert(front[i] == clients[i]);
            }
        }
    }
}

/// Whether a STUN client of an interface that is bound to an address tells of an endpoint: it
/// sees an address and did not fail, and the endpoint is that address, where everybody reaches
/// the interface at it, or else the agent before it.
pub open spec fn told_by(
    client: StunClient,
    bound: SocketAddress,
    endpoint: EndpointAddr,
) -> bool {
    &&& !(client.nat_type is Failed)
    &&& client.outer matches Some(outer) && if client.nat_type is FullCone && outer == bound {
        endpoint == EndpointAddr::Direct { addr: bound }
    } else {
        endpoint == EndpointAddr::Mediate { agent: client.agent, outer }
    }
}

/// For the wide area the view selects, of every interface that is bound, the bound address
/// where it is on the default route and what its STUN clients tell of, and nothing else. It
/// selects nothing twice.
pub proof fn law_bound_addresses_on_the_default_route_are_published(
    view: EndpointBindingAddressView,
    endpoints: Seq<EndpointAddr>,
    endpoint: EndpointAddr,
)
    requires
        view.may_select(AddressSelector::WideArea, endpoints),
    ensures
        endpoints.no_duplicates(),
        endpoints.contains(endpoint) <==> exists|i: int|
            0 <= i < view.bindings@.len() && (#[trigger] view.bindings@[i]).bound is Some && {
                let binding = view.bindings@[i];
                let bound = binding.bound->0;
                ||| binding.on_default_route && endpoint == EndpointAddr::Direct { addr: bound }
                ||| exists|k: int|
                    0 <= k < binding.clients@.len() && told_by(
                        #[trigger] binding.clients@[k],
                        bound,
                        endpoint,
                    )
            },
{
    let bindings = view.bindings@;
    law_distinct_addresses(binding_endpoints(bindings, ScopeModel::WideArea));
    lemma_binding_endpoints_contain(bindings, ScopeModel::WideArea, endpoint);
    assert forall|i: int| 0 <= i < bindings.len() implies ((#[trigger] bindings[i]).selected(
        ScopeModel::WideArea,
    ).contains(endpoint) <==> bindings[i].bound is Some && ((bindings[i].on_default_route
        && endpoint == EndpointAddr::Direct { addr: bindings[i].bound->0 }) || exists|k: int|
        0 <= k < bindings[i].clients@.len() && told_by(
            #[trigger] bindings[i].clients@[k],
            bindings[i].bound->0,
            endpoint,
        ))) by {
        lemma_wide_area_contains(bindings[i], endpoint);
    }
}

proof fn lemma_unbound(clients: Seq<StunClient>)
    ensures
        stun_endpoints(clients, None).len() == 0,
    decreases clients.len(),
{
    if clients.len() > 0 {
        lemma_unbound(clients.drop_last());
    }
}

proof fn lemma_wide_area_contains(binding: BindingAddress, endpoint: EndpointAddr)
    ensures
        binding.selected(ScopeModel::WideArea).contains(endpoint) <==> binding.bound is Some && ((
        binding.on_default_route && endpoint == EndpointAddr::Direct { addr: binding.bound->0 })
            || exists|k: int|
            0 <= k < binding.clients@.len() && told_by(
                #[trigger] binding.clients@[k],
                binding.bound->0,
                endpoint,
            )),
{
    let known = stun_endpoints(binding.clients@, binding.bound);
    let all = binding.selected(ScopeModel::WideArea);
    match binding.bound {
        Some(bound) => {
            lemma_stun_endpoints_contain(binding.clients@, bound, endpoint);
            if known.contains(endpoint) {
                assert(all[known.index_of(endpoint)] == endpoint);
            }
            if binding.on_default_route {
                assert(all[known.len() as int] == EndpointAddr::Direct { addr: bound });
            }
            if all.contains(endpoint) {
                let at = all.index_of(endpoint);
                if at < known.len() {
                    assert(known[at] == endpoint);
                }
            }
        },
        None => {
            lemma_unbound(binding.clients@);
        },
    }
}

/// For a link the view selects the bound addresses of the family of the link, of the
/// interfaces on its device that a pattern of interfaces asks for, and nothing else.
pub proof fn law_bound_addresses_on_the_link_are_published(
    view: EndpointBindingAddressView,
    device: &str,
    family: Family,
    endpoints: Seq<EndpointAddr>,
    endpoint: EndpointAddr,
)
    requires
        view.may_select(AddressSelector::LocalLink { device, family }, endpoints),
    ensures
        endpoints.no_duplicates(),
        endpoints.contains(endpoint) <==> exists|i: int|
            0 <= i < view.bindings@.len() && {
                let binding = #[trigger] view.bindings@[i];
                &&& binding.interface_pattern
                &&& binding.pattern_matches
                &&& binding.pattern_family != Some(other_family(family))
                &&& binding.interface is Some
                &&& (binding.interface->0).0 == family
                &&& (binding.interface->0).1@ == device@
                &&& binding.bound is Some
                &&& family is V4 <==> binding.bound->0 is V4
                &&& endpoint == EndpointAddr::Direct { addr: binding.bound->0 }
            },
{
    let scope = AddressSelector::LocalLink { device, family }@;
    let bindings = view.bindings@;
    law_distinct_addresses(binding_endpoints(bindings, scope));
    lemma_binding_endpoints_contain(bindings, scope, endpoint);
    assert forall|i: int| 0 <= i < bindings.len() implies ((#[trigger] bindings[i]).selected(
        scope,
    ).contains(endpoint) <==> {
        let binding = bindings[i];
        &&& binding.interface_pattern
        &&& binding.pattern_matches
        &&& binding.pattern_family != Some(other_family(family))
        &&& binding.interface is Some
        &&& (binding.interface->0).0 == family
        &&& (binding.interface->0).1@ == device@
        &&& binding.bound is Some
        &&& family is V4 <==> binding.bound->0 is V4
        &&& endpoint == EndpointAddr::Direct { addr: binding.bound->0 }
    }) by {
        let binding = bindings[i];
        let chosen = binding.selected(scope);
        match binding.pattern_family {
            Some(Family::V4) => {},
            Some(Family::V6) => {},
            None => {},
        }
        match binding.bound {
            Some(SocketAddress::V4 { ip, port }) => {},
            Some(SocketAddress::V6 { ip, port, flowinfo, scope_id }) => {},
            None => {},
        }
        if chosen.contains(endpoint) {
            assert(chosen[chosen.index_of(endpoint)] == endpoint);
            assert(chosen.len() == 1);
        }
        if chosen.len() == 1 {
            assert(chosen.contains(chosen[0]));
        }
    }
}

/// The family that a link of a family is not of.
pub open spec fn other_family(family: Family) -> Family {
    match family {
        Family::V4 => Family::V6,
        Family::V6 => Family::V4,
    }
}

/// What is selected keeps the order of the bindings: more bindings add endpoints behind those
/// that are selected already.
pub proof fn law_selected_addresses_keep_their_order(
    endpoints: Seq<EndpointAddr>,
    more: Seq<EndpointAddr>,
)
    ensures
        distinct(endpoints).len() <= distinct(endpoints + more).len(),
        forall|i: int|
            0 <= i < distinct(endpoints).len() ==> #[trigger] distinct(endpoints + more)[i]
                == distinct(endpoints)[i],
    decreases more.len(),
{
    if more.len() > 0 {
        law_selected_addresses_keep_their_order(endpoints, more.drop_last());
        assert((endpoints + more).drop_last() =~= endpoints + more.drop_last());
        let front = distinct(endpoints + more.drop_last());
        assert forall|i: int| 0 <= i < distinct(endpoints).len() implies #[trigger] distinct(
            endpoints + more,
        )[i] == distinct(endpoints)[i] by {
            assert(distinct(endpoints + more)[i] == front[i]);
        }
    } else {
        assert(endpoints + more =~= endpoints);
    }
}

/// Of addresses in groups, those of the groups of the scope are selected and no others, in
/// their order.
pub proof fn law_groups_of_the_scope_are_selected(
    groups: Seq<PublishAddressGroup>,
    more: Seq<PublishAddressGroup>,
    group: PublishAddressGroup,
    scope: ScopeModel,
)
    ensures
        scope_endpoints(groups + more, scope) == scope_endpoints(groups, scope) + scope_endpoints(
            more,
            scope,
        ),
        group.scope@ == scope ==> scope_endpoints(seq![group], scope) == group.endpoints@,
        group.scope@ != scope ==> scope_endpoints(seq![group], scope).len() == 0,
    decreases more.len(),
{
    if more.len() > 0 {
        law_groups_of_the_scope_are_selected(groups, more.drop_last(), group, scope);
        assert((groups + more).drop_last() =~= groups + more.drop_last());
        assert((groups + more).last() == more.last());
    } else {
        assert(groups + more =~= groups);
    }
    assert(scope_endpoints(groups + more, scope) =~= scope_endpoints(groups, scope)
        + scope_endpoints(more, scope));
    reveal_with_fuel(scope_endpoints, 2);
    assert(seq![group].drop_last() =~= Seq::<PublishAddressGroup>::empty());
    if group.scope@ == scope {
        assert(scope_endpoints(seq![group], scope) =~= group.endpoints@);
    }
}

/// A scope and a selector are for the same addresses where they are both for the wide area, or
/// both for the same device and family.
pub proof fn law_selectors_are_for_their_scope(device: &str, name: String, family: Family)
    ensures
        AddressSelector::WideArea@ == PublishScope::WideArea@,
        (AddressSelector::LocalLink { device, family })@ == (PublishScope::LocalLink {
            device: name,
            family,
        })@ <==> device@ == name@,
        (AddressSelector::LocalLink { device, family })@ == (PublishScope::LocalLink {
            device: name,
            family: other_family(family),
        })@ ==> false,
        AddressSelector::WideArea@ != (AddressSelector::LocalLink { device, family })@,
{
}

} // verus!
