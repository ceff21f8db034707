//! What is remembered of earlier lookups.
use vstd::prelude::*;

use crate::foreign::{
    cache_entries, drop_cached, get_cached, keep_fresh, new_cache_map, put_cached,
};
use crate::net::{EndpointAddr, Family};

verus! {

/// How long the endpoints of a name are remembered, in nanoseconds: ten seconds.
pub const POSITIVE_TTL: u128 = 10_000_000_000;

/// How long it is remembered that a name has no endpoints, in nanoseconds: two seconds.
pub const NEGATIVE_TTL: u128 = 2_000_000_000;

/// Endpoints and until when they are remembered.
#[derive(Debug)]
pub struct CachedRecord {
    pub addrs: Vec<EndpointAddr>,
    pub expire: u128,
}

impl View for CachedRecord {
    type V = (Seq<EndpointAddr>, u128);

    open spec fn view(&self) -> (Seq<EndpointAddr>, u128) {
        (self.addrs@, self.expire)
    }
}

impl Clone for CachedRecord {
    fn clone(&self) -> (r: Self)
        ensures
            r@ == self@,
    {
        CachedRecord {
            addrs: vstd::slice::slice_to_vec(self.addrs.as_slice()),
            expire: self.expire,
        }
    }
}

impl CachedRecord {
    /// Whether the record is still remembered.
    pub fn is_fresh(&self, now: u128) -> (r: bool)
        ensures
            r == (self.expire > now),
    {
        self.expire > now
    }
}

/// The entries that are still remembered.
pub open spec fn fresh_entries(
    entries: Map<(Seq<char>, u8), CachedRecord>,
    now: u128,
) -> Map<(Seq<char>, u8), CachedRecord> {
    entries.restrict(
        Set::new(
            |key: (Seq<char>, u8)| entries.dom().contains(key) && entries[key].expire > now,
        ),
    )
}

/// What tells the lookups of a name apart.
pub open spec fn family_code(family: Option<Family>) -> u8 {
    match family {
        None => 0,
        Some(Family::V4) => 4,
        Some(Family::V6) => 6,
    }
}

/// What is remembered under a name.
pub type CacheModel = Map<(Seq<char>, Option<Family>), (Seq<EndpointAddr>, u128)>;

/// The entries of a map, by name and address family.
pub open spec fn by_family(entries: Map<(Seq<char>, u8), CachedRecord>) -> CacheModel {
    Map::new(
        |key: (Seq<char>, Option<Family>)|
            entries.dom().contains((key.0, family_code(key.1))),
        |key: (Seq<char>, Option<Family>)| entries[(key.0, family_code(key.1))]@,
    )
}

/// What stays remembered at a time.
pub open spec fn remembered(cache: CacheModel, now: u128) -> CacheModel {
    cache.restrict(
        Set::new(
            |key: (Seq<char>, Option<Family>)| cache.dom().contains(key) && cache[key].1 > now,
        ),
    )
}

/// What is remembered of earlier lookups: the endpoints of a name, or that it has none.
pub struct LookupCache {
    positive: dashmap::DashMap<(String, u8), CachedRecord>,
    negative: dashmap::DashMap<(String, u8), CachedRecord>,
}

fn lookup_key(domain: &str, family: Option<Family>) -> (r: (String, u8))
    ensures
        r.0@ == domain@,
        r.1 == family_code(family),
{
    let code: u8 = match family {
        None => 0,
        Some(Family::V4) => 4,
        Some(Family::V6) => 6,
    };
    (domain.to_owned(), code)
}

impl LookupCache {
    /// The endpoints that are remembered.
    pub closed spec fn positive(self) -> CacheModel {
        by_family(cache_entries(self.positive))
    }

    /// The lookups that are remembered to have had no result.
    pub closed spec fn negative(self) -> CacheModel {
        by_family(cache_entries(self.negative))
    }

    /// Nothing is remembered.
    pub fn new() -> (r: Self)
        ensures
            r.positive() == CacheModel::empty(),
            r.negative() == CacheModel::empty(),
    {
        let positive = new_cache_map();
        let negative = new_cache_map();
        assert(by_family(cache_entries(positive)) =~= CacheModel::empty());
        assert(by_family(cache_entries(negative)) =~= CacheModel::empty());
        LookupCache { positive, negative }
    }

    /// Forgets what is no longer remembered.
    pub fn prune_expired(&mut self, now: u128)
        ensures
            final(self).positive() == remembered(old(self).positive(), now),
            final(self).negative() == remembered(old(self).negative(), now),
    {
        keep_fresh(&mut self.positive, now);
        keep_fresh(&mut self.negative, now);
        assert(self.positive() =~= remembered(old(self).positive(), now));
        assert(self.negative() =~= remembered(old(self).negative(), now));
    }

    /// The endpoints that are remembered.
    pub fn positive_hit(&self, domain: &str, family: Option<Family>) -> (r: Option<
        Vec<EndpointAddr>,
    >)
        ensures
            r is Some <==> self.positive().dom().contains((domain@, family)),
            r is Some ==> (r->0)@ == self.positive()[(domain@, family)].0,
    {
        let key = lookup_key(domain, family);
        match get_cached(&self.positive, &key) {
            Some(record) => Some(record.addrs),
            None => None,
        }
    }

    /// Whether it is remembered that there are no endpoints.
    pub fn negative_hit(&self, domain: &str, family: Option<Family>) -> (r: bool)
        ensures
            r == self.negative().dom().contains((domain@, family)),
    {
        let key = lookup_key(domain, family);
        get_cached(&self.negative, &key).is_some()
    }

    /// Remembers the endpoints of a name.
    pub fn insert_positive(
        &mut self,
        domain: &str,
        family: Option<Family>,
        addrs: Vec<EndpointAddr>,
        now: u128,
    )
        requires
            now + POSITIVE_TTL <= u128::MAX,
        ensures
            final(self).positive() == old(self).positive().insert(
                (domain@, family),
                (addrs@, (now + POSITIVE_TTL) as u128),
            ),
            final(self).negative() == old(self).negative().remove((domain@, family)),
    {
        let key = lookup_key(domain, family);
        put_cached(
            &mut self.positive,
            lookup_key(domain, family),
            CachedRecord { addrs, expire: now + POSITIVE_TTL },
        );
        drop_cached(&mut self.negative, &key);
        assert(self.positive() =~= old(self).positive().insert(
            (domain@, family),
            (addrs@, (now + POSITIVE_TTL) as u128),
        ));
        assert(self.negative() =~= old(self).negative().remove((domain@, family)));
    }

    /// Remembers that a name has no endpoints.
    pub fn insert_negative(&mut self, domain: &str, family: Option<Family>, now: u128)
        requires
            now + NEGATIVE_TTL <= u128::MAX,
        ensures
            final(self).positive() == old(self).positive(),
            final(self).negative() == old(self).negative().insert(
                (domain@, family),
                (Seq::empty(), (now + NEGATIVE_TTL) as u128),
            ),
    {
        let addrs: Vec<EndpointAddr> = Vec::new();
        put_cached(
            &mut self.negative,
            lookup_key(domain, family),
            CachedRecord { addrs, expire: now + NEGATIVE_TTL },
        );
        assert(addrs@ =~= Seq::<EndpointAddr>::empty());
        assert(self.negative() =~= old(self).negative().insert(
            (domain@, family),
            (Seq::empty(), (now + NEGATIVE_TTL) as u128),
        ));
    }
}

/// Endpoints that are remembered for a name stay remembered until their time is over,
/// and what is remembered for other names, or for another address family, stays as it
/// is.
pub proof fn law_endpoints_are_remembered_for_their_time(
    cache: CacheModel,
    key: (Seq<char>, Option<Family>),
    other: (Seq<char>, Option<Family>),
    addrs: Seq<EndpointAddr>,
    now: u128,
    later: u128,
)
    requires
        now + POSITIVE_TTL <= u128::MAX,
        now <= later,
        key != other,
    ensures
        ({
            let after = cache.insert(key, (addrs, (now + POSITIVE_TTL) as u128));
            &&& remembered(after, later).dom().contains(key) <==> later < now + POSITIVE_TTL
            &&& later < now + POSITIVE_TTL ==> remembered(after, later)[key].0 == addrs
            &&& remembered(after, later).dom().contains(other) <==> remembered(
                cache,
                later,
            ).dom().contains(other)
            &&& remembered(cache, later).dom().contains(other) ==> remembered(after, later)[other]
                == remembered(cache, later)[other]
        }),
{
}

/// Addresses are remembered for ten seconds, and that there are none for two.
pub proof fn law_addresses_are_remembered_longer_than_misses(
    cache: CacheModel,
    key: (Seq<char>, Option<Family>),
    addrs: Seq<EndpointAddr>,
    now: u128,
    later: u128,
)
    requires
        now + 10_000_000_000 <= u128::MAX,
    ensures
        remembered(cache.insert(key, (addrs, (now + POSITIVE_TTL) as u128)), later).dom().contains(
            key,
        ) <==> later < now + 10_000_000_000,
        remembered(
            cache.insert(key, (Seq::empty(), (now + NEGATIVE_TTL) as u128)),
            later,
        ).dom().contains(key) <==> later < now + 2_000_000_000,
{
}

} // verus!
