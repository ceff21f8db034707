//! Where addresses are on the globe and in the network.
use vstd::prelude::*;

use crate::measure::Measure;
use crate::net::IpAddress;

verus! {

/// A place. The coordinates are the bits of double precision numbers.
#[derive(Debug, Clone, Copy, PartialEq, Eq, Structural)]
pub struct GeoPoint {
    pub latitude: u64,
    pub longitude: u64,
    pub accuracy_radius_km: u16,
}

/// What is known of an address.
#[derive(Debug, PartialEq, Eq)]
pub struct GeoTraits {
    pub country: Option<String>,
    pub city: Option<String>,
    pub asn: Option<u32>,
    pub point: Option<GeoPoint>,
}

/// The contents of [`GeoTraits`].
pub struct GeoTraitsModel {
    pub country: Option<Seq<char>>,
    pub city: Option<Seq<char>>,
    pub asn: Option<u32>,
    pub point: Option<GeoPoint>,
}

pub open spec fn text_view(text: Option<String>) -> Option<Seq<char>> {
    match text {
        Some(text) => Some(text@),
        None => None,
    }
}

impl View for GeoTraits {
    type V = GeoTraitsModel;

    open spec fn view(&self) -> GeoTraitsModel {
        GeoTraitsModel {
            country: text_view(self.country),
            city: text_view(self.city),
            asn: self.asn,
            point: self.point,
        }
    }
}

impl GeoTraitsModel {
    /// Nothing is known.
    pub open spec fn unknown() -> Self {
        GeoTraitsModel { country: None, city: None, asn: None, point: None }
    }
}

impl Default for GeoTraits {
    fn default() -> (r: Self)
        ensures
            r@ == GeoTraitsModel::unknown(),
    {
        GeoTraits { country: None, city: None, asn: None, point: None }
    }
}

fn clone_text(text: &Option<String>) -> (r: Option<String>)
    ensures
        text_view(r) == text_view(*text),
{
    match text {
        Some(text) => Some(text.clone()),
        None => None,
    }
}

impl Clone for GeoTraits {
    fn clone(&self) -> (r: Self)
        ensures
            r@ == self@,
    {
        GeoTraits {
            country: clone_text(&self.country),
            city: clone_text(&self.city),
            asn: self.asn,
            point: self.point,
        }
    }
}

/// What the databases say of one address.
#[derive(Debug, PartialEq, Eq)]
pub struct GeoEntry {
    pub ip: IpAddress,
    pub traits: GeoTraits,
    /// The distance from the client in kilometres, as the bits of a double precision
    /// number, where both places are known.
    pub distance_km: Option<u64>,
}

/// What the databases say of the addresses of one request, and how distances count.
#[derive(Debug, PartialEq, Eq)]
pub struct GeoResolver {
    pub entries: Vec<GeoEntry>,
    pub city_distance_routing: bool,
    pub max_accuracy_radius_km: u32,
}

/// The place of the first entry for an address, or the number of entries.
pub open spec fn entry_index(entries: Seq<GeoEntry>, ip: IpAddress) -> int
    decreases entries.len(),
{
    if entries.len() == 0 || entries[0].ip == ip {
        0
    } else {
        1 + entry_index(entries.skip(1), ip)
    }
}

impl GeoResolver {
    /// What is known of an address.
    pub open spec fn traits_of(self, ip: IpAddress) -> GeoTraitsModel {
        let i = entry_index(self.entries@, ip);
        if i < self.entries@.len() {
            self.entries@[i].traits@
        } else {
            GeoTraitsModel::unknown()
        }
    }

    /// The distance of an address from the client.
    pub open spec fn distance_of(self, ip: IpAddress) -> Option<u64> {
        let i = entry_index(self.entries@, ip);
        if i < self.entries@.len() {
            self.entries@[i].distance_km
        } else {
            None
        }
    }

    fn find(&self, ip: IpAddress) -> (r: usize)
        ensures
            r == entry_index(self.entries@, ip),
            r <= self.entries@.len(),
    {
        let mut i: usize = 0;
        assert(self.entries@.skip(0) =~= self.entries@);
        while i < self.entries.len() && self.entries[i].ip != ip
            invariant
                i <= self.entries@.len(),
                entry_index(self.entries@, ip) == i + entry_index(self.entries@.skip(i as int), ip),
            decreases self.entries@.len() - i,
        {
            assert(self.entries@.skip(i as int)[0] == self.entries@[i as int]);
            assert(self.entries@.skip(i as int).skip(1) =~= self.entries@.skip(i + 1));
            i = i + 1;
        }
        proof {
            if i < self.entries@.len() {
                assert(self.entries@.skip(i as int)[0] == self.entries@[i as int]);
            }
        }
        i
    }

    /// What is known of an address.
    pub fn lookup_traits(&self, ip: IpAddress) -> (r: GeoTraits)
        ensures
            r@ == self.traits_of(ip),
    {
        let i = self.find(ip);
        if i < self.entries.len() {
            self.entries[i].traits.clone()
        } else {
            GeoTraits::default()
        }
    }

    pub fn lookup_country(&self, ip: IpAddress) -> (r: Option<String>)
        ensures
            text_view(r) == self.traits_of(ip).country,
    {
        self.lookup_traits(ip).country
    }

    pub fn lookup_asn(&self, ip: IpAddress) -> (r: Option<u32>)
        ensures
            r == self.traits_of(ip).asn,
    {
        self.lookup_traits(ip).asn
    }

    pub fn lookup_city(&self, ip: IpAddress) -> (r: Option<String>)
        ensures
            text_view(r) == self.traits_of(ip).city,
    {
        self.lookup_traits(ip).city
    }

    pub fn lookup_point(&self, ip: IpAddress) -> (r: Option<GeoPoint>)
        ensures
            r == self.traits_of(ip).point,
    {
        self.lookup_traits(ip).point
    }

    /// The distance of an address from the client.
    pub fn lookup_distance(&self, ip: IpAddress) -> (r: Option<u64>)
        ensures
            r == self.distance_of(ip),
    {
        let i = self.find(ip);
        if i < self.entries.len() {
            self.entries[i].distance_km
        } else {
            None
        }
    }

    /// Whether the distance between two places counts: distances count at all, and
    /// both places are known well enough.
    pub open spec fn distance_counts(self, left: GeoPoint, right: GeoPoint) -> bool {
        self.city_distance_routing && left.accuracy_radius_km <= self.max_accuracy_radius_km
            && right.accuracy_radius_km <= self.max_accuracy_radius_km
    }

    /// The distance between two places where it counts.
    pub fn geo_distance_km(
        &self,
        left: &GeoPoint,
        right: &GeoPoint,
        distance_km: Option<u64>,
    ) -> (r: Option<Measure>)
        ensures
            r == (match distance_km {
                Some(bits) => if self.distance_counts(*left, *right) {
                    Some(Measure::of_double(bits))
                } else {
                    None
                },
                None => None,
            }),
    {
        if !self.city_distance_routing {
            return None;
        }
        if left.accuracy_radius_km as u32 > self.max_accuracy_radius_km
            || right.accuracy_radius_km as u32 > self.max_accuracy_radius_km {
            return None;
        }
        match distance_km {
            Some(bits) => Some(Measure::from_double_bits(bits)),
            None => None,
        }
    }
}

proof fn lemma_entry_index(entries: Seq<GeoEntry>, ip: IpAddress, i: int)
    requires
        0 <= i < entries.len(),
        entries[i].ip == ip,
        forall|j: int| 0 <= j < i ==> (#[trigger] entries[j]).ip != ip,
    ensures
        entry_index(entries, ip) == i,
    decreases entries.len(),
{
    if i > 0 {
        assert(entries[0].ip != ip);
        assert forall|j: int| 0 <= j < i - 1 implies (#[trigger] entries.skip(1)[j]).ip != ip by {
            assert(entries.skip(1)[j] == entries[j + 1]);
        }
        lemma_entry_index(entries.skip(1), ip, i - 1);
    }
}

proof fn lemma_no_entry(entries: Seq<GeoEntry>, ip: IpAddress)
    requires
        forall|j: int| 0 <= j < entries.len() ==> (#[trigger] entries[j]).ip != ip,
    ensures
        entry_index(entries, ip) == entries.len(),
    decreases entries.len(),
{
    if entries.len() > 0 {
        assert(entries[0].ip != ip);
        assert forall|j: int| 0 <= j < entries.skip(1).len() implies (
        #[trigger] entries.skip(1)[j]).ip != ip by {
            assert(entries.skip(1)[j] == entries[j + 1]);
        }
        lemma_no_entry(entries.skip(1), ip);
    }
}

/// What is known of an address is what its first entry in the table says, and nothing where
/// the table has none.
pub proof fn law_places_are_read_from_the_table(geo: GeoResolver, ip: IpAddress)
    ensures
        forall|i: int|
            0 <= i < geo.entries@.len() && (#[trigger] geo.entries@[i]).ip == ip && (forall|j: int|
                0 <= j < i ==> (#[trigger] geo.entries@[j]).ip != ip) ==> geo.traits_of(ip)
                == geo.entries@[i].traits@ && geo.distance_of(ip) == geo.entries@[i].distance_km,
        (forall|j: int| 0 <= j < geo.entries@.len() ==> (#[trigger] geo.entries@[j]).ip != ip) ==> {
            &&& geo.traits_of(ip).country is None
            &&& geo.traits_of(ip).city is None
            &&& geo.traits_of(ip).asn is None
            &&& geo.traits_of(ip).point is None
            &&& geo.distance_of(ip) is None
        },
{
    assert forall|i: int|
        0 <= i < geo.entries@.len() && (#[trigger] geo.entries@[i]).ip == ip && (forall|j: int|
            0 <= j < i ==> (#[trigger] geo.entries@[j]).ip != ip) implies geo.traits_of(ip)
        == geo.entries@[i].traits@ && geo.distance_of(ip) == geo.entries@[i].distance_km by {
        lemma_entry_index(geo.entries@, ip, i);
    }
    if forall|j: int| 0 <= j < geo.entries@.len() ==> (#[trigger] geo.entries@[j]).ip != ip {
        lemma_no_entry(geo.entries@, ip);
    }
}

/// What is known of a place is what it is made of.
pub proof fn law_places_hold_what_they_are_made_of(traits: GeoTraits)
    ensures
        traits.country matches Some(country) ==> traits@.country == Some(country@),
        traits.country is None ==> traits@.country is None,
        traits.city matches Some(city) ==> traits@.city == Some(city@),
        traits.city is None ==> traits@.city is None,
        traits@.asn == traits.asn,
        traits@.point == traits.point,
{
}

/// A distance counts where distances are asked for and both places are known well enough.
pub proof fn law_distances_count_between_places_that_are_known_well(
    geo: GeoResolver,
    left: GeoPoint,
    right: GeoPoint,
)
    ensures
        !geo.city_distance_routing ==> !geo.distance_counts(left, right),
        left.accuracy_radius_km > geo.max_accuracy_radius_km ==> !geo.distance_counts(left, right),
        right.accuracy_radius_km > geo.max_accuracy_radius_km ==> !geo.distance_counts(left, right),
        geo.city_distance_routing && left.accuracy_radius_km <= geo.max_accuracy_radius_km
            && right.accuracy_radius_km <= geo.max_accuracy_radius_km ==> geo.distance_counts(
            left,
            right,
        ),
        geo.distance_counts(left, right) <==> geo.distance_counts(right, left),
{
}

} // verus!
