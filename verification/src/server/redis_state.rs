//! What the commands and queries of the server come to in a Redis store.
use vstd::prelude::*;

use crate::protocol::wire::{views, ResponseRecordModel};
use crate::server::index::without;
use crate::server::redis_lookup::{
    fresh_record, LookupPhase, RedisLookupModel, ReplyModel,
};
use crate::server::redis_publish::{
    additions, clear_commands, old_keys, publish_commands, removals, stale_score, tag_keys, trims,
    unique, CommandModel, PlannedModel,
};
use crate::server::storage::{
    all_key, asn_key, country_key, law_stored_record_round_trip, primary_key, push_unique,
    RecordIndexTags, StoredModel,
};

verus! {

/// What a store holds: values by key, and sorted sets by key, each with the scores of its
/// members. What expires is gone from it.
#[verifier::ext_equal]
pub struct StoreModel {
    pub values: Map<Seq<char>, Seq<u8>>,
    pub sets: Map<Seq<char>, Map<Seq<char>, u64>>,
}

impl StoreModel {
    /// The members of a sorted set and their scores. One that is not there has none.
    pub open spec fn members(self, key: Seq<char>) -> Map<Seq<char>, u64> {
        if self.sets.dom().contains(key) {
            self.sets[key]
        } else {
            Map::empty()
        }
    }

    /// Whether a publisher is in an index.
    pub open spec fn holds(self, key: Seq<char>, member: Seq<char>) -> bool {
        self.members(key).dom().contains(member)
    }

    /// The store with other members in a sorted set.
    pub open spec fn with_members(self, key: Seq<char>, members: Map<Seq<char>, u64>) -> Self {
        StoreModel { sets: self.sets.insert(key, members), ..self }
    }
}

/// The members with a score above the cutoff.
pub open spec fn above(members: Map<Seq<char>, u64>, cutoff: u64) -> Map<Seq<char>, u64> {
    Map::new(
        |member: Seq<char>| members.dom().contains(member) && members[member] > cutoff,
        |member: Seq<char>| members[member],
    )
}

/// The store once a command was carried out, and before anything expires.
pub open spec fn performed(store: StoreModel, command: CommandModel) -> StoreModel {
    match command {
        CommandModel::Remove { key, member } => store.with_members(
            key,
            store.members(key).remove(member),
        ),
        CommandModel::SetFor { key, value, .. } => StoreModel {
            values: store.values.insert(key, value),
            ..store
        },
        CommandModel::Add { key, member, score } => store.with_members(
            key,
            store.members(key).insert(member, score),
        ),
        CommandModel::Delete { key } => StoreModel { values: store.values.remove(key), ..store },
        CommandModel::Expire { .. } => store,
        CommandModel::TrimUpTo { key, cutoff } => store.with_members(
            key,
            above(store.members(key), cutoff),
        ),
    }
}

/// The store once all commands were carried out in order.
pub open spec fn performed_all(store: StoreModel, plan: Seq<PlannedModel>) -> StoreModel
    decreases plan.len(),
{
    if plan.len() == 0 {
        store
    } else {
        performed(performed_all(store, plan.drop_last()), plan.last().command)
    }
}

proof fn lemma_performed_in_turn(store: StoreModel, a: Seq<PlannedModel>, b: Seq<PlannedModel>)
    ensures
        performed_all(store, a + b) == performed_all(performed_all(store, a), b),
    decreases b.len(),
{
    if b.len() == 0 {
        assert(a + b =~= a);
    } else {
        assert((a + b).drop_last() =~= a + b.drop_last());
        lemma_performed_in_turn(store, a, b.drop_last());
    }
}

proof fn lemma_last_key(keys: Seq<Seq<char>>, key: Seq<char>)
    requires
        keys.len() > 0,
    ensures
        keys.contains(key) <==> keys.drop_last().contains(key) || keys.last() == key,
{
    if keys.contains(key) {
        let i = choose|i: int| 0 <= i < keys.len() && keys[i] == key;
        if i < keys.len() - 1 {
            assert(keys.drop_last()[i] == key);
        }
    }
    if keys.drop_last().contains(key) {
        let i = choose|i: int| 0 <= i < keys.len() - 1 && keys.drop_last()[i] == key;
        assert(keys[i] == key);
    }
    assert(keys[keys.len() - 1] == keys.last());
}

/// The publisher leaves the indexes under some keys.
pub open spec fn leaving(keys: Seq<Seq<char>>, member: Seq<char>) -> Seq<PlannedModel> {
    keys.map_values(
        |key: Seq<char>|
            PlannedModel { command: CommandModel::Remove { key, member }, required: false },
    )
}

proof fn lemma_leaving(store: StoreModel, keys: Seq<Seq<char>>, member: Seq<char>)
    ensures
        performed_all(store, leaving(keys, member)).values == store.values,
        forall|key: Seq<char>| #[trigger]
            performed_all(store, leaving(keys, member)).members(key) == (if keys.contains(key) {
                store.members(key).remove(member)
            } else {
                store.members(key)
            }),
    decreases keys.len(),
{
    let plan = leaving(keys, member);
    if keys.len() > 0 {
        let front = keys.drop_last();
        assert(plan.drop_last() =~= leaving(front, member));
        lemma_leaving(store, front, member);
        let before = performed_all(store, plan.drop_last());
        assert forall|key: Seq<char>| #[trigger]
            performed_all(store, plan).members(key) == (if keys.contains(key) {
                store.members(key).remove(member)
            } else {
                store.members(key)
            }) by {
            lemma_last_key(keys, key);
            assert(before.members(key) == (if front.contains(key) {
                store.members(key).remove(member)
            } else {
                store.members(key)
            }));
            assert(store.members(key).remove(member).remove(member) =~= store.members(key).remove(
                member,
            ));
        }
    }
}

proof fn lemma_entering(
    store: StoreModel,
    keys: Seq<Seq<char>>,
    member: Seq<char>,
    score: u64,
)
    ensures
        performed_all(store, additions(keys, member, score)).values == store.values,
        forall|key: Seq<char>| #[trigger]
            performed_all(store, additions(keys, member, score)).members(key) == (
            if keys.contains(key) {
                store.members(key).insert(member, score)
            } else {
                store.members(key)
            }),
    decreases keys.len(),
{
    let plan = additions(keys, member, score);
    if keys.len() > 0 {
        let front = keys.drop_last();
        assert(plan.drop_last() =~= additions(front, member, score));
        lemma_entering(store, front, member, score);
        let before = performed_all(store, plan.drop_last());
        assert forall|key: Seq<char>| #[trigger]
            performed_all(store, plan).members(key) == (if keys.contains(key) {
                store.members(key).insert(member, score)
            } else {
                store.members(key)
            }) by {
            lemma_last_key(keys, key);
            assert(before.members(key) == (if front.contains(key) {
                store.members(key).insert(member, score)
            } else {
                store.members(key)
            }));
            assert(store.members(key).insert(member, score).insert(member, score)
                =~= store.members(key).insert(member, score));
        }
    }
}

proof fn lemma_trimming(store: StoreModel, keys: Seq<Seq<char>>, cutoff: u64, ttl_secs: i64)
    ensures
        performed_all(store, trims(keys, cutoff, ttl_secs)).values == store.values,
        forall|key: Seq<char>| #[trigger]
            performed_all(store, trims(keys, cutoff, ttl_secs)).members(key) == (if keys.contains(
                key,
            ) {
                above(store.members(key), cutoff)
            } else {
                store.members(key)
            }),
    decreases keys.len(),
{
    let plan = trims(keys, cutoff, ttl_secs);
    if keys.len() > 0 {
        let front = keys.drop_last();
        lemma_trimming(store, front, cutoff, ttl_secs);
        let before = performed_all(store, trims(front, cutoff, ttl_secs));
        assert(plan.drop_last().drop_last() =~= trims(front, cutoff, ttl_secs));
        assert(performed_all(store, plan.drop_last()) == before);
        assert(plan.last().command == (CommandModel::TrimUpTo { key: keys.last(), cutoff }));
        assert forall|key: Seq<char>| #[trigger]
            performed_all(store, plan).members(key) == (if keys.contains(key) {
                above(store.members(key), cutoff)
            } else {
                store.members(key)
            }) by {
            lemma_last_key(keys, key);
            assert(before.members(key) == (if front.contains(key) {
                above(store.members(key), cutoff)
            } else {
                store.members(key)
            }));
            assert(above(above(store.members(key), cutoff), cutoff) =~= above(
                store.members(key),
                cutoff,
            ));
        }
    }
}

proof fn lemma_unique(keys: Seq<Seq<char>>, total: nat)
    requires
        keys.len() <= total,
    ensures
        push_unique(Seq::empty(), keys, total).len() <= keys.len(),
        forall|key: Seq<char>| #[trigger]
            push_unique(Seq::empty(), keys, total).contains(key) <==> keys.contains(key),
    decreases keys.len(),
{
    if keys.len() > 0 {
        let front = keys.drop_last();
        lemma_unique(front, total);
        let so_far = push_unique(Seq::empty(), front, total);
        let all = push_unique(Seq::empty(), keys, total);
        assert forall|key: Seq<char>| #[trigger] all.contains(key) <==> keys.contains(key) by {
            lemma_last_key(keys, key);
            assert(so_far.contains(key) <==> front.contains(key));
            if all != so_far {
                assert(all.drop_last() =~= so_far);
                lemma_last_key(all, key);
            }
        }
    }
}

/// The keys of the indexes that a record with some tags is in.
pub open spec fn record_indexes(host: Seq<char>, tags: RecordIndexTags) -> Seq<Seq<char>> {
    seq![all_key(host)] + tag_keys(host, views(tags.countries@), tags.asns@)
}

/// The keys of the indexes that the record that was stored is in, where one was.
pub open spec fn stored_indexes(host: Seq<char>, tags: Option<RecordIndexTags>) -> Seq<Seq<char>> {
    match tags {
        Some(tags) => record_indexes(host, tags),
        None => Seq::empty(),
    }
}

proof fn lemma_removals(
    store: StoreModel,
    host: Seq<char>,
    member: Seq<char>,
    old_tags: Option<RecordIndexTags>,
)
    ensures
        performed_all(store, removals(host, member, old_tags)).values == store.values,
        forall|key: Seq<char>| #[trigger]
            performed_all(store, removals(host, member, old_tags)).members(key) == (
            if stored_indexes(host, old_tags).contains(key) {
                store.members(key).remove(member)
            } else {
                store.members(key)
            }),
{
    lemma_leaving(store, stored_indexes(host, old_tags), member);
    assert(removals(host, member, old_tags) =~= leaving(stored_indexes(host, old_tags), member));
}

/// Once a record was published, and before it expires, the store has the record, and the
/// publisher is in the indexes of its tags, with the time of the publication. It is no longer in
/// those of the record that it replaced. Other publishers stay where they are, but for those
/// that are stale, and other values stay as they are.
pub proof fn law_publication_replaces_record_and_indexes(
    store: StoreModel,
    host: Seq<char>,
    member: Seq<char>,
    old_tags: Option<RecordIndexTags>,
    tags: RecordIndexTags,
    value: Seq<u8>,
    ttl_secs: u64,
    now_secs: u64,
)
    requires
        stale_score(now_secs, ttl_secs) < now_secs,
    ensures
        ({
            let after = performed_all(
                store,
                publish_commands(host, member, old_tags, tags, value, ttl_secs, now_secs),
            );
            let cutoff = stale_score(now_secs, ttl_secs);
            &&& after.values == store.values.insert(primary_key(host, member), value)
            &&& forall|key: Seq<char>| #[trigger]
                record_indexes(host, tags).contains(key) ==> after.holds(key, member)
                    && after.members(key)[member] == now_secs
            &&& forall|key: Seq<char>| #[trigger]
                stored_indexes(host, old_tags).contains(key) && !record_indexes(
                    host,
                    tags,
                ).contains(key) ==> !after.holds(key, member)
            &&& forall|key: Seq<char>, other: Seq<char>|
                other != member && store.holds(key, other) && store.members(key)[other] > cutoff
                    ==> #[trigger] after.holds(key, other) && after.members(key)[other]
                    == store.members(key)[other]
            &&& forall|key: Seq<char>, other: Seq<char>|
                other != member && #[trigger] after.holds(key, other) ==> store.holds(key, other)
        }),
{
    let cutoff = stale_score(now_secs, ttl_secs);
    let ttl = crate::server::redis_publish::signed_ttl(ttl_secs);
    let keys = record_indexes(host, tags);
    let touched = seq![all_key(host)] + old_keys(host, old_tags) + tag_keys(
        host,
        views(tags.countries@),
        tags.asns@,
    );
    let set = seq![
        PlannedModel {
            command: CommandModel::SetFor { key: primary_key(host, member), value, ttl_secs },
            required: true,
        },
    ];
    let first = removals(host, member, old_tags);
    let plan = publish_commands(host, member, old_tags, tags, value, ttl_secs, now_secs);
    let s1 = performed_all(store, first);
    let s2 = performed_all(s1, set);
    let s3 = performed_all(s2, additions(keys, member, now_secs));
    let s4 = performed_all(s3, trims(unique(touched), cutoff, ttl));
    lemma_performed_in_turn(store, first, set);
    lemma_performed_in_turn(store, first + set, additions(keys, member, now_secs));
    lemma_performed_in_turn(
        store,
        first + set + additions(keys, member, now_secs),
        trims(unique(touched), cutoff, ttl),
    );
    assert(performed_all(store, plan) == s4);
    lemma_removals(store, host, member, old_tags);
    assert(set.drop_last() =~= Seq::<PlannedModel>::empty());
    assert(performed_all(s1, set.drop_last()) == s1);
    assert(s2 == performed(s1, set.last().command));
    lemma_entering(s2, keys, member, now_secs);
    lemma_trimming(s3, unique(touched), cutoff, ttl);
    lemma_unique(touched, touched.len());
    assert forall|key: Seq<char>| #[trigger] keys.contains(key) implies s4.holds(key, member)
        && s4.members(key)[member] == now_secs by {
        assert(s3.members(key) == s2.members(key).insert(member, now_secs));
        assert(s4.members(key) == s3.members(key) || s4.members(key) == above(
            s3.members(key),
            cutoff,
        ));
    }
    assert forall|key: Seq<char>| #[trigger]
        stored_indexes(host, old_tags).contains(key) && !keys.contains(key) implies !s4.holds(
        key,
        member,
    ) by {
        assert(s1.members(key) == store.members(key).remove(member));
        assert(s2.members(key) == s1.members(key));
        assert(s3.members(key) == s2.members(key));
        assert(s4.members(key) == s3.members(key) || s4.members(key) == above(
            s3.members(key),
            cutoff,
        ));
    }
    assert forall|key: Seq<char>, other: Seq<char>|
        other != member && store.holds(key, other) && store.members(key)[other]
            > cutoff implies #[trigger] s4.holds(key, other) && s4.members(key)[other]
        == store.members(key)[other] by {
        lemma_one_index(store, s1, s2, s3, s4, key, member, now_secs, cutoff);
    }
    assert forall|key: Seq<char>, other: Seq<char>|
        other != member && #[trigger] s4.holds(key, other) implies store.holds(key, other) by {
        lemma_one_index(store, s1, s2, s3, s4, key, member, now_secs, cutoff);
    }
}

proof fn lemma_one_index(
    store: StoreModel,
    s1: StoreModel,
    s2: StoreModel,
    s3: StoreModel,
    s4: StoreModel,
    key: Seq<char>,
    member: Seq<char>,
    score: u64,
    cutoff: u64,
)
    requires
        s1.members(key) == store.members(key) || s1.members(key) == store.members(key).remove(
            member,
        ),
        s2.sets == s1.sets,
        s3.members(key) == s2.members(key) || s3.members(key) == s2.members(key).insert(
            member,
            score,
        ),
        s4.members(key) == s3.members(key) || s4.members(key) == above(s3.members(key), cutoff),
    ensures
        forall|other: Seq<char>|
            other != member && store.holds(key, other) && store.members(key)[other] > cutoff
                ==> #[trigger] s4.holds(key, other) && s4.members(key)[other]
                == store.members(key)[other],
        forall|other: Seq<char>|
            other != member && #[trigger] s4.holds(key, other) ==> store.holds(key, other),
{
    assert(s2.members(key) == s1.members(key));
}

/// Once a record was withdrawn, the store does not have it, and the publisher is in none of
/// the indexes of its tags. Other publishers stay where they are, but for those that are
/// stale, and other values stay as they are.
pub proof fn law_withdrawal_removes_record_and_indexes(
    store: StoreModel,
    host: Seq<char>,
    member: Seq<char>,
    old_tags: Option<RecordIndexTags>,
    ttl_secs: u64,
    now_secs: u64,
)
    ensures
        ({
            let after = performed_all(
                store,
                clear_commands(host, member, old_tags, ttl_secs, now_secs),
            );
            let cutoff = stale_score(now_secs, ttl_secs);
            &&& after.values == store.values.remove(primary_key(host, member))
            &&& forall|key: Seq<char>| #[trigger]
                stored_indexes(host, old_tags).contains(key) ==> !after.holds(key, member)
            &&& forall|key: Seq<char>, other: Seq<char>|
                other != member && store.holds(key, other) && store.members(key)[other] > cutoff
                    ==> #[trigger] after.holds(key, other) && after.members(key)[other]
                    == store.members(key)[other]
            &&& forall|key: Seq<char>, other: Seq<char>|
                other != member && #[trigger] after.holds(key, other) ==> store.holds(key, other)
        }),
{
    let cutoff = stale_score(now_secs, ttl_secs);
    let ttl = crate::server::redis_publish::signed_ttl(ttl_secs);
    let touched = seq![all_key(host)] + old_keys(host, old_tags);
    let delete = seq![
        PlannedModel {
            command: CommandModel::Delete { key: primary_key(host, member) },
            required: true,
        },
    ];
    let first = removals(host, member, old_tags);
    let s1 = performed_all(store, first);
    let s2 = performed_all(s1, delete);
    let s4 = performed_all(s2, trims(unique(touched), cutoff, ttl));
    lemma_performed_in_turn(store, first, delete);
    lemma_performed_in_turn(store, first + delete, trims(unique(touched), cutoff, ttl));
    assert(performed_all(store, clear_commands(host, member, old_tags, ttl_secs, now_secs)) == s4);
    lemma_removals(store, host, member, old_tags);
    assert(delete.drop_last() =~= Seq::<PlannedModel>::empty());
    assert(performed_all(s1, delete.drop_last()) == s1);
    assert(s2 == performed(s1, delete.last().command));
    lemma_trimming(s2, unique(touched), cutoff, ttl);
    assert forall|key: Seq<char>| #[trigger]
        stored_indexes(host, old_tags).contains(key) implies !s4.holds(key, member) by {
        assert(s1.members(key) == store.members(key).remove(member));
        assert(s2.members(key) == s1.members(key));
        assert(s4.members(key) == s2.members(key) || s4.members(key) == above(
            s2.members(key),
            cutoff,
        ));
    }
    assert forall|key: Seq<char>, other: Seq<char>|
        other != member && store.holds(key, other) && store.members(key)[other]
            > cutoff implies #[trigger] s4.holds(key, other) && s4.members(key)[other]
        == store.members(key)[other] by {
        lemma_one_index(store, s1, s2, s2, s4, key, member, now_secs, cutoff);
    }
    assert forall|key: Seq<char>, other: Seq<char>|
        other != member && #[trigger] s4.holds(key, other) implies store.holds(key, other) by {
        lemma_one_index(store, s1, s2, s2, s4, key, member, now_secs, cutoff);
    }
}

/// No record of a host has the key of one of its indexes.
pub proof fn law_record_keys_are_no_index_keys(
    host: Seq<char>,
    member: Seq<char>,
    country: Seq<char>,
    asn: u32,
)
    ensures
        primary_key(host, member) != all_key(host),
        primary_key(host, member) != country_key(host, country),
        primary_key(host, member) != asn_key(host, asn),
{
    reveal_strlit(":fp:");
    reveal_strlit(":idx:all");
    reveal_strlit(":idx:country:");
    reveal_strlit(":idx:asn:");
    let at = host.len() as int + 1;
    assert(primary_key(host, member)[at] == 'f');
    assert(all_key(host)[at] == 'i');
    assert(country_key(host, country)[at] == 'i');
    assert(asn_key(host, asn)[at] == 'i');
}

/// Neither a publication nor a withdrawal touches the hosts that are blocked: no record and no
/// index is kept under their key.
pub proof fn law_record_keys_are_not_the_blacklist(
    host: Seq<char>,
    member: Seq<char>,
    country: Seq<char>,
    asn: u32,
)
    ensures
        primary_key(host, member) != "ddns:blacklist"@,
        all_key(host) != "ddns:blacklist"@,
        country_key(host, country) != "ddns:blacklist"@,
        asn_key(host, asn) != "ddns:blacklist"@,
{
    reveal_strlit("ddns:blacklist");
    reveal_strlit(":fp:");
    reveal_strlit(":idx:all");
    reveal_strlit(":idx:country:");
    reveal_strlit(":idx:asn:");
    let at = host.len() as int;
    let blocked = "ddns:blacklist"@;
    assert(forall|i: int| 0 <= i < blocked.len() && #[trigger] blocked[i] == ':' ==> i == 4);
    assert(primary_key(host, member)[at] == ':' && primary_key(host, member)[at + 1] == 'f');
    assert(all_key(host)[at] == ':' && all_key(host)[at + 1] == 'i');
    assert(country_key(host, country)[at] == ':' && country_key(host, country)[at + 1] == 'i');
    assert(asn_key(host, asn)[at] == ':' && asn_key(host, asn)[at + 1] == 'i');
}

/// The reply of a store to a query for a value.
pub open spec fn value_reply(store: StoreModel, key: Seq<char>) -> ReplyModel {
    ReplyModel::Get(
        if store.values.dom().contains(key) {
            Some(store.values[key])
        } else {
            None
        },
    )
}

/// The records of some publishers that are not stale, in the order of the publishers. One
/// without a record, or with one that cannot be read, is left out.
pub open spec fn stored_records(
    store: StoreModel,
    host: Seq<char>,
    members: Seq<Seq<char>>,
    now: u64,
) -> Seq<ResponseRecordModel>
    decreases members.len(),
{
    if members.len() == 0 {
        Seq::empty()
    } else {
        let front = stored_records(store, host, members.drop_last(), now);
        let key = primary_key(host, members.last());
        let value = if store.values.dom().contains(key) {
            Some(store.values[key])
        } else {
            None
        };
        match fresh_record(value, now) {
            Some(record) => front.push(record),
            None => front,
        }
    }
}

proof fn lemma_stored_record(
    store: StoreModel,
    host: Seq<char>,
    members: Seq<Seq<char>>,
    member: Seq<char>,
    now: u64,
)
    requires
        members.contains(member),
        store.values.dom().contains(primary_key(host, member)),
        fresh_record(Some(store.values[primary_key(host, member)]), now) is Some,
    ensures
        stored_records(store, host, members, now).contains(
            fresh_record(Some(store.values[primary_key(host, member)]), now)->0,
        ),
    decreases members.len(),
{
    let record = fresh_record(Some(store.values[primary_key(host, member)]), now)->0;
    let all = stored_records(store, host, members, now);
    let front = stored_records(store, host, members.drop_last(), now);
    if members.last() == member {
        assert(all[all.len() - 1] == record);
    } else {
        lemma_last_key(members, member);
        lemma_stored_record(store, host, members.drop_last(), member, now);
        let i = choose|i: int| 0 <= i < front.len() && front[i] == record;
        assert(all[i] == record);
    }
}

/// A lookup that considers a publisher gets the record that was published last, until the
/// record goes stale.
pub proof fn law_published_record_is_read(
    store: StoreModel,
    host: Seq<char>,
    member: Seq<char>,
    old_tags: Option<RecordIndexTags>,
    tags: RecordIndexTags,
    record: StoredModel,
    ttl_secs: u64,
    now_secs: u64,
    members: Seq<Seq<char>>,
    later: u64,
)
    requires
        record.fits(),
        record.fingerprint.len() == 32,
        stale_score(now_secs, ttl_secs) < now_secs,
        members.contains(member),
        later < record.expire_unix_secs,
    ensures
        stored_records(
            performed_all(
                store,
                publish_commands(
                    host,
                    member,
                    old_tags,
                    tags,
                    record.encoding(),
                    ttl_secs,
                    now_secs,
                ),
            ),
            host,
            members,
            later,
        ).contains(
            ResponseRecordModel {
                signature_fields: record.signature_fields,
                dns: record.dns,
                cert: record.cert,
            },
        ),
{
    let value = record.encoding();
    let after = performed_all(
        store,
        publish_commands(host, member, old_tags, tags, value, ttl_secs, now_secs),
    );
    law_publication_replaces_record_and_indexes(
        store,
        host,
        member,
        old_tags,
        tags,
        value,
        ttl_secs,
        now_secs,
    );
    law_stored_record_round_trip(record);
    lemma_stored_record(after, host, members, member, later);
}

proof fn lemma_without_record(
    store: StoreModel,
    host: Seq<char>,
    members: Seq<Seq<char>>,
    member: Seq<char>,
    now: u64,
)
    requires
        !store.values.dom().contains(primary_key(host, member)),
    ensures
        stored_records(store, host, members, now) == stored_records(
            store,
            host,
            without(members, member),
            now,
        ),
    decreases members.len(),
{
    reveal(Seq::filter);
    if members.len() > 0 {
        lemma_without_record(store, host, members.drop_last(), member, now);
        if members.last() != member {
            let rest = without(members, member);
            assert(rest.drop_last() =~= without(members.drop_last(), member));
            assert(rest.last() == members.last());
        }
    }
}

/// A lookup gets no record of a publisher that withdrew it: it gets what it would get
/// without considering that publisher.
pub proof fn law_withdrawn_record_is_not_read(
    store: StoreModel,
    host: Seq<char>,
    member: Seq<char>,
    old_tags: Option<RecordIndexTags>,
    ttl_secs: u64,
    now_secs: u64,
    members: Seq<Seq<char>>,
    later: u64,
)
    ensures
        ({
            let after = performed_all(
                store,
                clear_commands(host, member, old_tags, ttl_secs, now_secs),
            );
            stored_records(after, host, members, later) == stored_records(
                after,
                host,
                without(members, member),
                later,
            )
        }),
{
    law_withdrawal_removes_record_and_indexes(store, host, member, old_tags, ttl_secs, now_secs);
    let after = performed_all(store, clear_commands(host, member, old_tags, ttl_secs, now_secs));
    lemma_without_record(after, host, members, member, later);
}

/// A lookup that reads the records of its candidates from a store: so far it has those of
/// the candidates that it has read.
pub open spec fn has_read(lookup: RedisLookupModel, store: StoreModel) -> bool {
    match lookup.phase {
        LookupPhase::Get(i) => lookup.records == stored_records(
            store,
            lookup.host,
            lookup.candidates.take(i as int),
            lookup.now,
        ),
        LookupPhase::Found => lookup.records == stored_records(
            store,
            lookup.host,
            lookup.candidates,
            lookup.now,
        ),
        LookupPhase::Blocked => false,
        _ => lookup.records.len() == 0,
    }
}

/// A lookup ends with the records that the store has of its candidates: what an index
/// tells of a publisher without a record changes nothing.
pub proof fn law_lookup_reads_the_stored_records(lookup: RedisLookupModel, store: StoreModel)
    requires
        lookup.wf(),
        has_read(lookup, store),
    ensures
        lookup.phase matches LookupPhase::Get(i) ==> has_read(
            lookup.step(value_reply(store, primary_key(lookup.host, lookup.candidates[i as int]))),
            store,
        ),
        forall|members: Seq<Seq<char>>|
            lookup.phase is Range ==> has_read(
                #[trigger] lookup.step(ReplyModel::Range(members)),
                store,
            ),
        lookup.phase is Blacklist ==> has_read(
            lookup.step(ReplyModel::IsMember(false)),
            store,
        ),
{
    if let LookupPhase::Get(i) = lookup.phase {
        let upto = lookup.candidates.take(i + 1);
        assert(upto.drop_last() =~= lookup.candidates.take(i as int));
        assert(upto.last() == lookup.candidates[i as int]);
        if i + 1 == lookup.candidates.len() {
            assert(upto =~= lookup.candidates);
        }
    }
    assert forall|members: Seq<Seq<char>>| lookup.phase is Range implies has_read(
        #[trigger] lookup.step(ReplyModel::Range(members)),
        store,
    ) by {
        let next = lookup.step(ReplyModel::Range(members));
        assert(next.records =~= Seq::<ResponseRecordModel>::empty());
        assert(next.candidates.take(0) =~= Seq::<Seq<char>>::empty());
    }
}

} // verus!
