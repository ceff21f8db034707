//! Publishing to a Redis store: the commands, in order, and which of them have to
//! succeed.
use vstd::prelude::*;

use crate::foreign::{digestible, sha256};
use crate::protocol::signature::{SignatureFields, SignatureFieldsModel};
use crate::protocol::wire::{field_fits, lemma_views_push, views};
use crate::server::error::{AppError, AppFault};
use crate::server::publish::{leaf_certificate, leaf_of};
use crate::server::query::push_unique_candidates;
use crate::server::redis_lookup::{fresh_record, law_stored_records_are_used_until_they_expire};
use crate::server::storage::{
    all_key, asn_key, cert_fingerprint, country_key, decode_stored, fingerprint_hex, primary_key,
    push_unique, redis_all_index_key, redis_asn_index_key, redis_country_index_key,
    redis_primary_key, RecordIndexTags, StoredModel, StoredRecord,
};
use crate::text::hex;

verus! {

/// A command to the store.
#[derive(Debug, PartialEq, Eq)]
pub enum RedisCommand {
    /// Takes the member out of the sorted set.
    Remove { key: String, member: String },
    /// Sets the value of the key for so many seconds.
    SetFor { key: String, value: Vec<u8>, ttl_secs: u64 },
    /// Puts the member into the sorted set with the score.
    Add { key: String, member: String, score: u64 },
    /// Takes the key away.
    Delete { key: String },
    /// Lets the key expire in so many seconds.
    Expire { key: String, seconds: i64 },
    /// Takes the members with a score up to the cutoff out of the sorted set.
    TrimUpTo { key: String, cutoff: u64 },
}

/// The contents of a [`RedisCommand`].
pub enum CommandModel {
    Remove { key: Seq<char>, member: Seq<char> },
    SetFor { key: Seq<char>, value: Seq<u8>, ttl_secs: u64 },
    Add { key: Seq<char>, member: Seq<char>, score: u64 },
    Delete { key: Seq<char> },
    Expire { key: Seq<char>, seconds: i64 },
    TrimUpTo { key: Seq<char>, cutoff: u64 },
}

impl View for RedisCommand {
    type V = CommandModel;

    open spec fn view(&self) -> CommandModel {
        match *self {
            RedisCommand::Remove { key, member } => CommandModel::Remove {
                key: key@,
                member: member@,
            },
            RedisCommand::SetFor { key, value, ttl_secs } => CommandModel::SetFor {
                key: key@,
                value: value@,
                ttl_secs,
            },
            RedisCommand::Add { key, member, score } => CommandModel::Add {
                key: key@,
                member: member@,
                score,
            },
            RedisCommand::Delete { key } => CommandModel::Delete { key: key@ },
            RedisCommand::Expire { key, seconds } => CommandModel::Expire { key: key@, seconds },
            RedisCommand::TrimUpTo { key, cutoff } => CommandModel::TrimUpTo { key: key@, cutoff },
        }
    }
}

/// A command and whether the publication fails with it.
#[derive(Debug, PartialEq, Eq)]
pub struct PlannedCommand {
    pub command: RedisCommand,
    pub required: bool,
}

/// The contents of a [`PlannedCommand`].
pub struct PlannedModel {
    pub command: CommandModel,
    pub required: bool,
}

impl View for PlannedCommand {
    type V = PlannedModel;

    open spec fn view(&self) -> PlannedModel {
        PlannedModel { command: self.command@, required: self.required }
    }
}

/// The keys of the indexes of some tags.
pub open spec fn tag_keys(host: Seq<char>, countries: Seq<Seq<char>>, asns: Seq<u32>) -> Seq<
    Seq<char>,
> {
    countries.map_values(|c: Seq<char>| country_key(host, c)) + asns.map_values(
        |n: u32| asn_key(host, n),
    )
}

fn index_keys(host: &str, tags: &RecordIndexTags) -> (r: Vec<String>)
    ensures
        views(r@) == tag_keys(host@, views(tags.countries@), tags.asns@),
{
    let mut keys: Vec<String> = Vec::new();
    let ghost countries = views(tags.countries@);
    let ghost by_country = |c: Seq<char>| country_key(host@, c);
    let ghost by_asn = |n: u32| asn_key(host@, n);
    let mut i: usize = 0;
    while i < tags.countries.len()
        invariant
            i <= tags.countries@.len(),
            countries == views(tags.countries@),
            by_country == (|c: Seq<char>| country_key(host@, c)),
            keys@.len() == i,
            forall|j: int|
                0 <= j < i ==> (#[trigger] keys@[j])@ == countries.map_values(by_country)[j],
        decreases tags.countries@.len() - i,
    {
        assert(countries[i as int] == tags.countries@[i as int]@);
        keys.push(redis_country_index_key(host, tags.countries[i].as_str()));
        i = i + 1;
    }
    let ghost n = countries.len() as int;
    let mut i: usize = 0;
    while i < tags.asns.len()
        invariant
            i <= tags.asns@.len(),
            by_asn == (|n: u32| asn_key(host@, n)),
            n == countries.len(),
            keys@.len() == n + i,
            forall|j: int|
                0 <= j < n ==> (#[trigger] keys@[j])@ == countries.map_values(by_country)[j],
            forall|j: int|
                n <= j < n + i ==> (#[trigger] keys@[j])@ == tags.asns@.map_values(by_asn)[j - n],
        decreases tags.asns@.len() - i,
    {
        keys.push(redis_asn_index_key(host, tags.asns[i]));
        i = i + 1;
    }
    assert(views(keys@) =~= tag_keys(host@, countries, tags.asns@));
    keys
}

/// The keys of the indexes of the tags of the record that was stored, where one was.
pub open spec fn old_keys(host: Seq<char>, tags: Option<RecordIndexTags>) -> Seq<Seq<char>> {
    match tags {
        Some(tags) => tag_keys(host, views(tags.countries@), tags.asns@),
        None => Seq::empty(),
    }
}

/// The publisher leaves the indexes of the record that was stored, where one was.
pub open spec fn removals(
    host: Seq<char>,
    member: Seq<char>,
    tags: Option<RecordIndexTags>,
) -> Seq<PlannedModel> {
    match tags {
        Some(_) => (seq![all_key(host)] + old_keys(host, tags)).map_values(
            |key: Seq<char>|
                PlannedModel { command: CommandModel::Remove { key, member }, required: false },
        ),
        None => Seq::empty(),
    }
}

/// The publisher enters the indexes.
pub open spec fn additions(keys: Seq<Seq<char>>, member: Seq<char>, score: u64) -> Seq<
    PlannedModel,
> {
    keys.map_values(
        |key: Seq<char>|
            PlannedModel { command: CommandModel::Add { key, member, score }, required: true },
    )
}

/// The indexes stay as long as a record does, and stale members leave them.
pub open spec fn trims(keys: Seq<Seq<char>>, cutoff: u64, ttl_secs: i64) -> Seq<PlannedModel>
    decreases keys.len(),
{
    if keys.len() == 0 {
        Seq::empty()
    } else {
        trims(keys.drop_last(), cutoff, ttl_secs) + seq![
            PlannedModel {
                command: CommandModel::Expire { key: keys.last(), seconds: ttl_secs },
                required: false,
            },
            PlannedModel {
                command: CommandModel::TrimUpTo { key: keys.last(), cutoff },
                required: false,
            },
        ]
    }
}

/// The keys without repetitions, each where it occurs first.
pub open spec fn unique(keys: Seq<Seq<char>>) -> Seq<Seq<char>> {
    push_unique(Seq::empty(), keys, keys.len())
}

/// The time to live as a signed number.
pub open spec fn signed_ttl(ttl_secs: u64) -> i64 {
    if ttl_secs <= i64::MAX {
        ttl_secs as i64
    } else {
        i64::MAX
    }
}

/// The score up to which members are stale.
pub open spec fn stale_score(now_secs: u64, ttl_secs: u64) -> u64 {
    if now_secs >= ttl_secs {
        (now_secs - ttl_secs) as u64
    } else {
        0
    }
}

/// The commands that store a record: the publisher leaves its old indexes, the record
/// is set, the publisher enters the new indexes, and all indexes touched are trimmed.
pub open spec fn publish_commands(
    host: Seq<char>,
    member: Seq<char>,
    old_tags: Option<RecordIndexTags>,
    tags: RecordIndexTags,
    value: Seq<u8>,
    ttl_secs: u64,
    now_secs: u64,
) -> Seq<PlannedModel> {
    let keys = seq![all_key(host)] + tag_keys(host, views(tags.countries@), tags.asns@);
    let touched = unique(
        seq![all_key(host)] + old_keys(host, old_tags) + tag_keys(
            host,
            views(tags.countries@),
            tags.asns@,
        ),
    );
    removals(host, member, old_tags) + seq![
        PlannedModel {
            command: CommandModel::SetFor { key: primary_key(host, member), value, ttl_secs },
            required: true,
        },
    ] + additions(keys, member, now_secs) + trims(
        touched,
        stale_score(now_secs, ttl_secs),
        signed_ttl(ttl_secs),
    )
}

/// The commands that take a record away: the publisher leaves its indexes, the record
/// is deleted, and the indexes touched are trimmed.
pub open spec fn clear_commands(
    host: Seq<char>,
    member: Seq<char>,
    old_tags: Option<RecordIndexTags>,
    ttl_secs: u64,
    now_secs: u64,
) -> Seq<PlannedModel> {
    let touched = unique(seq![all_key(host)] + old_keys(host, old_tags));
    removals(host, member, old_tags) + seq![
        PlannedModel {
            command: CommandModel::Delete { key: primary_key(host, member) },
            required: true,
        },
    ] + trims(touched, stale_score(now_secs, ttl_secs), signed_ttl(ttl_secs))
}

fn plan_removals(
    plan: &mut Vec<PlannedCommand>,
    host: &str,
    member: &str,
    old_tags: Option<&RecordIndexTags>,
) -> (r: Vec<String>)
    ensures
        views(final(plan)@) == views(old(plan)@) + removals(
            host@,
            member@,
            match old_tags {
                Some(tags) => Some(*tags),
                None => None,
            },
        ),
        views(r@) == seq![all_key(host@)] + old_keys(
            host@,
            match old_tags {
                Some(tags) => Some(*tags),
                None => None,
            },
        ),
{
    let ghost before = views(plan@);
    let mut touched: Vec<String> = Vec::new();
    touched.push(redis_all_index_key(host));
    assert(views(touched@) =~= seq![all_key(host@)]);
    match old_tags {
        Some(tags) => {
            let mut more = index_keys(host, tags);
            let ghost tail = views(more@);
            touched.append(&mut more);
            assert(views(touched@) =~= seq![all_key(host@)] + tail);
            let ghost keys = views(touched@);
            let ghost all = removals(host@, member@, Some(*tags));
            let mut i: usize = 0;
            assert(views(plan@) =~= before + all.take(0));
            while i < touched.len()
                invariant
                    i <= touched@.len(),
                    keys == views(touched@),
                    all == keys.map_values(
                        |key: Seq<char>|
                            PlannedModel {
                                command: CommandModel::Remove { key, member: member@ },
                                required: false,
                            },
                    ),
                    views(plan@) == before + all.take(i as int),
                decreases touched@.len() - i,
            {
                let command = PlannedCommand {
                    command: RedisCommand::Remove {
                        key: touched[i].clone(),
                        member: member.to_owned(),
                    },
                    required: false,
                };
                proof {
                    assert(keys[i as int] == touched@[i as int]@);
                    lemma_views_push(plan@, command);
                    assert(all.take(i + 1) =~= all.take(i as int).push(command@));
                    assert(before + all.take(i + 1) =~= (before + all.take(i as int)).push(
                        command@,
                    ));
                }
                plan.push(command);
                i = i + 1;
            }
            assert(all.take(i as int) =~= all);
        },
        None => {
            assert(views(plan@) =~= before + Seq::<PlannedModel>::empty());
            assert(views(touched@) =~= seq![all_key(host@)] + Seq::<Seq<char>>::empty());
        },
    }
    touched
}

fn plan_additions(plan: &mut Vec<PlannedCommand>, keys: &Vec<String>, member: &str, score: u64)
    ensures
        views(final(plan)@) == views(old(plan)@) + additions(views(keys@), member@, score),
{
    let ghost before = views(plan@);
    let ghost texts = views(keys@);
    let ghost all = additions(texts, member@, score);
    let mut i: usize = 0;
    assert(views(plan@) =~= before + all.take(0));
    while i < keys.len()
        invariant
            i <= keys@.len(),
            texts == views(keys@),
            all == additions(texts, member@, score),
            views(plan@) == before + all.take(i as int),
        decreases keys@.len() - i,
    {
        let command = PlannedCommand {
            command: RedisCommand::Add { key: keys[i].clone(), member: member.to_owned(), score },
            required: true,
        };
        proof {
            assert(texts[i as int] == keys@[i as int]@);
            lemma_views_push(plan@, command);
            assert(all.take(i + 1) =~= all.take(i as int).push(command@));
            assert(before + all.take(i + 1) =~= (before + all.take(i as int)).push(command@));
        }
        plan.push(command);
        i = i + 1;
    }
    assert(all.take(i as int) =~= all);
}

fn plan_trims(plan: &mut Vec<PlannedCommand>, touched: Vec<String>, now_secs: u64, ttl_secs: u64)
    ensures
        views(final(plan)@) == views(old(plan)@) + trims(
            unique(views(touched@)),
            stale_score(now_secs, ttl_secs),
            signed_ttl(ttl_secs),
        ),
{
    let ghost before = views(plan@);
    let cutoff: u64 = if now_secs >= ttl_secs { now_secs - ttl_secs } else { 0 };
    let expire: i64 = if ttl_secs <= i64::MAX as u64 { ttl_secs as i64 } else { i64::MAX };
    let count = touched.len();
    let mut keys: Vec<String> = Vec::new();
    let ghost texts = unique(views(touched@));
    assert(views(keys@) =~= Seq::<Seq<char>>::empty());
    push_unique_candidates(&mut keys, touched, count);
    let mut i: usize = 0;
    assert(views(plan@) =~= before + trims(texts.take(0), cutoff, expire));
    while i < keys.len()
        invariant
            i <= keys@.len(),
            texts == views(keys@),
            views(plan@) == before + trims(texts.take(i as int), cutoff, expire),
        decreases keys@.len() - i,
    {
        let first = PlannedCommand {
            command: RedisCommand::Expire { key: keys[i].clone(), seconds: expire },
            required: false,
        };
        let second = PlannedCommand {
            command: RedisCommand::TrimUpTo { key: keys[i].clone(), cutoff },
            required: false,
        };
        proof {
            assert(texts.take(i + 1).drop_last() =~= texts.take(i as int));
            assert(texts.take(i + 1).last() == keys@[i as int]@);
            lemma_views_push(plan@, first);
            lemma_views_push(plan@.push(first), second);
        }
        plan.push(first);
        plan.push(second);
        i = i + 1;
        assert(views(plan@) =~= before + trims(texts.take(i as int), cutoff, expire));
    }
    assert(texts.take(i as int) =~= texts);
}

/// The commands that store a record. `member` is the fingerprint of the publisher in
/// hexadecimal, `old_tags` the tags of the record that was stored, where one was.
pub fn plan_publish(
    host: &str,
    member: &str,
    old_tags: Option<&RecordIndexTags>,
    tags: &RecordIndexTags,
    record: &StoredRecord,
    ttl_secs: u64,
    now_secs: u64,
) -> (r: Vec<PlannedCommand>)
    requires
        record@.encoding().len() <= isize::MAX,
    ensures
        views(r@) == publish_commands(
            host@,
            member@,
            match old_tags {
                Some(tags) => Some(*tags),
                None => None,
            },
            *tags,
            record@.encoding(),
            ttl_secs,
            now_secs,
        ),
{
    let mut plan: Vec<PlannedCommand> = Vec::new();
    let mut touched = plan_removals(&mut plan, host, member, old_tags);
    let set = PlannedCommand {
        command: RedisCommand::SetFor {
            key: redis_primary_key(host, member),
            value: record.encode(),
            ttl_secs,
        },
        required: true,
    };
    proof {
        lemma_views_push(plan@, set);
    }
    plan.push(set);
    let mut keys: Vec<String> = Vec::new();
    keys.push(redis_all_index_key(host));
    let mut by_tag = index_keys(host, tags);
    let ghost tail = views(by_tag@);
    keys.append(&mut by_tag);
    assert(views(keys@) =~= seq![all_key(host@)] + tail);
    plan_additions(&mut plan, &keys, member, now_secs);
    let mut by_tag = index_keys(host, tags);
    let ghost front = views(touched@);
    touched.append(&mut by_tag);
    assert(views(touched@) =~= front + tail);
    plan_trims(&mut plan, touched, now_secs, ttl_secs);
    proof {
        let model = publish_commands(
            host@,
            member@,
            match old_tags {
                Some(tags) => Some(*tags),
                None => None,
            },
            *tags,
            record@.encoding(),
            ttl_secs,
            now_secs,
        );
        assert(views(plan@) =~= model);
    }
    plan
}

/// The commands that take a record away.
pub fn plan_clear(
    host: &str,
    member: &str,
    old_tags: Option<&RecordIndexTags>,
    ttl_secs: u64,
    now_secs: u64,
) -> (r: Vec<PlannedCommand>)
    ensures
        views(r@) == clear_commands(
            host@,
            member@,
            match old_tags {
                Some(tags) => Some(*tags),
                None => None,
            },
            ttl_secs,
            now_secs,
        ),
{
    let mut plan: Vec<PlannedCommand> = Vec::new();
    let touched = plan_removals(&mut plan, host, member, old_tags);
    let delete = PlannedCommand {
        command: RedisCommand::Delete { key: redis_primary_key(host, member) },
        required: true,
    };
    proof {
        lemma_views_push(plan@, delete);
    }
    plan.push(delete);
    plan_trims(&mut plan, touched, now_secs, ttl_secs);
    proof {
        let model = clear_commands(
            host@,
            member@,
            match old_tags {
                Some(tags) => Some(*tags),
                None => None,
            },
            ttl_secs,
            now_secs,
        );
        assert(views(plan@) =~= model);
    }
    plan
}

/// The packet of the record that a publisher had stored, where there is one.
pub fn old_packet(member: Option<Vec<u8>>) -> (r: Option<Vec<u8>>)
    ensures
        (match r {
            Some(packet) => Some(packet@),
            None => None,
        }) == (match member {
            Some(data) => match decode_stored(data@) {
                Some(record) => Some(record.dns),
                None => None,
            },
            None => None,
        }),
{
    match member {
        Some(data) => match StoredRecord::decode(data.as_slice()) {
            Some(record) => Some(record.dns),
            None => None,
        },
        None => None,
    }
}

/// The record that is stored for a packet of a publisher.
pub open spec fn stored_record(
    body: Seq<u8>,
    leaf: Seq<u8>,
    fields: SignatureFieldsModel,
    ttl_secs: u64,
    now_secs: u64,
) -> StoredModel {
    StoredModel {
        expire_unix_secs: (now_secs + ttl_secs) as u64,
        fingerprint: sha256(leaf),
        dns: body,
        cert: leaf,
        signature_fields: fields,
    }
}

/// The commands that store a packet as the record of a publisher.
pub fn plan_publish_record(
    host: &str,
    body: &[u8],
    cert_chain: &Vec<Vec<u8>>,
    signature_fields: SignatureFields,
    old_tags: Option<&RecordIndexTags>,
    tags: &RecordIndexTags,
    ttl_secs: u64,
    now_secs: u64,
) -> (r: Vec<PlannedCommand>)
    requires
        digestible(leaf_of(views(cert_chain@))),
        now_secs + ttl_secs <= u64::MAX,
        stored_record(
            body@,
            leaf_of(views(cert_chain@)),
            signature_fields@,
            ttl_secs,
            now_secs,
        ).encoding().len() <= isize::MAX,
    ensures
        views(r@) == publish_commands(
            host@,
            hex(sha256(leaf_of(views(cert_chain@)))),
            match old_tags {
                Some(tags) => Some(*tags),
                None => None,
            },
            *tags,
            stored_record(
                body@,
                leaf_of(views(cert_chain@)),
                signature_fields@,
                ttl_secs,
                now_secs,
            ).encoding(),
            ttl_secs,
            now_secs,
        ),
{
    let cert = leaf_certificate(cert_chain);
    let fingerprint = cert_fingerprint(cert.as_slice());
    let member = fingerprint_hex(&fingerprint);
    let record = StoredRecord {
        expire_unix_secs: now_secs + ttl_secs,
        fingerprint,
        dns: vstd::slice::slice_to_vec(body),
        cert,
        signature_fields,
    };
    plan_publish(host, member.as_str(), old_tags, tags, &record, ttl_secs, now_secs)
}

/// The commands that take the record of a publisher away.
pub fn plan_clear_record(
    host: &str,
    cert_chain: &Vec<Vec<u8>>,
    old_tags: Option<&RecordIndexTags>,
    ttl_secs: u64,
    now_secs: u64,
) -> (r: Vec<PlannedCommand>)
    requires
        digestible(leaf_of(views(cert_chain@))),
    ensures
        views(r@) == clear_commands(
            host@,
            hex(sha256(leaf_of(views(cert_chain@)))),
            match old_tags {
                Some(tags) => Some(*tags),
                None => None,
            },
            ttl_secs,
            now_secs,
        ),
{
    let cert = leaf_certificate(cert_chain);
    let fingerprint = cert_fingerprint(cert.as_slice());
    let member = fingerprint_hex(&fingerprint);
    plan_clear(host, member.as_str(), old_tags, ttl_secs, now_secs)
}

/// Commands that are run one after the other.
#[derive(Debug, PartialEq, Eq)]
pub struct CommandRun {
    pub commands: Vec<PlannedCommand>,
    pub next: usize,
}

impl CommandRun {
    pub open spec fn wf(self) -> bool {
        self.next <= self.commands@.len()
    }

    pub fn new(commands: Vec<PlannedCommand>) -> (r: Self)
        ensures
            r.wf(),
            r.commands@ == commands@,
            r.next == 0,
    {
        CommandRun { commands, next: 0 }
    }

    /// The command to run, until there are no more.
    pub fn current(&self) -> (r: Option<&RedisCommand>)
        requires
            self.wf(),
        ensures
            r is None <==> self.next == self.commands@.len(),
            r is Some ==> *(r->0) == self.commands@[self.next as int].command,
    {
        if self.next < self.commands.len() {
            Some(&self.commands[self.next].command)
        } else {
            None
        }
    }

    /// Takes the outcome of the command. A required command that fails ends the run
    /// with an error; any other failure is passed over.
    pub fn on_outcome(&mut self, failure: Option<String>) -> (r: Result<(), AppError>)
        requires
            old(self).wf(),
            old(self).next < old(self).commands@.len(),
        ensures
            final(self).wf(),
            final(self).commands == old(self).commands,
            match failure {
                Some(message) => if old(self).commands@[old(self).next as int].required {
                    r is Err && (r->Err_0)@ == (AppFault::Redis { message: message@ })
                        && final(self).next == old(self).commands@.len()
                } else {
                    r is Ok && final(self).next == old(self).next + 1
                },
                None => r is Ok && final(self).next == old(self).next + 1,
            },
    {
        let count = self.commands.len();
        let required = self.commands[self.next].required;
        if let Some(message) = failure {
            if required {
                self.next = count;
                return Err(AppError::Redis { message });
            }
        }
        self.next = self.next + 1;
        Ok(())
    }
}

/// Whatever was stored before, a publication sets the record of the publisher and puts
/// it into the index of all publishers, and fails where one of the two does.
pub proof fn law_publication_sets_record_and_index(
    host: Seq<char>,
    member: Seq<char>,
    old_tags: Option<RecordIndexTags>,
    tags: RecordIndexTags,
    value: Seq<u8>,
    ttl_secs: u64,
    now_secs: u64,
)
    ensures
        publish_commands(host, member, old_tags, tags, value, ttl_secs, now_secs).contains(
            PlannedModel {
                command: CommandModel::SetFor { key: primary_key(host, member), value, ttl_secs },
                required: true,
            },
        ),
        publish_commands(host, member, old_tags, tags, value, ttl_secs, now_secs).contains(
            PlannedModel {
                command: CommandModel::Add { key: all_key(host), member, score: now_secs },
                required: true,
            },
        ),
{
    let plan = publish_commands(host, member, old_tags, tags, value, ttl_secs, now_secs);
    let n = removals(host, member, old_tags).len() as int;
    assert(plan[n] == (PlannedModel {
        command: CommandModel::SetFor { key: primary_key(host, member), value, ttl_secs },
        required: true,
    }));
    assert(plan[n + 1] == (PlannedModel {
        command: CommandModel::Add { key: all_key(host), member, score: now_secs },
        required: true,
    }));
}

/// A member of an index is stale once its time to live has passed since it was added.
pub proof fn law_members_are_stale_after_their_time(added: u64, now_secs: u64, ttl_secs: u64)
    requires
        added > 0,
        added <= now_secs,
    ensures
        added > stale_score(now_secs, ttl_secs) <==> now_secs - added < ttl_secs,
{
}

/// Times to live stay as they are where they fit, and are never negative.
pub proof fn law_times_to_live_stay_as_they_are(ttl_secs: u64)
    ensures
        signed_ttl(ttl_secs) >= 0,
        ttl_secs <= 0x7fff_ffff_ffff_ffff ==> signed_ttl(ttl_secs) == ttl_secs,
        ttl_secs > 0x7fff_ffff_ffff_ffff ==> signed_ttl(ttl_secs) == 0x7fff_ffff_ffff_ffff,
{
}

/// A record is in the indexes of its countries and of its autonomous systems, and in no other.
pub proof fn law_records_are_indexed_by_their_tags(
    host: Seq<char>,
    countries: Seq<Seq<char>>,
    asns: Seq<u32>,
    key: Seq<char>,
)
    ensures
        tag_keys(host, countries, asns).contains(key) <==> (exists|i: int|
            0 <= i < countries.len() && key == country_key(host, #[trigger] countries[i])) || (
        exists|i: int| 0 <= i < asns.len() && key == asn_key(host, #[trigger] asns[i])),
        tag_keys(host, countries, asns).len() == countries.len() + asns.len(),
{
    let keys = tag_keys(host, countries, asns);
    if keys.contains(key) {
        let k = keys.index_of(key);
        if k < countries.len() {
            assert(key == country_key(host, countries[k]));
        } else {
            assert(key == asn_key(host, asns[k - countries.len()]));
        }
    }
    if exists|i: int| 0 <= i < countries.len() && key == country_key(host, #[trigger] countries[i]) {
        let i = choose|i: int|
            0 <= i < countries.len() && key == country_key(host, #[trigger] countries[i]);
        assert(keys[i] == key);
    }
    if exists|i: int| 0 <= i < asns.len() && key == asn_key(host, #[trigger] asns[i]) {
        let i = choose|i: int| 0 <= i < asns.len() && key == asn_key(host, #[trigger] asns[i]);
        assert(keys[countries.len() + i] == key);
    }
}

/// Whether a command has to succeed: the one that sets or deletes the record, and those that
/// add it to an index. The others tidy up.
pub open spec fn has_to_succeed(command: CommandModel) -> bool {
    command is SetFor || command is Delete || command is Add
}

proof fn lemma_trims(keys: Seq<Seq<char>>, cutoff: u64, ttl_secs: i64)
    ensures
        trims(keys, cutoff, ttl_secs).len() == 2 * keys.len(),
        forall|i: int|
            0 <= i < keys.len() ==> (#[trigger] trims(keys, cutoff, ttl_secs)[2 * i]).command == (
            CommandModel::Expire { key: keys[i], seconds: ttl_secs }) && !trims(
                keys,
                cutoff,
                ttl_secs,
            )[2 * i].required,
        forall|i: int|
            0 <= i < keys.len() ==> (#[trigger] trims(keys, cutoff, ttl_secs)[2 * i + 1]).command
                == (CommandModel::TrimUpTo { key: keys[i], cutoff }) && !trims(
                keys,
                cutoff,
                ttl_secs,
            )[2 * i + 1].required,
        forall|k: int|
            0 <= k < trims(keys, cutoff, ttl_secs).len() ==> !(#[trigger] trims(
                keys,
                cutoff,
                ttl_secs,
            )[k]).required && !has_to_succeed(trims(keys, cutoff, ttl_secs)[k].command),
    decreases keys.len(),
{
    if keys.len() > 0 {
        let front = keys.drop_last();
        lemma_trims(front, cutoff, ttl_secs);
        let known = trims(front, cutoff, ttl_secs);
        let all = trims(keys, cutoff, ttl_secs);
        assert forall|i: int| 0 <= i < keys.len() implies (#[trigger] all[2 * i]).command == (
        CommandModel::Expire { key: keys[i], seconds: ttl_secs }) && !all[2 * i].required by {
            if i < front.len() {
                assert(all[2 * i] == known[2 * i]);
            }
        }
        assert forall|i: int| 0 <= i < keys.len() implies (#[trigger] all[2 * i + 1]).command == (
        CommandModel::TrimUpTo { key: keys[i], cutoff }) && !all[2 * i + 1].required by {
            if i < front.len() {
                assert(all[2 * i + 1] == known[2 * i + 1]);
            }
        }
        assert forall|k: int| 0 <= k < all.len() implies !(#[trigger] all[k]).required
            && !has_to_succeed(all[k].command) by {
            if k < known.len() {
                assert(all[k] == known[k]);
            }
        }
    }
}

/// A publication, or a withdrawal, fails where the record or one of its indexes could not be
/// changed, and goes on where something could not be tidied up.
pub proof fn law_only_changes_of_the_record_have_to_succeed(
    host: Seq<char>,
    member: Seq<char>,
    old_tags: Option<RecordIndexTags>,
    tags: RecordIndexTags,
    value: Seq<u8>,
    ttl_secs: u64,
    now_secs: u64,
    i: int,
)
    ensures
        ({
            let plan = publish_commands(host, member, old_tags, tags, value, ttl_secs, now_secs);
            0 <= i < plan.len() ==> (plan[i].required <==> has_to_succeed(plan[i].command))
        }),
        ({
            let plan = clear_commands(host, member, old_tags, ttl_secs, now_secs);
            0 <= i < plan.len() ==> (plan[i].required <==> has_to_succeed(plan[i].command))
        }),
{
    let new_keys = tag_keys(host, views(tags.countries@), tags.asns@);
    let touched = unique(seq![all_key(host)] + old_keys(host, old_tags) + new_keys);
    let left = unique(seq![all_key(host)] + old_keys(host, old_tags));
    lemma_trims(touched, stale_score(now_secs, ttl_secs), signed_ttl(ttl_secs));
    lemma_trims(left, stale_score(now_secs, ttl_secs), signed_ttl(ttl_secs));
    let gone = removals(host, member, old_tags);
    let plan = publish_commands(host, member, old_tags, tags, value, ttl_secs, now_secs);
    let added = additions(seq![all_key(host)] + new_keys, member, now_secs);
    if 0 <= i < plan.len() {
        if i < gone.len() {
            assert(plan[i] == gone[i]);
        } else if i > gone.len() && i < gone.len() + 1 + added.len() {
            assert(plan[i] == added[i - gone.len() - 1]);
        } else if i > gone.len() {
            assert(plan[i] == trims(
                touched,
                stale_score(now_secs, ttl_secs),
                signed_ttl(ttl_secs),
            )[i - gone.len() - 1 - added.len()]);
        }
    }
    let plan = clear_commands(host, member, old_tags, ttl_secs, now_secs);
    if 0 <= i < plan.len() {
        if i < gone.len() {
            assert(plan[i] == gone[i]);
        } else if i > gone.len() {
            assert(plan[i] == trims(
                left,
                stale_score(now_secs, ttl_secs),
                signed_ttl(ttl_secs),
            )[i - gone.len() - 1]);
        }
    }
}

/// Every index that a publication touches lives on for the time to live, and is trimmed of
/// what is stale. So does every one that a withdrawal touches.
pub proof fn law_touched_indexes_live_on_and_are_trimmed(
    host: Seq<char>,
    member: Seq<char>,
    old_tags: Option<RecordIndexTags>,
    tags: RecordIndexTags,
    value: Seq<u8>,
    ttl_secs: u64,
    now_secs: u64,
    key: Seq<char>,
)
    requires
        key == all_key(host) || tag_keys(host, views(tags.countries@), tags.asns@).contains(key) || (
        old_tags is Some && tag_keys(
            host,
            views((old_tags->0).countries@),
            (old_tags->0).asns@,
        ).contains(key)),
        ttl_secs <= 0x7fff_ffff_ffff_ffff,
    ensures
        ({
            let plan = publish_commands(host, member, old_tags, tags, value, ttl_secs, now_secs);
            &&& exists|i: int|
                0 <= i < plan.len() && (#[trigger] plan[i]).command == (CommandModel::Expire {
                    key,
                    seconds: ttl_secs as i64,
                })
            &&& exists|i: int|
                0 <= i < plan.len() && (#[trigger] plan[i]).command == (CommandModel::TrimUpTo {
                    key,
                    cutoff: stale_score(now_secs, ttl_secs),
                })
        }),
        !tag_keys(host, views(tags.countries@), tags.asns@).contains(key) ==> ({
            let plan = clear_commands(host, member, old_tags, ttl_secs, now_secs);
            exists|i: int|
                0 <= i < plan.len() && (#[trigger] plan[i]).command == (CommandModel::Expire {
                    key,
                    seconds: ttl_secs as i64,
                })
        }),
{
    if !tag_keys(host, views(tags.countries@), tags.asns@).contains(key) {
        let keys = seq![all_key(host)] + old_keys(host, old_tags);
        assert(keys.contains(key)) by {
            if key == all_key(host) {
                assert(keys[0] == key);
            } else {
                assert(keys[1 + old_keys(host, old_tags).index_of(key)] == key);
            }
        }
        lemma_unique_keeps(keys, keys.len(), key);
        let at = unique(keys).index_of(key);
        let tail = trims(unique(keys), stale_score(now_secs, ttl_secs), signed_ttl(ttl_secs));
        lemma_trims(unique(keys), stale_score(now_secs, ttl_secs), signed_ttl(ttl_secs));
        let plan = clear_commands(host, member, old_tags, ttl_secs, now_secs);
        let front = plan.len() - tail.len();
        assert(plan[front + 2 * at] == tail[2 * at]);
    }
    let new_keys = tag_keys(host, views(tags.countries@), tags.asns@);
    let keys = seq![all_key(host)] + old_keys(host, old_tags) + new_keys;
    let touched = unique(keys);
    assert(keys.contains(key)) by {
        if key == all_key(host) {
            assert(keys[0] == key);
        } else if new_keys.contains(key) {
            assert(keys[1 + old_keys(host, old_tags).len() + new_keys.index_of(key)] == key);
        } else {
            assert(keys[1 + old_keys(host, old_tags).index_of(key)] == key);
        }
    }
    lemma_unique_keeps(keys, keys.len(), key);
    let at = touched.index_of(key);
    let cutoff = stale_score(now_secs, ttl_secs);
    let tail = trims(touched, cutoff, signed_ttl(ttl_secs));
    lemma_trims(touched, cutoff, signed_ttl(ttl_secs));
    let plan = publish_commands(host, member, old_tags, tags, value, ttl_secs, now_secs);
    let front = plan.len() - tail.len();
    assert(plan[front + 2 * at] == tail[2 * at]);
    assert(plan[front + (2 * at + 1)] == tail[2 * at + 1]);
}

proof fn lemma_unique_keeps(keys: Seq<Seq<char>>, total: nat, key: Seq<char>)
    requires
        keys.len() <= total,
        keys.contains(key),
    ensures
        push_unique(Seq::empty(), keys, total).contains(key),
        push_unique(Seq::empty(), keys, total).len() <= keys.len(),
    decreases keys.len(),
{
    lemma_unique_len(keys.drop_last(), total);
    let front = push_unique(Seq::empty(), keys.drop_last(), total);
    let all = push_unique(Seq::empty(), keys, total);
    if keys.last() == key {
        if !front.contains(key) {
            assert(all[all.len() - 1] == key);
        }
    } else {
        let k = keys.index_of(key);
        assert(keys.drop_last()[k] == key);
        lemma_unique_keeps(keys.drop_last(), total, key);
        assert(all[front.index_of(key)] == key);
    }
}

proof fn lemma_unique_len(keys: Seq<Seq<char>>, total: nat)
    ensures
        push_unique(Seq::<Seq<char>>::empty(), keys, total).len() <= keys.len(),
    decreases keys.len(),
{
    if keys.len() > 0 {
        lemma_unique_len(keys.drop_last(), total);
    }
}

/// A record is stored with what was published, and lives from now on for the time to live.
pub proof fn law_published_records_are_stored_for_their_time(
    body: Seq<u8>,
    leaf: Seq<u8>,
    fields: SignatureFieldsModel,
    ttl_secs: u64,
    now_secs: u64,
    later: u64,
)
    requires
        now_secs + ttl_secs <= u64::MAX,
        field_fits(body),
        field_fits(leaf),
        field_fits(fields.content_digest),
        field_fits(fields.signature_input),
        field_fits(fields.signature),
    ensures
        sha256(leaf).len() == 32 ==> ({
            let read = fresh_record(
                Some(stored_record(body, leaf, fields, ttl_secs, now_secs).encoding()),
                later,
            );
            &&& read is Some <==> later < now_secs + ttl_secs
            &&& read is Some ==> (read->0).dns == body && (read->0).cert == leaf && (
            read->0).signature_fields == fields
        }),
        stored_record(body, leaf, fields, ttl_secs, now_secs).fingerprint == sha256(leaf),
{
    let record = stored_record(body, leaf, fields, ttl_secs, now_secs);
    assert(record.fits());
    if sha256(leaf).len() == 32 {
        law_stored_records_are_used_until_they_expire(record, body, later);
    }
}

/// Every command is the one of its own kind.
pub proof fn law_commands_are_of_their_own_kind(command: RedisCommand)
    ensures
        command matches RedisCommand::Remove { key, member } ==> command@
            == (CommandModel::Remove { key: key@, member: member@ }),
        command matches RedisCommand::SetFor { key, value, ttl_secs } ==> command@
            == (CommandModel::SetFor { key: key@, value: value@, ttl_secs }),
        command matches RedisCommand::Add { key, member, score } ==> command@
            == (CommandModel::Add { key: key@, member: member@, score }),
        command matches RedisCommand::Delete { key } ==> command@ == (CommandModel::Delete {
            key: key@,
        }),
        command matches RedisCommand::Expire { key, seconds } ==> command@
            == (CommandModel::Expire { key: key@, seconds }),
        command matches RedisCommand::TrimUpTo { key, cutoff } ==> command@
            == (CommandModel::TrimUpTo { key: key@, cutoff }),
{
}

} // verus!
