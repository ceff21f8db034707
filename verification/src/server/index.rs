//! Buckets of record fingerprints, newest first, one for each tag that some record
//! has.
use vstd::prelude::*;

use crate::protocol::wire::views;
use crate::text::text_eq;

verus! {

/// What identifies a publisher of a host: the SHA-256 fingerprint of its
/// certificate.
pub type Fingerprint = [u8; 32];

/// Whether two fingerprints are the same.
pub(crate) fn same_fingerprint(a: &Fingerprint, b: &Fingerprint) -> (r: bool)
    ensures
        r == (a@ == b@),
{
    let mut i: usize = 0;
    while i < 32
        invariant
            i <= 32,
            forall|j: int| 0 <= j < i ==> a@[j] == b@[j],
        decreases 32 - i,
    {
        if a[i] != b[i] {
            return false;
        }
        i = i + 1;
    }
    assert(a@ =~= b@);
    true
}

/// To be other than `x`.
pub open spec fn other_than<A>(x: A) -> spec_fn(A) -> bool {
    |y: A| y != x
}

/// The sequence without any `x`.
pub open spec fn without<A>(s: Seq<A>, x: A) -> Seq<A> {
    s.filter(other_than(x))
}

/// To have the tag `k`.
pub open spec fn tagged<K>(owns: spec_fn(Seq<u8>, K) -> bool, k: K) -> spec_fn(Seq<u8>) -> bool {
    |x: Seq<u8>| owns(x, k)
}

/// The predicates agree on the elements of a sequence, and so do the filters.
pub proof fn lemma_filter_agree<A>(s: Seq<A>, p: spec_fn(A) -> bool, q: spec_fn(A) -> bool)
    requires
        forall|i: int| 0 <= i < s.len() ==> p(#[trigger] s[i]) == q(s[i]),
    ensures
        s.filter(p) == s.filter(q),
    decreases s.len(),
{
    reveal(Seq::filter);
    if s.len() > 0 {
        assert(forall|i: int| 0 <= i < s.drop_last().len() ==> s.drop_last()[i] == s[i]);
        lemma_filter_agree(s.drop_last(), p, q);
        assert(p(s[s.len() - 1]) == q(s[s.len() - 1]));
    }
}

/// Filtering twice keeps what passes both filters.
pub proof fn lemma_filter_twice<A>(
    s: Seq<A>,
    p: spec_fn(A) -> bool,
    q: spec_fn(A) -> bool,
    both: spec_fn(A) -> bool,
)
    requires
        forall|x: A| #[trigger] both(x) == (p(x) && q(x)),
    ensures
        s.filter(p).filter(q) == s.filter(both),
    decreases s.len(),
{
    reveal(Seq::filter);
    if s.len() > 0 {
        lemma_filter_twice(s.drop_last(), p, q, both);
        assert(both(s.last()) == (p(s.last()) && q(s.last())));
        if p(s.last()) {
            s.drop_last().filter(p).lemma_filter_push(s.last(), q);
        }
    }
}

/// An element in front passes the filter on its own.
pub proof fn lemma_filter_front<A>(x: A, s: Seq<A>, p: spec_fn(A) -> bool)
    ensures
        (seq![x] + s).filter(p) == (if p(x) {
            seq![x] + s.filter(p)
        } else {
            s.filter(p)
        }),
{
    Seq::filter_distributes_over_add(seq![x], s, p);
    reveal(Seq::filter);
    assert(seq![x].drop_last() =~= Seq::<A>::empty());
    assert(Seq::<A>::empty().filter(p) =~= Seq::<A>::empty());
    assert(seq![x].filter(p) =~= (if p(x) {
        seq![x]
    } else {
        Seq::<A>::empty()
    }));
    assert(Seq::<A>::empty() + s.filter(p) =~= s.filter(p));
}

/// A filter keeps elements apart that were apart.
pub proof fn lemma_filter_no_duplicates<A>(s: Seq<A>, p: spec_fn(A) -> bool)
    requires
        s.no_duplicates(),
    ensures
        s.filter(p).no_duplicates(),
        forall|x: A| #[trigger] s.filter(p).contains(x) <==> s.contains(x) && p(x),
    decreases s.len(),
{
    reveal(Seq::filter);
    if s.len() > 0 {
        let front = s.drop_last();
        lemma_filter_no_duplicates(front, p);
        assert(!front.contains(s.last())) by {
            if front.contains(s.last()) {
                let k = choose|k: int| 0 <= k < front.len() && front[k] == s.last();
                assert(s[k] == s[s.len() - 1]);
            }
        }
        assert forall|x: A| #[trigger] s.filter(p).contains(x) <==> s.contains(x) && p(x) by {
            if s.filter(p).contains(x) {
                let k = choose|k: int| 0 <= k < s.filter(p).len() && s.filter(p)[k] == x;
                if k < front.filter(p).len() {
                    assert(front.filter(p)[k] == x);
                    assert(front.filter(p).contains(x));
                    let j = choose|j: int| 0 <= j < front.len() && front[j] == x;
                    assert(s[j] == x);
                } else {
                    assert(s[s.len() - 1] == x);
                }
            }
            if s.contains(x) && p(x) {
                let k = choose|k: int| 0 <= k < s.len() && s[k] == x;
                if k < front.len() {
                    assert(front[k] == x);
                    assert(front.filter(p).contains(x));
                    let j = choose|j: int| 0 <= j < front.filter(p).len() && front.filter(p)[j]
                        == x;
                    assert(s.filter(p)[j] == x);
                } else {
                    assert(s.filter(p)[front.filter(p).len() as int] == x);
                }
            }
        }
        if p(s.last()) {
            assert(!front.filter(p).contains(s.last()));
        }
    }
}

/// The index has one bucket for each tag of a fingerprint in `recent`, with the
/// fingerprints of that tag in the order of `recent`.
pub open spec fn index_ok<K>(
    index: Seq<(K, Seq<Seq<u8>>)>,
    recent: Seq<Seq<u8>>,
    owns: spec_fn(Seq<u8>, K) -> bool,
) -> bool {
    &&& forall|i: int, j: int|
        0 <= i < j < index.len() ==> (#[trigger] index[i]).0 != (#[trigger] index[j]).0
    &&& forall|i: int|
        0 <= i < index.len() ==> (#[trigger] index[i]).1 == recent.filter(
            tagged(owns, index[i].0),
        )
    &&& forall|i: int| 0 <= i < index.len() ==> (#[trigger] index[i]).1.len() > 0
    &&& forall|j: int, k: K|
        #![trigger owns(recent[j], k)]
        0 <= j < recent.len() && owns(recent[j], k) ==> has_bucket(index, k)
}

/// There is a bucket for the tag.
pub open spec fn has_bucket<K>(index: Seq<(K, Seq<Seq<u8>>)>, k: K) -> bool {
    exists|i: int| 0 <= i < index.len() && (#[trigger] index[i]).0 == k
}

/// The bucket of a tag, which is empty where the index has none.
pub proof fn lemma_missing_bucket<K>(
    index: Seq<(K, Seq<Seq<u8>>)>,
    recent: Seq<Seq<u8>>,
    owns: spec_fn(Seq<u8>, K) -> bool,
    k: K,
)
    requires
        index_ok(index, recent, owns),
        !has_bucket(index, k),
    ensures
        recent.filter(tagged(owns, k)) == Seq::<Seq<u8>>::empty(),
{
    lemma_filter_agree(recent, tagged(owns, k), |x: Seq<u8>| false);
    lemma_filter_none(recent, |x: Seq<u8>| false);
}

proof fn lemma_filter_none<A>(s: Seq<A>, p: spec_fn(A) -> bool)
    requires
        forall|x: A| !(#[trigger] p(x)),
    ensures
        s.filter(p) == Seq::<A>::empty(),
    decreases s.len(),
{
    reveal(Seq::filter);
    if s.len() > 0 {
        lemma_filter_none(s.drop_last(), p);
    } else {
        assert(s.filter(p) =~= Seq::<A>::empty());
    }
}

/// The index is the same for relations that agree on the fingerprints in `recent`.
pub proof fn lemma_index_agree<K>(
    index: Seq<(K, Seq<Seq<u8>>)>,
    recent: Seq<Seq<u8>>,
    owns: spec_fn(Seq<u8>, K) -> bool,
    same: spec_fn(Seq<u8>, K) -> bool,
)
    requires
        index_ok(index, recent, owns),
        forall|j: int, k: K|
            #![trigger same(recent[j], k)]
            #![trigger owns(recent[j], k)]
            0 <= j < recent.len() ==> owns(recent[j], k) == same(recent[j], k),
    ensures
        index_ok(index, recent, same),
{
    assert forall|i: int| 0 <= i < index.len() implies (#[trigger] index[i]).1 == recent.filter(
        tagged(same, index[i].0),
    ) by {
        lemma_filter_agree(
            recent,
            tagged(owns, index[i].0),
            tagged(same, index[i].0),
        );
    }
    assert forall|j: int, k: K|
        #![trigger same(recent[j], k)]
        0 <= j < recent.len() && same(recent[j], k) implies has_bucket(index, k) by {
        assert(owns(recent[j], k));
    }
}

/// A fingerprint without tags can be put in front, or taken out.
pub proof fn lemma_index_front<K>(
    index: Seq<(K, Seq<Seq<u8>>)>,
    recent: Seq<Seq<u8>>,
    owns: spec_fn(Seq<u8>, K) -> bool,
    fp: Seq<u8>,
)
    requires
        index_ok(index, recent, owns),
        forall|k: K| !(#[trigger] owns(fp, k)),
    ensures
        index_ok(index, seq![fp] + recent, owns),
        index_ok(index, without(recent, fp), owns),
{
    let more = seq![fp] + recent;
    let less = without(recent, fp);
    assert forall|i: int| 0 <= i < index.len() implies (#[trigger] index[i]).1 == more.filter(
        tagged(owns, index[i].0),
    ) by {
        lemma_filter_front(fp, recent, tagged(owns, index[i].0));
    }
    assert forall|j: int, k: K|
        #![trigger owns(more[j], k)]
        0 <= j < more.len() && owns(more[j], k) implies has_bucket(index, k) by {
        if j > 0 {
            assert(more[j] == recent[j - 1]);
            assert(owns(recent[j - 1], k));
        }
    }
    assert forall|i: int| 0 <= i < index.len() implies (#[trigger] index[i]).1 == less.filter(
        tagged(owns, index[i].0),
    ) by {
        let p = tagged(owns, index[i].0);
        lemma_filter_twice(
            recent,
            other_than(fp),
            p,
            |x: Seq<u8>| x != fp && owns(x, index[i].0),
        );
        lemma_filter_agree(recent, p, |x: Seq<u8>| x != fp && owns(x, index[i].0));
    }
    assert forall|j: int, k: K|
        #![trigger owns(less[j], k)]
        0 <= j < less.len() && owns(less[j], k) implies has_bucket(index, k) by {
        recent.lemma_filter_contains_rev(other_than(fp), less[j]);
        assert(recent.contains(less[j]));
        let m = choose|m: int| 0 <= m < recent.len() && recent[m] == less[j];
        assert(owns(recent[m], k));
    }
}

/// What the index says once `fp` has lost the tag.
pub open spec fn owns_less<K>(owns: spec_fn(Seq<u8>, K) -> bool, fp: Seq<u8>, tag: K) -> spec_fn(
    Seq<u8>,
    K,
) -> bool {
    |x: Seq<u8>, k: K| owns(x, k) && !(x == fp && k == tag)
}

/// What the index says once `fp` has the tag.
pub open spec fn owns_more<K>(owns: spec_fn(Seq<u8>, K) -> bool, fp: Seq<u8>, tag: K) -> spec_fn(
    Seq<u8>,
    K,
) -> bool {
    |x: Seq<u8>, k: K| owns(x, k) || (x == fp && k == tag)
}

/// The index once `fp` has left the bucket of the tag.
pub open spec fn dropped<K>(
    index: Seq<(K, Seq<Seq<u8>>)>,
    i: int,
    fp: Seq<u8>,
) -> Seq<(K, Seq<Seq<u8>>)> {
    let bucket = without(index[i].1, fp);
    if bucket.len() == 0 {
        index.remove(i)
    } else {
        index.update(i, (index[i].0, bucket))
    }
}

/// Taking a fingerprint out of a bucket, and the bucket out of the index where it
/// was the last one, takes the tag from the fingerprint.
pub proof fn lemma_index_drop<K>(
    index: Seq<(K, Seq<Seq<u8>>)>,
    recent: Seq<Seq<u8>>,
    owns: spec_fn(Seq<u8>, K) -> bool,
    fp: Seq<u8>,
    i: int,
)
    requires
        index_ok(index, recent, owns),
        0 <= i < index.len(),
    ensures
        index_ok(dropped(index, i, fp), recent, owns_less(owns, fp, index[i].0)),
{
    let tag = index[i].0;
    let less = owns_less(owns, fp, tag);
    let after = dropped(index, i, fp);
    let bucket = without(index[i].1, fp);
    assert(bucket == recent.filter(tagged(less, tag))) by {
        lemma_filter_twice(
            recent,
            tagged(owns, tag),
            other_than(fp),
            tagged(less, tag),
        );
    }
    assert forall|j: int| 0 <= j < index.len() && j != i implies (#[trigger] index[j]).1
        == recent.filter(tagged(less, index[j].0)) by {
        assert(index[j].0 != tag);
        lemma_filter_agree(
            recent,
            tagged(owns, index[j].0),
            tagged(less, index[j].0),
        );
    }
    assert forall|j: int, k: K|
        #![trigger less(recent[j], k)]
        0 <= j < recent.len() && less(recent[j], k) implies has_bucket(after, k) by {
        assert(owns(recent[j], k));
        let m = choose|m: int| 0 <= m < index.len() && (#[trigger] index[m]).0 == k;
        if bucket.len() == 0 {
            if k == tag {
                recent.lemma_filter_contains(tagged(less, tag), j);
                assert(bucket.contains(recent[j]));
                assert(false);
            }
            assert(m != i);
            if m < i {
                assert(after[m] == index[m]);
            } else {
                assert(after[m - 1] == index[m]);
            }
        } else {
            assert(after[m].0 == k);
        }
    }
    if bucket.len() == 0 {
        assert forall|j: int| 0 <= j < after.len() implies (#[trigger] after[j]) == index[if j
            < i {
            j
        } else {
            j + 1
        }] by {}
    }
}

/// Where the index has no bucket for the tag, there is nothing to take.
pub proof fn lemma_index_drop_nothing<K>(
    index: Seq<(K, Seq<Seq<u8>>)>,
    recent: Seq<Seq<u8>>,
    owns: spec_fn(Seq<u8>, K) -> bool,
    fp: Seq<u8>,
    tag: K,
)
    requires
        index_ok(index, recent, owns),
        !has_bucket(index, tag),
    ensures
        index_ok(index, recent, owns_less(owns, fp, tag)),
{
    let less = owns_less(owns, fp, tag);
    assert forall|j: int, k: K|
        #![trigger less(recent[j], k)]
        #![trigger owns(recent[j], k)]
        0 <= j < recent.len() implies owns(recent[j], k) == less(recent[j], k) by {
        if k == tag && owns(recent[j], k) {
            assert(has_bucket(index, k));
        }
    }
    lemma_index_agree(index, recent, owns, less);
}

/// Putting the newest fingerprint in front of a bucket gives it the tag.
pub proof fn lemma_index_add<K>(
    index: Seq<(K, Seq<Seq<u8>>)>,
    rest: Seq<Seq<u8>>,
    owns: spec_fn(Seq<u8>, K) -> bool,
    fp: Seq<u8>,
    i: int,
)
    requires
        index_ok(index, seq![fp] + rest, owns),
        0 <= i < index.len(),
        !owns(fp, index[i].0),
        !rest.contains(fp),
    ensures
        index_ok(
            index.update(i, (index[i].0, seq![fp] + index[i].1)),
            seq![fp] + rest,
            owns_more(owns, fp, index[i].0),
        ),
{
    let recent = seq![fp] + rest;
    let tag = index[i].0;
    let more = owns_more(owns, fp, tag);
    let after = index.update(i, (tag, seq![fp] + index[i].1));
    assert(seq![fp] + index[i].1 == recent.filter(tagged(more, tag))) by {
        lemma_filter_front(fp, rest, tagged(owns, tag));
        lemma_filter_front(fp, rest, tagged(more, tag));
        assert forall|j: int| 0 <= j < rest.len() implies owns(#[trigger] rest[j], tag) == more(
            rest[j],
            tag,
        ) by {
            assert(rest.contains(rest[j]));
        }
        lemma_filter_agree(rest, tagged(owns, tag), tagged(more, tag));
    }
    assert forall|j: int| 0 <= j < index.len() && j != i implies (#[trigger] index[j]).1
        == recent.filter(tagged(more, index[j].0)) by {
        assert(index[j].0 != tag);
        lemma_filter_agree(
            recent,
            tagged(owns, index[j].0),
            tagged(more, index[j].0),
        );
    }
    assert forall|j: int, k: K|
        #![trigger more(recent[j], k)]
        0 <= j < recent.len() && more(recent[j], k) implies has_bucket(after, k) by {
        if owns(recent[j], k) {
            let m = choose|m: int| 0 <= m < index.len() && (#[trigger] index[m]).0 == k;
            assert(after[m].0 == k);
        } else {
            assert(after[i].0 == k);
        }
    }
}

proof fn lemma_new_bucket<K>(
    index: Seq<(K, Seq<Seq<u8>>)>,
    rest: Seq<Seq<u8>>,
    owns: spec_fn(Seq<u8>, K) -> bool,
    fp: Seq<u8>,
    tag: K,
)
    requires
        index_ok(index, seq![fp] + rest, owns),
        !has_bucket(index, tag),
        !rest.contains(fp),
    ensures
        (seq![fp] + rest).filter(tagged(owns_more(owns, fp, tag), tag)) == seq![fp],
{
    let recent = seq![fp] + rest;
    let more = owns_more(owns, fp, tag);
    lemma_missing_bucket(index, recent, owns, tag);
    assert(!owns(fp, tag)) by {
        assert(recent[0] == fp);
        if owns(recent[0], tag) {
            assert(has_bucket(index, tag));
        }
    }
    lemma_filter_front(fp, rest, tagged(owns, tag));
    lemma_filter_front(fp, rest, tagged(more, tag));
    assert forall|j: int| 0 <= j < rest.len() implies tagged(owns, tag)(#[trigger] rest[j])
        == tagged(more, tag)(rest[j]) by {
        assert(rest.contains(rest[j]));
    }
    lemma_filter_agree(rest, tagged(owns, tag), tagged(more, tag));
    assert(seq![fp] + Seq::<Seq<u8>>::empty() =~= seq![fp]);
}

/// A new bucket gives the tag to the newest fingerprint alone.
pub proof fn lemma_index_add_bucket<K>(
    index: Seq<(K, Seq<Seq<u8>>)>,
    rest: Seq<Seq<u8>>,
    owns: spec_fn(Seq<u8>, K) -> bool,
    fp: Seq<u8>,
    tag: K,
)
    requires
        index_ok(index, seq![fp] + rest, owns),
        !has_bucket(index, tag),
        !rest.contains(fp),
    ensures
        index_ok(index.push((tag, seq![fp])), seq![fp] + rest, owns_more(owns, fp, tag)),
{
    let recent = seq![fp] + rest;
    let more = owns_more(owns, fp, tag);
    let after = index.push((tag, seq![fp]));
    lemma_new_bucket(index, rest, owns, fp, tag);
    assert forall|j: int| 0 <= j < index.len() implies (#[trigger] index[j]).0 != tag by {
        if index[j].0 == tag {
            assert(has_bucket(index, tag));
        }
    }
    assert forall|a: int| 0 <= a < after.len() implies (#[trigger] after[a]).1 == recent.filter(
        tagged(more, after[a].0),
    ) by {
        if a < index.len() {
            assert(after[a] == index[a]);
            lemma_filter_agree(recent, tagged(owns, index[a].0), tagged(more, index[a].0));
        }
    }
    assert forall|j: int, k: K|
        #![trigger more(recent[j], k)]
        0 <= j < recent.len() && more(recent[j], k) implies has_bucket(after, k) by {
        if owns(recent[j], k) {
            assert(has_bucket(index, k));
            let m = choose|m: int| 0 <= m < index.len() && (#[trigger] index[m]).0 == k;
            assert(after[m].0 == k);
        } else {
            assert(after[index.len() as int].0 == k);
        }
    }
}

/// What the index says once `fp` has lost all these tags.
pub open spec fn owns_except<K>(
    owns: spec_fn(Seq<u8>, K) -> bool,
    fp: Seq<u8>,
    tags: Seq<K>,
) -> spec_fn(Seq<u8>, K) -> bool {
    |x: Seq<u8>, k: K| owns(x, k) && !(x == fp && tags.contains(k))
}

/// What the index says once `fp` has all these tags.
pub open spec fn owns_plus<K>(
    owns: spec_fn(Seq<u8>, K) -> bool,
    fp: Seq<u8>,
    tags: Seq<K>,
) -> spec_fn(Seq<u8>, K) -> bool {
    |x: Seq<u8>, k: K| owns(x, k) || (x == fp && tags.contains(k))
}

pub proof fn lemma_take_contains<K>(tags: Seq<K>, n: int)
    requires
        0 <= n < tags.len(),
    ensures
        forall|k: K|
            #[trigger] tags.take(n + 1).contains(k) <==> tags.take(n).contains(k) || k == tags[n],
        tags.no_duplicates() ==> !tags.take(n).contains(tags[n]),
{
    let less = tags.take(n);
    let more = tags.take(n + 1);
    assert forall|k: K| #[trigger] more.contains(k) <==> less.contains(k) || k == tags[n] by {
        if more.contains(k) {
            let m = choose|m: int| 0 <= m < more.len() && more[m] == k;
            if m < n {
                assert(less[m] == k);
            }
        }
        if less.contains(k) {
            let m = choose|m: int| 0 <= m < less.len() && less[m] == k;
            assert(more[m] == k);
        }
        if k == tags[n] {
            assert(more[n] == k);
        }
    }
}

/// One tag after the other is taken from `fp`.
pub proof fn lemma_except_step<K>(
    index: Seq<(K, Seq<Seq<u8>>)>,
    recent: Seq<Seq<u8>>,
    owns: spec_fn(Seq<u8>, K) -> bool,
    fp: Seq<u8>,
    tags: Seq<K>,
    n: int,
)
    requires
        0 <= n < tags.len(),
        index_ok(
            index,
            recent,
            owns_less(owns_except(owns, fp, tags.take(n)), fp, tags[n]),
        ),
    ensures
        index_ok(index, recent, owns_except(owns, fp, tags.take(n + 1))),
{
    lemma_take_contains(tags, n);
    let a = owns_less(owns_except(owns, fp, tags.take(n)), fp, tags[n]);
    let b = owns_except(owns, fp, tags.take(n + 1));
    assert forall|j: int, k: K|
        #![trigger a(recent[j], k)]
        #![trigger b(recent[j], k)]
        0 <= j < recent.len() implies a(recent[j], k) == b(recent[j], k) by {
        assert(tags.take(n + 1).contains(k) <==> tags.take(n).contains(k) || k == tags[n]);
    }
    lemma_index_agree(index, recent, a, b);
}

/// One tag after the other is given to `fp`.
pub proof fn lemma_plus_step<K>(
    index: Seq<(K, Seq<Seq<u8>>)>,
    recent: Seq<Seq<u8>>,
    owns: spec_fn(Seq<u8>, K) -> bool,
    fp: Seq<u8>,
    tags: Seq<K>,
    n: int,
)
    requires
        0 <= n < tags.len(),
        index_ok(
            index,
            recent,
            owns_more(owns_plus(owns, fp, tags.take(n)), fp, tags[n]),
        ),
    ensures
        index_ok(index, recent, owns_plus(owns, fp, tags.take(n + 1))),
{
    lemma_take_contains(tags, n);
    let a = owns_more(owns_plus(owns, fp, tags.take(n)), fp, tags[n]);
    let b = owns_plus(owns, fp, tags.take(n + 1));
    assert forall|j: int, k: K|
        #![trigger a(recent[j], k)]
        #![trigger b(recent[j], k)]
        0 <= j < recent.len() implies a(recent[j], k) == b(recent[j], k) by {
        assert(tags.take(n + 1).contains(k) <==> tags.take(n).contains(k) || k == tags[n]);
    }
    lemma_index_agree(index, recent, a, b);
}

/// The buckets of an index by country.
pub open spec fn country_index(index: Seq<(String, Vec<Fingerprint>)>) -> Seq<
    (Seq<char>, Seq<Seq<u8>>),
> {
    index.map_values(|e: (String, Vec<Fingerprint>)| (e.0@, views(e.1@)))
}

/// The buckets of an index by autonomous system.
pub open spec fn asn_index(index: Seq<(u32, Vec<Fingerprint>)>) -> Seq<(u32, Seq<Seq<u8>>)> {
    index.map_values(|e: (u32, Vec<Fingerprint>)| (e.0, views(e.1@)))
}

/// Takes a fingerprint out of a list.
pub(crate) fn remove_fingerprint(list: &mut Vec<Fingerprint>, fingerprint: &Fingerprint)
    ensures
        views(final(list)@) == without(views(old(list)@), fingerprint@),
{
    let mut kept: Vec<Fingerprint> = Vec::new();
    let ghost all = views(list@);
    let mut i: usize = 0;
    assert(views(kept@) =~= without(all.take(0), fingerprint@)) by {
        reveal(Seq::filter);
    }
    while i < list.len()
        invariant
            *list == *old(list),
            all == views(list@),
            i <= list@.len(),
            views(kept@) == without(all.take(i as int), fingerprint@),
        decreases list@.len() - i,
    {
        let existing = list[i];
        proof {
            assert(all.take(i + 1) =~= all.take(i as int).push(existing@));
            all.take(i as int).lemma_filter_push(existing@, other_than(fingerprint@));
            crate::protocol::wire::lemma_views_push(kept@, existing);
        }
        if !same_fingerprint(&existing, fingerprint) {
            kept.push(existing);
        }
        i = i + 1;
    }
    assert(all.take(i as int) =~= all);
    *list = kept;
}

/// The place of the bucket of a country.
pub(crate) fn find_country(index: &Vec<(String, Vec<Fingerprint>)>, tag: &str) -> (r: Option<
    usize,
>)
    ensures
        match r {
            Some(i) => i < index@.len() && country_index(index@)[i as int].0 == tag@,
            None => !has_bucket(country_index(index@), tag@),
        },
{
    let mut i: usize = 0;
    while i < index.len()
        invariant
            i <= index@.len(),
            forall|j: int| 0 <= j < i ==> (#[trigger] country_index(index@)[j]).0 != tag@,
        decreases index@.len() - i,
    {
        assert(country_index(index@)[i as int].0 == index@[i as int].0@);
        if text_eq(index[i].0.as_str(), tag) {
            return Some(i);
        }
        i = i + 1;
    }
    None
}

/// The place of the bucket of an autonomous system.
pub(crate) fn find_asn(index: &Vec<(u32, Vec<Fingerprint>)>, tag: u32) -> (r: Option<usize>)
    ensures
        match r {
            Some(i) => i < index@.len() && asn_index(index@)[i as int].0 == tag,
            None => !has_bucket(asn_index(index@), tag),
        },
{
    let mut i: usize = 0;
    while i < index.len()
        invariant
            i <= index@.len(),
            forall|j: int| 0 <= j < i ==> (#[trigger] asn_index(index@)[j]).0 != tag,
        decreases index@.len() - i,
    {
        assert(asn_index(index@)[i as int].0 == index@[i as int].0);
        if index[i].0 == tag {
            return Some(i);
        }
        i = i + 1;
    }
    None
}

/// Takes a fingerprint out of the bucket of a country.
pub(crate) fn drop_country(
    index: &mut Vec<(String, Vec<Fingerprint>)>,
    tag: &str,
    fingerprint: &Fingerprint,
    Ghost(recent): Ghost<Seq<Seq<u8>>>,
    Ghost(owns): Ghost<spec_fn(Seq<u8>, Seq<char>) -> bool>,
)
    requires
        index_ok(country_index(old(index)@), recent, owns),
    ensures
        index_ok(country_index(final(index)@), recent, owns_less(owns, fingerprint@, tag@)),
{
    match find_country(index, tag) {
        Some(i) => {
            let ghost before = country_index(index@);
            let (key, mut bucket) = index.remove(i);
            remove_fingerprint(&mut bucket, fingerprint);
            proof {
                lemma_index_drop(before, recent, owns, fingerprint@, i as int);
            }
            if bucket.is_empty() {
                assert(country_index(index@) =~= dropped(before, i as int, fingerprint@));
            } else {
                index.insert(i, (key, bucket));
                assert(country_index(index@) =~= dropped(before, i as int, fingerprint@));
            }
        },
        None => {
            proof {
                lemma_index_drop_nothing(country_index(index@), recent, owns, fingerprint@, tag@);
            }
        },
    }
}

/// Takes a fingerprint out of the bucket of an autonomous system.
pub(crate) fn drop_asn(
    index: &mut Vec<(u32, Vec<Fingerprint>)>,
    tag: u32,
    fingerprint: &Fingerprint,
    Ghost(recent): Ghost<Seq<Seq<u8>>>,
    Ghost(owns): Ghost<spec_fn(Seq<u8>, u32) -> bool>,
)
    requires
        index_ok(asn_index(old(index)@), recent, owns),
    ensures
        index_ok(asn_index(final(index)@), recent, owns_less(owns, fingerprint@, tag)),
{
    match find_asn(index, tag) {
        Some(i) => {
            let ghost before = asn_index(index@);
            let (key, mut bucket) = index.remove(i);
            remove_fingerprint(&mut bucket, fingerprint);
            proof {
                lemma_index_drop(before, recent, owns, fingerprint@, i as int);
            }
            if bucket.is_empty() {
                assert(asn_index(index@) =~= dropped(before, i as int, fingerprint@));
            } else {
                index.insert(i, (key, bucket));
                assert(asn_index(index@) =~= dropped(before, i as int, fingerprint@));
            }
        },
        None => {
            proof {
                lemma_index_drop_nothing(asn_index(index@), recent, owns, fingerprint@, tag);
            }
        },
    }
}

/// Puts the newest fingerprint into the bucket of a country.
pub(crate) fn add_country(
    index: &mut Vec<(String, Vec<Fingerprint>)>,
    tag: &String,
    fingerprint: Fingerprint,
    Ghost(rest): Ghost<Seq<Seq<u8>>>,
    Ghost(owns): Ghost<spec_fn(Seq<u8>, Seq<char>) -> bool>,
)
    requires
        index_ok(country_index(old(index)@), seq![fingerprint@] + rest, owns),
        !owns(fingerprint@, tag@),
        !rest.contains(fingerprint@),
    ensures
        index_ok(
            country_index(final(index)@),
            seq![fingerprint@] + rest,
            owns_more(owns, fingerprint@, tag@),
        ),
{
    match find_country(index, tag.as_str()) {
        Some(i) => {
            let ghost before = country_index(index@);
            let (key, mut bucket) = index.remove(i);
            let ghost old_bucket = views(bucket@);
            bucket.insert(0, fingerprint);
            assert(views(bucket@) =~= seq![fingerprint@] + old_bucket);
            index.insert(i, (key, bucket));
            proof {
                lemma_index_add(before, rest, owns, fingerprint@, i as int);
                assert(country_index(index@) =~= before.update(
                    i as int,
                    (tag@, seq![fingerprint@] + before[i as int].1),
                ));
            }
        },
        None => {
            let ghost before = country_index(index@);
            let mut bucket: Vec<Fingerprint> = Vec::new();
            bucket.push(fingerprint);
            assert(views(bucket@) =~= seq![fingerprint@]);
            index.push((tag.clone(), bucket));
            proof {
                lemma_index_add_bucket(before, rest, owns, fingerprint@, tag@);
                assert(country_index(index@) =~= before.push((tag@, seq![fingerprint@])));
            }
        },
    }
}

/// Puts the newest fingerprint into the bucket of an autonomous system.
pub(crate) fn add_asn(
    index: &mut Vec<(u32, Vec<Fingerprint>)>,
    tag: u32,
    fingerprint: Fingerprint,
    Ghost(rest): Ghost<Seq<Seq<u8>>>,
    Ghost(owns): Ghost<spec_fn(Seq<u8>, u32) -> bool>,
)
    requires
        index_ok(asn_index(old(index)@), seq![fingerprint@] + rest, owns),
        !owns(fingerprint@, tag),
        !rest.contains(fingerprint@),
    ensures
        index_ok(
            asn_index(final(index)@),
            seq![fingerprint@] + rest,
            owns_more(owns, fingerprint@, tag),
        ),
{
    match find_asn(index, tag) {
        Some(i) => {
            let ghost before = asn_index(index@);
            let (key, mut bucket) = index.remove(i);
            let ghost old_bucket = views(bucket@);
            bucket.insert(0, fingerprint);
            assert(views(bucket@) =~= seq![fingerprint@] + old_bucket);
            index.insert(i, (key, bucket));
            proof {
                lemma_index_add(before, rest, owns, fingerprint@, i as int);
                assert(asn_index(index@) =~= before.update(
                    i as int,
                    (tag, seq![fingerprint@] + before[i as int].1),
                ));
            }
        },
        None => {
            let ghost before = asn_index(index@);
            let mut bucket: Vec<Fingerprint> = Vec::new();
            bucket.push(fingerprint);
            assert(views(bucket@) =~= seq![fingerprint@]);
            index.push((tag, bucket));
            proof {
                lemma_index_add_bucket(before, rest, owns, fingerprint@, tag);
                assert(asn_index(index@) =~= before.push((tag, seq![fingerprint@])));
            }
        },
    }
}

} // verus!
