//! Stable ranking by keys that need not be comparable.
use vstd::prelude::*;

verus! {

/// What records are ranked by.
pub trait RankKey: Sized {
    /// Whether this key comes first.
    spec fn before(self, other: Self) -> bool;

    fn precedes(&self, other: &Self) -> (r: bool)
        ensures
            r == self.before(*other),
    ;
}

/// Whether a record comes before another. One with a key comes before one without.
pub open spec fn ranks_before<K: RankKey>(a: Option<K>, b: Option<K>) -> bool {
    match (a, b) {
        (Some(a), Some(b)) => a.before(b),
        (Some(_), None) => true,
        _ => false,
    }
}

/// Where `x` goes among the first `n` records of an order: behind the last one that
/// it does not come before.
pub open spec fn place<K: RankKey>(keys: Seq<Option<K>>, order: Seq<int>, x: int, n: int) -> int
    decreases n,
{
    if n <= 0 {
        0
    } else if ranks_before(keys[x], keys[order[n - 1]]) {
        place(keys, order, x, n - 1)
    } else {
        n
    }
}

/// The first `n` records in the order of their keys: one after the other goes to its
/// place among those before it.
pub open spec fn rank_order<K: RankKey>(keys: Seq<Option<K>>, n: int) -> Seq<int>
    decreases n,
{
    if n <= 0 {
        Seq::empty()
    } else {
        let order = rank_order(keys, n - 1);
        order.insert(place(keys, order, n - 1, n - 1), n - 1)
    }
}

/// The items in an order.
pub open spec fn arranged<A>(items: Seq<A>, order: Seq<int>) -> Seq<A> {
    order.map_values(|i: int| items[i])
}

proof fn lemma_place<K: RankKey>(keys: Seq<Option<K>>, order: Seq<int>, x: int, n: int)
    requires
        n >= 0,
    ensures
        0 <= place(keys, order, x, n) <= n,
        forall|q: int|
            place(keys, order, x, n) <= q < n ==> ranks_before(keys[x], keys[#[trigger] order[q]]),
        place(keys, order, x, n) > 0 ==> !ranks_before(
            keys[x],
            keys[order[place(keys, order, x, n) - 1]],
        ),
    decreases n,
{
    if n > 0 && ranks_before(keys[x], keys[order[n - 1]]) {
        lemma_place(keys, order, x, n - 1);
    }
}

/// Every one of the first `n` records has one place in the order.
pub open spec fn is_permutation(order: Seq<int>, n: int) -> bool {
    &&& order.len() == n
    &&& forall|i: int| 0 <= i < n ==> 0 <= #[trigger] order[i] < n
    &&& forall|i: int, j: int| 0 <= i < j < n ==> #[trigger] order[i] != #[trigger] order[j]
}

/// Ranking keeps every record, once.
pub proof fn law_rank_order_is_permutation<K: RankKey>(keys: Seq<Option<K>>, n: int)
    requires
        0 <= n,
    ensures
        is_permutation(rank_order(keys, n), n),
    decreases n,
{
    if n > 0 {
        law_rank_order_is_permutation(keys, n - 1);
        let before = rank_order(keys, n - 1);
        lemma_place(keys, before, n - 1, n - 1);
        let p = place(keys, before, n - 1, n - 1);
        let after = before.insert(p, n - 1);
        assert forall|i: int| 0 <= i < n implies 0 <= #[trigger] after[i] < n by {
            if i < p {
                assert(after[i] == before[i]);
            } else if i > p {
                assert(after[i] == before[i - 1]);
            }
        }
        assert forall|i: int, j: int| 0 <= i < j < n implies #[trigger] after[i]
            != #[trigger] after[j] by {
            if i < p {
                assert(after[i] == before[i]);
            } else if i > p {
                assert(after[i] == before[i - 1]);
            }
            if j < p {
                assert(after[j] == before[j]);
            } else if j > p {
                assert(after[j] == before[j - 1]);
            }
        }
    }
}

/// Where a record comes in the order.
pub proof fn lemma_rank_order_reaches<K: RankKey>(keys: Seq<Option<K>>, n: int, i: int) -> (k: int)
    requires
        0 <= i < n,
    ensures
        0 <= k < rank_order(keys, n).len(),
        rank_order(keys, n)[k] == i,
    decreases n,
{
    let before = rank_order(keys, n - 1);
    law_rank_order_is_permutation(keys, n - 1);
    lemma_place(keys, before, n - 1, n - 1);
    let p = place(keys, before, n - 1, n - 1);
    if i == n - 1 {
        p
    } else {
        let k = lemma_rank_order_reaches(keys, n - 1, i);
        if k < p {
            k
        } else {
            k + 1
        }
    }
}

/// The keys can be ranked without contradiction: no two come before each other, and
/// what does not come before a key does not come before one that this key does not
/// come before either.
pub open spec fn consistent<K: RankKey>(keys: Seq<Option<K>>) -> bool {
    &&& forall|a: int, b: int|
        0 <= a < keys.len() && 0 <= b < keys.len() ==> !(#[trigger] ranks_before(keys[a], keys[b])
            && ranks_before(keys[b], keys[a]))
    &&& forall|a: int, b: int, c: int|
        #![trigger ranks_before(keys[a], keys[b]), ranks_before(keys[b], keys[c])]
        0 <= a < keys.len() && 0 <= b < keys.len() && 0 <= c < keys.len() && !ranks_before(
            keys[a],
            keys[b],
        ) && !ranks_before(keys[b], keys[c]) ==> !ranks_before(keys[a], keys[c])
}

/// Nothing in the order comes behind what it should come before, and records of
/// which neither comes first stay as they were.
pub open spec fn ranked<K: RankKey>(keys: Seq<Option<K>>, order: Seq<int>) -> bool {
    forall|i: int, j: int|
        0 <= i < j < order.len() ==> !ranks_before(
            keys[#[trigger] order[j]],
            keys[#[trigger] order[i]],
        ) && (ranks_before(keys[order[i]], keys[order[j]]) || order[i] < order[j])
}

/// Where the keys fall into classes of which the lower ones come first, the records come in
/// the order of their classes.
pub proof fn lemma_rank_order_by_class<K: RankKey>(
    keys: Seq<Option<K>>,
    class: spec_fn(int) -> int,
    n: int,
)
    requires
        0 <= n <= keys.len(),
        forall|a: int, b: int|
            #![trigger class(a), class(b)]
            0 <= a < keys.len() && 0 <= b < keys.len() && class(a) < class(b) ==> ranks_before(
                keys[a],
                keys[b],
            ),
        forall|a: int, b: int|
            0 <= a < keys.len() && 0 <= b < keys.len() && #[trigger] ranks_before(
                keys[a],
                keys[b],
            ) ==> class(a) <= class(b),
    ensures
        forall|i: int, j: int|
            0 <= i < j < n ==> class(#[trigger] rank_order(keys, n)[i]) <= class(
                #[trigger] rank_order(keys, n)[j],
            ),
    decreases n,
{
    if n > 0 {
        let x = n - 1;
        lemma_rank_order_by_class(keys, class, x);
        law_rank_order_is_permutation(keys, x);
        let before = rank_order(keys, x);
        lemma_place(keys, before, x, x);
        let p = place(keys, before, x, x);
        let after = before.insert(p, x);
        assert forall|i: int, j: int| 0 <= i < j < n implies class(#[trigger] after[i]) <= class(
            #[trigger] after[j],
        ) by {
            if j < p {
                assert(after[i] == before[i] && after[j] == before[j]);
            } else if j == p {
                assert(after[i] == before[i]);
                let last = before[p - 1];
                assert(!ranks_before(keys[x], keys[last]));
                assert(class(last) <= class(x));
                if i < p - 1 {
                    assert(class(before[i]) <= class(before[p - 1]));
                }
            } else if i < p {
                assert(after[i] == before[i] && after[j] == before[j - 1]);
            } else if i == p {
                assert(after[j] == before[j - 1]);
                assert(ranks_before(keys[x], keys[before[j - 1]]));
            } else {
                assert(after[i] == before[i - 1] && after[j] == before[j - 1]);
            }
        }
    }
}

/// Consistent keys put the records in order, and the order is stable.
pub proof fn law_rank_order_is_ranked<K: RankKey>(keys: Seq<Option<K>>, n: int)
    requires
        0 <= n <= keys.len(),
        consistent(keys),
    ensures
        ranked(keys, rank_order(keys, n)),
    decreases n,
{
    if n > 0 {
        let x = n - 1;
        law_rank_order_is_ranked(keys, x);
        law_rank_order_is_permutation(keys, x);
        let before = rank_order(keys, x);
        lemma_place(keys, before, x, x);
        let p = place(keys, before, x, x);
        let after = before.insert(p, x);
        assert forall|i: int, j: int| 0 <= i < j < after.len() implies !ranks_before(
            keys[#[trigger] after[j]],
            keys[#[trigger] after[i]],
        ) && (ranks_before(keys[after[i]], keys[after[j]]) || after[i] < after[j]) by {
            if j < p {
                assert(after[i] == before[i] && after[j] == before[j]);
            } else if j == p {
                assert(after[i] == before[i]);
                assert(after[j] == x);
                let last = before[p - 1];
                assert(!ranks_before(keys[x], keys[last]));
                if i < p - 1 {
                    assert(!ranks_before(keys[before[p - 1]], keys[before[i]]));
                }
                assert(!ranks_before(keys[x], keys[before[i]]));
            } else if i < p {
                assert(after[i] == before[i] && after[j] == before[j - 1]);
            } else if i == p {
                assert(after[j] == before[j - 1]);
                assert(ranks_before(keys[x], keys[before[j - 1]]));
            } else {
                assert(after[i] == before[i - 1] && after[j] == before[j - 1]);
            }
        }
    }
}

fn key_precedes<K: RankKey>(a: &Option<K>, b: &Option<K>) -> (r: bool)
    ensures
        r == ranks_before(*a, *b),
{
    match (a, b) {
        (Some(a), Some(b)) => a.precedes(b),
        (Some(_), None) => true,
        _ => false,
    }
}

/// An order as numbers.
pub open spec fn as_order(order: Seq<usize>) -> Seq<int> {
    order.map_values(|i: usize| i as int)
}

/// The records in the order of their keys.
pub fn rank<K: RankKey>(keys: &Vec<Option<K>>) -> (r: Vec<usize>)
    ensures
        as_order(r@) == rank_order(keys@, keys@.len() as int),
        is_permutation(as_order(r@), keys@.len() as int),
{
    let mut order: Vec<usize> = Vec::new();
    let mut x: usize = 0;
    assert(as_order(order@) =~= Seq::<int>::empty());
    while x < keys.len()
        invariant
            x <= keys@.len(),
            as_order(order@) == rank_order(keys@, x as int),
        decreases keys@.len() - x,
    {
        let ghost so_far = as_order(order@);
        proof {
            law_rank_order_is_permutation(keys@, x as int);
        }
        assert forall|i: int| 0 <= i < x implies 0 <= #[trigger] order@[i] < x by {
            assert(so_far[i] == order@[i]);
        }
        let mut p: usize = x;
        while p > 0 && key_precedes(&keys[x], &keys[order[p - 1]])
            invariant
                p <= x,
                x < keys@.len(),
                order@.len() == x,
                so_far == as_order(order@),
                is_permutation(so_far, x as int),
                place(keys@, so_far, x as int, x as int) == place(
                    keys@,
                    so_far,
                    x as int,
                    p as int,
                ),
                forall|i: int| 0 <= i < x ==> 0 <= #[trigger] order@[i] < x,
            decreases p,
        {
            assert(so_far[p - 1] == order@[p - 1]);
            p = p - 1;
        }
        proof {
            if p > 0 {
                assert(so_far[p - 1] == order@[p - 1]);
            }
        }
        order.insert(p, x);
        assert(as_order(order@) =~= so_far.insert(p as int, x as int));
        x = x + 1;
    }
    proof {
        law_rank_order_is_permutation(keys@, x as int);
    }
    order
}

} // verus!
