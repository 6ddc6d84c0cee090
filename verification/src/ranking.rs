//! Best-first ranking with a bound and a deterministic tie-break.

use crate::bytes::{
    bytes_before, bytes_before_is_total, bytes_before_is_transitive, precedes, same_bytes,
};
use vstd::prelude::*;

verus! {

/// What something is ranked by: its weight, and its id where weights tie. What has no weight ties
/// with everything.
pub struct RankKey {
    pub weight: Option<u64>,
    pub id: Vec<u8>,
}

/// A rank key's weight and id.
#[verifier::ext_equal]
pub struct RankView {
    pub weight: Option<u64>,
    pub id: Seq<u8>,
}

impl View for RankKey {
    type V = RankView;

    open spec fn view(&self) -> RankView {
        RankView { weight: self.weight, id: self.id@ }
    }
}

/// The keys of a run.
pub open spec fn key_views(keys: Seq<RankKey>) -> Seq<RankView> {
    Seq::new(keys.len(), |i: int| keys[i]@)
}

/// Whether one key is ranked ahead of another by weight alone.
pub open spec fn heavier(a: RankView, b: RankView) -> bool {
    a.weight is Some && b.weight is Some && a.weight->0 > b.weight->0
}

/// Whether one place ranks ahead of another: the heavier first, ties by id, and equal ids in the
/// order in which they came.
pub open spec fn ahead(keys: Seq<RankView>, i: int, j: int) -> bool {
    ||| heavier(keys[i], keys[j])
    ||| {
        &&& !heavier(keys[j], keys[i])
        &&& bytes_before(keys[i].id, keys[j].id) || (keys[i].id == keys[j].id && i < j)
    }
}

/// Whether the keys can be put in order at all: nothing ranks behind what it ranks ahead of by way
/// of a third. A key without a weight can stand between two others whose weights say otherwise.
#[verifier::opaque]
pub open spec fn consistent(keys: Seq<RankView>) -> bool {
    forall|i: int, j: int, k: int|
        0 <= i < keys.len() && 0 <= j < keys.len() && 0 <= k < keys.len() && #[trigger] ahead(
            keys,
            i,
            j,
        ) && #[trigger] ahead(keys, j, k) ==> ahead(keys, i, k)
}

/// Of two places exactly one ranks ahead.
pub proof fn ahead_is_total(keys: Seq<RankView>, i: int, j: int)
    ensures
        !ahead(keys, i, i),
        i != j ==> ahead(keys, i, j) != ahead(keys, j, i),
{
    bytes_before_is_total(keys[i].id, keys[i].id);
    bytes_before_is_total(keys[i].id, keys[j].id);
}

/// Ranking ahead is transitive where the keys are consistent.
proof fn ahead_is_transitive(keys: Seq<RankView>, i: int, j: int, k: int)
    requires
        consistent(keys),
        0 <= i < keys.len(),
        0 <= j < keys.len(),
        0 <= k < keys.len(),
        ahead(keys, i, j),
        ahead(keys, j, k),
    ensures
        ahead(keys, i, k),
{
    reveal(consistent);
}

/// Keys that all have a weight can always be put in order.
pub proof fn law_weighed_keys_are_consistent(keys: Seq<RankView>)
    requires
        forall|i: int| 0 <= i < keys.len() ==> (#[trigger] keys[i]).weight is Some,
    ensures
        consistent(keys),
{
    reveal(consistent);
    assert forall|i: int, j: int, k: int|
        0 <= i < keys.len() && 0 <= j < keys.len() && 0 <= k < keys.len() && #[trigger] ahead(
            keys,
            i,
            j,
        ) && #[trigger] ahead(keys, j, k) implies ahead(keys, i, k) by {
        if bytes_before(keys[i].id, keys[j].id) && bytes_before(keys[j].id, keys[k].id) {
            bytes_before_is_transitive(keys[i].id, keys[j].id, keys[k].id);
        }
    }
}

/// Different places, as many as there are and the limit allows.
pub open spec fn is_selection(n: nat, limit: nat, picks: Seq<usize>) -> bool {
    &&& picks.len() == if n <= limit {
        n
    } else {
        limit
    }
    &&& forall|i: int| 0 <= i < picks.len() ==> 0 <= (#[trigger] picks[i]) < n
    &&& picks.no_duplicates()
}

/// What ranking gives: as many places as there are and the limit allows, and the best of them,
/// best first, where the keys can be put in order. Where they cannot, which places come in which
/// order is left open.
pub open spec fn is_ranked(keys: Seq<RankView>, limit: nat, picks: Seq<usize>) -> bool {
    &&& is_selection(keys.len(), limit, picks)
    &&& consistent(keys) ==> is_ranking(keys, limit, picks)
}

/// Places picked best first: in order, no more than the limit, and nothing left out that ranks
/// ahead of anything picked or that there was still room for.
pub open spec fn is_ranking(keys: Seq<RankView>, limit: nat, picks: Seq<usize>) -> bool {
    &&& picks.len() <= limit
    &&& forall|i: int| 0 <= i < picks.len() ==> 0 <= (#[trigger] picks[i]) < keys.len()
    &&& forall|i: int, j: int|
        #![trigger picks[i], picks[j]]
        0 <= i < j < picks.len() ==> ahead(keys, picks[i] as int, picks[j] as int)
    &&& forall|k: usize|
        k < keys.len() && !(#[trigger] picks.contains(k)) ==> picks.len() == limit && forall|i: int|
            0 <= i < picks.len() ==> ahead(keys, (#[trigger] picks[i]) as int, k as int)
}

proof fn rankings_agree_at(
    keys: Seq<RankView>,
    limit: nat,
    p: Seq<usize>,
    q: Seq<usize>,
    i: int,
)
    requires
        is_ranking(keys, limit, p),
        is_ranking(keys, limit, q),
        0 <= i < p.len(),
        i <= q.len(),
        forall|j: int| 0 <= j < i ==> p[j] == q[j],
    ensures
        i < q.len(),
        i < q.len() ==> ahead(keys, p[i] as int, q[i] as int) ==> false,
{
    let x = p[i];
    if q.contains(x) {
        let j = q.index_of(x);
        assert(q[j] == x);
        if j < i {
            assert(p[j] == x);
            ahead_is_total(keys, x as int, x as int);
            assert(false);
        }
        if i < q.len() && ahead(keys, x as int, q[i] as int) {
            ahead_is_total(keys, x as int, q[i] as int);
            if j > i {
                assert(ahead(keys, q[i] as int, q[j] as int));
            }
            assert(false);
        }
    } else {
        assert(x < keys.len());
        assert(q.len() == limit);
        if i < q.len() && ahead(keys, x as int, q[i] as int) {
            assert(ahead(keys, q[i] as int, x as int));
            ahead_is_total(keys, x as int, q[i] as int);
            assert(false);
        }
    }
}

/// A ranking is determined by its keys and its limit: two rankings of the same keys are the same.
pub proof fn law_rankings_are_unique(
    keys: Seq<RankView>,
    limit: nat,
    p: Seq<usize>,
    q: Seq<usize>,
)
    requires
        is_ranking(keys, limit, p),
        is_ranking(keys, limit, q),
    ensures
        p == q,
{
    rankings_agree_up_to(keys, limit, p, q, p.len() as int);
    rankings_agree_up_to(keys, limit, q, p, q.len() as int);
    assert(p =~= q);
}

proof fn rankings_agree_up_to(
    keys: Seq<RankView>,
    limit: nat,
    p: Seq<usize>,
    q: Seq<usize>,
    n: int,
)
    requires
        is_ranking(keys, limit, p),
        is_ranking(keys, limit, q),
        0 <= n <= p.len(),
    ensures
        n <= q.len(),
        forall|j: int| 0 <= j < n ==> p[j] == q[j],
    decreases n,
{
    if n > 0 {
        rankings_agree_up_to(keys, limit, p, q, n - 1);
        rankings_agree_at(keys, limit, p, q, n - 1);
        rankings_agree_at(keys, limit, q, p, n - 1);
        ahead_is_total(keys, p[n - 1] as int, q[n - 1] as int);
    }
}

/// Whether place `i` ranks ahead of place `j`.
fn is_ahead(keys: &Vec<RankKey>, i: usize, j: usize) -> (r: bool)
    requires
        i < keys.len(),
        j < keys.len(),
    ensures
        r == ahead(key_views(keys@), i as int, j as int),
{
    let a = &keys[i];
    let b = &keys[j];
    if let (Some(x), Some(y)) = (a.weight, b.weight) {
        if x != y {
            return x > y;
        }
    }
    if same_bytes(a.id.as_slice(), b.id.as_slice()) {
        proof {
            bytes_before_is_total(a.id@, b.id@);
        }
        i < j
    } else {
        precedes(a.id.as_slice(), b.id.as_slice())
    }
}

/// Whether picks stand in order.
spec fn in_order(keys: Seq<RankView>, picks: Seq<usize>) -> bool {
    forall|i: int, j: int|
        #![trigger picks[i], picks[j]]
        0 <= i < j < picks.len() ==> ahead(keys, picks[i] as int, picks[j] as int)
}

/// Where place `k` belongs among picks that are already in order.
fn slot_for(keys: &Vec<RankKey>, picks: &Vec<usize>, k: usize) -> (r: usize)
    requires
        k < keys.len(),
        forall|i: int| 0 <= i < picks.len() ==> 0 <= (#[trigger] picks[i]) < k,
        consistent(key_views(keys@)) ==> in_order(key_views(keys@), picks@),
    ensures
        r <= picks.len(),
        consistent(key_views(keys@)) ==> forall|i: int|
            0 <= i < r ==> ahead(key_views(keys@), (#[trigger] picks@[i]) as int, k as int),
        consistent(key_views(keys@)) ==> forall|i: int|
            r <= i < picks.len() ==> ahead(
                key_views(keys@),
                k as int,
                (#[trigger] picks@[i]) as int,
            ),
{
    let ghost views = key_views(keys@);
    let mut lo: usize = 0;
    let mut hi: usize = picks.len();
    while lo < hi
        invariant
            views == key_views(keys@),
            k < keys.len(),
            lo <= hi <= picks.len(),
            forall|i: int| 0 <= i < picks.len() ==> 0 <= (#[trigger] picks[i]) < k,
            consistent(views) ==> in_order(views, picks@),
            consistent(views) ==> forall|i: int|
                0 <= i < lo ==> ahead(views, (#[trigger] picks@[i]) as int, k as int),
            consistent(views) ==> forall|i: int|
                hi <= i < picks.len() ==> ahead(views, k as int, (#[trigger] picks@[i]) as int),
        decreases hi - lo,
    {
        let mid: usize = lo + (hi - lo) / 2;
        assert(0 <= picks[mid as int] < k);
        let here: usize = picks[mid];
        if is_ahead(keys, here, k) {
            proof {
                if consistent(views) {
                    assert forall|i: int| 0 <= i < mid + 1 implies ahead(
                        views,
                        (#[trigger] picks@[i]) as int,
                        k as int,
                    ) by {
                        if i < mid {
                            assert(0 <= picks[i] < k);
                            ahead_is_transitive(views, picks@[i] as int, here as int, k as int);
                        }
                    }
                }
            }
            lo = mid + 1;
        } else {
            proof {
                ahead_is_total(views, here as int, k as int);
                if consistent(views) {
                    assert forall|i: int| mid <= i < picks.len() implies ahead(
                        views,
                        k as int,
                        (#[trigger] picks@[i]) as int,
                    ) by {
                        if mid < i {
                            assert(0 <= picks[i] < k);
                            ahead_is_transitive(views, k as int, here as int, picks@[i] as int);
                        }
                    }
                }
            }
            hi = mid;
        }
    }
    lo
}

/// One place more makes a selection of one place more.
proof fn selects_one_more(limit: nat, picks: Seq<usize>, k: usize, at: int, next: Seq<usize>)
    requires
        is_selection(k as nat, limit, picks),
        0 <= at <= picks.len(),
        picks.len() < limit ==> next == picks.insert(at, k),
        picks.len() == limit && at < limit ==> next == picks.insert(at, k).drop_last(),
        picks.len() == limit && at == limit ==> next == picks,
    ensures
        is_selection((k + 1) as nat, limit, next),
{
    let full = picks.insert(at, k);
    assert forall|i: int| 0 <= i < full.len() implies 0 <= (#[trigger] full[i]) < k + 1 by {
        if i < at {
            assert(full[i] == picks[i]);
        } else if i > at {
            assert(full[i] == picks[i - 1]);
        }
    }
    assert(full.no_duplicates()) by {
        assert forall|i: int, j: int|
            0 <= i < full.len() && 0 <= j < full.len() && i != j implies full[i] != full[j] by {
            let a = if i < at { i } else { i - 1 };
            let b = if j < at { j } else { j - 1 };
            if i != at {
                assert(full[i] == picks[a]);
            }
            if j != at {
                assert(full[j] == picks[b]);
            }
        }
    }
    if next == picks {
        assert forall|i: int| 0 <= i < next.len() implies 0 <= (#[trigger] next[i]) < k + 1 by {
            assert(0 <= picks[i] < k);
        }
    } else {
        assert forall|i: int| 0 <= i < next.len() implies next[i] == full[i] by {}
    }
}

/// One place more, put where it belongs, makes a ranking of one key more.
proof fn one_more_place(
    keys: Seq<RankView>,
    limit: nat,
    picks: Seq<usize>,
    k: usize,
    at: int,
    next: Seq<usize>,
)
    requires
        k < keys.len(),
        consistent(keys),
        is_ranking(keys.take(k as int), limit, picks),
        0 <= at <= picks.len(),
        forall|i: int| 0 <= i < at ==> ahead(keys, (#[trigger] picks[i]) as int, k as int),
        forall|i: int|
            at <= i < picks.len() ==> ahead(keys, k as int, (#[trigger] picks[i]) as int),
        picks.len() < limit ==> next == picks.insert(at, k),
        picks.len() == limit && at < limit ==> next == picks.insert(at, k).drop_last(),
        picks.len() == limit && at == limit ==> next == picks,
    ensures
        is_ranking(keys.take(k + 1), limit, next),
{
    let shorter = keys.take(k as int);
    let longer = keys.take(k + 1);
    assert forall|i: int, j: int| 0 <= i < k && 0 <= j < k implies ahead(shorter, i, j) == ahead(
        keys,
        i,
        j,
    ) by {}
    assert forall|i: int, j: int| 0 <= i <= k && 0 <= j <= k implies ahead(longer, i, j) == ahead(
        keys,
        i,
        j,
    ) by {}
    let full = picks.insert(at, k);
    assert forall|i: int| 0 <= i < next.len() implies 0 <= (#[trigger] next[i]) < longer.len() by {
        if i < at {
            assert(next[i] == picks[i]);
        } else if i > at && next.len() > at {
            if next != picks {
                assert(next[i] == picks[i - 1]);
            } else {
                assert(next[i] == picks[i]);
            }
        }
    }
    assert forall|i: int, j: int|
        #![trigger next[i], next[j]]
        0 <= i < j < next.len() implies ahead(longer, next[i] as int, next[j] as int) by {
        if picks.len() == limit && at == limit {
            assert(ahead(shorter, picks[i] as int, picks[j] as int));
        } else {
            let a = if i < at { i } else { i - 1 };
            let b = if j < at { j } else { j - 1 };
            if i != at {
                assert(next[i] == picks[a]);
            }
            if j != at {
                assert(next[j] == picks[b]);
            }
            if i != at && j != at {
                assert(ahead(shorter, picks[a] as int, picks[b] as int));
            }
        }
    }
    assert forall|m: usize| m < longer.len() && !(#[trigger] next.contains(m)) implies next.len()
        == limit && forall|i: int|
        0 <= i < next.len() ==> ahead(longer, (#[trigger] next[i]) as int, m as int) by {
        if picks.len() == limit && at == limit {
            if m < k {
                assert(!picks.contains(m));
                assert forall|i: int| 0 <= i < next.len() implies ahead(
                    longer,
                    (#[trigger] next[i]) as int,
                    m as int,
                ) by {
                    assert(ahead(shorter, picks[i] as int, m as int));
                }
            } else {
                assert forall|i: int| 0 <= i < next.len() implies ahead(
                    longer,
                    (#[trigger] next[i]) as int,
                    m as int,
                ) by {
                    assert(picks[i] == next[i]);
                }
            }
        } else {
            assert(next[at] == k || next.len() == at);
            if next.len() > at {
                assert(next[at] == k);
                assert(m != k);
            }
            if picks.contains(m) {
                // Only the last pick can have been dropped.
                let p = picks.index_of(m);
                assert(picks[p] == m);
                let q = if p < at { p } else { p + 1 };
                assert(full[q] == m);
                if q < next.len() {
                    assert(next[q] == m);
                }
                assert(p == picks.len() - 1 && picks.len() == limit);
                assert forall|i: int| 0 <= i < next.len() implies ahead(
                    longer,
                    (#[trigger] next[i]) as int,
                    m as int,
                ) by {
                    if i < at {
                        assert(next[i] == picks[i]);
                        assert(ahead(shorter, picks[i] as int, picks[p] as int));
                    } else if i == at {
                        assert(ahead(keys, k as int, picks[p] as int));
                    } else {
                        assert(next[i] == picks[i - 1]);
                        assert(ahead(shorter, picks[i - 1] as int, picks[p] as int));
                    }
                }
            } else {
                assert(m < k);
                assert(picks.len() == limit);
                assert forall|i: int| 0 <= i < next.len() implies ahead(
                    longer,
                    (#[trigger] next[i]) as int,
                    m as int,
                ) by {
                    if i < at {
                        assert(next[i] == picks[i]);
                        assert(ahead(shorter, picks[i] as int, m as int));
                    } else if i == at {
                        assert(picks[at] == picks[at]);
                        assert(ahead(shorter, picks[at] as int, m as int));
                        ahead_is_transitive(keys, k as int, picks[at] as int, m as int);
                    } else {
                        assert(next[i] == picks[i - 1]);
                        assert(ahead(shorter, picks[i - 1] as int, m as int));
                    }
                }
            }
        }
    }
}

/// Picks the best places, best first, no more than `limit` of them.
pub fn rank(keys: &Vec<RankKey>, limit: usize) -> (picks: Vec<usize>)
    ensures
        is_ranked(key_views(keys@), limit as nat, picks@),
{
    let ghost views = key_views(keys@);
    let mut picks: Vec<usize> = Vec::new();
    let mut k: usize = 0;
    while k < keys.len()
        invariant
            views == key_views(keys@),
            k <= keys.len(),
            is_selection(k as nat, limit as nat, picks@),
            consistent(views) ==> is_ranking(views.take(k as int), limit as nat, picks@),
        decreases keys.len() - k,
    {
        let ghost shorter = views.take(k as int);
        let ghost before = picks@;
        proof {
            assert forall|i: int| 0 <= i < picks.len() implies 0 <= (#[trigger] picks[i]) < k by {
                assert(0 <= picks@[i] < k);
            }
            if consistent(views) {
                assert forall|i: int, j: int|
                    #![trigger picks@[i], picks@[j]]
                    0 <= i < j < picks.len() implies ahead(
                        views,
                        picks@[i] as int,
                        picks@[j] as int,
                    ) by {
                    assert(ahead(shorter, picks@[i] as int, picks@[j] as int));
                }
            }
        }
        let at: usize = slot_for(keys, &picks, k);
        if at < limit {
            picks.insert(at, k);
            if picks.len() > limit {
                picks.pop();
                proof {
                    assert(picks@ =~= before.insert(at as int, k).drop_last());
                }
            }
        }
        proof {
            selects_one_more(limit as nat, before, k, at as int, picks@);
            if consistent(views) {
                one_more_place(views, limit as nat, before, k, at as int, picks@);
            }
        }
        k = k + 1;
    }
    proof {
        assert(views.take(k as int) =~= views);
    }
    picks
}

} // verus!
