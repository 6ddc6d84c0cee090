//! The reference store: everything in the memory of one process.

use crate::blind_index::{token_views, BucketToken};
use crate::bytes::{prefix, same_bytes};
use crate::envelope::{NamespaceHandle, SealedItem};
use crate::ranking::{
    ahead, is_ranking, key_views, law_weighed_keys_are_consistent, rank, RankKey,
};
use crate::store::{
    after_forget, after_gc, after_put, candidate_of, candidate_views, empty_store, expired_ids,
    expired_items, holds, is_search_result, items_in, kept_items, no_usage, outranks, shared_tokens,
    unexpired, Candidate, IndexMode, ItemView, MemoryStore, StoreError, StoreModel, StoredItem,
    Usage,
};
use crate::table::{
    increasing, increasing_keys_are_unique, map_of, map_of_at, map_of_insert, map_of_len, Table,
};
use vstd::prelude::*;
use vstd::set_lib::{lemma_len_subset, lemma_map_size, lemma_set_disjoint_lens};
use vstd::slice::slice_to_vec;
use vstd::utf8::encode_utf8;

verus! {

/// The store of a single process.
pub struct InMemoryStore {
    spaces: Table<Table<StoredItem>>,
    capacity: Table<u64>,
    usage: Usage,
}

/// What a table of items holds.
pub open spec fn space_model(t: Table<StoredItem>) -> Map<Seq<u8>, ItemView> {
    t@.map_values(|item: StoredItem| item@)
}

/// A table of items in order: each stands under the bytes of its id.
pub open spec fn space_wf(t: Table<StoredItem>) -> bool {
    &&& t.wf()
    &&& forall|i: int|
        0 <= i < t.keys().len() ==> (#[trigger] t.keys()[i]) == encode_utf8(
            t.values()[i].item_id@,
        )
}

/// Putting an item under its id keeps a table of items in order.
proof fn space_insert(before: Table<StoredItem>, after: Table<StoredItem>, item: StoredItem)
    requires
        space_wf(before),
        after.wf(),
        after@ == before@.insert(encode_utf8(item.item_id@), item),
    ensures
        space_wf(after),
        space_model(after) == space_model(before).insert(encode_utf8(item@.item_id), item@),
{
    assert forall|i: int| 0 <= i < after.keys().len() implies (#[trigger] after.keys()[i])
        == encode_utf8(after.values()[i].item_id@) by {
        let k = after.keys()[i];
        map_of_at(after.keys(), after.values(), i);
        if k != encode_utf8(item.item_id@) {
            assert(before@.dom().contains(k));
            let j = before.keys().index_of(k);
            assert(before.keys()[j] == k);
        }
    }
    assert(space_model(after) =~= space_model(before).insert(encode_utf8(item@.item_id), item@));
}

/// A table of items with some taken out is still in order.
proof fn space_subset(before: Table<StoredItem>, after: Table<StoredItem>)
    requires
        space_wf(before),
        after.wf(),
        forall|k: Seq<u8>| #[trigger]
            after@.dom().contains(k) ==> before@.dom().contains(k) && after@[k] == before@[k],
    ensures
        space_wf(after),
{
    assert forall|i: int| 0 <= i < after.keys().len() implies (#[trigger] after.keys()[i])
        == encode_utf8(after.values()[i].item_id@) by {
        let k = after.keys()[i];
        map_of_at(after.keys(), after.values(), i);
        assert(after@.dom().contains(k));
        let j = before.keys().index_of(k);
        assert(before.keys()[j] == k);
    }
}

/// Whether any of a run of tokens is the given one.
fn contains_token(query: &[BucketToken], token: &BucketToken) -> (r: bool)
    ensures
        r == token_views(query@).contains(token@),
{
    let mut i: usize = 0;
    while i < query.len()
        invariant
            i <= query.len(),
            forall|j: int| 0 <= j < i ==> (#[trigger] token_views(query@)[j]) != token@,
        decreases query.len() - i,
    {
        if same_bytes(query[i].0.as_slice(), token.0.as_slice()) {
            proof {
                assert(token_views(query@)[i as int] == token@);
            }
            return true;
        }
        i = i + 1;
    }
    false
}

/// How many of an item's tokens are among those asked for.
fn count_shared(tokens: &Vec<BucketToken>, query: &[BucketToken]) -> (r: usize)
    ensures
        r == shared_tokens(token_views(tokens@), token_views(query@)),
{
    let ghost views = token_views(tokens@);
    let mut count: usize = 0;
    let mut i: usize = 0;
    while i < tokens.len()
        invariant
            views == token_views(tokens@),
            i <= tokens.len(),
            count <= i,
            count == shared_tokens(views.take(i as int), token_views(query@)),
        decreases tokens.len() - i,
    {
        proof {
            assert(views.take(i + 1).drop_last() =~= views.take(i as int));
        }
        if contains_token(query, &tokens[i]) {
            count = count + 1;
        }
        i = i + 1;
    }
    proof {
        assert(views.take(i as int) =~= views);
    }
    count
}

/// The hits that a ranking of a namespace's matching items picks.
proof fn picked_hits(
    items: Table<StoredItem>,
    query: Seq<Seq<u8>>,
    limit: nat,
    now: u64,
    at: Seq<usize>,
    keys: Seq<RankKey>,
    picks: Seq<usize>,
    hits: Seq<Candidate>,
)
    requires
        space_wf(items),
        items.keys().len() <= usize::MAX,
        keys.len() == at.len() <= usize::MAX,
        forall|j: int|
            0 <= j < at.len() ==> {
                &&& (#[trigger] at[j]) < items.keys().len()
                &&& keys[j].weight is Some
                &&& keys[j].weight->0 == shared_tokens(items.values()[at[j] as int]@.tokens, query)
                &&& keys[j].weight->0 > 0
                &&& unexpired(items.values()[at[j] as int]@, now)
                &&& keys[j].id@ == items.keys()[at[j] as int]
            },
        forall|i: int, j: int|
            #![trigger at[i], at[j]]
            0 <= i < j < at.len() ==> at[i] < at[j],
        forall|m: usize|
            m < items.keys().len() && unexpired(items.values()[m as int]@, now) && shared_tokens(
                items.values()[m as int]@.tokens,
                query,
            ) > 0 ==> #[trigger] at.contains(m),
        is_ranking(key_views(keys), limit, picks),
        hits.len() == picks.len(),
        forall|i: int|
            0 <= i < hits.len() ==> (#[trigger] hits[i])@ == candidate_of(
                items.values()[at[picks[i] as int] as int]@,
                query,
            ),
    ensures
        is_search_result(kept_items(space_model(items), now), query, limit, candidate_views(hits)),
{
    let model = kept_items(space_model(items), now);
    let found = candidate_views(hits);
    let views = key_views(keys);
    assert forall|i: int| 0 <= i < found.len() implies {
        let k = encode_utf8((#[trigger] found[i]).item_id);
        &&& model.dom().contains(k)
        &&& found[i] == candidate_of(model[k], query)
        &&& found[i].shared_bands > 0
    } by {
        let m = at[picks[i] as int] as int;
        assert(hits[i]@ == found[i]);
        map_of_at(items.keys(), items.values(), m);
        assert(items.keys()[m] == encode_utf8(items.values()[m].item_id@));
    }
    assert forall|a: int, b: int|
        0 <= a < at.len() && 0 <= b < at.len() && a != b && #[trigger] ahead(
            views,
            a,
            b,
        ) implies outranks(
        candidate_of(items.values()[at[a] as int]@, query),
        candidate_of(items.values()[at[b] as int]@, query),
    ) by {
        let x = at[a] as int;
        let y = at[b] as int;
        assert(items.keys()[x] == encode_utf8(items.values()[x].item_id@));
        assert(items.keys()[y] == encode_utf8(items.values()[y].item_id@));
        if views[a].id == views[b].id {
            increasing_keys_are_unique(items.keys(), x, y);
            assert(false);
        }
    }
    assert forall|i: int, j: int|
        #![trigger found[i], found[j]]
        0 <= i < j < found.len() implies outranks(found[i], found[j]) by {
        assert(hits[i]@ == found[i]);
        assert(hits[j]@ == found[j]);
        assert(ahead(views, picks[i] as int, picks[j] as int));
        crate::ranking::ahead_is_total(views, picks[i] as int, picks[i] as int);
    }
    assert forall|k: Seq<u8>| #[trigger]
        model.dom().contains(k) && shared_tokens(model[k].tokens, query) > 0 && !found.contains(
            candidate_of(model[k], query),
        ) implies found.len() == limit && forall|i: int|
        0 <= i < found.len() ==> outranks(#[trigger] found[i], candidate_of(model[k], query)) by {
        let m = items.keys().index_of(k);
        assert(items.keys()[m] == k);
        assert(model[k] == items.values()[m]@);
        assert(at.contains(m as usize));
        let j = at.index_of(m as usize);
        assert(at[j] == m);
        if picks.contains(j as usize) {
            let i = picks.index_of(j as usize);
            assert(hits[i]@ == candidate_of(model[k], query));
            assert(found[i] == candidate_of(model[k], query));
            assert(false);
        }
        assert forall|i: int| 0 <= i < found.len() implies outranks(
            #[trigger] found[i],
            candidate_of(model[k], query),
        ) by {
            assert(hits[i]@ == found[i]);
            assert(ahead(views, picks[i] as int, j));
            crate::ranking::ahead_is_total(views, j, j);
        }
    }
}

/// Searches the items of one namespace that are to be kept at a time.
fn search_space(
    items: &Table<StoredItem>,
    query: &[BucketToken],
    limit: usize,
    now: u64,
) -> (r: Vec<Candidate>)
    requires
        space_wf(*items),
    ensures
        is_search_result(
            kept_items(space_model(*items), now),
            token_views(query@),
            limit as nat,
            candidate_views(r@),
        ),
{
    let ghost asked = token_views(query@);
    let mut at: Vec<usize> = Vec::new();
    let mut keys: Vec<RankKey> = Vec::new();
    let mut i: usize = 0;
    let n: usize = items.len();
    while i < n
        invariant
            space_wf(*items),
            asked == token_views(query@),
            n == items.keys().len(),
            i <= n,
            keys@.len() == at@.len(),
            forall|j: int|
                0 <= j < at@.len() ==> {
                    &&& (#[trigger] at@[j]) < i
                    &&& keys@[j].weight is Some
                    &&& keys@[j].weight->0 == shared_tokens(
                        items.values()[at@[j] as int]@.tokens,
                        asked,
                    )
                    &&& keys@[j].weight->0 > 0
                    &&& unexpired(items.values()[at@[j] as int]@, now)
                    &&& keys@[j].id@ == items.keys()[at@[j] as int]
                },
            forall|a: int, b: int|
                #![trigger at@[a], at@[b]]
                0 <= a < b < at@.len() ==> at@[a] < at@[b],
            forall|m: usize|
                m < i && unexpired(items.values()[m as int]@, now) && shared_tokens(
                    items.values()[m as int]@.tokens,
                    asked,
                ) > 0 ==> #[trigger] at@.contains(m),
        decreases n - i,
    {
        let item = items.value_at(i);
        let shared: usize = count_shared(&item.tokens, query);
        let ghost before = at@;
        let kept = match item.expires_at {
            None => true,
            Some(e) => e > now,
        };
        if kept && shared > 0 {
            let id = slice_to_vec(item.item_id.as_str().as_bytes());
            proof {
                assert(items.keys()[i as int] == encode_utf8(item.item_id@));
            }
            keys.push(RankKey { weight: Some(shared as u64), id });
            at.push(i);
            proof {
                assert(at@[before.len() as int] == i);
            }
        }
        proof {
            assert forall|m: usize|
                m < i + 1 && unexpired(items.values()[m as int]@, now) && shared_tokens(
                    items.values()[m as int]@.tokens,
                    asked,
                ) > 0 implies #[trigger] at@.contains(m) by {
                if m < i {
                    assert(before.contains(m));
                    let j = before.index_of(m);
                    assert(at@[j] == m);
                }
            }
        }
        i = i + 1;
    }
    let picks = rank(&keys, limit);
    proof {
        let views = key_views(keys@);
        assert forall|j: int| 0 <= j < views.len() implies (#[trigger] views[j]).weight is Some by {
            assert(at@[j] < n);
        }
        law_weighed_keys_are_consistent(views);
    }
    let mut out: Vec<Candidate> = Vec::new();
    let mut p: usize = 0;
    while p < picks.len()
        invariant
            space_wf(*items),
            asked == token_views(query@),
            n == items.keys().len(),
            keys@.len() == at@.len(),
            is_ranking(key_views(keys@), limit as nat, picks@),
            p <= picks.len(),
            out@.len() == p,
            forall|j: int|
                0 <= j < at@.len() ==> {
                    &&& (#[trigger] at@[j]) < n
                    &&& keys@[j].weight is Some
                    &&& keys@[j].weight->0 == shared_tokens(
                        items.values()[at@[j] as int]@.tokens,
                        asked,
                    )
                    &&& keys@[j].weight->0 > 0
                    &&& unexpired(items.values()[at@[j] as int]@, now)
                    &&& keys@[j].id@ == items.keys()[at@[j] as int]
                },
            forall|j: int|
                0 <= j < p ==> (#[trigger] out@[j])@ == candidate_of(
                    items.values()[at@[picks@[j] as int] as int]@,
                    asked,
                ),
        decreases picks.len() - p,
    {
        let k: usize = picks[p];
        assert(0 <= picks@[p as int] < key_views(keys@).len());
        assert(at@[k as int] < n);
        let item = items.value_at(at[k]);
        out.push(
            Candidate {
                item_id: item.item_id.clone(),
                sealed: item.sealed.clone(),
                shared_bands: count_shared(&item.tokens, query),
            },
        );
        p = p + 1;
    }
    proof {
        assert(at@.len() == at.len());
        picked_hits(*items, asked, limit as nat, now, at@, keys@, picks@, out@);
    }
    out
}

/// Drops the expired items of one namespace. Returns how many.
fn drop_expired(items: &mut Table<StoredItem>, now: u64) -> (r: usize)
    requires
        space_wf(*old(items)),
    ensures
        space_wf(*final(items)),
        space_model(*final(items)) == kept_items(space_model(*old(items)), now),
        expired_ids(space_model(*old(items)), now).finite(),
        r == expired_ids(space_model(*old(items)), now).len(),
{
    let ghost before = *items;
    let ghost mut gone: Set<Seq<u8>> = Set::empty();
    let mut dropped: usize = 0;
    let mut j: usize = items.len();
    proof {
        assert(items@ =~= before@.remove_keys(gone));
    }
    while j > 0
        invariant
            space_wf(before),
            items.wf(),
            j <= items.keys().len(),
            j <= before.keys().len() <= usize::MAX,
            forall|x: int| 0 <= x < j ==> #[trigger] items.keys()[x] == before.keys()[x],
            forall|x: int| 0 <= x < j ==> #[trigger] items.values()[x] == before.values()[x],
            gone.finite(),
            gone.len() == dropped,
            dropped <= before.keys().len() - j,
            forall|k: Seq<u8>|
                gone.contains(k) <==> exists|x: int|
                    j <= x < before.keys().len() && #[trigger] before.keys()[x] == k && !unexpired(
                        before.values()[x]@,
                        now,
                    ),
            items@ == before@.remove_keys(gone),
        decreases j,
    {
        j = j - 1;
        let expired = match items.value_at(j).expires_at {
            None => false,
            Some(e) => e <= now,
        };
        let ghost here = before.keys()[j as int];
        let ghost held = gone;
        proof {
            assert(items.keys()[j as int] == here);
            assert(items.values()[j as int] == before.values()[j as int]);
        }
        if expired {
            items.remove_at(j);
            proof {
                if gone.contains(here) {
                    let x = choose|x: int|
                        j + 1 <= x < before.keys().len() && #[trigger] before.keys()[x] == here
                            && !unexpired(before.values()[x]@, now);
                    increasing_keys_are_unique(before.keys(), j as int, x);
                    assert(false);
                }
                gone = gone.insert(here);
                assert(items@ =~= before@.remove_keys(gone));
            }
            dropped = dropped + 1;
        }
        proof {
            assert forall|k: Seq<u8>|
                gone.contains(k) <==> exists|x: int|
                    j <= x < before.keys().len() && #[trigger] before.keys()[x] == k && !unexpired(
                        before.values()[x]@,
                        now,
                    ) by {
                if gone.contains(k) {
                    if held.contains(k) {
                        let x = choose|x: int|
                            j + 1 <= x < before.keys().len() && #[trigger] before.keys()[x] == k
                                && !unexpired(before.values()[x]@, now);
                        assert(before.keys()[x] == k);
                    } else {
                        assert(before.keys()[j as int] == k);
                    }
                }
                if exists|x: int|
                    j <= x < before.keys().len() && #[trigger] before.keys()[x] == k && !unexpired(
                        before.values()[x]@,
                        now,
                    ) {
                    let x = choose|x: int|
                        j <= x < before.keys().len() && #[trigger] before.keys()[x] == k
                            && !unexpired(before.values()[x]@, now);
                    if x > j {
                        assert(held.contains(k));
                    }
                }
            }
        }
    }
    proof {
        let model = space_model(before);
        assert forall|k: Seq<u8>| gone.contains(k) <==> expired_ids(model, now).contains(k) by {
            if expired_ids(model, now).contains(k) {
                let x = before.keys().index_of(k);
                assert(before.keys()[x] == k);
            }
            if gone.contains(k) {
                let x = choose|x: int|
                    j <= x < before.keys().len() && #[trigger] before.keys()[x] == k && !unexpired(
                        before.values()[x]@,
                        now,
                    );
                map_of_at(before.keys(), before.values(), x);
            }
        }
        assert(gone =~= expired_ids(model, now));
        space_subset(before, *items);
        assert(space_model(*items) =~= kept_items(model, now));
    }
    dropped
}

/// The expired items of the namespaces before a place in the order.
spec fn expired_before(spaces: Table<Table<StoredItem>>, now: u64, n: int) -> Set<
    (Seq<u8>, Seq<u8>),
> {
    Set::new(
        |p: (Seq<u8>, Seq<u8>)|
            exists|x: int|
                0 <= x < n && #[trigger] spaces.keys()[x] == p.0 && expired_ids(
                    space_model(spaces.values()[x]),
                    now,
                ).contains(p.1),
    )
}

/// One more namespace adds its expired items.
proof fn expired_before_step(spaces: Table<Table<StoredItem>>, now: u64, n: int)
    requires
        spaces.wf(),
        0 <= n < spaces.keys().len(),
        expired_before(spaces, now, n).finite(),
        expired_ids(space_model(spaces.values()[n]), now).finite(),
    ensures
        expired_before(spaces, now, n + 1).finite(),
        expired_before(spaces, now, n + 1).len() == expired_before(spaces, now, n).len()
            + expired_ids(space_model(spaces.values()[n]), now).len(),
{
    let ns = spaces.keys()[n];
    let ids = expired_ids(space_model(spaces.values()[n]), now);
    let f = |k: Seq<u8>| (ns, k);
    let here = ids.map(f);
    let held = expired_before(spaces, now, n);
    lemma_map_size(ids, here, f);
    assert(held.disjoint(here)) by {
        assert forall|p: (Seq<u8>, Seq<u8>)| held.contains(p) && here.contains(p) implies false by {
            let x = choose|x: int|
                0 <= x < n && #[trigger] spaces.keys()[x] == p.0 && expired_ids(
                    space_model(spaces.values()[x]),
                    now,
                ).contains(p.1);
            increasing_keys_are_unique(spaces.keys(), x, n);
        }
    }
    lemma_set_disjoint_lens(held, here);
    assert forall|p: (Seq<u8>, Seq<u8>)|
        expired_before(spaces, now, n + 1).contains(p) <==> (held + here).contains(p) by {
        if expired_before(spaces, now, n + 1).contains(p) {
            let x = choose|x: int|
                0 <= x < n + 1 && #[trigger] spaces.keys()[x] == p.0 && expired_ids(
                    space_model(spaces.values()[x]),
                    now,
                ).contains(p.1);
            if x == n {
                assert(f(p.1) == p);
            } else {
                assert(held.contains(p));
            }
        }
        if here.contains(p) {
            assert(spaces.keys()[n] == p.0);
        }
        if held.contains(p) {
            let x = choose|x: int|
                0 <= x < n && #[trigger] spaces.keys()[x] == p.0 && expired_ids(
                    space_model(spaces.values()[x]),
                    now,
                ).contains(p.1);
            assert(spaces.keys()[x] == p.0);
        }
    }
    assert(expired_before(spaces, now, n + 1) =~= held + here);
}

/// There are finitely many expired items, and no more in some namespaces than in all of them.
proof fn expired_before_bound(spaces: Table<Table<StoredItem>>, now: u64, n: int)
    requires
        spaces.wf(),
        forall|i: int| 0 <= i < spaces.keys().len() ==> space_wf(#[trigger] spaces.values()[i]),
        0 <= n <= spaces.keys().len(),
    ensures
        expired_before(spaces, now, n).finite(),
    decreases n,
{
    if n == 0 {
        assert(expired_before(spaces, now, 0) =~= Set::empty());
    } else {
        expired_before_bound(spaces, now, n - 1);
        let t = spaces.values()[n - 1];
        assert(space_wf(t));
        map_of_len(t.keys(), t.values());
        lemma_len_subset(expired_ids(space_model(t), now), t@.dom());
        expired_before_step(spaces, now, n - 1);
    }
}

/// Everything a provider holds, in a form it can write to disk. Still entirely opaque: this is
/// ciphertext and bucket tokens, and a snapshot file leaks exactly what the running process does.
#[derive(Debug, Clone)]
pub struct Snapshot {
    pub items: Vec<(NamespaceHandle, Vec<StoredItem>)>,
    pub capacity: Vec<(NamespaceHandle, u64)>,
    pub usage: Usage,
}

/// The contents of a snapshot.
#[verifier::ext_equal]
pub struct SnapshotView {
    pub items: Seq<(Seq<u8>, Seq<ItemView>)>,
    pub capacity: Seq<(Seq<u8>, u64)>,
    pub usage: Usage,
}

/// The contents of each item of a run.
pub open spec fn item_views(items: Seq<StoredItem>) -> Seq<ItemView> {
    Seq::new(items.len(), |i: int| items[i]@)
}

/// The namespaces of a snapshot, each with its items.
pub open spec fn space_views(spaces: Seq<(NamespaceHandle, Vec<StoredItem>)>) -> Seq<
    (Seq<u8>, Seq<ItemView>),
> {
    Seq::new(spaces.len(), |i: int| (spaces[i].0@, item_views(spaces[i].1@)))
}

/// The capacities of a snapshot, each with its namespace.
pub open spec fn capacity_views(caps: Seq<(NamespaceHandle, u64)>) -> Seq<(Seq<u8>, u64)> {
    Seq::new(caps.len(), |i: int| (caps[i].0@, caps[i].1))
}

impl View for Snapshot {
    type V = SnapshotView;

    open spec fn view(&self) -> SnapshotView {
        SnapshotView {
            items: space_views(self.items@),
            capacity: capacity_views(self.capacity@),
            usage: self.usage,
        }
    }
}

impl Default for Snapshot {
    fn default() -> (r: Self)
        ensures
            r.items@.len() == 0,
            r.capacity@.len() == 0,
            r.usage == no_usage(),
    {
        Snapshot { items: Vec::new(), capacity: Vec::new(), usage: Usage::default() }
    }
}

/// A namespace's items after a run of writes.
pub open spec fn with_items(items: Map<Seq<u8>, ItemView>, more: Seq<ItemView>) -> Map<
    Seq<u8>,
    ItemView,
>
    decreases more.len(),
{
    if more.len() == 0 {
        items
    } else {
        with_items(items, more.drop_last()).insert(encode_utf8(more.last().item_id), more.last())
    }
}

/// The items that a snapshot's namespaces hold. Where a namespace or an id stands twice, the later
/// one counts.
pub open spec fn restored_items(spaces: Seq<(Seq<u8>, Seq<ItemView>)>) -> Map<
    Seq<u8>,
    Map<Seq<u8>, ItemView>,
>
    decreases spaces.len(),
{
    if spaces.len() == 0 {
        Map::empty()
    } else {
        let m = restored_items(spaces.drop_last());
        let (ns, items) = spaces.last();
        let held = if m.dom().contains(ns) {
            m[ns]
        } else {
            Map::empty()
        };
        m.insert(ns, with_items(held, items))
    }
}

/// The capacities that a snapshot commits to.
pub open spec fn restored_capacity(caps: Seq<(Seq<u8>, u64)>) -> Map<Seq<u8>, u64>
    decreases caps.len(),
{
    if caps.len() == 0 {
        Map::empty()
    } else {
        restored_capacity(caps.drop_last()).insert(caps.last().0, caps.last().1)
    }
}

/// What a store restored from a snapshot holds.
pub open spec fn restored(snap: SnapshotView) -> StoreModel {
    StoreModel {
        items: restored_items(snap.items),
        capacity: restored_capacity(snap.capacity),
        usage: snap.usage,
    }
}

/// The bytes of the ids of a run of items.
pub open spec fn id_keys(items: Seq<ItemView>) -> Seq<Seq<u8>> {
    Seq::new(items.len(), |i: int| encode_utf8(items[i].item_id))
}

/// A snapshot in order: each namespace stands once, with its items in the order of their ids.
pub open spec fn orderly(snap: SnapshotView) -> bool {
    &&& forall|i: int, j: int|
        #![trigger snap.items[i], snap.items[j]]
        0 <= i < j < snap.items.len() ==> snap.items[i].0 != snap.items[j].0
    &&& forall|i: int|
        0 <= i < snap.items.len() ==> increasing(id_keys((#[trigger] snap.items[i]).1))
    &&& forall|i: int, j: int|
        #![trigger snap.capacity[i], snap.capacity[j]]
        0 <= i < j < snap.capacity.len() ==> snap.capacity[i].0 != snap.capacity[j].0
}

/// The map that one more entry makes.
proof fn map_of_push<V>(keys: Seq<Seq<u8>>, values: Seq<V>, n: int)
    requires
        increasing(keys),
        keys.len() == values.len(),
        0 <= n < keys.len(),
    ensures
        map_of(keys.take(n + 1), values.take(n + 1)) == map_of(
            keys.take(n),
            values.take(n),
        ).insert(keys[n], values[n]),
{
    assert(keys.take(n + 1) =~= keys.take(n).insert(n, keys[n]));
    assert(values.take(n + 1) =~= values.take(n).insert(n, values[n]));
    map_of_insert(keys.take(n), values.take(n), n, keys[n], values[n]);
}

/// The items of one namespace, in order, copied out.
fn copy_items(items: &Table<StoredItem>) -> (r: Vec<StoredItem>)
    requires
        space_wf(*items),
    ensures
        with_items(Map::empty(), item_views(r@)) == space_model(*items),
        increasing(id_keys(item_views(r@))),
{
    let n: usize = items.len();
    let mut out: Vec<StoredItem> = Vec::new();
    let mut i: usize = 0;
    let ghost f = |item: StoredItem| item@;
    proof {
        assert(map_of(items.keys().take(0), items.values().take(0)).map_values(f)
            =~= Map::<Seq<u8>, ItemView>::empty());
    }
    while i < n
        invariant
            space_wf(*items),
            n == items.keys().len(),
            i <= n,
            f == (|item: StoredItem| item@),
            out@.len() == i,
            forall|x: int| 0 <= x < i ==> (#[trigger] out@[x])@ == items.values()[x]@,
            with_items(Map::empty(), item_views(out@)) == map_of(
                items.keys().take(i as int),
                items.values().take(i as int),
            ).map_values(f),
        decreases n - i,
    {
        let ghost before = item_views(out@);
        out.push(items.value_at(i).clone());
        proof {
            assert(items.keys()[i as int] == encode_utf8(items.values()[i as int].item_id@));
            assert(item_views(out@).drop_last() =~= before);
            map_of_push(items.keys(), items.values(), i as int);
            assert(with_items(Map::empty(), item_views(out@)) =~= map_of(
                items.keys().take(i + 1),
                items.values().take(i + 1),
            ).map_values(f));
        }
        i = i + 1;
    }
    proof {
        assert(items.keys().take(i as int) =~= items.keys());
        assert(items.values().take(i as int) =~= items.values());
        assert(id_keys(item_views(out@)) =~= items.keys()) by {
            assert forall|x: int| 0 <= x < n implies (#[trigger] id_keys(item_views(out@))[x])
                == items.keys()[x] by {
                assert(out@[x]@ == items.values()[x]@);
            }
        }
    }
    out
}

/// Puts a run of items into a table, each in place of any with its id.
fn insert_all(space: &mut Table<StoredItem>, items: Vec<StoredItem>)
    requires
        space_wf(*old(space)),
    ensures
        space_wf(*final(space)),
        space_model(*final(space)) == with_items(space_model(*old(space)), item_views(items@)),
{
    let ghost listed = items@;
    let ghost views = item_views(items@);
    let ghost before = *space;
    proof {
        assert(views.take(0).len() == 0);
    }
    for item in it: items
        invariant
            it.seq() == listed,
            views == item_views(listed),
            space_wf(*space),
            space_model(*space) == with_items(space_model(before), views.take(it.index() as int)),
    {
        let ghost n = it.index() as int;
        let ghost held = *space;
        proof {
            assert(views.take(n + 1).drop_last() =~= views.take(n));
            assert(item == listed[n]);
        }
        let key = slice_to_vec(item.item_id.as_str().as_bytes());
        space.insert(key.as_slice(), item);
        proof {
            space_insert(held, *space, item);
        }
    }
    proof {
        assert(views.take(listed.len() as int) =~= views);
    }
}

impl InMemoryStore {
    /// Everything the store holds. Restoring it gives the same store.
    pub fn snapshot(&self) -> (r: Snapshot)
        requires
            self.wf(),
        ensures
            restored(r@) == self.model(),
            orderly(r@),
    {
        let ghost f = |t: Table<StoredItem>| space_model(t);
        let ghost keys = self.spaces.keys();
        let ghost values = self.spaces.values();
        let n: usize = self.spaces.len();
        let mut items: Vec<(NamespaceHandle, Vec<StoredItem>)> = Vec::new();
        let mut i: usize = 0;
        proof {
            assert(map_of(keys.take(0), values.take(0)).map_values(f) =~= Map::<
                Seq<u8>,
                Map<Seq<u8>, ItemView>,
            >::empty());
        }
        while i < n
            invariant
                self.in_order(),
                keys == self.spaces.keys(),
                values == self.spaces.values(),
                n == keys.len(),
                i <= n,
                f == (|t: Table<StoredItem>| space_model(t)),
                items@.len() == i,
                forall|x: int|
                    0 <= x < i ==> {
                        &&& (#[trigger] items@[x]).0@ == keys[x]
                        &&& increasing(id_keys(item_views(items@[x].1@)))
                    },
                restored_items(space_views(items@)) == map_of(
                    keys.take(i as int),
                    values.take(i as int),
                ).map_values(f),
            decreases n - i,
        {
            let ghost before = space_views(items@);
            proof {
                assert(space_wf(self.spaces.values()[i as int]));
                map_of_at(keys, values, i as int);
                assert(self.spaces@.dom().contains(keys[i as int]));
                assert(keys[i as int].take(16) =~= keys[i as int]);
            }
            let copied = copy_items(self.spaces.value_at(i));
            items.push((NamespaceHandle(prefix::<16>(self.spaces.key_at(i).as_slice())), copied));
            proof {
                assert(space_views(items@).drop_last() =~= before);
                map_of_push(keys, values, i as int);
                let held = restored_items(before);
                if held.dom().contains(keys[i as int]) {
                    let j = keys.take(i as int).index_of(keys[i as int]);
                    assert(keys.take(i as int).contains(keys[i as int]));
                    increasing_keys_are_unique(keys, j, i as int);
                }
                assert(restored_items(space_views(items@)) =~= map_of(
                    keys.take(i + 1),
                    values.take(i + 1),
                ).map_values(f));
            }
            i = i + 1;
        }
        proof {
            assert(keys.take(i as int) =~= keys);
            assert(values.take(i as int) =~= values);
        }
        let m: usize = self.capacity.len();
        let mut capacity: Vec<(NamespaceHandle, u64)> = Vec::new();
        let mut c: usize = 0;
        proof {
            assert(map_of(
                self.capacity.keys().take(0),
                self.capacity.values().take(0),
            ) =~= Map::<Seq<u8>, u64>::empty());
        }
        while c < m
            invariant
                self.in_order(),
                m == self.capacity.keys().len(),
                c <= m,
                capacity@.len() == c,
                forall|x: int|
                    0 <= x < c ==> (#[trigger] capacity@[x]).0@ == self.capacity.keys()[x],
                restored_capacity(capacity_views(capacity@)) == map_of(
                    self.capacity.keys().take(c as int),
                    self.capacity.values().take(c as int),
                ),
            decreases m - c,
        {
            let ghost before = capacity_views(capacity@);
            let ghost ns = self.capacity.keys()[c as int];
            proof {
                map_of_at(self.capacity.keys(), self.capacity.values(), c as int);
                assert(self.capacity@.dom().contains(ns));
                assert(ns.take(16) =~= ns);
            }
            capacity.push(
                (NamespaceHandle(prefix::<16>(self.capacity.key_at(c).as_slice())), *self.capacity.value_at(c)),
            );
            proof {
                assert(capacity_views(capacity@).drop_last() =~= before);
                map_of_push(self.capacity.keys(), self.capacity.values(), c as int);
            }
            c = c + 1;
        }
        proof {
            assert(self.capacity.keys().take(c as int) =~= self.capacity.keys());
            assert(self.capacity.values().take(c as int) =~= self.capacity.values());
        }
        let snap = Snapshot { items, capacity, usage: self.usage };
        proof {
            assert forall|x: int, y: int|
                #![trigger snap@.items[x], snap@.items[y]]
                0 <= x < y < snap@.items.len() implies snap@.items[x].0 != snap@.items[y].0 by {
                if items@[x].0@ == items@[y].0@ {
                    increasing_keys_are_unique(keys, x, y);
                }
            }
            assert forall|x: int| 0 <= x < snap@.items.len() implies increasing(
                id_keys((#[trigger] snap@.items[x]).1),
            ) by {
                assert(items@[x].0@ == keys[x]);
            }
            assert forall|x: int, y: int|
                #![trigger snap@.capacity[x], snap@.capacity[y]]
                0 <= x < y < snap@.capacity.len() implies snap@.capacity[x].0
                != snap@.capacity[y].0 by {
                if capacity@[x].0@ == capacity@[y].0@ {
                    increasing_keys_are_unique(self.capacity.keys(), x, y);
                }
            }
        }
        snap
    }

    /// A store that holds what a snapshot does.
    pub fn restore(snap: Snapshot) -> (r: Self)
        ensures
            r.wf(),
            r.model() == restored(snap@),
    {
        let mut s = InMemoryStore::new();
        let ghost spaces = space_views(snap.items@);
        let ghost caps = capacity_views(snap.capacity@);
        let ghost listed = snap.items@;
        let ghost committed = snap.capacity@;
        let usage = snap.usage;
        proof {
            assert(spaces.take(0).len() == 0);
            assert(caps.take(0).len() == 0);
        }
        for entry in it: snap.items
            invariant
                it.seq() == listed,
                spaces == space_views(listed),
                s.in_order(),
                s.contents() == (StoreModel {
                    items: restored_items(spaces.take(it.index() as int)),
                    capacity: Map::empty(),
                    usage: no_usage(),
                }),
        {
            let ghost n = it.index() as int;
            proof {
                assert(spaces.take(n + 1).drop_last() =~= spaces.take(n));
                assert(entry == listed[n]);
            }
            let (ns, items) = entry;
            s.add_items(&ns, items);
            proof {
                assert(s.contents().items =~= restored_items(spaces.take(n + 1)));
            }
        }
        proof {
            assert(spaces.take(listed.len() as int) =~= spaces);
        }
        for entry in it: snap.capacity
            invariant
                it.seq() == committed,
                caps == capacity_views(committed),
                s.in_order(),
                s.contents() == (StoreModel {
                    items: restored_items(spaces),
                    capacity: restored_capacity(caps.take(it.index() as int)),
                    usage: no_usage(),
                }),
        {
            let ghost n = it.index() as int;
            proof {
                assert(caps.take(n + 1).drop_last() =~= caps.take(n));
                assert(entry == committed[n]);
            }
            let (ns, max_items) = entry;
            s.set_capacity(&ns, max_items);
        }
        proof {
            assert(caps.take(committed.len() as int) =~= caps);
        }
        s.usage = usage;
        s
    }

    /// Puts a run of items into a namespace, each in place of any with its id.
    fn add_items(&mut self, ns: &NamespaceHandle, items: Vec<StoredItem>)
        requires
            old(self).in_order(),
        ensures
            final(self).in_order(),
            final(self).contents() == (StoreModel {
                items: old(self).contents().items.insert(
                    ns@,
                    with_items(items_in(old(self).contents(), ns@), item_views(items@)),
                ),
                ..old(self).contents()
            }),
    {
        let i: usize = self.space_index(ns);
        let ghost opened = *self;
        proof {
            map_of_at(self.spaces.keys(), self.spaces.values(), i as int);
            assert(space_wf(self.spaces.values()[i as int]));
            assert(items_in(opened.contents(), ns@) == items_in(old(self).contents(), ns@));
        }
        insert_all(self.spaces.value_at_mut(i), items);
        proof {
            let after = self.spaces.values()[i as int];
            assert forall|j: int| 0 <= j < self.spaces.keys().len() implies space_wf(
                #[trigger] self.spaces.values()[j],
            ) by {
                if j != i {
                    assert(self.spaces.values()[j] == opened.spaces.values()[j]);
                }
            }
            assert(self.contents().items =~= opened.contents().items.insert(
                ns@,
                space_model(after),
            ));
            assert(self.contents().items =~= old(self).contents().items.insert(
                ns@,
                space_model(after),
            ));
        }
    }
}

impl InMemoryStore {
    /// What the store holds.
    pub closed spec fn contents(&self) -> StoreModel {
        StoreModel {
            items: self.spaces@.map_values(|t: Table<StoredItem>| space_model(t)),
            capacity: self.capacity@,
            usage: self.usage,
        }
    }

    /// Every table is in order.
    pub closed spec fn in_order(&self) -> bool {
        &&& self.spaces.wf()
        &&& forall|i: int| 0 <= i < self.spaces.keys().len() ==> space_wf(
            #[trigger] self.spaces.values()[i],
        )
        &&& forall|ns: Seq<u8>| #[trigger] self.spaces@.dom().contains(ns) ==> ns.len() == 16
        &&& self.capacity.wf()
        &&& forall|ns: Seq<u8>| #[trigger] self.capacity@.dom().contains(ns) ==> ns.len() == 16
    }

    /// A store that holds nothing.
    pub fn new() -> (r: Self)
        ensures
            r.wf(),
            r.model() == empty_store(),
    {
        let r = InMemoryStore { spaces: Table::new(), capacity: Table::new(), usage: Usage::default() };
        proof {
            assert(r.contents() =~= empty_store());
        }
        r
    }

    /// Sets the item cap a provider committed to for this namespace.
    pub fn set_capacity(&mut self, ns: &NamespaceHandle, max_items: u64)
        requires
            old(self).wf(),
        ensures
            final(self).wf(),
            final(self).model() == (StoreModel {
                capacity: old(self).model().capacity.insert(ns@, max_items),
                ..old(self).model()
            }),
    {
        self.capacity.insert(ns.0.as_slice(), max_items);
    }

    /// How many items a namespace holds.
    pub fn len(&self, ns: &NamespaceHandle) -> (r: usize)
        requires
            self.wf(),
        ensures
            r == items_in(self.model(), ns@).len(),
    {
        match self.spaces.find(ns.0.as_slice()) {
            Ok(i) => {
                let t = self.spaces.value_at(i);
                proof {
                    assert(space_wf(self.spaces.values()[i as int]));
                    assert(space_model(*t).dom() =~= t@.dom());
                }
                t.len()
            },
            Err(_) => 0,
        }
    }

    /// Whether a namespace holds nothing.
    pub fn is_empty(&self, ns: &NamespaceHandle) -> (r: bool)
        requires
            self.wf(),
        ensures
            r == (items_in(self.model(), ns@).len() == 0),
    {
        self.len(ns) == 0
    }

    /// Where a namespace stands, made room for where there was none.
    fn space_index(&mut self, ns: &NamespaceHandle) -> (r: usize)
        requires
            old(self).in_order(),
        ensures
            final(self).in_order(),
            final(self).contents() == (StoreModel {
                items: old(self).contents().items.insert(
                    ns@,
                    items_in(old(self).contents(), ns@),
                ),
                ..old(self).contents()
            }),
            r < final(self).spaces.keys().len(),
            final(self).spaces.keys()[r as int] == ns@,
            final(self).capacity == old(self).capacity,
            final(self).usage == old(self).usage,
    {
        match self.spaces.find(ns.0.as_slice()) {
            Ok(i) => {
                proof {
                    assert(self.contents().items =~= self.contents().items.insert(
                        ns@,
                        items_in(self.contents(), ns@),
                    ));
                }
                i
            },
            Err(_) => {
                let ghost before = self.spaces;
                self.spaces.insert(ns.0.as_slice(), Table::new());
                proof {
                    let fresh = self.spaces@[ns@];
                    assert(space_model(fresh) =~= Map::<Seq<u8>, ItemView>::empty());
                    assert forall|i: int| 0 <= i < self.spaces.keys().len() implies space_wf(
                        #[trigger] self.spaces.values()[i],
                    ) by {
                        let k = self.spaces.keys()[i];
                        map_of_at(self.spaces.keys(), self.spaces.values(), i);
                        if k != ns@ {
                            assert(before@.dom().contains(k));
                            let j = before.keys().index_of(k);
                            assert(before.keys()[j] == k);
                            assert(space_wf(before.values()[j]));
                        }
                    }
                    assert(self.contents().items =~= old(self).contents().items.insert(
                        ns@,
                        items_in(old(self).contents(), ns@),
                    ));
                }
                match self.spaces.find(ns.0.as_slice()) {
                    Ok(i) => i,
                    Err(i) => {
                        proof {
                            assert(false);
                        }
                        i
                    },
                }
            },
        }
    }
}

impl Default for InMemoryStore {
    fn default() -> (r: Self)
        ensures
            r.wf(),
            r.model() == empty_store(),
    {
        InMemoryStore::new()
    }
}

impl MemoryStore for InMemoryStore {
    open spec fn wf(&self) -> bool {
        self.in_order()
    }

    open spec fn model(&self) -> StoreModel {
        self.contents()
    }

    fn put(&mut self, ns: &NamespaceHandle, item: StoredItem) -> (r: Result<(), StoreError>) {
        let key = slice_to_vec(item.item_id.as_str().as_bytes());
        let i: usize = self.space_index(ns);
        let ghost opened = *self;
        proof {
            map_of_at(self.spaces.keys(), self.spaces.values(), i as int);
            assert(space_wf(self.spaces.values()[i as int]));
            assert(items_in(opened.contents(), ns@) =~= items_in(old(self).contents(), ns@));
        }
        if let Some(cap) = self.capacity.get(ns.0.as_slice()) {
            let space = self.spaces.value_at(i);
            proof {
                assert(space_model(*space).dom() =~= space@.dom());
            }
            if space.get(key.as_slice()).is_none() && space.len() as u64 >= *cap {
                return Err(StoreError::AtCapacity(*cap));
            }
        }
        let ghost before = self.spaces.values()[i as int];
        let space = self.spaces.value_at_mut(i);
        space.insert(key.as_slice(), item);
        proof {
            let after = self.spaces.values()[i as int];
            space_insert(before, after, item);
            assert forall|j: int| 0 <= j < self.spaces.keys().len() implies space_wf(
                #[trigger] self.spaces.values()[j],
            ) by {
                if j != i {
                    assert(self.spaces.values()[j] == opened.spaces.values()[j]);
                }
            }
            assert(self.contents().items =~= opened.contents().items.insert(
                ns@,
                space_model(after),
            ));
        }
        self.usage.writes = self.usage.writes + 1;
        proof {
            assert(self.contents() =~= after_put(old(self).contents(), ns@, item@));
        }
        Ok(())
    }

    fn get(&mut self, ns: &NamespaceHandle, item_id: &str) -> (r: Result<SealedItem, StoreError>) {
        match self.spaces.find(ns.0.as_slice()) {
            Ok(i) => {
                let space = self.spaces.value_at(i);
                proof {
                    assert(space_wf(self.spaces.values()[i as int]));
                }
                match space.get(item_id.as_bytes()) {
                    Some(item) => {
                        let sealed = item.sealed.clone();
                        self.usage.reads = self.usage.reads + 1;
                        Ok(sealed)
                    },
                    None => Err(StoreError::NotFound),
                }
            },
            Err(_) => Err(StoreError::NotFound),
        }
    }

    fn search(
        &mut self,
        ns: &NamespaceHandle,
        tokens: &[BucketToken],
        limit: usize,
        now: u64,
    ) -> (r: Vec<Candidate>) {
        self.usage.searches = self.usage.searches + 1;
        match self.spaces.find(ns.0.as_slice()) {
            Ok(i) => {
                proof {
                    assert(space_wf(self.spaces.values()[i as int]));
                }
                search_space(self.spaces.value_at(i), tokens, limit, now)
            },
            Err(_) => Vec::new(),
        }
    }

    fn forget(&mut self, ns: &NamespaceHandle, item_id: &str) -> (r: bool) {
        self.usage.forgets = self.usage.forgets + 1;
        match self.spaces.find(ns.0.as_slice()) {
            Ok(i) => {
                let ghost before = self.spaces.values()[i as int];
                proof {
                    assert(space_wf(before));
                }
                let space = self.spaces.value_at_mut(i);
                let removed = space.remove(item_id.as_bytes()).is_some();
                proof {
                    let after = self.spaces.values()[i as int];
                    space_subset(before, after);
                    assert(space_model(after) =~= space_model(before).remove(
                        encode_utf8(item_id@),
                    ));
                    assert forall|j: int| 0 <= j < self.spaces.keys().len() implies space_wf(
                        #[trigger] self.spaces.values()[j],
                    ) by {
                        if j != i {
                            assert(self.spaces.values()[j] == old(self).spaces.values()[j]);
                        }
                    }
                    assert(self.contents().items =~= old(self).contents().items.insert(
                        ns@,
                        space_model(after),
                    ));
                    assert(self.contents() =~= after_forget(old(self).contents(), ns@, item_id@));
                }
                removed
            },
            Err(_) => false,
        }
    }

    fn gc(&mut self, now: u64) -> (r: usize) {
        let ghost before = self.spaces;
        let n: usize = self.spaces.len();
        let mut dropped: usize = 0;
        let mut i: usize = 0;
        proof {
            expired_before_bound(before, now, n as int);
            assert(expired_before(before, now, n as int) =~= expired_items(
                self.contents(),
                now,
            )) by {
                assert forall|p: (Seq<u8>, Seq<u8>)|
                    expired_before(before, now, n as int).contains(p) <==> expired_items(
                        self.contents(),
                        now,
                    ).contains(p) by {
                    if expired_items(self.contents(), now).contains(p) {
                        let x = before.keys().index_of(p.0);
                        assert(before.keys()[x] == p.0);
                    }
                    if expired_before(before, now, n as int).contains(p) {
                        let x = choose|x: int|
                            0 <= x < n && #[trigger] before.keys()[x] == p.0 && expired_ids(
                                space_model(before.values()[x]),
                                now,
                            ).contains(p.1);
                        map_of_at(before.keys(), before.values(), x);
                    }
                }
            }
            assert(expired_before(before, now, 0) =~= Set::empty());
        }
        while i < n
            invariant
                before == old(self).spaces,
                before.wf(),
                forall|x: int|
                    0 <= x < before.keys().len() ==> space_wf(#[trigger] before.values()[x]),
                n == before.keys().len(),
                i <= n,
                self.in_order(),
                self.capacity == old(self).capacity,
                self.usage == old(self).usage,
                self.spaces.keys() == before.keys(),
                forall|x: int|
                    0 <= x < i ==> space_model(#[trigger] self.spaces.values()[x]) == kept_items(
                        space_model(before.values()[x]),
                        now,
                    ),
                forall|x: int|
                    i <= x < n ==> #[trigger] self.spaces.values()[x] == before.values()[x],
                expired_before(before, now, i as int).finite(),
                dropped == expired_before(before, now, i as int).len(),
                expired_before(before, now, n as int).finite(),
                expired_before(before, now, n as int).len() <= usize::MAX,
            decreases n - i,
        {
            let ghost entered = self.spaces;
            proof {
                assert(self.spaces.values()[i as int] == before.values()[i as int]);
            }
            let space = self.spaces.value_at_mut(i);
            let gone: usize = drop_expired(space, now);
            proof {
                expired_before_step(before, now, i as int);
                assert(expired_before(before, now, i + 1).subset_of(
                    expired_before(before, now, n as int),
                ));
                lemma_len_subset(
                    expired_before(before, now, i + 1),
                    expired_before(before, now, n as int),
                );
                assert forall|x: int| 0 <= x < self.spaces.keys().len() implies space_wf(
                    #[trigger] self.spaces.values()[x],
                ) by {
                    if x != i {
                        assert(self.spaces.values()[x] == entered.values()[x]);
                    }
                }
                assert forall|x: int| 0 <= x < i + 1 implies space_model(
                    #[trigger] self.spaces.values()[x],
                ) == kept_items(space_model(before.values()[x]), now) by {
                    if x != i {
                        assert(self.spaces.values()[x] == entered.values()[x]);
                    }
                }
                assert forall|x: int| i + 1 <= x < n implies #[trigger] self.spaces.values()[x]
                    == before.values()[x] by {
                    assert(self.spaces.values()[x] == entered.values()[x]);
                }
            }
            dropped = dropped + gone;
            i = i + 1;
        }
        proof {
            let now_held = self.contents().items;
            let wanted = after_gc(old(self).contents(), now).items;
            assert forall|k: Seq<u8>| now_held.dom().contains(k) implies now_held[k]
                == wanted[k] by {
                let x = before.keys().index_of(k);
                assert(before.keys()[x] == k);
                assert(space_model(self.spaces.values()[x]) == kept_items(
                    space_model(before.values()[x]),
                    now,
                ));
            }
            assert(now_held =~= wanted);
        }
        dropped
    }

    fn usage(&self) -> (r: Usage) {
        self.usage
    }

    fn is_e2e(&self, ns: &NamespaceHandle) -> (r: bool) {
        match self.spaces.find(ns.0.as_slice()) {
            Ok(i) => {
                let space = self.spaces.value_at(i);
                let ghost items = items_in(self.contents(), ns@);
                proof {
                    assert(space_wf(self.spaces.values()[i as int]));
                    assert(items == space_model(*space));
                }
                let n: usize = space.len();
                let mut j: usize = 0;
                while j < n
                    invariant
                        space.wf(),
                        n == space.keys().len(),
                        items == space_model(*space),
                        items == items_in(self.contents(), ns@),
                        j <= n,
                        forall|x: int|
                            0 <= x < j ==> (#[trigger] space.values()[x]).mode
                                == IndexMode::BlindIndex,
                    decreases n - j,
                {
                    if space.value_at(j).mode != IndexMode::BlindIndex {
                        proof {
                            map_of_at(space.keys(), space.values(), j as int);
                            let k = space.keys()[j as int];
                            assert(items.dom().contains(k));
                        }
                        return false;
                    }
                    j = j + 1;
                }
                proof {
                    assert forall|k: Seq<u8>| #[trigger] items.dom().contains(k) implies items[k].mode
                        == IndexMode::BlindIndex by {
                        let x = space.keys().index_of(k);
                        assert(space.values()[x].mode == IndexMode::BlindIndex);
                    }
                }
                true
            },
            Err(_) => true,
        }
    }
}

/// What a store in order holds is finite, and stands under the bytes of its id: each item of each
/// namespace.
pub proof fn law_items_stand_under_their_ids(s: InMemoryStore, ns: Seq<u8>)
    requires
        s.wf(),
    ensures
        items_in(s.model(), ns).dom().finite(),
        forall|k: Seq<u8>| #[trigger]
            items_in(s.model(), ns).dom().contains(k) ==> k == encode_utf8(
                items_in(s.model(), ns)[k].item_id,
            ),
{
    if s.model().items.dom().contains(ns) {
        let x = s.spaces.keys().index_of(ns);
        let t = s.spaces.values()[x];
        assert(s.spaces.keys()[x] == ns);
        map_of_at(s.spaces.keys(), s.spaces.values(), x);
        assert(space_wf(t));
        map_of_len(t.keys(), t.values());
        assert(items_in(s.model(), ns) == space_model(t));
        assert(space_model(t).dom() =~= t@.dom());
        assert forall|k: Seq<u8>| #[trigger] space_model(t).dom().contains(k) implies k
            == encode_utf8(space_model(t)[k].item_id) by {
            let i = t.keys().index_of(k);
            assert(t.keys()[i] == k);
            map_of_at(t.keys(), t.values(), i);
        }
    }
}

/// Whether none of a run of items from a place on has an id.
pub open spec fn unwritten_from(more: Seq<ItemView>, n: int, k: Seq<u8>) -> bool {
    forall|j: int| n <= j < more.len() ==> encode_utf8((#[trigger] more[j]).item_id) != k
}

/// In a run of writes the last under an id counts: the item at a place with no other of its id
/// behind it is what is held under that id.
pub proof fn law_the_last_write_counts(
    items: Map<Seq<u8>, ItemView>,
    more: Seq<ItemView>,
    i: int,
)
    requires
        0 <= i < more.len(),
        unwritten_from(more, i + 1, encode_utf8(more[i].item_id)),
    ensures
        with_items(items, more).dom().contains(encode_utf8(more[i].item_id)),
        with_items(items, more)[encode_utf8(more[i].item_id)] == more[i],
    decreases more.len(),
{
    let n = more.len() - 1;
    if i < n {
        let rest = more.drop_last();
        let k = encode_utf8(more[i].item_id);
        assert forall|j: int| i + 1 <= j < rest.len() implies encode_utf8(
            (#[trigger] rest[j]).item_id,
        ) != k by {
            assert(encode_utf8(more[j].item_id) != k);
        }
        law_the_last_write_counts(items, rest, i);
        assert(encode_utf8(more[n].item_id) != k);
    }
}

/// What a run of writes does not write stays as it was.
pub proof fn law_what_is_not_written_stays(
    items: Map<Seq<u8>, ItemView>,
    more: Seq<ItemView>,
    k: Seq<u8>,
)
    requires
        unwritten_from(more, 0, k),
    ensures
        with_items(items, more).dom().contains(k) == items.dom().contains(k),
        items.dom().contains(k) ==> with_items(items, more)[k] == items[k],
    decreases more.len(),
{
    if more.len() > 0 {
        let rest = more.drop_last();
        assert forall|j: int| 0 <= j < rest.len() implies encode_utf8((#[trigger] rest[j]).item_id)
            != k by {
            assert(encode_utf8(more[j].item_id) != k);
        }
        law_what_is_not_written_stays(items, rest, k);
        assert(encode_utf8(more[more.len() - 1].item_id) != k);
    }
}

/// Restoring takes a snapshot whole: a namespace more adds its items to that namespace and to no
/// other, a capacity more sets it, and the counters are the snapshot's.
pub proof fn law_restoring_takes_everything(
    snap: SnapshotView,
    ns: Seq<u8>,
    items: Seq<ItemView>,
    max_items: u64,
    other: Seq<u8>,
)
    ensures
        ({
            let before = restored(snap);
            let more = restored(
                SnapshotView {
                    items: snap.items.push((ns, items)),
                    capacity: snap.capacity.push((ns, max_items)),
                    ..snap
                },
            );
            &&& items_in(more, ns) == with_items(items_in(before, ns), items)
            &&& more.capacity.dom().contains(ns) && more.capacity[ns] == max_items
            &&& other != ns ==> items_in(more, other) == items_in(before, other)
            &&& other != ns ==> more.capacity.dom().contains(other)
                == before.capacity.dom().contains(other)
            &&& other != ns && before.capacity.dom().contains(other) ==> more.capacity[other]
                == before.capacity[other]
            &&& more.usage == snap.usage
            &&& snap.items.len() == 0 ==> items_in(before, other).dom() =~= Set::empty()
            &&& snap.capacity.len() == 0 ==> !before.capacity.dom().contains(other)
        }),
{
    let spaces = snap.items.push((ns, items));
    let caps = snap.capacity.push((ns, max_items));
    assert(spaces.drop_last() =~= snap.items);
    assert(caps.drop_last() =~= snap.capacity);
}

} // verus!
