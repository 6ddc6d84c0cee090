//! The provider-side store.
//!
//! The notable thing about it is how little it can do. It holds opaque ciphertext grouped by an
//! opaque namespace handle, indexed by opaque bucket tokens. It has no key material, no plaintext,
//! no embeddings and no user identities, and no function here accepts any of them.
//!
//! Search is a set intersection over bucket tokens, ranked by how many bands match. The provider
//! returns candidates; the client decrypts them and does the real ranking.

use crate::blind_index::{token_views, BucketToken};
use crate::bytes::{bytes_before, bytes_before_is_total};
use crate::envelope::{NamespaceHandle, SealedItem, SealedView};
use crate::text::{
    decimal, decimal_text, law_decimals_spell_their_number, number_spelled, utf8_is_injective,
};
use vstd::prelude::*;
use vstd::slice::slice_to_vec;
use vstd::string::StringExecFns;
use vstd::utf8::encode_utf8;

verus! {

/// Why the store could not do what it was asked.
#[derive(Debug, Clone, Copy, PartialEq, Eq, Structural)]
pub enum StoreError {
    /// There is no such item.
    NotFound,
    /// The namespace holds as many items as the provider committed to.
    AtCapacity(u64),
}

impl StoreError {
    /// What the error says.
    pub open spec fn text(self) -> Seq<char> {
        match self {
            StoreError::NotFound => "item not found"@,
            StoreError::AtCapacity(n) => "namespace is at its committed capacity of "@
                + decimal_text(n as nat) + " items"@,
        }
    }

    /// The error as a sentence.
    pub fn message(&self) -> (r: String)
        ensures
            r@ == self.text(),
    {
        match self {
            StoreError::NotFound => "item not found".to_owned(),
            StoreError::AtCapacity(n) => {
                let mut s = "namespace is at its committed capacity of ".to_owned();
                s.append(decimal(*n).as_str());
                s.append(" items");
                s
            },
        }
    }
}

/// How an item was indexed. Recorded per item because a namespace containing a single
/// plaintext-vector item is no longer end-to-end encrypted, and the store must be able to say so
/// rather than let the claim quietly rot.
#[derive(Debug, Clone, Copy, PartialEq, Eq, Structural)]
pub enum IndexMode {
    /// Keyed bucket tokens. The default; the provider learns bucket occupancy and nothing more.
    BlindIndex,
    /// The client asked for plaintext vectors. Must be named explicitly at write time.
    PlaintextVectors,
}

/// What a provider stores for one item. Every field is opaque to it.
#[derive(Debug, PartialEq)]
pub struct StoredItem {
    pub item_id: String,
    pub sealed: SealedItem,
    pub tokens: Vec<BucketToken>,
    pub mode: IndexMode,
    /// Unix seconds. `None` means keep until forgotten.
    pub expires_at: Option<u64>,
}

/// The contents of a stored item.
#[verifier::ext_equal]
pub struct ItemView {
    pub item_id: Seq<char>,
    pub sealed: SealedView,
    pub tokens: Seq<Seq<u8>>,
    pub mode: IndexMode,
    pub expires_at: Option<u64>,
}

impl View for StoredItem {
    type V = ItemView;

    open spec fn view(&self) -> ItemView {
        ItemView {
            item_id: self.item_id@,
            sealed: self.sealed@,
            tokens: token_views(self.tokens@),
            mode: self.mode,
            expires_at: self.expires_at,
        }
    }
}

/// A copy of a run of tokens.
pub fn copy_tokens(tokens: &[BucketToken]) -> (r: Vec<BucketToken>)
    ensures
        r@ == tokens@,
{
    slice_to_vec(tokens)
}

impl Clone for StoredItem {
    fn clone(&self) -> (r: Self)
        ensures
            r@ == self@,
    {
        StoredItem {
            item_id: self.item_id.clone(),
            sealed: self.sealed.clone(),
            tokens: copy_tokens(self.tokens.as_slice()),
            mode: self.mode,
            expires_at: self.expires_at,
        }
    }
}

/// A search hit: an item and how many bands it shared with the query.
#[derive(Debug, PartialEq)]
pub struct Candidate {
    pub item_id: String,
    pub sealed: SealedItem,
    pub shared_bands: usize,
}

/// The contents of a search hit.
#[verifier::ext_equal]
pub struct CandidateView {
    pub item_id: Seq<char>,
    pub sealed: SealedView,
    pub shared_bands: nat,
}

impl View for Candidate {
    type V = CandidateView;

    open spec fn view(&self) -> CandidateView {
        CandidateView {
            item_id: self.item_id@,
            sealed: self.sealed@,
            shared_bands: self.shared_bands as nat,
        }
    }
}

impl Clone for Candidate {
    fn clone(&self) -> (r: Self)
        ensures
            r@ == self@,
    {
        Candidate {
            item_id: self.item_id.clone(),
            sealed: self.sealed.clone(),
            shared_bands: self.shared_bands,
        }
    }
}

/// The contents of each hit of a run.
pub open spec fn candidate_views(hits: Seq<Candidate>) -> Seq<CandidateView> {
    Seq::new(hits.len(), |i: int| hits[i]@)
}

/// Counters a provider reports. Self-reported and unprovable.
#[derive(Debug, Clone, Copy, PartialEq, Eq, Structural)]
pub struct Usage {
    pub writes: u128,
    pub reads: u128,
    pub searches: u128,
    pub forgets: u128,
}

impl Default for Usage {
    fn default() -> (r: Self)
        ensures
            r == no_usage(),
    {
        Usage { writes: 0, reads: 0, searches: 0, forgets: 0 }
    }
}

/// The counters of a provider that has not been asked for anything.
pub open spec fn no_usage() -> Usage {
    Usage { writes: 0, reads: 0, searches: 0, forgets: 0 }
}

/// Whether every counter can still count one more request.
pub open spec fn can_count(usage: Usage) -> bool {
    &&& usage.writes < u128::MAX
    &&& usage.reads < u128::MAX
    &&& usage.searches < u128::MAX
    &&& usage.forgets < u128::MAX
}

impl Usage {
    /// Whether every counter can still count one more request.
    pub fn can_count(&self) -> (r: bool)
        ensures
            r == can_count(*self),
    {
        self.writes < u128::MAX && self.reads < u128::MAX && self.searches < u128::MAX
            && self.forgets < u128::MAX
    }
}

/// Everything a provider holds: the items of each namespace under the bytes of their ids, the
/// capacity committed to for a namespace, and the counters.
#[verifier::ext_equal]
pub struct StoreModel {
    pub items: Map<Seq<u8>, Map<Seq<u8>, ItemView>>,
    pub capacity: Map<Seq<u8>, u64>,
    pub usage: Usage,
}

/// A store that holds nothing and has been asked for nothing.
pub open spec fn empty_store() -> StoreModel {
    StoreModel { items: Map::empty(), capacity: Map::empty(), usage: no_usage() }
}

/// The items of a namespace, none where the provider has not heard of it.
pub open spec fn items_in(m: StoreModel, ns: Seq<u8>) -> Map<Seq<u8>, ItemView> {
    if m.items.dom().contains(ns) {
        m.items[ns]
    } else {
        Map::empty()
    }
}

/// Whether a write would grow a namespace beyond its committed capacity. An overwrite of an
/// existing id is not growth.
pub open spec fn over_capacity(m: StoreModel, ns: Seq<u8>, item_id: Seq<char>) -> bool {
    &&& m.capacity.dom().contains(ns)
    &&& !items_in(m, ns).dom().contains(encode_utf8(item_id))
    &&& items_in(m, ns).len() >= m.capacity[ns]
}

/// The store after a write. A refused one leaves every item as it was; the provider has heard of
/// the namespace either way.
pub open spec fn after_put(m: StoreModel, ns: Seq<u8>, item: ItemView) -> StoreModel {
    if over_capacity(m, ns, item.item_id) {
        StoreModel { items: m.items.insert(ns, items_in(m, ns)), ..m }
    } else {
        StoreModel {
            items: m.items.insert(
                ns,
                items_in(m, ns).insert(encode_utf8(item.item_id), item),
            ),
            usage: Usage { writes: (m.usage.writes + 1) as u128, ..m.usage },
            ..m
        }
    }
}

/// Whether a namespace holds an item.
pub open spec fn holds(m: StoreModel, ns: Seq<u8>, item_id: Seq<char>) -> bool {
    items_in(m, ns).dom().contains(encode_utf8(item_id))
}

/// The store after a read. Only a read that finds something is counted.
pub open spec fn after_get(m: StoreModel, ns: Seq<u8>, item_id: Seq<char>) -> StoreModel {
    if holds(m, ns, item_id) {
        StoreModel { usage: Usage { reads: (m.usage.reads + 1) as u128, ..m.usage }, ..m }
    } else {
        m
    }
}

/// The store after a search.
pub open spec fn after_search(m: StoreModel) -> StoreModel {
    StoreModel { usage: Usage { searches: (m.usage.searches + 1) as u128, ..m.usage }, ..m }
}

/// The store after a deletion. Counted whether or not anything was there: the user asked, and the
/// count is meant to reflect requests billed, not a flattering subset of them.
pub open spec fn after_forget(m: StoreModel, ns: Seq<u8>, item_id: Seq<char>) -> StoreModel {
    StoreModel {
        items: if m.items.dom().contains(ns) {
            m.items.insert(ns, m.items[ns].remove(encode_utf8(item_id)))
        } else {
            m.items
        },
        usage: Usage { forgets: (m.usage.forgets + 1) as u128, ..m.usage },
        ..m
    }
}

/// Whether an item is to be kept at a time: it never expires, or not yet.
pub open spec fn unexpired(item: ItemView, now: u64) -> bool {
    match item.expires_at {
        None => true,
        Some(e) => e > now,
    }
}

/// The items of a namespace that are to be kept at a time.
pub open spec fn kept_items(items: Map<Seq<u8>, ItemView>, now: u64) -> Map<Seq<u8>, ItemView> {
    Map::new(
        |k: Seq<u8>| items.dom().contains(k) && unexpired(items[k], now),
        |k: Seq<u8>| items[k],
    )
}

/// The ids in a namespace that have expired at a time.
pub open spec fn expired_ids(items: Map<Seq<u8>, ItemView>, now: u64) -> Set<Seq<u8>> {
    Set::new(|k: Seq<u8>| items.dom().contains(k) && !unexpired(items[k], now))
}

/// The store after expired items have been dropped.
pub open spec fn after_gc(m: StoreModel, now: u64) -> StoreModel {
    StoreModel {
        items: m.items.map_values(|items: Map<Seq<u8>, ItemView>| kept_items(items, now)),
        ..m
    }
}

/// Every expired item: its namespace and its id.
pub open spec fn expired_items(m: StoreModel, now: u64) -> Set<(Seq<u8>, Seq<u8>)> {
    Set::new(
        |p: (Seq<u8>, Seq<u8>)|
            m.items.dom().contains(p.0) && expired_ids(m.items[p.0], now).contains(p.1),
    )
}

/// Whether every item of a namespace was written under the blind index.
pub open spec fn end_to_end(m: StoreModel, ns: Seq<u8>) -> bool {
    forall|k: Seq<u8>| #[trigger]
        items_in(m, ns).dom().contains(k) ==> items_in(m, ns)[k].mode == IndexMode::BlindIndex
}

/// How many of an item's tokens are among those asked for.
pub open spec fn shared_tokens(tokens: Seq<Seq<u8>>, query: Seq<Seq<u8>>) -> nat
    decreases tokens.len(),
{
    if tokens.len() == 0 {
        0
    } else {
        shared_tokens(tokens.drop_last(), query) + (if query.contains(tokens.last()) {
            1nat
        } else {
            0nat
        })
    }
}

/// The hit that an item makes for a query.
pub open spec fn candidate_of(item: ItemView, query: Seq<Seq<u8>>) -> CandidateView {
    CandidateView {
        item_id: item.item_id,
        sealed: item.sealed,
        shared_bands: shared_tokens(item.tokens, query),
    }
}

/// Most shared bands first; ties break on the item id so results are stable.
pub open spec fn outranks(a: CandidateView, b: CandidateView) -> bool {
    ||| a.shared_bands > b.shared_bands
    ||| a.shared_bands == b.shared_bands && bytes_before(
        encode_utf8(a.item_id),
        encode_utf8(b.item_id),
    )
}

/// What a search of a namespace answers: items that share at least one token with the query, best
/// first, never more than the limit, and none left out that outranks one returned or that there
/// was still room for.
pub open spec fn is_search_result(
    items: Map<Seq<u8>, ItemView>,
    query: Seq<Seq<u8>>,
    limit: nat,
    hits: Seq<CandidateView>,
) -> bool {
    &&& hits.len() <= limit
    &&& forall|i: int|
        0 <= i < hits.len() ==> {
            let k = encode_utf8((#[trigger] hits[i]).item_id);
            &&& items.dom().contains(k)
            &&& hits[i] == candidate_of(items[k], query)
            &&& hits[i].shared_bands > 0
        }
    &&& forall|i: int, j: int|
        #![trigger hits[i], hits[j]]
        0 <= i < j < hits.len() ==> outranks(hits[i], hits[j])
    &&& forall|k: Seq<u8>| #[trigger]
        items.dom().contains(k) && shared_tokens(items[k].tokens, query) > 0 && !hits.contains(
            candidate_of(items[k], query),
        ) ==> hits.len() == limit && forall|i: int|
            0 <= i < hits.len() ==> outranks(#[trigger] hits[i], candidate_of(items[k], query))
}

/// The provider-side contract. Deliberately small.
pub trait MemoryStore {
    /// Whether the store is in order.
    spec fn wf(&self) -> bool;

    /// What the store holds.
    spec fn model(&self) -> StoreModel;

    /// Stores an item, in place of any with the same id.
    fn put(&mut self, ns: &NamespaceHandle, item: StoredItem) -> (r: Result<(), StoreError>)
        requires
            old(self).wf(),
            old(self).model().usage.writes < u128::MAX,
        ensures
            final(self).wf(),
            final(self).model() == after_put(old(self).model(), ns@, item@),
            match r {
                Ok(_) => !over_capacity(old(self).model(), ns@, item@.item_id),
                Err(e) => {
                    &&& over_capacity(old(self).model(), ns@, item@.item_id)
                    &&& e == StoreError::AtCapacity(old(self).model().capacity[ns@])
                },
            },
    ;

    /// Fetches an item by id.
    fn get(&mut self, ns: &NamespaceHandle, item_id: &str) -> (r: Result<SealedItem, StoreError>)
        requires
            old(self).wf(),
            old(self).model().usage.reads < u128::MAX,
        ensures
            final(self).wf(),
            final(self).model() == after_get(old(self).model(), ns@, item_id@),
            match r {
                Ok(sealed) => {
                    &&& holds(old(self).model(), ns@, item_id@)
                    &&& sealed@ == items_in(old(self).model(), ns@)[encode_utf8(item_id@)].sealed
                },
                Err(e) => !holds(old(self).model(), ns@, item_id@) && e == StoreError::NotFound,
            },
    ;

    /// Candidates sharing at least one bucket token, best first. Never more than `limit`, and none
    /// that has expired at `now`, in Unix seconds.
    fn search(
        &mut self,
        ns: &NamespaceHandle,
        tokens: &[BucketToken],
        limit: usize,
        now: u64,
    ) -> (r: Vec<Candidate>)
        requires
            old(self).wf(),
            old(self).model().usage.searches < u128::MAX,
        ensures
            final(self).wf(),
            final(self).model() == after_search(old(self).model()),
            is_search_result(
                kept_items(items_in(old(self).model(), ns@), now),
                token_views(tokens@),
                limit as nat,
                candidate_views(r@),
            ),
    ;

    /// Returns whether anything was actually removed. A provider that bills for deletion and
    /// removes nothing is committing ordinary fraud and no store can prevent it; this at least
    /// makes the local truth unambiguous.
    fn forget(&mut self, ns: &NamespaceHandle, item_id: &str) -> (r: bool)
        requires
            old(self).wf(),
            old(self).model().usage.forgets < u128::MAX,
        ensures
            final(self).wf(),
            final(self).model() == after_forget(old(self).model(), ns@, item_id@),
            r == holds(old(self).model(), ns@, item_id@),
    ;

    /// Drops expired items. Returns how many.
    fn gc(&mut self, now: u64) -> (r: usize)
        requires
            old(self).wf(),
            expired_items(old(self).model(), now).len() <= usize::MAX,
        ensures
            final(self).wf(),
            final(self).model() == after_gc(old(self).model(), now),
            r == expired_items(old(self).model(), now).len(),
    ;

    /// The counters so far.
    fn usage(&self) -> (r: Usage)
        ensures
            r == self.model().usage,
    ;

    /// True when every item in the namespace was written under the blind index, that is, the
    /// namespace can still honestly be described as end-to-end encrypted.
    fn is_e2e(&self, ns: &NamespaceHandle) -> (r: bool)
        requires
            self.wf(),
        ensures
            r == end_to_end(self.model(), ns@),
    ;
}

/// Two results of one search that agree up to a place do not part there: the second has a hit there
/// too, and the first's does not outrank it.
proof fn hits_agree_at(
    items: Map<Seq<u8>, ItemView>,
    query: Seq<Seq<u8>>,
    limit: nat,
    a: Seq<CandidateView>,
    b: Seq<CandidateView>,
    i: int,
)
    requires
        is_search_result(items, query, limit, a),
        is_search_result(items, query, limit, b),
        0 <= i < a.len(),
        i <= b.len(),
        forall|j: int| 0 <= j < i ==> a[j] == b[j],
    ensures
        i < b.len(),
        i < b.len() ==> !outranks(a[i], b[i]),
{
    let x = a[i];
    bytes_before_is_total(encode_utf8(x.item_id), encode_utf8(x.item_id));
    if b.contains(x) {
        let j = b.index_of(x);
        assert(b[j] == x);
        if j < i {
            assert(a[j] == x);
            assert(outranks(a[j], a[i]));
            assert(false);
        }
        if i < b.len() && outranks(x, b[i]) {
            bytes_before_is_total(encode_utf8(x.item_id), encode_utf8(b[i].item_id));
            if j > i {
                assert(outranks(b[i], b[j]));
            }
            assert(false);
        }
    } else {
        let k = encode_utf8(x.item_id);
        assert(items.dom().contains(k));
        assert(x == candidate_of(items[k], query));
        assert(b.len() == limit);
        if i < b.len() && outranks(x, b[i]) {
            assert(outranks(b[i], x));
            bytes_before_is_total(encode_utf8(x.item_id), encode_utf8(b[i].item_id));
            assert(false);
        }
    }
}

/// Two results of one search agree as far as the first of them goes.
proof fn hits_agree_up_to(
    items: Map<Seq<u8>, ItemView>,
    query: Seq<Seq<u8>>,
    limit: nat,
    a: Seq<CandidateView>,
    b: Seq<CandidateView>,
    n: int,
)
    requires
        is_search_result(items, query, limit, a),
        is_search_result(items, query, limit, b),
        0 <= n <= a.len(),
    ensures
        n <= b.len(),
        forall|j: int| 0 <= j < n ==> a[j] == b[j],
    decreases n,
{
    if n > 0 {
        hits_agree_up_to(items, query, limit, a, b, n - 1);
        hits_agree_at(items, query, limit, a, b, n - 1);
        hits_agree_at(items, query, limit, b, a, n - 1);
        let x = a[n - 1];
        let y = b[n - 1];
        bytes_before_is_total(encode_utf8(x.item_id), encode_utf8(y.item_id));
        if x.item_id != y.item_id && encode_utf8(x.item_id) == encode_utf8(y.item_id) {
            utf8_is_injective(x.item_id, y.item_id);
        }
        assert(x == candidate_of(items[encode_utf8(x.item_id)], query));
        assert(y == candidate_of(items[encode_utf8(y.item_id)], query));
    }
}

/// Search results are stable: identical queries of identical contents give identical answers.
pub proof fn law_search_results_are_unique(
    items: Map<Seq<u8>, ItemView>,
    query: Seq<Seq<u8>>,
    limit: nat,
    a: Seq<CandidateView>,
    b: Seq<CandidateView>,
)
    requires
        is_search_result(items, query, limit, a),
        is_search_result(items, query, limit, b),
    ensures
        a == b,
{
    hits_agree_up_to(items, query, limit, a, b, a.len() as int);
    hits_agree_up_to(items, query, limit, b, a, b.len() as int);
    assert(a =~= b);
}

/// An item one of whose tokens is asked for shares it.
pub proof fn a_token_asked_for_is_shared(tokens: Seq<Seq<u8>>, query: Seq<Seq<u8>>, i: int)
    requires
        0 <= i < tokens.len(),
        query.contains(tokens[i]),
    ensures
        shared_tokens(tokens, query) > 0,
    decreases tokens.len(),
{
    if i < tokens.len() - 1 {
        assert(tokens.drop_last()[i] == tokens[i]);
        a_token_asked_for_is_shared(tokens.drop_last(), query, i);
    }
}

/// Tokens share all of themselves with themselves.
pub proof fn shared_with_itself(tokens: Seq<Seq<u8>>, query: Seq<Seq<u8>>)
    requires
        forall|i: int| 0 <= i < tokens.len() ==> query.contains(#[trigger] tokens[i]),
    ensures
        shared_tokens(tokens, query) == tokens.len(),
    decreases tokens.len(),
{
    if tokens.len() > 0 {
        assert(query.contains(tokens[tokens.len() - 1]));
        assert forall|i: int| 0 <= i < tokens.drop_last().len() implies query.contains(
            #[trigger] tokens.drop_last()[i],
        ) by {
            assert(query.contains(tokens[i]));
        }
        shared_with_itself(tokens.drop_last(), query);
    }
}

/// Searching by exactly the tokens of a held item finds it, with every one of them shared, unless
/// as many items as the limit outrank it.
pub proof fn law_items_are_found_by_their_own_tokens(
    items: Map<Seq<u8>, ItemView>,
    key: Seq<u8>,
    limit: nat,
    hits: Seq<CandidateView>,
)
    requires
        items.dom().contains(key),
        items[key].tokens.len() > 0,
        is_search_result(items, items[key].tokens, limit, hits),
    ensures
        candidate_of(items[key], items[key].tokens).shared_bands == items[key].tokens.len(),
        hits.contains(candidate_of(items[key], items[key].tokens)) || (hits.len() == limit
            && forall|i: int|
            0 <= i < hits.len() ==> outranks(
                #[trigger] hits[i],
                candidate_of(items[key], items[key].tokens),
            )),
{
    shared_with_itself(items[key].tokens, items[key].tokens);
}

/// One request to a store.
pub enum Step {
    Put(Seq<u8>, ItemView),
    Get(Seq<u8>, Seq<char>),
    Search,
    Forget(Seq<u8>, Seq<char>),
    Collect(u64),
}

/// The store after a request.
pub open spec fn after_step(m: StoreModel, step: Step) -> StoreModel {
    match step {
        Step::Put(ns, item) => after_put(m, ns, item),
        Step::Get(ns, item_id) => after_get(m, ns, item_id),
        Step::Search => after_search(m),
        Step::Forget(ns, item_id) => after_forget(m, ns, item_id),
        Step::Collect(now) => after_gc(m, now),
    }
}

/// The store after a run of requests.
pub open spec fn after_steps(m: StoreModel, steps: Seq<Step>) -> StoreModel
    decreases steps.len(),
{
    if steps.len() == 0 {
        m
    } else {
        after_step(after_steps(m, steps.drop_last()), steps.last())
    }
}

/// The ids that a run of requests leaves in a namespace: those written to it that were not refused
/// and not removed since by a deletion or, once expired, a collection.
pub open spec fn ids_left(m: StoreModel, steps: Seq<Step>, ns: Seq<u8>) -> Set<Seq<u8>>
    decreases steps.len(),
{
    if steps.len() == 0 {
        items_in(m, ns).dom()
    } else {
        let before = after_steps(m, steps.drop_last());
        let ids = ids_left(m, steps.drop_last(), ns);
        match steps.last() {
            Step::Put(to, item) => if to == ns && !over_capacity(before, ns, item.item_id) {
                ids.insert(encode_utf8(item.item_id))
            } else {
                ids
            },
            Step::Forget(from, item_id) => if from == ns {
                ids.remove(encode_utf8(item_id))
            } else {
                ids
            },
            Step::Collect(now) => ids.difference(expired_ids(items_in(before, ns), now)),
            Step::Get(_, _) | Step::Search => ids,
        }
    }
}

/// A namespace within its committed capacity stays within it through any run of requests, in any
/// namespaces, and holds exactly the ids that were written and not since removed.
pub proof fn law_capacity_outlasts_any_requests(m: StoreModel, ns: Seq<u8>, steps: Seq<Step>)
    requires
        m.capacity.dom().contains(ns),
        items_in(m, ns).dom().finite(),
        items_in(m, ns).len() <= m.capacity[ns],
    ensures
        after_steps(m, steps).capacity == m.capacity,
        items_in(after_steps(m, steps), ns).dom() == ids_left(m, steps, ns),
        ids_left(m, steps, ns).finite(),
        ids_left(m, steps, ns).len() <= m.capacity[ns],
    decreases steps.len(),
{
    if steps.len() > 0 {
        law_capacity_outlasts_any_requests(m, ns, steps.drop_last());
        let before = after_steps(m, steps.drop_last());
        let after = after_steps(m, steps);
        let held = items_in(before, ns).dom();
        match steps.last() {
            Step::Put(to, item) => {
                law_capacity_is_never_exceeded(before, ns, item, item.item_id, 0);
                if to != ns {
                    law_namespaces_are_isolated(before, to, ns, item, item.item_id);
                }
            },
            Step::Get(_, _) => {},
            Step::Search => {},
            Step::Forget(from, item_id) => {
                vstd::set_lib::lemma_len_subset(items_in(after, ns).dom(), held);
            },
            Step::Collect(now) => {
                vstd::set_lib::lemma_len_subset(items_in(after, ns).dom(), held);
            },
        }
        assert(items_in(after, ns).dom() =~= ids_left(m, steps, ns));
    }
}

/// A new store with a capacity set never holds more in that namespace, whatever it is asked.
pub proof fn law_new_stores_keep_to_their_capacity(ns: Seq<u8>, max_items: u64, steps: Seq<Step>)
    ensures
        ({
            let m = StoreModel {
                capacity: empty_store().capacity.insert(ns, max_items),
                ..empty_store()
            };
            &&& items_in(after_steps(m, steps), ns).dom() == ids_left(m, steps, ns)
            &&& items_in(after_steps(m, steps), ns).dom().finite()
            &&& items_in(after_steps(m, steps), ns).len() <= max_items
        }),
{
    let m = StoreModel {
        capacity: empty_store().capacity.insert(ns, max_items),
        ..empty_store()
    };
    assert(items_in(m, ns).dom() =~= Set::empty());
    law_capacity_outlasts_any_requests(m, ns, steps);
}

/// Whether a request leaves an item of a namespace as it is: it neither overwrites nor deletes it,
/// and does not collect it.
pub open spec fn spares(step: Step, ns: Seq<u8>, item: ItemView) -> bool {
    match step {
        Step::Put(to, other) => to != ns || other.item_id != item.item_id,
        Step::Forget(from, item_id) => from != ns || item_id != item.item_id,
        Step::Collect(now) => unexpired(item, now),
        Step::Get(_, _) | Step::Search => true,
    }
}

/// A held item stays as it is through any run of requests that neither overwrites nor deletes it
/// nor collects it once it has expired.
pub proof fn law_items_last_until_they_are_touched(
    m: StoreModel,
    ns: Seq<u8>,
    item: ItemView,
    steps: Seq<Step>,
)
    requires
        holds(m, ns, item.item_id),
        items_in(m, ns)[encode_utf8(item.item_id)] == item,
        forall|i: int| 0 <= i < steps.len() ==> spares(#[trigger] steps[i], ns, item),
    ensures
        holds(after_steps(m, steps), ns, item.item_id),
        items_in(after_steps(m, steps), ns)[encode_utf8(item.item_id)] == item,
    decreases steps.len(),
{
    if steps.len() > 0 {
        let rest = steps.drop_last();
        assert forall|i: int| 0 <= i < rest.len() implies spares(#[trigger] rest[i], ns, item) by {
            assert(rest[i] == steps[i]);
        }
        law_items_last_until_they_are_touched(m, ns, item, rest);
        let before = after_steps(m, rest);
        assert(spares(steps[steps.len() - 1], ns, item));
        match steps.last() {
            Step::Put(to, other) => {
                if to == ns {
                    law_writes_leave_other_items_alone(before, ns, other, item.item_id);
                }
            },
            Step::Forget(from, item_id) => {
                if from == ns && encode_utf8(item_id) == encode_utf8(item.item_id) {
                    utf8_is_injective(item_id, item.item_id);
                }
            },
            _ => {},
        }
    }
}

/// The places of a run of tokens whose token is asked for.
pub open spec fn places_asked_for(tokens: Seq<Seq<u8>>, query: Seq<Seq<u8>>) -> Set<int> {
    Set::new(|i: int| 0 <= i < tokens.len() && query.contains(tokens[i]))
}

/// How many tokens an item shares is at how many places its token is asked for.
pub proof fn law_shared_tokens_are_the_places_asked_for(tokens: Seq<Seq<u8>>, query: Seq<Seq<u8>>)
    ensures
        places_asked_for(tokens, query).finite(),
        shared_tokens(tokens, query) == places_asked_for(tokens, query).len(),
    decreases tokens.len(),
{
    let all = places_asked_for(tokens, query);
    if tokens.len() == 0 {
        assert(all =~= Set::empty());
    } else {
        let n = tokens.len() - 1;
        let rest = places_asked_for(tokens.drop_last(), query);
        law_shared_tokens_are_the_places_asked_for(tokens.drop_last(), query);
        assert forall|i: int| 0 <= i < n implies tokens.drop_last()[i] == tokens[i] by {}
        if query.contains(tokens.last()) {
            assert(all =~= rest.insert(n));
        } else {
            assert(all =~= rest);
        }
    }
}

/// Shared tokens add up: an item whose tokens are two runs shares what the one shares and what the
/// other does, and a single token counts once where it is asked for.
pub proof fn law_shared_tokens_add_up(a: Seq<Seq<u8>>, b: Seq<Seq<u8>>, query: Seq<Seq<u8>>)
    ensures
        shared_tokens(a + b, query) == shared_tokens(a, query) + shared_tokens(b, query),
        b.len() == 1 ==> shared_tokens(b, query) == if query.contains(b[0]) {
            1nat
        } else {
            0nat
        },
    decreases b.len(),
{
    if b.len() == 0 {
        assert(a + b =~= a);
    } else {
        assert((a + b).drop_last() =~= a + b.drop_last());
        assert((a + b).last() == b.last());
        law_shared_tokens_add_up(a, b.drop_last(), query);
        if b.len() == 1 {
            assert(shared_tokens(b.drop_last(), query) == 0);
        }
    }
}

/// Whether one id stands before another where as many tokens are shared.
pub open spec fn id_before(a: Seq<char>, b: Seq<char>) -> bool {
    bytes_before(encode_utf8(a), encode_utf8(b))
}

/// A search returns the best: each hit is an item held that has not expired and shares a token, and
/// says at how many places; hits stand by that number, largest first, and by their ids where it is
/// the same; and an item that shares a token and has not expired is left out only where the limit
/// was reached with hits that all stand before it.
pub proof fn law_searches_return_the_best(
    items: Map<Seq<u8>, ItemView>,
    query: Seq<Seq<u8>>,
    limit: nat,
    now: u64,
    hits: Seq<CandidateView>,
)
    requires
        forall|k: Seq<u8>| #[trigger]
            items.dom().contains(k) ==> k == encode_utf8(items[k].item_id),
        is_search_result(kept_items(items, now), query, limit, hits),
    ensures
        hits.len() <= limit,
        forall|i: int|
            0 <= i < hits.len() ==> {
                let item = items[encode_utf8((#[trigger] hits[i]).item_id)];
                &&& items.dom().contains(encode_utf8(hits[i].item_id))
                &&& item.expires_at is None || item.expires_at->0 > now
                &&& hits[i].item_id == item.item_id
                &&& hits[i].sealed == item.sealed
                &&& hits[i].shared_bands == places_asked_for(item.tokens, query).len()
                &&& hits[i].shared_bands > 0
            },
        forall|i: int, j: int|
            #![trigger hits[i], hits[j]]
            0 <= i < j < hits.len() ==> hits[i].shared_bands > hits[j].shared_bands || (
            hits[i].shared_bands == hits[j].shared_bands && id_before(
                hits[i].item_id,
                hits[j].item_id,
            )),
        forall|k: Seq<u8>| #[trigger]
            items.dom().contains(k) && (items[k].expires_at is None || items[k].expires_at->0
                > now) && places_asked_for(items[k].tokens, query).len() > 0 && (forall|i: int|
                0 <= i < hits.len() ==> (#[trigger] hits[i]).item_id != items[k].item_id)
                ==> hits.len() == limit && forall|i: int|
                0 <= i < hits.len() ==> (#[trigger] hits[i]).shared_bands > places_asked_for(
                    items[k].tokens,
                    query,
                ).len() || (hits[i].shared_bands == places_asked_for(items[k].tokens, query).len()
                    && id_before(hits[i].item_id, items[k].item_id)),
{
    let kept = kept_items(items, now);
    assert forall|k: Seq<u8>| #[trigger] items.dom().contains(k) implies shared_tokens(
        items[k].tokens,
        query,
    ) == places_asked_for(items[k].tokens, query).len() by {
        law_shared_tokens_are_the_places_asked_for(items[k].tokens, query);
    }
    assert forall|i: int| 0 <= i < hits.len() implies {
        let item = items[encode_utf8((#[trigger] hits[i]).item_id)];
        &&& items.dom().contains(encode_utf8(hits[i].item_id))
        &&& item.expires_at is None || item.expires_at->0 > now
        &&& hits[i].item_id == item.item_id
        &&& hits[i].sealed == item.sealed
        &&& hits[i].shared_bands == places_asked_for(item.tokens, query).len()
        &&& hits[i].shared_bands > 0
    } by {
        let k = encode_utf8(hits[i].item_id);
        assert(kept.dom().contains(k));
        assert(items.dom().contains(k));
    }
    assert forall|k: Seq<u8>| #[trigger]
        items.dom().contains(k) && (items[k].expires_at is None || items[k].expires_at->0 > now)
            && places_asked_for(items[k].tokens, query).len() > 0 && (forall|i: int|
            0 <= i < hits.len() ==> (#[trigger] hits[i]).item_id
                != items[k].item_id) implies hits.len() == limit && forall|i: int|
        0 <= i < hits.len() ==> (#[trigger] hits[i]).shared_bands > places_asked_for(
            items[k].tokens,
            query,
        ).len() || (hits[i].shared_bands == places_asked_for(items[k].tokens, query).len()
            && id_before(hits[i].item_id, items[k].item_id)) by {
        assert(kept.dom().contains(k));
        assert(kept[k] == items[k]);
        let c = candidate_of(items[k], query);
        if hits.contains(c) {
            let i = hits.index_of(c);
            assert(hits[i].item_id == items[k].item_id);
        }
        assert forall|i: int| 0 <= i < hits.len() implies (#[trigger] hits[i]).shared_bands
            > places_asked_for(items[k].tokens, query).len() || (hits[i].shared_bands
            == places_asked_for(items[k].tokens, query).len() && id_before(
            hits[i].item_id,
            items[k].item_id,
        )) by {
            assert(outranks(hits[i], c));
        }
    }
}

/// An item is kept until its second has come and never after: without an expiry always, and with
/// one exactly at the times before it.
pub proof fn law_items_expire_at_their_second(
    items: Map<Seq<u8>, ItemView>,
    now: u64,
    k: Seq<u8>,
)
    ensures
        kept_items(items, now).dom().contains(k) <==> items.dom().contains(k) && (
        items[k].expires_at is None || now < items[k].expires_at->0),
        kept_items(items, now).dom().contains(k) ==> kept_items(items, now)[k] == items[k],
        expired_ids(items, now).contains(k) <==> items.dom().contains(k)
            && items[k].expires_at is Some && items[k].expires_at->0 <= now,
{
}

/// Collecting drops what has expired and nothing else, namespace by namespace, and leaves the
/// capacities and the counters alone.
pub proof fn law_collection_leaves_the_rest_alone(m: StoreModel, now: u64, ns: Seq<u8>, k: Seq<u8>)
    ensures
        items_in(after_gc(m, now), ns).dom().contains(k) <==> items_in(m, ns).dom().contains(k) && (
        items_in(m, ns)[k].expires_at is None || now < items_in(m, ns)[k].expires_at->0),
        items_in(after_gc(m, now), ns).dom().contains(k) ==> items_in(after_gc(m, now), ns)[k]
            == items_in(m, ns)[k],
        after_gc(m, now).capacity == m.capacity,
        after_gc(m, now).usage == m.usage,
        expired_items(m, now).contains((ns, k)) <==> items_in(m, ns).dom().contains(k)
            && !items_in(after_gc(m, now), ns).dom().contains(k),
{
}

/// A write is refused exactly where it would grow a full namespace: never without a capacity, never
/// where it overwrites, never while there is room, and otherwise always.
pub proof fn law_writes_are_refused_only_when_full(m: StoreModel, ns: Seq<u8>, item: ItemView)
    ensures
        !m.capacity.dom().contains(ns) ==> !over_capacity(m, ns, item.item_id),
        holds(m, ns, item.item_id) ==> !over_capacity(m, ns, item.item_id),
        m.capacity.dom().contains(ns) && items_in(m, ns).len() < m.capacity[ns] ==> !over_capacity(
            m,
            ns,
            item.item_id,
        ),
        m.capacity.dom().contains(ns) && items_in(m, ns).len() >= m.capacity[ns] && !holds(
            m,
            ns,
            item.item_id,
        ) ==> over_capacity(m, ns, item.item_id),
{
}

/// An accepted write puts the item under its id, replacing what stood there, and touches nothing
/// else: every other item of every namespace, and every capacity, stays as it was. It is counted
/// once.
pub proof fn law_writes_touch_one_item(
    m: StoreModel,
    ns: Seq<u8>,
    item: ItemView,
    other: Seq<u8>,
    k: Seq<u8>,
)
    requires
        !over_capacity(m, ns, item.item_id),
        m.usage.writes < u128::MAX,
    ensures
        items_in(after_put(m, ns, item), ns)[encode_utf8(item.item_id)] == item,
        items_in(after_put(m, ns, item), other).dom().contains(k) <==> items_in(
            m,
            other,
        ).dom().contains(k) || (other == ns && k == encode_utf8(item.item_id)),
        (other != ns || k != encode_utf8(item.item_id)) && items_in(m, other).dom().contains(k)
            ==> items_in(after_put(m, ns, item), other)[k] == items_in(m, other)[k],
        after_put(m, ns, item).capacity == m.capacity,
        after_put(m, ns, item).usage.writes == m.usage.writes + 1,
        after_put(m, ns, item).usage.reads == m.usage.reads,
        after_put(m, ns, item).usage.searches == m.usage.searches,
        after_put(m, ns, item).usage.forgets == m.usage.forgets,
{
}

/// A deletion takes the item it names and nothing else: every other item of every namespace, and
/// every capacity, stays as it was.
pub proof fn law_deletions_touch_one_item(
    m: StoreModel,
    ns: Seq<u8>,
    item_id: Seq<char>,
    other: Seq<u8>,
    k: Seq<u8>,
)
    ensures
        items_in(after_forget(m, ns, item_id), other).dom().contains(k) <==> items_in(
            m,
            other,
        ).dom().contains(k) && !(other == ns && k == encode_utf8(item_id)),
        items_in(after_forget(m, ns, item_id), other).dom().contains(k) ==> items_in(
            after_forget(m, ns, item_id),
            other,
        )[k] == items_in(m, other)[k],
        after_forget(m, ns, item_id).capacity == m.capacity,
{
}

/// Reading and searching change nothing but their own counter: a search by one, and a read by one
/// where it finds something.
pub proof fn law_asking_changes_only_its_counter(m: StoreModel, ns: Seq<u8>, item_id: Seq<char>)
    requires
        can_count(m.usage),
    ensures
        after_get(m, ns, item_id).items == m.items,
        after_get(m, ns, item_id).capacity == m.capacity,
        after_get(m, ns, item_id).usage.reads == m.usage.reads + (if items_in(
            m,
            ns,
        ).dom().contains(encode_utf8(item_id)) {
            1int
        } else {
            0int
        }),
        after_get(m, ns, item_id).usage.writes == m.usage.writes,
        after_get(m, ns, item_id).usage.searches == m.usage.searches,
        after_get(m, ns, item_id).usage.forgets == m.usage.forgets,
        after_search(m).items == m.items,
        after_search(m).capacity == m.capacity,
        after_search(m).usage.searches == m.usage.searches + 1,
        after_search(m).usage.writes == m.usage.writes,
        after_search(m).usage.reads == m.usage.reads,
        after_search(m).usage.forgets == m.usage.forgets,
{
}

/// The end-to-end claim stands exactly while no item of the namespace was indexed by plaintext
/// vectors.
pub proof fn law_the_claim_needs_every_item(m: StoreModel, ns: Seq<u8>)
    ensures
        end_to_end(m, ns) <==> !exists|k: Seq<u8>| #[trigger]
            items_in(m, ns).dom().contains(k) && items_in(m, ns)[k].mode
                == IndexMode::PlaintextVectors,
{
    if !end_to_end(m, ns) {
        let k = choose|k: Seq<u8>| #[trigger]
            items_in(m, ns).dom().contains(k) && items_in(m, ns)[k].mode != IndexMode::BlindIndex;
        assert(items_in(m, ns).dom().contains(k));
    }
}

/// Expired items are never found: whatever a search at a time returns is held and has not expired.
pub proof fn law_expired_items_are_not_found(
    items: Map<Seq<u8>, ItemView>,
    query: Seq<Seq<u8>>,
    limit: nat,
    now: u64,
    hits: Seq<CandidateView>,
)
    requires
        is_search_result(kept_items(items, now), query, limit, hits),
    ensures
        forall|i: int|
            0 <= i < hits.len() ==> {
                let key = encode_utf8((#[trigger] hits[i]).item_id);
                &&& items.dom().contains(key)
                &&& unexpired(items[key], now)
            },
{
}

/// A search does not depend on whether the expired items have been collected.
pub proof fn law_collection_changes_no_search(m: StoreModel, ns: Seq<u8>, now: u64)
    ensures
        kept_items(items_in(after_gc(m, now), ns), now) == kept_items(items_in(m, ns), now),
{
    assert(kept_items(items_in(after_gc(m, now), ns), now) =~= kept_items(items_in(m, ns), now));
}

/// Queries with the same tokens, in any order and with any repeats, share as many with an item.
proof fn same_tokens_share_alike(tokens: Seq<Seq<u8>>, p: Seq<Seq<u8>>, q: Seq<Seq<u8>>)
    requires
        forall|t: Seq<u8>| p.contains(t) <==> q.contains(t),
    ensures
        shared_tokens(tokens, p) == shared_tokens(tokens, q),
    decreases tokens.len(),
{
    if tokens.len() > 0 {
        same_tokens_share_alike(tokens.drop_last(), p, q);
        assert(p.contains(tokens.last()) <==> q.contains(tokens.last()));
    }
}

/// A smaller limit only cuts the tail of an answer, and neither the order nor the repetition of
/// the tokens asked for changes it.
pub proof fn law_smaller_limits_cut_the_tail(
    items: Map<Seq<u8>, ItemView>,
    p: Seq<Seq<u8>>,
    q: Seq<Seq<u8>>,
    a: nat,
    b: nat,
    fewer: Seq<CandidateView>,
    more: Seq<CandidateView>,
)
    requires
        a <= b,
        forall|t: Seq<u8>| p.contains(t) <==> q.contains(t),
        is_search_result(items, p, a, fewer),
        is_search_result(items, q, b, more),
    ensures
        fewer == more.take(
            if a <= more.len() {
                a as int
            } else {
                more.len() as int
            },
        ),
{
    let n = if a <= more.len() {
        a as int
    } else {
        more.len() as int
    };
    let cut = more.take(n);
    assert forall|k: Seq<u8>| items.dom().contains(k) implies #[trigger] candidate_of(items[k], p)
        == candidate_of(items[k], q) by {
        same_tokens_share_alike(items[k].tokens, p, q);
    }
    assert forall|i: int| 0 <= i < cut.len() implies {
        let k = encode_utf8((#[trigger] cut[i]).item_id);
        &&& items.dom().contains(k)
        &&& cut[i] == candidate_of(items[k], p)
        &&& cut[i].shared_bands > 0
    } by {
        assert(cut[i] == more[i]);
        let k = encode_utf8(more[i].item_id);
        assert(more[i] == candidate_of(items[k], q));
        assert(candidate_of(items[k], p) == candidate_of(items[k], q));
    }
    assert forall|i: int, j: int|
        #![trigger cut[i], cut[j]]
        0 <= i < j < cut.len() implies outranks(cut[i], cut[j]) by {
        assert(outranks(more[i], more[j]));
    }
    assert forall|k: Seq<u8>| #[trigger]
        items.dom().contains(k) && shared_tokens(items[k].tokens, p) > 0 && !cut.contains(
            candidate_of(items[k], p),
        ) implies cut.len() == a && forall|i: int|
        0 <= i < cut.len() ==> outranks(#[trigger] cut[i], candidate_of(items[k], p)) by {
        same_tokens_share_alike(items[k].tokens, p, q);
        let c = candidate_of(items[k], q);
        assert(candidate_of(items[k], p) == c);
        if more.contains(c) {
            let at = more.index_of(c);
            assert(more[at] == c);
            if at < n {
                assert(cut[at] == c);
            }
            assert forall|i: int| 0 <= i < cut.len() implies outranks(#[trigger] cut[i], c) by {
                assert(outranks(more[i], more[at]));
            }
        } else {
            assert forall|i: int| 0 <= i < cut.len() implies outranks(#[trigger] cut[i], c) by {
                assert(cut[i] == more[i]);
            }
        }
    }
    law_search_results_are_unique(items, p, a, fewer, cut);
}

/// A write that is not refused can be read back.
pub proof fn law_stored_items_are_held(m: StoreModel, ns: Seq<u8>, item: ItemView)
    requires
        !over_capacity(m, ns, item.item_id),
    ensures
        holds(after_put(m, ns, item), ns, item.item_id),
        items_in(after_put(m, ns, item), ns)[encode_utf8(item.item_id)] == item,
{
}

/// A write touches its own id and nothing else in the namespace.
pub proof fn law_writes_leave_other_items_alone(
    m: StoreModel,
    ns: Seq<u8>,
    item: ItemView,
    other_id: Seq<char>,
)
    requires
        other_id != item.item_id,
    ensures
        holds(after_put(m, ns, item), ns, other_id) == holds(m, ns, other_id),
        holds(m, ns, other_id) ==> items_in(after_put(m, ns, item), ns)[encode_utf8(other_id)]
            == items_in(m, ns)[encode_utf8(other_id)],
{
    if encode_utf8(other_id) == encode_utf8(item.item_id) {
        utf8_is_injective(other_id, item.item_id);
    }
}

/// Namespaces do not see each other: what is written, read, searched or forgotten in one leaves the
/// items of every other as they were.
pub proof fn law_namespaces_are_isolated(
    m: StoreModel,
    ns: Seq<u8>,
    other: Seq<u8>,
    item: ItemView,
    item_id: Seq<char>,
)
    requires
        ns != other,
    ensures
        items_in(after_put(m, ns, item), other) == items_in(m, other),
        items_in(after_forget(m, ns, item_id), other) == items_in(m, other),
        items_in(after_get(m, ns, item_id), other) == items_in(m, other),
        items_in(after_search(m), other) == items_in(m, other),
{
}

/// A refused write stores nothing, removes nothing and is not counted.
pub proof fn law_refused_writes_change_no_item(
    m: StoreModel,
    ns: Seq<u8>,
    item: ItemView,
    any: Seq<u8>,
)
    requires
        over_capacity(m, ns, item.item_id),
    ensures
        items_in(after_put(m, ns, item), any) == items_in(m, any),
        after_put(m, ns, item).usage == m.usage,
{
}

/// An overwrite is never refused, and does not make the namespace any larger.
pub proof fn law_overwriting_is_not_growth(m: StoreModel, ns: Seq<u8>, item: ItemView)
    requires
        holds(m, ns, item.item_id),
        items_in(m, ns).dom().finite(),
    ensures
        !over_capacity(m, ns, item.item_id),
        items_in(after_put(m, ns, item), ns).len() == items_in(m, ns).len(),
{
    assert(items_in(m, ns).dom().insert(encode_utf8(item.item_id)) =~= items_in(m, ns).dom());
}

/// A namespace within its committed capacity stays within it, whatever is written to it, forgotten
/// from it or collected.
pub proof fn law_capacity_is_never_exceeded(
    m: StoreModel,
    ns: Seq<u8>,
    item: ItemView,
    item_id: Seq<char>,
    now: u64,
)
    requires
        m.capacity.dom().contains(ns),
        items_in(m, ns).dom().finite(),
        items_in(m, ns).len() <= m.capacity[ns],
    ensures
        items_in(after_put(m, ns, item), ns).len() <= m.capacity[ns],
        items_in(after_forget(m, ns, item_id), ns).len() <= m.capacity[ns],
        items_in(after_gc(m, now), ns).len() <= m.capacity[ns],
{
    if holds(m, ns, item.item_id) {
        law_overwriting_is_not_growth(m, ns, item);
    }
    let held = items_in(m, ns).dom();
    vstd::set_lib::lemma_len_subset(items_in(after_forget(m, ns, item_id), ns).dom(), held);
    vstd::set_lib::lemma_len_subset(items_in(after_gc(m, now), ns).dom(), held);
}

/// A forgotten item is gone: it is no longer held, no other item went with it, and no search of
/// the namespace at any time returns it.
pub proof fn law_forgotten_items_are_gone(
    m: StoreModel,
    ns: Seq<u8>,
    item_id: Seq<char>,
    other_id: Seq<char>,
    query: Seq<Seq<u8>>,
    limit: nat,
    now: u64,
    hits: Seq<CandidateView>,
)
    requires
        is_search_result(
            kept_items(items_in(after_forget(m, ns, item_id), ns), now),
            query,
            limit,
            hits,
        ),
    ensures
        !holds(after_forget(m, ns, item_id), ns, item_id),
        other_id != item_id ==> holds(after_forget(m, ns, item_id), ns, other_id) == holds(
            m,
            ns,
            other_id,
        ),
        forall|i: int| 0 <= i < hits.len() ==> (#[trigger] hits[i]).item_id != item_id,
{
    if encode_utf8(other_id) == encode_utf8(item_id) {
        utf8_is_injective(other_id, item_id);
    }
}

/// A deletion is counted whether or not it removed anything, and a read only where it found
/// something.
pub proof fn law_requests_are_counted(m: StoreModel, ns: Seq<u8>, item_id: Seq<char>)
    requires
        can_count(m.usage),
    ensures
        after_forget(m, ns, item_id).usage == (Usage {
            forgets: (m.usage.forgets + 1) as u128,
            ..m.usage
        }),
        !holds(m, ns, item_id) ==> after_get(m, ns, item_id).usage == m.usage,
        holds(m, ns, item_id) ==> after_get(m, ns, item_id).usage.reads == m.usage.reads + 1,
{
}

/// Collection leaves no expired item and takes no other, and collecting again changes nothing.
pub proof fn law_collection_drops_exactly_the_expired(m: StoreModel, now: u64)
    ensures
        expired_items(after_gc(m, now), now) == Set::<(Seq<u8>, Seq<u8>)>::empty(),
        forall|ns: Seq<u8>, k: Seq<u8>|
            m.items.dom().contains(ns) && m.items[ns].dom().contains(k) && unexpired(
                m.items[ns][k],
                now,
            ) ==> (#[trigger] after_gc(m, now).items[ns].dom().contains(k)) && after_gc(
                m,
                now,
            ).items[ns][k] == m.items[ns][k],
        after_gc(after_gc(m, now), now) == after_gc(m, now),
{
    let once = after_gc(m, now);
    let twice = after_gc(once, now);
    assert(expired_items(once, now) =~= Set::<(Seq<u8>, Seq<u8>)>::empty());
    assert forall|ns: Seq<u8>| once.items.dom().contains(ns) implies twice.items[ns]
        == once.items[ns] by {
        assert(twice.items[ns] =~= once.items[ns]);
    }
    assert(twice.items =~= once.items);
}

/// One item written under plaintext vectors voids a namespace's end-to-end claim, and an item
/// written under the blind index keeps it.
pub proof fn law_one_plaintext_item_voids_the_claim(m: StoreModel, ns: Seq<u8>, item: ItemView)
    requires
        !over_capacity(m, ns, item.item_id),
    ensures
        item.mode == IndexMode::PlaintextVectors ==> !end_to_end(after_put(m, ns, item), ns),
        item.mode == IndexMode::BlindIndex && end_to_end(m, ns) ==> end_to_end(
            after_put(m, ns, item),
            ns,
        ),
{
    let after = items_in(after_put(m, ns, item), ns);
    let key = encode_utf8(item.item_id);
    assert(after.dom().contains(key));
    assert(after[key] == item);
    assert forall|k: Seq<u8>| after.dom().contains(k) && k != key implies items_in(
        m,
        ns,
    ).dom().contains(k) && items_in(m, ns)[k] == after[k] by {}
}

/// A new store holds nothing, has committed to no capacity and has counted nothing, and can count
/// from there.
pub proof fn law_new_stores_are_empty(ns: Seq<u8>, item_id: Seq<char>)
    ensures
        items_in(empty_store(), ns) == Map::<Seq<u8>, ItemView>::empty(),
        !holds(empty_store(), ns, item_id),
        !empty_store().capacity.dom().contains(ns),
        !over_capacity(empty_store(), ns, item_id),
        end_to_end(empty_store(), ns),
        empty_store().usage.writes + empty_store().usage.reads + empty_store().usage.searches
            + empty_store().usage.forgets == 0,
        can_count(empty_store().usage),
{
}

/// A refusal tells the capacity that was committed to: no two capacities are told alike, and the
/// number told is the capacity.
pub proof fn law_refusals_tell_the_capacity(a: u64, b: u64)
    ensures
        StoreError::AtCapacity(a).text() == StoreError::AtCapacity(b).text() ==> a == b,
        exists|x: Seq<char>, n: Seq<char>, y: Seq<char>| #[trigger]
            (x + n + y) == StoreError::AtCapacity(a).text() && number_spelled(n) == a,
{
    let x = "namespace is at its committed capacity of "@;
    let y = " items"@;
    let (m, n) = (decimal_text(a as nat), decimal_text(b as nat));
    law_decimals_spell_their_number(a as nat);
    law_decimals_spell_their_number(b as nat);
    assert((x + m + y) == StoreError::AtCapacity(a).text());
    if x + m + y == x + n + y {
        assert((x + m + y).len() == (x + n + y).len());
        assert(m =~= (x + m + y).subrange(x.len() as int, x.len() + m.len() as int));
        assert(n =~= (x + n + y).subrange(x.len() as int, x.len() + n.len() as int));
    }
}

} // verus!
