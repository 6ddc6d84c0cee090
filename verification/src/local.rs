//! A provider reached in process: the real store, with no server in between.

use crate::blind_index::token_views;
use crate::envelope::{NamespaceHandle, SealedItem};
use crate::memory_store::InMemoryStore;
use crate::store::{
    after_forget, after_get, after_put, after_search, candidate_views, holds, is_search_result,
    items_in, kept_items, over_capacity, Candidate, ItemView, MemoryStore, StoreError, StoreModel,
    StoredItem,
};
use crate::transport::{ProviderTransport, SealedSearch, SealedWrite, TransportError};
use vstd::prelude::*;
use vstd::utf8::encode_utf8;

verus! {

/// A store answering requests directly, by a clock that its owner sets.
pub struct LocalProvider {
    store: InMemoryStore,
    now: u64,
}

/// The item that a sealed write asks to have stored.
pub open spec fn written_item(req: SealedWrite) -> ItemView {
    ItemView {
        item_id: req.item_id@,
        sealed: req.sealed@,
        tokens: token_views(req.tokens@),
        mode: req.mode,
        expires_at: req.expires_at,
    }
}

impl LocalProvider {
    /// The store is in order.
    #[verifier::type_invariant]
    spec fn in_order(self) -> bool {
        self.store.wf()
    }

    /// What the provider holds.
    pub closed spec fn held(&self) -> StoreModel {
        self.store.model()
    }

    /// The time it answers at, in Unix seconds.
    pub closed spec fn clock(&self) -> u64 {
        self.now
    }

    /// A provider holding what the store does, at a time in Unix seconds.
    pub fn new(store: InMemoryStore, now: u64) -> (r: Self)
        requires
            store.wf(),
        ensures
            r.held() == store.model(),
            r.clock() == now,
    {
        LocalProvider { store, now }
    }

    /// Sets the clock.
    pub fn set_clock(&mut self, now: u64)
        ensures
            final(self).held() == old(self).held(),
            final(self).clock() == now,
    {
        proof {
            use_type_invariant(&*self);
        }
        self.now = now;
    }

    /// The store behind the provider.
    pub fn store(&self) -> (r: &InMemoryStore)
        ensures
            r.wf(),
            r.model() == self.held(),
    {
        proof {
            use_type_invariant(self);
        }
        &self.store
    }

    /// The store, taken out to be worked on.
    fn take(&mut self) -> (r: InMemoryStore)
        ensures
            r.wf(),
            r.model() == old(self).held(),
            final(self).clock() == old(self).clock(),
    {
        proof {
            use_type_invariant(&*self);
        }
        let mut store = InMemoryStore::new();
        std::mem::swap(&mut store, &mut self.store);
        store
    }

    /// The refusal of a provider whose counters are full.
    fn uncountable() -> (r: TransportError)
        ensures
            refuses_to_count(r),
    {
        TransportError::Http { status: 500, body: "usage counter is full".to_owned() }
    }
}

/// What a provider that cannot count any more answers.
pub open spec fn refuses_to_count(e: TransportError) -> bool {
    e matches TransportError::Http { status, body } && status == 500 && body@
        == "usage counter is full"@
}

impl ProviderTransport for LocalProvider {
    fn write(&mut self, req: SealedWrite) -> (r: Result<(), TransportError>)
        ensures
            final(self).clock() == old(self).clock(),
            if old(self).held().usage.writes == u128::MAX {
                &&& final(self).held() == old(self).held()
                &&& r matches Err(e) && refuses_to_count(e)
            } else {
                &&& final(self).held() == after_put(
                    old(self).held(),
                    req.namespace@,
                    written_item(req),
                )
                &&& if over_capacity(old(self).held(), req.namespace@, req.item_id@) {
                    &&& r matches Err(TransportError::Http { status, body })
                    &&& status == 507
                    &&& body@ == StoreError::AtCapacity(
                        old(self).held().capacity[req.namespace@],
                    ).text()
                } else {
                    r is Ok
                }
            },
    {
        let mut store = self.take();
        let r = if store.usage().writes == u128::MAX {
            Err(LocalProvider::uncountable())
        } else {
            let item = StoredItem {
                item_id: req.item_id,
                sealed: req.sealed,
                tokens: req.tokens,
                mode: req.mode,
                expires_at: req.expires_at,
            };
            match store.put(&req.namespace, item) {
                Ok(_) => Ok(()),
                Err(e) => Err(TransportError::Http { status: 507, body: e.message() }),
            }
        };
        self.store = store;
        r
    }

    fn read(&mut self, ns: &NamespaceHandle, item_id: &str) -> (r: Result<
        SealedItem,
        TransportError,
    >)
        ensures
            final(self).clock() == old(self).clock(),
            if old(self).held().usage.reads == u128::MAX {
                &&& final(self).held() == old(self).held()
                &&& r matches Err(e) && refuses_to_count(e)
            } else {
                &&& final(self).held() == after_get(old(self).held(), ns@, item_id@)
                &&& match r {
                    Ok(sealed) => holds(old(self).held(), ns@, item_id@) && sealed@ == items_in(
                        old(self).held(),
                        ns@,
                    )[encode_utf8(item_id@)].sealed,
                    Err(e) => !holds(old(self).held(), ns@, item_id@) && e is NotFound,
                }
            },
    {
        let mut store = self.take();
        let r = if store.usage().reads == u128::MAX {
            Err(LocalProvider::uncountable())
        } else {
            match store.get(ns, item_id) {
                Ok(sealed) => Ok(sealed),
                Err(StoreError::NotFound) => Err(TransportError::NotFound),
                Err(other) => Err(TransportError::Http { status: 500, body: other.message() }),
            }
        };
        self.store = store;
        r
    }

    fn search(&mut self, req: SealedSearch) -> (r: Result<Vec<Candidate>, TransportError>)
        ensures
            final(self).clock() == old(self).clock(),
            if old(self).held().usage.searches == u128::MAX {
                &&& final(self).held() == old(self).held()
                &&& r matches Err(e) && refuses_to_count(e)
            } else {
                &&& final(self).held() == after_search(old(self).held())
                &&& r matches Ok(hits)
                &&& is_search_result(
                    kept_items(items_in(old(self).held(), req.namespace@), old(self).clock()),
                    token_views(req.tokens@),
                    req.limit as nat,
                    candidate_views(hits@),
                )
            },
    {
        let mut store = self.take();
        let r = if store.usage().searches == u128::MAX {
            Err(LocalProvider::uncountable())
        } else {
            Ok(store.search(&req.namespace, req.tokens.as_slice(), req.limit, self.now))
        };
        self.store = store;
        r
    }

    fn forget(&mut self, ns: &NamespaceHandle, item_id: &str) -> (r: Result<bool, TransportError>)
        ensures
            final(self).clock() == old(self).clock(),
            if old(self).held().usage.forgets == u128::MAX {
                &&& final(self).held() == old(self).held()
                &&& r matches Err(e) && refuses_to_count(e)
            } else {
                &&& final(self).held() == after_forget(old(self).held(), ns@, item_id@)
                &&& r == Ok::<bool, TransportError>(holds(old(self).held(), ns@, item_id@))
            },
    {
        let mut store = self.take();
        let r = if store.usage().forgets == u128::MAX {
            Err(LocalProvider::uncountable())
        } else {
            Ok(store.forget(ns, item_id))
        };
        self.store = store;
        r
    }
}

/// What is sent is what is stored: a write that is not refused leaves, under its namespace and its
/// id, the sealed bytes, the tokens, the mode and the time to keep it that it came with.
pub proof fn law_what_is_sent_is_stored(m: StoreModel, req: SealedWrite)
    requires
        !over_capacity(m, req.namespace@, req.item_id@),
    ensures
        ({
            let after = after_put(m, req.namespace@, written_item(req));
            let item = items_in(after, req.namespace@)[encode_utf8(req.item_id@)];
            &&& holds(after, req.namespace@, req.item_id@)
            &&& item.item_id == req.item_id@
            &&& item.sealed == req.sealed@
            &&& item.mode == req.mode
            &&& item.expires_at == req.expires_at
            &&& item.tokens.len() == req.tokens@.len()
            &&& forall|i: int|
                0 <= i < req.tokens@.len() ==> item.tokens[i] == #[trigger] req.tokens@[i]@
        }),
{
}

} // verus!
