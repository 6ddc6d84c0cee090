//! What a provider answers to each request.
//!
//! Four operations, matching the four metered ones, and the counters. Payment is not wired here: a
//! real provider fronts this with receipt validation and returns 402 without one.

use crate::blind_index::token_views;
use crate::store::{
    after_forget, after_get, after_put, after_search, holds, is_search_result, items_in,
    kept_items, over_capacity, Candidate, CandidateView, IndexMode, ItemView, MemoryStore,
    StoreError, StoredItem,
};
use crate::text::{decimal, decimal_text, same_text};
use crate::wire::{
    encode_sealed, hex_exactly, parse_handle, parse_sealed, parse_tokens, spells, texts,
    tokens_spelled, wire_sealed, CandidateWire, SealedItemWire, SearchRequest, UsageWire,
    WriteRequest,
};
use vstd::prelude::*;
use vstd::string::StringExecFns;
use vstd::utf8::encode_utf8;

verus! {

/// The most candidates one search returns. A limit is a resource bound, not a suggestion: without
/// a ceiling one request can ask a provider to serialise an entire namespace.
pub const MAX_CANDIDATES: usize = 500;

/// A refusal: its status code and what it says.
pub struct ApiError {
    pub status: u16,
    pub message: String,
}

/// A refusal of a malformed request.
pub fn bad(msg: &str) -> (r: ApiError)
    ensures
        r.status == 400,
        r.message@ == msg@,
{
    ApiError { status: 400, message: msg.to_owned() }
}

/// How a write asks to be indexed. Anything that is not exactly "blind" is the named unsafe mode:
/// defaulting the other way would let a typo silently void a namespace's end-to-end claim.
pub open spec fn mode_named(mode: Seq<char>) -> IndexMode {
    if mode == "blind"@ {
        IndexMode::BlindIndex
    } else {
        IndexMode::PlaintextVectors
    }
}

/// What a write asks to have stored and where, or what is wrong with it.
pub open spec fn requested_item(req: WriteRequest) -> Result<(Seq<u8>, ItemView), Seq<char>> {
    match hex_exactly(req.namespace@, 16) {
        None => Err("namespace must be 16 hex bytes"@),
        Some(ns) => match wire_sealed(req.sealed) {
            None => Err("malformed sealed item"@),
            Some(sealed) => match tokens_spelled(texts(req.tokens@)) {
                None => Err("each token must be 16 hex bytes"@),
                Some(tokens) => Ok(
                    (
                        ns,
                        ItemView {
                            item_id: req.item_id@,
                            sealed,
                            tokens,
                            mode: mode_named(req.mode@),
                            expires_at: req.expires_at,
                        },
                    ),
                ),
            },
        },
    }
}

/// What a search asks for and where, or what is wrong with it.
pub open spec fn requested_search(req: SearchRequest) -> Result<
    (Seq<u8>, Seq<Seq<u8>>),
    Seq<char>,
> {
    match hex_exactly(req.namespace@, 16) {
        None => Err("namespace must be 16 hex bytes"@),
        Some(ns) => match tokens_spelled(texts(req.tokens@)) {
            None => Err("each token must be 16 hex bytes"@),
            Some(tokens) => Ok((ns, tokens)),
        },
    }
}

/// How many candidates a search may return, whatever it asks for.
pub open spec fn bounded_limit(limit: usize) -> nat {
    if limit < MAX_CANDIDATES {
        limit as nat
    } else {
        MAX_CANDIDATES as nat
    }
}

/// Whether a candidate on the wire spells the given one.
pub open spec fn spells_candidate(w: CandidateWire, c: CandidateView) -> bool {
    &&& w.item_id@ == c.item_id
    &&& spells(w.sealed, c.sealed)
    &&& w.shared_bands == c.shared_bands
}

/// Whether a run of candidates on the wire spells the given ones, one for one.
pub open spec fn spells_candidates(ws: Seq<CandidateWire>, hits: Seq<CandidateView>) -> bool {
    &&& ws.len() == hits.len()
    &&& forall|i: int| 0 <= i < ws.len() ==> spells_candidate(#[trigger] ws[i], hits[i])
}

/// Whether candidates on the wire are what a search of a namespace answers.
pub open spec fn is_answer(
    items: Map<Seq<u8>, ItemView>,
    query: Seq<Seq<u8>>,
    limit: nat,
    ws: Seq<CandidateWire>,
) -> bool {
    exists|hits: Seq<CandidateView>| #[trigger]
        spells_candidates(ws, hits) && is_search_result(items, query, limit, hits)
}

/// Stores an item: 201, or 400 for a malformed request, or 507 where the namespace is full.
pub fn write<S: MemoryStore>(store: &mut S, req: WriteRequest) -> (r: Result<u16, ApiError>)
    requires
        old(store).wf(),
        old(store).model().usage.writes < u128::MAX,
    ensures
        final(store).wf(),
        match requested_item(req) {
            Err(message) => {
                &&& final(store).model() == old(store).model()
                &&& r matches Err(e)
                &&& e.status == 400
                &&& e.message@ == message
            },
            Ok((ns, item)) => {
                &&& final(store).model() == after_put(old(store).model(), ns, item)
                &&& if over_capacity(old(store).model(), ns, item.item_id) {
                    &&& r matches Err(e)
                    &&& e.status == 507
                    &&& e.message@ == "at capacity ("@ + decimal_text(
                        old(store).model().capacity[ns] as nat,
                    ) + ")"@
                } else {
                    r == Ok::<u16, ApiError>(201)
                }
            },
        },
{
    let ns = match parse_handle(req.namespace.as_str()) {
        Some(ns) => ns,
        None => return Err(bad("namespace must be 16 hex bytes")),
    };
    let sealed = match parse_sealed(&req.sealed) {
        Some(sealed) => sealed,
        None => return Err(bad("malformed sealed item")),
    };
    let tokens = match parse_tokens(&req.tokens) {
        Some(tokens) => tokens,
        None => return Err(bad("each token must be 16 hex bytes")),
    };
    let mode = if same_text(req.mode.as_str(), "blind") {
        IndexMode::BlindIndex
    } else {
        IndexMode::PlaintextVectors
    };
    let item = StoredItem {
        item_id: req.item_id,
        sealed,
        tokens,
        mode,
        expires_at: req.expires_at,
    };
    proof {
        assert(requested_item(req) == Ok::<_, Seq<char>>((ns@, item@)));
    }
    match store.put(&ns, item) {
        Ok(_) => Ok(201),
        Err(StoreError::AtCapacity(n)) => {
            let mut message = "at capacity (".to_owned();
            message.append(decimal(n).as_str());
            message.append(")");
            Err(ApiError { status: 507, message })
        },
        Err(other) => Err(ApiError { status: 500, message: other.message() }),
    }
}

/// Fetches an item: the item, or 400 for a malformed namespace, or 404.
pub fn read<S: MemoryStore>(store: &mut S, namespace: &str, item_id: &str) -> (r: Result<
    SealedItemWire,
    ApiError,
>)
    requires
        old(store).wf(),
        old(store).model().usage.reads < u128::MAX,
    ensures
        final(store).wf(),
        match hex_exactly(namespace@, 16) {
            None => {
                &&& final(store).model() == old(store).model()
                &&& r matches Err(e)
                &&& e.status == 400
                &&& e.message@ == "namespace must be 16 hex bytes"@
            },
            Some(ns) => {
                &&& final(store).model() == after_get(old(store).model(), ns, item_id@)
                &&& if holds(old(store).model(), ns, item_id@) {
                    &&& r matches Ok(w)
                    &&& spells(
                        w,
                        items_in(old(store).model(), ns)[encode_utf8(item_id@)].sealed,
                    )
                } else {
                    &&& r matches Err(e)
                    &&& e.status == 404
                    &&& e.message@ == "not found"@
                }
            },
        },
{
    let ns = match parse_handle(namespace) {
        Some(ns) => ns,
        None => return Err(bad("namespace must be 16 hex bytes")),
    };
    match store.get(&ns, item_id) {
        Ok(sealed) => Ok(encode_sealed(&sealed)),
        Err(_) => Err(ApiError { status: 404, message: "not found".to_owned() }),
    }
}

/// Spells a run of candidates for the wire.
fn encode_candidates(hits: Vec<Candidate>) -> (r: Vec<CandidateWire>)
    ensures
        spells_candidates(r@, crate::store::candidate_views(hits@)),
{
    let ghost listed = hits@;
    let mut out: Vec<CandidateWire> = Vec::new();
    for c in it: hits
        invariant
            it.seq() == listed,
            out@.len() == it.index(),
            forall|i: int| 0 <= i < out@.len() ==> spells_candidate(#[trigger] out@[i], listed[i]@),
    {
        proof {
            assert(c == listed[it.index() as int]);
        }
        let sealed = encode_sealed(&c.sealed);
        out.push(CandidateWire { item_id: c.item_id, sealed, shared_bands: c.shared_bands });
    }
    out
}

/// Searches what a namespace keeps at `now`, in Unix seconds: the candidates, best first and never
/// more than the ceiling, or 400 for a malformed request.
pub fn search<S: MemoryStore>(store: &mut S, req: SearchRequest, now: u64) -> (r: Result<
    Vec<CandidateWire>,
    ApiError,
>)
    requires
        old(store).wf(),
        old(store).model().usage.searches < u128::MAX,
    ensures
        final(store).wf(),
        match requested_search(req) {
            Err(message) => {
                &&& final(store).model() == old(store).model()
                &&& r matches Err(e)
                &&& e.status == 400
                &&& e.message@ == message
            },
            Ok((ns, tokens)) => {
                &&& final(store).model() == after_search(old(store).model())
                &&& r matches Ok(ws)
                &&& is_answer(
                    kept_items(items_in(old(store).model(), ns), now),
                    tokens,
                    bounded_limit(req.limit),
                    ws@,
                )
            },
        },
{
    let ns = match parse_handle(req.namespace.as_str()) {
        Some(ns) => ns,
        None => return Err(bad("namespace must be 16 hex bytes")),
    };
    let tokens = match parse_tokens(&req.tokens) {
        Some(tokens) => tokens,
        None => return Err(bad("each token must be 16 hex bytes")),
    };
    let limit: usize = if req.limit < MAX_CANDIDATES {
        req.limit
    } else {
        MAX_CANDIDATES
    };
    let hits = store.search(&ns, tokens.as_slice(), limit, now);
    let ghost views = crate::store::candidate_views(hits@);
    let ws = encode_candidates(hits);
    proof {
        assert(spells_candidates(ws@, views));
        assert(requested_search(req) == Ok::<_, Seq<char>>((ns@, token_views(tokens@))));
        assert(is_answer(
            kept_items(items_in(old(store).model(), ns@), now),
            token_views(tokens@),
            bounded_limit(req.limit),
            ws@,
        ));
    }
    Ok(ws)
}

/// Deletes an item: whether anything was removed, or 400 for a malformed namespace.
///
/// An id that was never there is no refusal: the caller asked, the provider complied or had nothing
/// to comply with, and the answer says which. A 404 here would leak whether an item existed to
/// anyone who guesses.
pub fn forget<S: MemoryStore>(store: &mut S, namespace: &str, item_id: &str) -> (r: Result<
    bool,
    ApiError,
>)
    requires
        old(store).wf(),
        old(store).model().usage.forgets < u128::MAX,
    ensures
        final(store).wf(),
        match hex_exactly(namespace@, 16) {
            None => {
                &&& final(store).model() == old(store).model()
                &&& r matches Err(e)
                &&& e.status == 400
                &&& e.message@ == "namespace must be 16 hex bytes"@
            },
            Some(ns) => {
                &&& final(store).model() == after_forget(old(store).model(), ns, item_id@)
                &&& r == Ok::<bool, ApiError>(holds(old(store).model(), ns, item_id@))
            },
        },
{
    let ns = match parse_handle(namespace) {
        Some(ns) => ns,
        None => return Err(bad("namespace must be 16 hex bytes")),
    };
    Ok(store.forget(&ns, item_id))
}

/// The counters so far.
pub fn usage<S: MemoryStore>(store: &S) -> (r: UsageWire)
    ensures
        r.writes == store.model().usage.writes,
        r.reads == store.model().usage.reads,
        r.searches == store.model().usage.searches,
        r.forgets == store.model().usage.forgets,
{
    let u = store.usage();
    UsageWire { writes: u.writes, reads: u.reads, searches: u.searches, forgets: u.forgets }
}

/// A write is indexed blindly exactly where it says so: any other mode, however near, is taken for
/// the one that gives the claim up.
pub proof fn law_only_blind_is_blind(mode: Seq<char>)
    ensures
        mode_named(mode) == IndexMode::BlindIndex <==> mode == "blind"@,
        mode_named(mode) == IndexMode::PlaintextVectors <==> mode != "blind"@,
{
}

/// A search returns no more than it asks for and no more than the ceiling, and as many as either
/// allows.
pub proof fn law_limits_are_bounded(limit: usize)
    ensures
        bounded_limit(limit) <= limit,
        bounded_limit(limit) <= 500,
        bounded_limit(limit) == limit || bounded_limit(limit) == 500,
{
}

/// A write asks for what it spells, part by part, and is refused for the first part that spells
/// nothing: the namespace, the sealed item, the tokens.
pub proof fn law_writes_ask_for_what_they_spell(req: WriteRequest)
    ensures
        requested_item(req) is Ok <==> hex_exactly(req.namespace@, 16) is Some && wire_sealed(
            req.sealed,
        ) is Some && tokens_spelled(texts(req.tokens@)) is Some,
        requested_item(req) matches Ok((ns, item)) ==> {
            &&& Some(ns) == hex_exactly(req.namespace@, 16)
            &&& item.item_id == req.item_id@
            &&& Some(item.sealed) == wire_sealed(req.sealed)
            &&& Some(item.tokens) == tokens_spelled(texts(req.tokens@))
            &&& item.mode == mode_named(req.mode@)
            &&& item.expires_at == req.expires_at
        },
        requested_item(req) matches Err(why) ==> why == if hex_exactly(
            req.namespace@,
            16,
        ) is None {
            "namespace must be 16 hex bytes"@
        } else if wire_sealed(req.sealed) is None {
            "malformed sealed item"@
        } else {
            "each token must be 16 hex bytes"@
        },
{
}

/// A search asks for what it spells, and is refused for the first part that spells nothing.
pub proof fn law_searches_ask_for_what_they_spell(req: SearchRequest)
    ensures
        requested_search(req) is Ok <==> hex_exactly(req.namespace@, 16) is Some && tokens_spelled(
            texts(req.tokens@),
        ) is Some,
        requested_search(req) matches Ok((ns, tokens)) ==> {
            &&& Some(ns) == hex_exactly(req.namespace@, 16)
            &&& Some(tokens) == tokens_spelled(texts(req.tokens@))
        },
        requested_search(req) matches Err(why) ==> why == if hex_exactly(
            req.namespace@,
            16,
        ) is None {
            "namespace must be 16 hex bytes"@
        } else {
            "each token must be 16 hex bytes"@
        },
{
}

/// What is answered on the wire is what was found: as many candidates, in the same order, each with
/// the id, the bands and the bytes of its own.
pub proof fn law_answers_read_back(ws: Seq<CandidateWire>, hits: Seq<CandidateView>, i: int)
    requires
        spells_candidates(ws, hits),
        0 <= i < ws.len(),
        hits[i].sealed.nonce.len() == 24,
        hits[i].sealed.wrap_nonce.len() == 24,
    ensures
        ws.len() == hits.len(),
        ws[i].item_id@ == hits[i].item_id,
        ws[i].shared_bands == hits[i].shared_bands,
        wire_sealed(ws[i].sealed) == Some(hits[i].sealed),
{
    assert(spells_candidate(ws[i], hits[i]));
    crate::wire::law_sealed_items_survive_the_wire(ws[i].sealed, hits[i].sealed);
}

} // verus!
