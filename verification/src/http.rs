//! What a client sends a provider over HTTP, and how it reads the answers. Every payload is already
//! sealed; nothing here holds a key.

use crate::embedder::{trim_slashes, without_slashes};
use crate::envelope::{NamespaceHandle, SealedItem, SealedView};
use crate::json::{
    member_value, number_in, parse_json, parsed_json, text_in, value, value_of, Json, JsonView,
};
use crate::local::written_item;
use crate::routes::{requested_item, requested_search};
use crate::store::{candidate_views, Candidate, CandidateView, IndexMode};
use crate::text::{hex, hex_bytes, hex_text, join, law_hex_round_trips};
use crate::transport::{SealedSearch, SealedWrite, TransportError};
use crate::wire::{
    encode_sealed, encode_tokens, hex_exactly, law_sealed_items_survive_the_wire,
    law_sixteen_bytes_survive_the_wire, sealed_from_hex, sealed_of, spells, texts, tokens_spelled,
    SearchRequest, WriteRequest,
};
use vstd::prelude::*;
use vstd::string::StringExecFns;
use vstd::utf8::encode_utf8;

verus! {

/// How a mode is named on the wire.
pub open spec fn mode_name(mode: IndexMode) -> Seq<char> {
    match mode {
        IndexMode::BlindIndex => "blind"@,
        IndexMode::PlaintextVectors => "plaintext_vectors"@,
    }
}

/// Whether texts spell tokens in hexadecimal, one for one.
pub open spec fn spells_tokens(
    s: Seq<String>,
    tokens: Seq<crate::blind_index::BucketToken>,
) -> bool {
    &&& s.len() == tokens.len()
    &&& forall|i: int| 0 <= i < s.len() ==> (#[trigger] s[i])@ == hex_text(tokens[i]@)
}

/// Whether a request on the wire is that of a sealed write.
pub open spec fn asks_to_store(w: WriteRequest, r: SealedWrite) -> bool {
    &&& w.namespace@ == hex_text(r.namespace@)
    &&& w.item_id@ == r.item_id@
    &&& spells(w.sealed, r.sealed@)
    &&& spells_tokens(w.tokens@, r.tokens@)
    &&& w.mode@ == mode_name(r.mode)
    &&& w.expires_at == r.expires_at
}

/// Whether a request on the wire is that of a sealed search.
pub open spec fn asks_to_search(w: SearchRequest, r: SealedSearch) -> bool {
    &&& w.namespace@ == hex_text(r.namespace@)
    &&& spells_tokens(w.tokens@, r.tokens@)
    &&& w.limit == r.limit
}

/// The request that stores a sealed item.
pub fn write_request(r: &SealedWrite) -> (w: WriteRequest)
    ensures
        asks_to_store(w, *r),
{
    let mode = match r.mode {
        IndexMode::BlindIndex => "blind",
        IndexMode::PlaintextVectors => "plaintext_vectors",
    };
    WriteRequest {
        namespace: hex(r.namespace.0.as_slice()),
        item_id: r.item_id.clone(),
        sealed: encode_sealed(&r.sealed),
        tokens: encode_tokens(&r.tokens),
        mode: mode.to_owned(),
        expires_at: r.expires_at,
    }
}

/// The request that asks for candidates.
pub fn search_request(r: &SealedSearch) -> (w: SearchRequest)
    ensures
        asks_to_search(w, *r),
{
    SearchRequest {
        namespace: hex(r.namespace.0.as_slice()),
        tokens: encode_tokens(&r.tokens),
        limit: r.limit,
    }
}

/// Tokens spelled in hexadecimal are read back.
proof fn spelled_tokens_are_read_back(
    s: Seq<String>,
    tokens: Seq<crate::blind_index::BucketToken>,
)
    requires
        spells_tokens(s, tokens),
    ensures
        tokens_spelled(texts(s)) == Some(crate::blind_index::token_views(tokens)),
{
    let views = crate::blind_index::token_views(tokens);
    assert forall|i: int| 0 <= i < s.len() implies hex_exactly(#[trigger] texts(s)[i], 16) == Some(
        views[i],
    ) by {
        assert(s[i]@ == hex_text(tokens[i]@));
        law_sixteen_bytes_survive_the_wire(tokens[i]@);
    }
    assert(Seq::new(texts(s).len(), |i: int| hex_exactly(texts(s)[i], 16)->0) =~= views);
}

/// What a client sends is what a provider is asked to store: the request of a sealed write reads
/// back as the same namespace and the same item.
pub proof fn law_writes_arrive_unchanged(r: SealedWrite, w: WriteRequest)
    requires
        asks_to_store(w, r),
    ensures
        requested_item(w) == Ok::<_, Seq<char>>((r.namespace@, written_item(r))),
{
    law_sixteen_bytes_survive_the_wire(r.namespace@);
    law_sealed_items_survive_the_wire(w.sealed, r.sealed@);
    spelled_tokens_are_read_back(w.tokens@, r.tokens@);
    reveal_strlit("blind");
    reveal_strlit("plaintext_vectors");
    assert("blind"@.len() != "plaintext_vectors"@.len());
    assert(requested_item(w)->Ok_0.1 =~= written_item(r));
}

/// What a client asks for is what a provider searches for.
pub proof fn law_searches_arrive_unchanged(r: SealedSearch, w: SearchRequest)
    requires
        asks_to_search(w, r),
    ensures
        requested_search(w) == Ok::<_, Seq<char>>(
            (r.namespace@, crate::blind_index::token_views(r.tokens@)),
        ),
{
    law_sixteen_bytes_survive_the_wire(r.namespace@);
    spelled_tokens_are_read_back(w.tokens@, r.tokens@);
}

/// Why a provider that answered with a status did not do what it was asked. "You have not paid" and
/// "the provider is down" want completely different reactions from whoever is looking at the error.
pub fn status_error(status: u16) -> (r: TransportError)
    ensures
        match r {
            TransportError::PaymentRequired(why) => status == 402 && why@
                == "provider requires a TAP receipt"@,
            TransportError::NotFound => status == 404,
            TransportError::Http { status: s, body } => s == status && status != 402 && status
                != 404 && body@.len() == 0,
            TransportError::Unreachable(_) => false,
        },
{
    if status == 402 {
        TransportError::PaymentRequired("provider requires a TAP receipt".to_owned())
    } else if status == 404 {
        TransportError::NotFound
    } else {
        TransportError::Http { status, body: String::new() }
    }
}

/// The sealed item that a JSON value spells: four hexadecimal texts, the nonces whole.
pub open spec fn sealed_in(v: JsonView) -> Option<SealedView> {
    match (
        text_in(member_value(v, "ciphertext"@)),
        text_in(member_value(v, "nonce"@)),
        text_in(member_value(v, "wrapped_key"@)),
        text_in(member_value(v, "wrap_nonce"@)),
    ) {
        (Some(ciphertext), Some(nonce), Some(wrapped_key), Some(wrap_nonce)) => sealed_of(
            ciphertext,
            nonce,
            wrapped_key,
            wrap_nonce,
        ),
        _ => None,
    }
}

/// Reads a sealed item out of a JSON value.
pub fn parse_sealed(v: &Json) -> (r: Option<SealedItem>)
    ensures
        match r {
            Some(s) => sealed_in(v@) == Some(s@),
            None => sealed_in(v@) is None,
        },
{
    let ciphertext = v.get("ciphertext").into_text()?;
    let nonce = v.get("nonce").into_text()?;
    let wrapped_key = v.get("wrapped_key").into_text()?;
    let wrap_nonce = v.get("wrap_nonce").into_text()?;
    sealed_from_hex(
        ciphertext.as_str(),
        nonce.as_str(),
        wrapped_key.as_str(),
        wrap_nonce.as_str(),
    )
}

/// The candidate that a JSON value spells.
pub open spec fn candidate_in(v: JsonView) -> Option<CandidateView> {
    match (
        text_in(member_value(v, "item_id"@)),
        sealed_in(member_value(v, "sealed"@)),
        number_in(member_value(v, "shared_bands"@)),
    ) {
        (Some(item_id), Some(sealed), Some(n)) => Some(
            CandidateView { item_id, sealed, shared_bands: (n as usize) as nat },
        ),
        _ => None,
    }
}

/// The candidates that a run of JSON texts spells. One that does not parse is left out.
pub open spec fn candidates_in(elements: Seq<Seq<char>>) -> Seq<CandidateView>
    decreases elements.len(),
{
    if elements.len() == 0 {
        Seq::empty()
    } else {
        let rest = candidates_in(elements.drop_last());
        match candidate_in(value_of(elements.last())) {
            Some(c) => rest.push(c),
            None => rest,
        }
    }
}

/// Reads a candidate out of a JSON value.
pub fn parse_candidate(v: &Json) -> (r: Option<Candidate>)
    ensures
        match r {
            Some(c) => candidate_in(v@) == Some(c@),
            None => candidate_in(v@) is None,
        },
{
    let item_id = v.get("item_id").into_text()?;
    let sealed = parse_sealed(&v.get("sealed"))?;
    let n: u64 = v.get("shared_bands").number()?;
    Some(Candidate { item_id, sealed, shared_bands: n as usize })
}

/// Reads the candidates out of a JSON value, none where it is not a list.
pub fn parse_candidates(v: &Json) -> (r: Vec<Candidate>)
    ensures
        candidate_views(r@) == match v@ {
            JsonView::List(elements) => candidates_in(elements),
            _ => Seq::empty(),
        },
{
    let mut out: Vec<Candidate> = Vec::new();
    match v {
        Json::List(elements) => {
            let ghost all = Seq::new(elements@.len(), |i: int| elements@[i]@);
            let mut i: usize = 0;
            proof {
                assert(candidate_views(out@) =~= candidates_in(all.take(0)));
            }
            while i < elements.len()
                invariant
                    i <= elements.len(),
                    all == Seq::new(elements@.len(), |i: int| elements@[i]@),
                    candidate_views(out@) == candidates_in(all.take(i as int)),
                decreases elements.len() - i,
            {
                let ghost before = candidate_views(out@);
                proof {
                    assert(all.take(i + 1).drop_last() =~= all.take(i as int));
                }
                if let Some(c) = parse_candidate(&value(elements[i].as_str())) {
                    out.push(c);
                    proof {
                        assert(candidate_views(out@) =~= before.push(c@));
                    }
                }
                i = i + 1;
            }
            proof {
                assert(all.take(i as int) =~= all);
            }
        },
        _ => {
            proof {
                assert(candidate_views(out@) =~= Seq::empty());
            }
        },
    }
    out
}

/// What an unreadable body says.
pub open spec fn unreadable(why: Seq<char>) -> Seq<char> {
    "json: "@ + why
}

/// Reads the answer to a read: the item, or that there is none where the answer spells none.
pub fn read_reply(body: &[u8]) -> (r: Result<SealedItem, TransportError>)
    ensures
        match parsed_json(body@) {
            Err(why) => r matches Err(TransportError::Unreachable(m)) && m@ == unreadable(why),
            Ok(v) => match sealed_in(v) {
                Some(s) => r matches Ok(item) && item@ == s,
                None => r matches Err(TransportError::NotFound),
            },
        },
{
    match parse_json(body) {
        Err(why) => Err(TransportError::Unreachable(join("json: ", why.as_str()))),
        Ok(v) => match parse_sealed(&v) {
            Some(s) => Ok(s),
            None => Err(TransportError::NotFound),
        },
    }
}

/// Reads the answer to a search.
pub fn search_reply(body: &[u8]) -> (r: Result<Vec<Candidate>, TransportError>)
    ensures
        match parsed_json(body@) {
            Err(why) => r matches Err(TransportError::Unreachable(m)) && m@ == unreadable(why),
            Ok(v) => r matches Ok(hits) && candidate_views(hits@) == match v {
                JsonView::List(elements) => candidates_in(elements),
                _ => Seq::empty(),
            },
        },
{
    match parse_json(body) {
        Err(why) => Err(TransportError::Unreachable(join("json: ", why.as_str()))),
        Ok(v) => Ok(parse_candidates(&v)),
    }
}

/// Reads the answer to a deletion. An answer that does not say counts as nothing removed.
pub fn forget_reply(body: &[u8]) -> (r: Result<bool, TransportError>)
    ensures
        match parsed_json(body@) {
            Err(why) => r matches Err(TransportError::Unreachable(m)) && m@ == unreadable(why),
            Ok(v) => r == Ok::<bool, TransportError>(
                member_value(v, "removed"@) == JsonView::Bool(true),
            ),
        },
{
    match parse_json(body) {
        Err(why) => Err(TransportError::Unreachable(join("json: ", why.as_str()))),
        Ok(v) => match v.get("removed") {
            Json::Bool(b) => Ok(b),
            _ => Ok(false),
        },
    }
}

/// Where a provider is.
#[derive(Debug)]
pub struct ProviderUrl {
    base: String,
}

impl ProviderUrl {
    /// The URL that every path is under.
    pub closed spec fn base(&self) -> Seq<char> {
        self.base@
    }

    /// A provider under a URL.
    pub fn new(base: &str) -> (r: Self)
        ensures
            r.base() == without_slashes(base@),
    {
        ProviderUrl { base: trim_slashes(base) }
    }

    /// Where items are stored.
    pub fn items(&self) -> (r: String)
        ensures
            r@ == self.base() + "/v1/items"@,
    {
        join(self.base.as_str(), "/v1/items")
    }

    /// Where one item is.
    pub fn item(&self, ns: &NamespaceHandle, item_id: &str) -> (r: String)
        ensures
            r@ == self.base() + "/v1/items/"@ + hex_text(ns@) + "/"@ + item_id@,
    {
        let mut s = join(self.base.as_str(), "/v1/items/");
        s.append(ns.to_hex().as_str());
        s.append("/");
        s.append(item_id);
        s
    }

    /// Where searches are answered.
    pub fn search(&self) -> (r: String)
        ensures
            r@ == self.base() + "/v1/search"@,
    {
        join(self.base.as_str(), "/v1/search")
    }
}

/// Candidates are read one by one, in their order: those of two runs are the one's and then the
/// other's, and a single one is read where it parses and left out where it does not.
pub proof fn law_candidates_are_read_one_by_one(a: Seq<Seq<char>>, b: Seq<Seq<char>>)
    ensures
        candidates_in(a + b) == candidates_in(a) + candidates_in(b),
        b.len() == 1 ==> candidates_in(b) == match candidate_in(value_of(b[0])) {
            Some(c) => seq![c],
            None => Seq::<CandidateView>::empty(),
        },
    decreases b.len(),
{
    if b.len() == 0 {
        assert(a + b =~= a);
        assert(candidates_in(a) + candidates_in(b) =~= candidates_in(a));
    } else {
        let rest = b.drop_last();
        assert((a + b).drop_last() =~= a + rest);
        assert((a + b).last() == b.last());
        law_candidates_are_read_one_by_one(a, rest);
        assert(candidates_in(a + b) =~= candidates_in(a) + candidates_in(b));
        if b.len() == 1 {
            assert(candidates_in(rest) =~= Seq::empty());
            assert(candidates_in(b) =~= match candidate_in(value_of(b[0])) {
                Some(c) => seq![c],
                None => Seq::<CandidateView>::empty(),
            });
        }
    }
}

/// A candidate is read from the members that have its parts' names, and only where all are there;
/// so is a sealed item.
pub proof fn law_candidates_are_read_from_their_members(v: JsonView)
    ensures
        candidate_in(v) is Some <==> text_in(member_value(v, "item_id"@)) is Some && sealed_in(
            member_value(v, "sealed"@),
        ) is Some && number_in(member_value(v, "shared_bands"@)) is Some,
        candidate_in(v) matches Some(c) ==> {
            &&& Some(c.item_id) == text_in(member_value(v, "item_id"@))
            &&& Some(c.sealed) == sealed_in(member_value(v, "sealed"@))
            &&& number_in(member_value(v, "shared_bands"@))->0 <= usize::MAX ==> c.shared_bands
                == number_in(member_value(v, "shared_bands"@))->0
        },
        sealed_in(v) matches Some(s) ==> {
            &&& text_in(member_value(v, "ciphertext"@)) matches Some(t) && hex_bytes(
                encode_utf8(t),
            ) == Some(s.ciphertext)
            &&& text_in(member_value(v, "nonce"@)) matches Some(t) && hex_bytes(encode_utf8(t))
                == Some(s.nonce) && s.nonce.len() == 24
            &&& text_in(member_value(v, "wrapped_key"@)) matches Some(t) && hex_bytes(
                encode_utf8(t),
            ) == Some(s.wrapped_key)
            &&& text_in(member_value(v, "wrap_nonce"@)) matches Some(t) && hex_bytes(encode_utf8(t))
                == Some(s.wrap_nonce) && s.wrap_nonce.len() == 24
        },
{
}

/// A sealed item that a client spells in JSON is the one it reads: where the four members hold the
/// hexadecimal texts of an item's parts, that item is read.
pub proof fn law_spelled_items_are_read(v: JsonView, s: SealedView)
    requires
        text_in(member_value(v, "ciphertext"@)) == Some(hex_text(s.ciphertext)),
        text_in(member_value(v, "nonce"@)) == Some(hex_text(s.nonce)),
        text_in(member_value(v, "wrapped_key"@)) == Some(hex_text(s.wrapped_key)),
        text_in(member_value(v, "wrap_nonce"@)) == Some(hex_text(s.wrap_nonce)),
        s.nonce.len() == 24,
        s.wrap_nonce.len() == 24,
    ensures
        sealed_in(v) == Some(s),
{
    law_hex_round_trips(s.ciphertext);
    law_hex_round_trips(s.nonce);
    law_hex_round_trips(s.wrapped_key);
    law_hex_round_trips(s.wrap_nonce);
}

} // verus!
