//! The four tools an agent actually sees, and the sealing that happens beneath them.

use crate::blind_index::{plane_of, token_views, tokens_of, BlindIndex, BucketToken, IndexParams};
use crate::bytes::prefix;
use crate::embedder::{embeds_as, lies_on, scores_as, EmbedError, Embedder};
use crate::envelope::{
    freshly_sealed, handle_of, namespace_key_of, open_outcome, EnvelopeError, NamespaceHandle,
    NamespaceKey, RootKey, SealedItem, SealedView,
};
use crate::framing::{frame, frame_of, law_frames_round_trip, unframe, unframed};
use crate::local::written_item;
use crate::primitives::{sha256, sha256_of, MAX_MESSAGE};
use crate::recall::{
    is_number, is_recall, law_recalls_are_best_first, law_recalls_are_bounded, memory_views,
    number_of, rank_memories, Memory, MemoryView, ONE,
};
use crate::store::{
    a_token_asked_for_is_shared, after_forget, after_put, after_steps, candidate_of,
    candidate_views, holds, is_search_result, items_in, kept_items,
    law_items_last_until_they_are_touched, outranks, over_capacity, shared_with_itself, spares,
    unexpired, Candidate, IndexMode, Step, StoreModel,
};
use crate::text::{hex, hex_text, join};
use crate::transport::{
    crosses, Exchange, Link, ProviderTransport, SealedSearch, SealedWrite, TransportError,
};
use vstd::prelude::*;
use vstd::slice::slice_to_vec;
use vstd::utf8::encode_utf8;

verus! {

/// Why a tool could not do what the agent asked.
#[derive(Debug)]
pub enum ToolError {
    Transport(TransportError),
    Crypto(String),
    /// No embedder is configured, so there is no index to search.
    NoEmbedder,
    /// The embedder refused or could not be reached.
    ///
    /// Surfaced rather than swallowed: an agent told that the embedder is not running can act,
    /// where one silently handed results from a different vector space cannot.
    Embed(EmbedError),
}

impl ToolError {
    /// What the error says.
    pub open spec fn text(self) -> Seq<char> {
        match self {
            ToolError::Transport(e) => e.text(),
            ToolError::Crypto(why) => "crypto: "@ + why@,
            ToolError::NoEmbedder =>
                "this build has no embedder configured, so semantic search is unavailable; memory.read still works"@,
            ToolError::Embed(e) => e.text(),
        }
    }

    /// The error as a sentence.
    pub fn message(&self) -> (r: String)
        ensures
            r@ == self.text(),
    {
        match self {
            ToolError::Transport(e) => e.message(),
            ToolError::Crypto(why) => join("crypto: ", why.as_str()),
            ToolError::NoEmbedder =>
                "this build has no embedder configured, so semantic search is unavailable; memory.read still works".to_owned(),
            ToolError::Embed(e) => e.message(),
        }
    }
}

/// What a blinded item id is the digest of: a label, the namespace's handle and the caller's id.
pub open spec fn blind_input(handle: Seq<u8>, item_id: Seq<char>) -> Seq<u8> {
    encode_utf8("nutcracker:item:v1"@) + handle + encode_utf8(item_id)
}

/// The id a provider knows an item by.
pub open spec fn wire_id(root: Seq<u8>, namespace: Seq<char>, item_id: Seq<char>) -> Seq<char> {
    hex_text(sha256_of(blind_input(handle_of(root, namespace), item_id)).take(16))
}

/// Whether a sealed write carries a memory: under the namespace's handle and the blinded id, and
/// sealed so that the namespace key opens it to the caller's id and text.
pub open spec fn carries(
    req: SealedWrite,
    root: Seq<u8>,
    generation: u32,
    namespace: Seq<char>,
    item_id: Seq<char>,
    text: Seq<char>,
    expires_at: Option<u64>,
) -> bool {
    &&& req.namespace@ == handle_of(root, namespace)
    &&& req.item_id@ == wire_id(root, namespace, item_id)
    &&& req.item_id@.len() == 32
    &&& req.mode == IndexMode::BlindIndex
    &&& req.expires_at == expires_at
    &&& is_sealed_memory(
        req.sealed@,
        namespace_key_of(root, namespace, generation),
        req.item_id@,
        item_id,
        text,
    )
}

/// Whether a sealed item holds a memory's id and text, under a content key drawn for it.
pub open spec fn is_sealed_memory(
    sealed: SealedView,
    key: Seq<u8>,
    wire_id: Seq<char>,
    item_id: Seq<char>,
    text: Seq<char>,
) -> bool {
    &&& freshly_sealed(key, wire_id, frame_of(item_id, text), sealed)
    &&& open_outcome(key, wire_id, sealed) == Ok::<_, EnvelopeError>(frame_of(item_id, text))
}

/// Whether signs are those an embedder gives a vector on the hyperplanes of an index.
pub open spec fn signs_from<E: Embedder>(
    e: &E,
    key: Seq<u8>,
    params: IndexParams,
    embedding: Vec<u32>,
    signs: Seq<bool>,
) -> bool {
    &&& signs.len() == params.planes()
    &&& forall|i: int|
        0 <= i < signs.len() ==> lies_on(
            e,
            plane_of(key, i, embedding@.len()),
            embedding,
            #[trigger] signs[i],
        )
}

/// Whether signs are those of an embedding of a text.
pub open spec fn signs_for<E: Embedder>(
    e: &E,
    key: Seq<u8>,
    params: IndexParams,
    text: Seq<char>,
    signs: Seq<bool>,
) -> bool {
    exists|embedding: Vec<u32>| #[trigger]
        embeds_as(e, text, Ok(embedding)) && signs_from(e, key, params, embedding, signs)
}

/// Whether tokens index a text: those of an embedding of it, or none where nothing embeds.
pub open spec fn indexes<E: Embedder>(
    tokens: Seq<Seq<u8>>,
    key: Seq<u8>,
    params: IndexParams,
    embedder: Option<E>,
    text: Seq<char>,
) -> bool {
    match embedder {
        Some(e) => exists|signs: Seq<bool>|
            signs_for(&e, key, params, text, signs) && tokens == #[trigger] tokens_of(
                key,
                params,
                signs,
            ),
        None => tokens.len() == 0,
    }
}

/// Whether a score is that of a text against a query's embedding.
pub open spec fn scored<E: Embedder>(
    e: &E,
    query_vec: Vec<u32>,
    text: Seq<char>,
    score: u32,
) -> bool {
    exists|embedding: Vec<u32>| #[trigger]
        embeds_as(e, text, Ok(embedding)) && scores_as(e, query_vec, embedding, score)
}

/// Whether scores are those of some memories' texts against a query.
pub open spec fn scores_for<E: Embedder>(
    e: &E,
    query: Seq<char>,
    memories: Seq<MemoryView>,
    scores: Seq<u32>,
) -> bool {
    exists|query_vec: Vec<u32>| #[trigger]
        embeds_as(e, query, Ok(query_vec)) && scores.len() == memories.len() && forall|i: int|
            0 <= i < scores.len() ==> scored(e, query_vec, memories[i].text, #[trigger] scores[i])
}

/// Whether an embedder refused the query or one of some memories' texts.
pub open spec fn refused_one<E: Embedder>(
    e: &E,
    query: Seq<char>,
    memories: Seq<MemoryView>,
    why: EmbedError,
) -> bool {
    ||| embeds_as(e, query, Err(why))
    ||| exists|i: int|
        0 <= i < memories.len() && embeds_as(e, (#[trigger] memories[i]).text, Err(why))
}

/// What reading a memory gives, given what the provider returned for it.
pub open spec fn read_outcome(
    root: Seq<u8>,
    generation: u32,
    namespace: Seq<char>,
    item_id: Seq<char>,
    sealed: SealedView,
) -> Result<MemoryView, EnvelopeError> {
    match open_outcome(
        namespace_key_of(root, namespace, generation),
        wire_id(root, namespace, item_id),
        sealed,
    ) {
        Ok(plain) => Ok(
            MemoryView { item_id, text: unframed(plain).1, shared_bands: 0, score: ONE },
        ),
        Err(e) => Err(e),
    }
}

/// Whether a candidate opens under a namespace key.
pub open spec fn opens(key: Seq<u8>, c: Candidate) -> bool {
    open_outcome(key, c.item_id@, c.sealed@) is Ok
}

/// A candidate's memory, given its similarity to the query.
pub open spec fn memory_of(key: Seq<u8>, c: Candidate, score: u32) -> MemoryView {
    let (name, text) = unframed(open_outcome(key, c.item_id@, c.sealed@)->Ok_0);
    MemoryView { item_id: name, text, shared_bands: c.shared_bands, score }
}

/// The candidates that open under a namespace key. One that does not is from another key
/// generation, or junk, and is skipped.
pub open spec fn opened(key: Seq<u8>, candidates: Seq<Candidate>) -> Seq<Candidate>
    decreases candidates.len(),
{
    if candidates.len() == 0 {
        Seq::empty()
    } else {
        let rest = opened(key, candidates.drop_last());
        if opens(key, candidates.last()) {
            rest.push(candidates.last())
        } else {
            rest
        }
    }
}

/// The memories of the candidates that open, given the similarity of each to the query.
pub open spec fn memories_of(key: Seq<u8>, candidates: Seq<Candidate>, scores: Seq<u32>) -> Seq<
    MemoryView,
> {
    Seq::new(
        opened(key, candidates).len(),
        |i: int| memory_of(key, opened(key, candidates)[i], scores[i]),
    )
}

/// The memories of the candidates that open, not scored yet.
pub open spec fn unscored(key: Seq<u8>, candidates: Seq<Candidate>) -> Seq<MemoryView> {
    Seq::new(
        opened(key, candidates).len(),
        |i: int| memory_of(key, opened(key, candidates)[i], 0),
    )
}

/// What a search answers from the candidates a provider returned: the memories of those that open,
/// scored against the query and ranked.
pub open spec fn recalls<E: Embedder>(
    e: &E,
    query: Seq<char>,
    key: Seq<u8>,
    candidates: Seq<Candidate>,
    limit: nat,
    out: Seq<MemoryView>,
) -> bool {
    exists|scores: Seq<u32>| #[trigger]
        scores_for(e, query, unscored(key, candidates), scores) && is_recall(
            memories_of(key, candidates, scores),
            limit,
            out,
        )
}

/// How many candidates a search asks for. The provider's ranking is coarse, so asking for exactly
/// the limit would let its approximation decide the final answer.
pub open spec fn over_fetch(limit: usize) -> usize {
    if 4 * limit <= usize::MAX {
        (4 * limit) as usize
    } else {
        usize::MAX
    }
}

/// How many candidates a search asks for.
pub fn candidates_wanted(limit: usize) -> (r: usize)
    ensures
        r == over_fetch(limit),
        r >= limit,
{
    if limit <= usize::MAX / 4 {
        limit * 4
    } else {
        usize::MAX
    }
}

/// The shim itself. Holds the root key; everything leaving it is sealed.
pub struct MemoryTools<T: ProviderTransport, E: Embedder> {
    root: RootKey,
    generation: u32,
    params: IndexParams,
    transport: Link<T>,
    embedder: Option<E>,
}

/// On which side of each hyperplane of an index a vector lies.
pub fn signs_of<E: Embedder>(index: &BlindIndex, embedder: &E, embedding: &Vec<u32>) -> (r: Vec<
    bool,
>)
    requires
        index.shape().usable(),
    ensures
        signs_from(embedder, index.key(), index.shape(), *embedding, r@),
{
    let params = index.params();
    let n: usize = params.hyperplanes();
    let mut out: Vec<bool> = Vec::new();
    let mut i: usize = 0;
    while i < n
        invariant
            i <= n,
            out@.len() == i,
            forall|j: int|
                0 <= j < i ==> lies_on(
                    embedder,
                    plane_of(index.key(), j, embedding@.len()),
                    *embedding,
                    #[trigger] out@[j],
                ),
        decreases n - i,
    {
        let plane = index.plane(i, embedding.len());
        let side = embedder.side(&plane, embedding);
        proof {
            assert(lies_on(
                embedder,
                plane_of(index.key(), i as int, embedding@.len()),
                *embedding,
                side,
            ));
        }
        out.push(side);
        i = i + 1;
    }
    out
}

impl<T: ProviderTransport, E: Embedder> MemoryTools<T, E> {
    /// The root key.
    pub closed spec fn root(&self) -> Seq<u8> {
        self.root@
    }

    /// The generation of namespace keys that writes use.
    pub closed spec fn generation(&self) -> u32 {
        self.generation
    }

    /// The parameters of the index.
    pub closed spec fn params(&self) -> IndexParams {
        self.params
    }

    /// The embedder, if there is one.
    pub closed spec fn embedder(&self) -> Option<E> {
        self.embedder
    }

    /// Whether there is an embedder.
    pub open spec fn embeds(&self) -> bool {
        self.embedder() is Some
    }

    /// The way to the provider.
    pub closed spec fn link(&self) -> Link<T> {
        self.transport
    }

    /// The provider.
    pub open spec fn provider(&self) -> T {
        self.link().provider()
    }

    /// Everything that has crossed to the provider and back.
    pub open spec fn log(&self) -> Seq<Exchange> {
        self.link().log()
    }

    /// The key of a namespace at the current generation.
    pub open spec fn key_of(&self, namespace: Seq<char>) -> Seq<u8> {
        namespace_key_of(self.root(), namespace, self.generation())
    }

    /// Whether the shim can index what it has embedded.
    pub open spec fn wf(&self) -> bool {
        self.embeds() ==> self.params().usable()
    }

    /// Whether nothing but the traffic with the provider differs.
    pub open spec fn set_up_as(&self, other: &Self) -> bool {
        &&& self.root() == other.root()
        &&& self.generation() == other.generation()
        &&& self.params() == other.params()
        &&& self.embedder() == other.embedder()
    }

    /// A shim at the first generation, with the default index.
    pub fn new(root: RootKey, transport: T, embedder: Option<E>) -> (r: Self)
        ensures
            r.root() == root@,
            r.generation() == 0,
            r.params().bands == 8,
            r.params().band_bits == 4,
            r.provider() == transport,
            r.log() == Seq::<Exchange>::empty(),
            r.embedder() == embedder,
            r.wf(),
    {
        MemoryTools {
            root,
            generation: 0,
            params: IndexParams::default(),
            transport: Link::new(transport),
            embedder,
        }
    }

    /// The same shim with another index.
    pub fn with_params(self, params: IndexParams) -> (r: Self)
        ensures
            r.params() == params,
            r.root() == self.root(),
            r.generation() == self.generation(),
            r.link() == self.link(),
            r.embedder() == self.embedder(),
            r.wf() == (self.embeds() ==> params.usable()),
    {
        let mut r = self;
        r.params = params;
        r
    }

    /// Bumps the namespace key generation. Existing items must be rewrapped and reindexed by the
    /// caller; this only changes what new writes use. Handles and blinded ids stay as they are.
    pub fn rotate(&mut self)
        requires
            old(self).generation() < u32::MAX,
        ensures
            final(self).generation() == old(self).generation() + 1,
            final(self).root() == old(self).root(),
            final(self).params() == old(self).params(),
            final(self).link() == old(self).link(),
            final(self).embedder() == old(self).embedder(),
            final(self).wf() == old(self).wf(),
    {
        self.generation = self.generation + 1;
    }

    /// The key and the handle of a namespace.
    pub fn keys(&self, namespace: &str) -> (r: (NamespaceKey, NamespaceHandle))
        ensures
            r.0@ == self.key_of(namespace@),
            r.1@ == handle_of(self.root(), namespace@),
    {
        (
            self.root.namespace_key(namespace, self.generation),
            self.root.namespace_handle(namespace),
        )
    }

    /// Blinds a caller-chosen item id before it reaches the provider. Callers name things
    /// descriptively, and a name beside the ciphertext would tell the provider everything the
    /// encryption was there to hide.
    ///
    /// Derived from the namespace handle rather than the namespace key, so it survives rotation: a
    /// rotating id would orphan every stored item the moment an agent was revoked.
    pub fn blind_id(&self, namespace: &str, item_id: &str) -> (r: String)
        ensures
            r@ == wire_id(self.root(), namespace@, item_id@),
            r@.len() == 32,
    {
        let handle = self.root.namespace_handle(namespace);
        let mut data = slice_to_vec("nutcracker:item:v1".as_bytes());
        data.extend_from_slice(handle.0.as_slice());
        data.extend_from_slice(item_id.as_bytes());
        proof {
            assert(data@ =~= blind_input(handle@, item_id@));
        }
        let digest = sha256(data.as_slice());
        hex(prefix::<16>(digest.as_slice()).as_slice())
    }

    /// Seals a memory under its namespace, or says that it is too long to seal.
    pub fn seal_memory(&self, namespace: &str, item_id: &str, text: &str) -> (r: Result<
        SealedItem,
        ToolError,
    >)
        ensures
            match r {
                Ok(sealed) => frame_of(item_id@, text@).len() <= MAX_MESSAGE && is_sealed_memory(
                    sealed@,
                    self.key_of(namespace@),
                    wire_id(self.root(), namespace@, item_id@),
                    item_id@,
                    text@,
                ),
                Err(e) => {
                    &&& frame_of(item_id@, text@).len() > MAX_MESSAGE
                    &&& e matches ToolError::Crypto(why)
                    &&& why@ == EnvelopeError::Encrypt.text()
                },
            },
    {
        let (nsk, _) = self.keys(namespace);
        let wire = self.blind_id(namespace, item_id);
        match nsk.seal(wire.as_str(), frame(item_id, text).as_slice()) {
            Ok(sealed) => Ok(sealed),
            Err(e) => Err(ToolError::Crypto(e.message())),
        }
    }

    /// The tokens of a namespace's index for an embedding, given on which sides it lies.
    pub fn index_tokens(&self, namespace: &str, signs: &Vec<bool>) -> (r: Vec<BucketToken>)
        requires
            self.params().usable(),
            signs@.len() == self.params().planes(),
        ensures
            token_views(r@) == tokens_of(self.key_of(namespace@), self.params(), signs@),
    {
        let (nsk, _) = self.keys(namespace);
        BlindIndex::new(&nsk, self.params).tokens(signs.as_slice())
    }

    /// Opens what the provider returned for a memory.
    pub fn open_memory(&self, namespace: &str, item_id: &str, sealed: &SealedItem) -> (r: Result<
        Memory,
        ToolError,
    >)
        ensures
            match read_outcome(
                self.root(),
                self.generation(),
                namespace@,
                item_id@,
                sealed@,
            ) {
                Ok(memory) => r matches Ok(m) && m@ == memory,
                Err(e) => r matches Err(ToolError::Crypto(why)) && why@ == e.text(),
            },
    {
        let (nsk, _) = self.keys(namespace);
        let wire = self.blind_id(namespace, item_id);
        match nsk.open(wire.as_str(), sealed) {
            Ok(plain) => {
                let (_, text) = unframe(plain.as_slice());
                Ok(Memory { item_id: item_id.to_owned(), text, shared_bands: 0, score: ONE })
            },
            Err(e) => Err(ToolError::Crypto(e.message())),
        }
    }

    /// Sends a sealed memory to the provider, indexed by the signs of its embedding where there is
    /// one.
    pub fn send(
        &mut self,
        namespace: &str,
        item_id: &str,
        sealed: SealedItem,
        signs: Option<&Vec<bool>>,
        expires_at: Option<u64>,
    ) -> (r: Result<(), ToolError>)
        requires
            signs matches Some(s) ==> old(self).params().usable() && s@.len() == old(
                self,
            ).params().planes(),
        ensures
            final(self).set_up_as(old(self)),
            one_more(old(self).log(), final(self).log()),
            exists|p: &mut T|
                *p == old(self).provider() && *final(p) == final(self).provider()
                    && #[trigger] crosses(p, final(self).log().last()),
            final(self).log().last() matches Exchange::Write(req, reply) && {
                &&& req.namespace@ == handle_of(old(self).root(), namespace@)
                &&& req.item_id@ == wire_id(old(self).root(), namespace@, item_id@)
                &&& req.item_id@.len() == 32
                &&& req.sealed == sealed
                &&& token_views(req.tokens@) == match signs {
                    Some(s) => tokens_of(
                        old(self).key_of(namespace@),
                        old(self).params(),
                        s@,
                    ),
                    None => Seq::empty(),
                }
                &&& req.mode == IndexMode::BlindIndex
                &&& req.expires_at == expires_at
                &&& r == match reply {
                    Ok(_) => Ok(()),
                    Err(e) => Err(ToolError::Transport(e)),
                }
            },
    {
        let (_, handle) = self.keys(namespace);
        let tokens: Vec<BucketToken> = match signs {
            Some(s) => self.index_tokens(namespace, s),
            None => Vec::new(),
        };
        proof {
            if signs is None {
                assert(token_views(tokens@) =~= Seq::empty());
            }
        }
        let req = SealedWrite {
            namespace: handle,
            item_id: self.blind_id(namespace, item_id),
            sealed,
            tokens,
            mode: IndexMode::BlindIndex,
            expires_at,
        };
        let ghost before = self.transport.log();
        let reply = self.transport.write(req);
        proof {
            assert(self.transport.log().drop_last() =~= before);
        }
        match reply {
            Ok(_) => Ok(()),
            Err(e) => Err(ToolError::Transport(e)),
        }
    }

    /// On which side of each hyperplane of a namespace the embedding of a text lies, where there is
    /// an embedder.
    pub fn embed_signs(&self, namespace: &str, text: &str) -> (r: Result<
        Option<Vec<bool>>,
        EmbedError,
    >)
        requires
            self.wf(),
        ensures
            match self.embedder() {
                Some(e) => match r {
                    Ok(Some(signs)) => signs_for(
                        &e,
                        self.key_of(namespace@),
                        self.params(),
                        text@,
                        signs@,
                    ),
                    Ok(None) => false,
                    Err(why) => embeds_as(&e, text@, Err(why)),
                },
                None => r matches Ok(None),
            },
    {
        match &self.embedder {
            Some(e) => {
                let embedding = match e.embed(text) {
                    Ok(v) => v,
                    Err(why) => return Err(why),
                };
                proof {
                    assert(embeds_as(e, text@, Ok(embedding)));
                }
                let (nsk, _) = self.keys(namespace);
                let signs = signs_of(&BlindIndex::new(&nsk, self.params), e, &embedding);
                Ok(Some(signs))
            },
            None => Ok(None),
        }
    }

    /// Remembers a text under a name.
    pub fn write(
        &mut self,
        namespace: &str,
        item_id: &str,
        text: &str,
        expires_at: Option<u64>,
    ) -> (r: Result<(), ToolError>)
        requires
            old(self).wf(),
        ensures
            final(self).wf(),
            wrote(*old(self), *final(self), namespace@, item_id@, text@, expires_at, r),
            final(self).log() == old(self).log() ==> final(self).provider() == old(self).provider(),
            final(self).log() != old(self).log() ==> exists|p: &mut T|
                *p == old(self).provider() && *final(p) == final(self).provider()
                    && #[trigger] crosses(p, final(self).log().last()),
    {
        let sealed = self.seal_memory(namespace, item_id, text)?;
        // No embedder means no index. The item is still stored and still readable by id; it is
        // simply not searchable, which is honest, rather than silently sending the text somewhere
        // to be embedded.
        match self.embed_signs(namespace, text) {
            Ok(Some(signs)) => self.send(namespace, item_id, sealed, Some(&signs), expires_at),
            Ok(None) => self.send(namespace, item_id, sealed, None, expires_at),
            Err(why) => Err(ToolError::Embed(why)),
        }
    }

    /// Fetches one memory by its name.
    pub fn read(&mut self, namespace: &str, item_id: &str) -> (r: Result<Memory, ToolError>)
        ensures
            did_read(*old(self), *final(self), namespace@, item_id@, r),
            exists|p: &mut T|
                *p == old(self).provider() && *final(p) == final(self).provider()
                    && #[trigger] crosses(p, final(self).log().last()),
    {
        let (_, handle) = self.keys(namespace);
        let wire = self.blind_id(namespace, item_id);
        let ghost before = self.transport.log();
        let reply = self.transport.read(&handle, wire.as_str());
        proof {
            assert(self.transport.log().drop_last() =~= before);
        }
        match reply {
            Ok(sealed) => self.open_memory(namespace, item_id, &sealed),
            Err(e) => Err(ToolError::Transport(e)),
        }
    }

    /// Asks the provider for candidates, given the signs of the query's embedding.
    pub fn ask(&mut self, namespace: &str, signs: &Vec<bool>, limit: usize) -> (r: Result<
        Vec<Candidate>,
        ToolError,
    >)
        requires
            old(self).params().usable(),
            signs@.len() == old(self).params().planes(),
        ensures
            final(self).set_up_as(old(self)),
            one_more(old(self).log(), final(self).log()),
            exists|p: &mut T|
                *p == old(self).provider() && *final(p) == final(self).provider()
                    && #[trigger] crosses(p, final(self).log().last()),
            final(self).log().last() matches Exchange::Search(req, reply) && {
                &&& req.namespace@ == handle_of(old(self).root(), namespace@)
                &&& token_views(req.tokens@) == tokens_of(
                    old(self).key_of(namespace@),
                    old(self).params(),
                    signs@,
                )
                &&& req.limit == over_fetch(limit)
                &&& r == match reply {
                    Ok(candidates) => Ok(candidates),
                    Err(e) => Err(ToolError::Transport(e)),
                }
            },
    {
        let (_, handle) = self.keys(namespace);
        let tokens = self.index_tokens(namespace, signs);
        let ghost before = self.transport.log();
        let reply = self.transport.search(
            SealedSearch { namespace: handle, tokens, limit: candidates_wanted(limit) },
        );
        proof {
            assert(self.transport.log().drop_last() =~= before);
        }
        match reply {
            Ok(candidates) => Ok(candidates),
            Err(e) => Err(ToolError::Transport(e)),
        }
    }

    /// Recalls memories related to a query: narrowed at the provider by blinded buckets, then
    /// decrypted and ranked here.
    pub fn search(&mut self, namespace: &str, query: &str, limit: usize) -> (r: Result<
        Vec<Memory>,
        ToolError,
    >)
        requires
            old(self).wf(),
        ensures
            final(self).wf(),
            searched(*old(self), *final(self), namespace@, query@, limit, r),
            final(self).log() == old(self).log() ==> final(self).provider() == old(self).provider(),
            final(self).log() != old(self).log() ==> exists|p: &mut T|
                *p == old(self).provider() && *final(p) == final(self).provider()
                    && #[trigger] crosses(p, final(self).log().last()),
    {
        let signs = match self.embed_signs(namespace, query) {
            Ok(Some(signs)) => signs,
            Ok(None) => return Err(ToolError::NoEmbedder),
            Err(why) => return Err(ToolError::Embed(why)),
        };
        let candidates = self.ask(namespace, &signs, limit)?;
        let (nsk, _) = self.keys(namespace);
        let found = open_candidates(&nsk, &candidates);
        match &self.embedder {
            Some(e) => match score(e, query, &found) {
                Ok(scores) => {
                    let memories = with_scores(found, &scores);
                    proof {
                        assert(memory_views(memories@) =~= memories_of(
                            nsk@,
                            candidates@,
                            scores@,
                        ));
                    }
                    Ok(rank_memories(&memories, limit))
                },
                Err(why) => Err(ToolError::Embed(why)),
            },
            None => Err(ToolError::NoEmbedder),
        }
    }

    /// Asks the provider to delete a memory. It cannot prove that it did.
    pub fn forget(&mut self, namespace: &str, item_id: &str) -> (r: Result<bool, ToolError>)
        ensures
            forgot(*old(self), *final(self), namespace@, item_id@, r),
            exists|p: &mut T|
                *p == old(self).provider() && *final(p) == final(self).provider()
                    && #[trigger] crosses(p, final(self).log().last()),
    {
        let (_, handle) = self.keys(namespace);
        let wire = self.blind_id(namespace, item_id);
        let ghost before = self.transport.log();
        let reply = self.transport.forget(&handle, wire.as_str());
        proof {
            assert(self.transport.log().drop_last() =~= before);
        }
        match reply {
            Ok(removed) => Ok(removed),
            Err(e) => Err(ToolError::Transport(e)),
        }
    }
}

/// One exchange more than before.
pub open spec fn one_more(before: Seq<Exchange>, after: Seq<Exchange>) -> bool {
    &&& after.len() == before.len() + 1
    &&& after.drop_last() == before
}

/// What a write does: it refuses what is too long to seal and what the embedder refuses, sending
/// nothing; otherwise one sealed write crosses, carrying the memory and indexing it, and what the
/// provider says of it is the outcome.
pub open spec fn wrote<T: ProviderTransport, E: Embedder>(
    before: MemoryTools<T, E>,
    after: MemoryTools<T, E>,
    namespace: Seq<char>,
    item_id: Seq<char>,
    text: Seq<char>,
    expires_at: Option<u64>,
    r: Result<(), ToolError>,
) -> bool {
    &&& after.set_up_as(&before)
    &&& if frame_of(item_id, text).len() > MAX_MESSAGE {
        &&& after.log() == before.log()
        &&& r matches Err(ToolError::Crypto(why))
        &&& why@ == EnvelopeError::Encrypt.text()
    } else {
        ||| {
            &&& after.log() == before.log()
            &&& before.embedder() matches Some(e)
            &&& r matches Err(ToolError::Embed(why))
            &&& embeds_as(&e, text, Err(why))
        }
        ||| {
            &&& one_more(before.log(), after.log())
            &&& after.log().last() matches Exchange::Write(req, reply)
            &&& carries(
                req,
                before.root(),
                before.generation(),
                namespace,
                item_id,
                text,
                expires_at,
            )
            &&& indexes(
                token_views(req.tokens@),
                before.key_of(namespace),
                before.params(),
                before.embedder(),
                text,
            )
            &&& r == match reply {
                Ok(_) => Ok(()),
                Err(e) => Err(ToolError::Transport(e)),
            }
        }
    }
}

/// What a read does: one request crosses, for the blinded id, and what comes back is opened.
pub open spec fn did_read<T: ProviderTransport, E: Embedder>(
    before: MemoryTools<T, E>,
    after: MemoryTools<T, E>,
    namespace: Seq<char>,
    item_id: Seq<char>,
    r: Result<Memory, ToolError>,
) -> bool {
    &&& after.set_up_as(&before)
    &&& one_more(before.log(), after.log())
    &&& after.log().last() matches Exchange::Read(ns, id, reply)
    &&& ns@ == handle_of(before.root(), namespace)
    &&& id == wire_id(before.root(), namespace, item_id)
    &&& id.len() == 32
    &&& match reply {
        Err(e) => r == Err::<Memory, _>(ToolError::Transport(e)),
        Ok(sealed) => match read_outcome(
            before.root(),
            before.generation(),
            namespace,
            item_id,
            sealed@,
        ) {
            Ok(memory) => r matches Ok(m) && m@ == memory,
            Err(e) => r matches Err(ToolError::Crypto(why)) && why@ == e.text(),
        },
    }
}

/// What a search does: without an embedder, or where the embedder refuses the query, nothing
/// crosses; otherwise one sealed search crosses, and the candidates that come back are opened,
/// scored against the query and ranked.
pub open spec fn searched<T: ProviderTransport, E: Embedder>(
    before: MemoryTools<T, E>,
    after: MemoryTools<T, E>,
    namespace: Seq<char>,
    query: Seq<char>,
    limit: usize,
    r: Result<Vec<Memory>, ToolError>,
) -> bool {
    &&& after.set_up_as(&before)
    &&& match before.embedder() {
        None => {
            &&& after.log() == before.log()
            &&& r matches Err(ToolError::NoEmbedder)
        },
        Some(e) => {
            ||| {
                &&& after.log() == before.log()
                &&& r matches Err(ToolError::Embed(why))
                &&& embeds_as(&e, query, Err(why))
            }
            ||| {
                &&& one_more(before.log(), after.log())
                &&& after.log().last() matches Exchange::Search(req, reply)
                &&& req.namespace@ == handle_of(before.root(), namespace)
                &&& req.limit == over_fetch(limit)
                &&& indexes(
                    token_views(req.tokens@),
                    before.key_of(namespace),
                    before.params(),
                    before.embedder(),
                    query,
                )
                &&& match reply {
                    Err(e) => r == Err::<Vec<Memory>, _>(ToolError::Transport(e)),
                    Ok(candidates) => match r {
                        Ok(out) => recalls(
                            &e,
                            query,
                            before.key_of(namespace),
                            candidates@,
                            limit as nat,
                            memory_views(out@),
                        ),
                        Err(ToolError::Embed(why)) => refused_one(
                            &e,
                            query,
                            unscored(before.key_of(namespace), candidates@),
                            why,
                        ),
                        Err(_) => false,
                    },
                }
            }
        },
    }
}

/// What a deletion does: one request crosses, for the blinded id, and what the provider says of it
/// is the outcome.
pub open spec fn forgot<T: ProviderTransport, E: Embedder>(
    before: MemoryTools<T, E>,
    after: MemoryTools<T, E>,
    namespace: Seq<char>,
    item_id: Seq<char>,
    r: Result<bool, ToolError>,
) -> bool {
    &&& after.set_up_as(&before)
    &&& one_more(before.log(), after.log())
    &&& after.log().last() matches Exchange::Forget(ns, id, reply)
    &&& ns@ == handle_of(before.root(), namespace)
    &&& id == wire_id(before.root(), namespace, item_id)
    &&& id.len() == 32
    &&& r == match reply {
        Ok(removed) => Ok(removed),
        Err(e) => Err(ToolError::Transport(e)),
    }
}

/// The memories of the candidates that open under a namespace key, in the order in which the
/// provider returned them and not scored yet. The name the caller chose comes out of the
/// ciphertext, so the agent gets back an id it can actually pass to read or forget.
pub fn open_candidates(nsk: &NamespaceKey, candidates: &Vec<Candidate>) -> (r: Vec<Memory>)
    ensures
        memory_views(r@) == unscored(nsk@, candidates@),
{
    let mut out: Vec<Memory> = Vec::new();
    let mut i: usize = 0;
    proof {
        assert(memory_views(out@) =~= unscored(nsk@, candidates@.take(0)));
    }
    while i < candidates.len()
        invariant
            i <= candidates.len(),
            memory_views(out@) == unscored(nsk@, candidates@.take(i as int)),
        decreases candidates.len() - i,
    {
        let c = &candidates[i];
        let ghost held = candidates@.take(i as int);
        let ghost more = candidates@.take(i + 1);
        let ghost before = memory_views(out@);
        proof {
            assert(more.drop_last() =~= held);
        }
        if let Ok(plain) = nsk.open(c.item_id.as_str(), &c.sealed) {
            let (name, text) = unframe(plain.as_slice());
            out.push(Memory { item_id: name, text, shared_bands: c.shared_bands, score: 0 });
            proof {
                assert(opened(nsk@, more) == opened(nsk@, held).push(*c));
                assert(before.len() == unscored(nsk@, held).len());
                assert(memory_views(out@) =~= unscored(nsk@, more)) by {
                    assert forall|j: int| 0 <= j < out@.len() implies (
                    #[trigger] memory_views(out@)[j]) == unscored(nsk@, more)[j] by {
                        if j < before.len() {
                            assert(memory_views(out@)[j] == before[j]);
                            assert(before[j] == unscored(nsk@, held)[j]);
                        }
                    }
                }
            }
        }
        i = i + 1;
    }
    proof {
        assert(candidates@.take(i as int) =~= candidates@);
    }
    out
}

/// The similarity of each memory's text to a query. A failure of the embedder ends the search,
/// because dropping a memory over it would silently shorten the answer.
pub fn score<E: Embedder>(embedder: &E, query: &str, memories: &Vec<Memory>) -> (r: Result<
    Vec<u32>,
    EmbedError,
>)
    ensures
        match r {
            Ok(scores) => scores_for(embedder, query@, memory_views(memories@), scores@),
            Err(why) => refused_one(embedder, query@, memory_views(memories@), why),
        },
{
    let query_vec = match embedder.embed(query) {
        Ok(v) => v,
        Err(why) => return Err(why),
    };
    let ghost views = memory_views(memories@);
    proof {
        assert(embeds_as(embedder, query@, Ok(query_vec)));
    }
    let mut out: Vec<u32> = Vec::new();
    let mut i: usize = 0;
    while i < memories.len()
        invariant
            views == memory_views(memories@),
            i <= memories.len(),
            out@.len() == i,
            forall|j: int|
                0 <= j < i ==> scored(embedder, query_vec, views[j].text, #[trigger] out@[j]),
        decreases memories.len() - i,
    {
        let text = memories[i].text.as_str();
        let embedding = match embedder.embed(text) {
            Ok(v) => v,
            Err(why) => {
                proof {
                    assert(embeds_as(embedder, views[i as int].text, Err(why)));
                }
                return Err(why);
            },
        };
        let score: u32 = embedder.similarity(&query_vec, &embedding);
        proof {
            assert(embeds_as(embedder, views[i as int].text, Ok(embedding)));
            assert(scored(embedder, query_vec, views[i as int].text, score));
        }
        out.push(score);
        i = i + 1;
    }
    Ok(out)
}

/// Memories with their scores.
pub fn with_scores(memories: Vec<Memory>, scores: &Vec<u32>) -> (r: Vec<Memory>)
    requires
        scores.len() == memories.len(),
    ensures
        r@.len() == memories@.len(),
        forall|i: int|
            0 <= i < r@.len() ==> (#[trigger] r@[i])@ == (MemoryView {
                score: scores@[i],
                ..memories@[i]@
            }),
{
    let ghost listed = memories@;
    let mut out: Vec<Memory> = Vec::new();
    let mut n: usize = 0;
    for m in it: memories
        invariant
            it.seq() == listed,
            scores.len() == listed.len(),
            n == it.index(),
            out@.len() == n,
            forall|i: int|
                0 <= i < out@.len() ==> (#[trigger] out@[i])@ == (MemoryView {
                    score: scores@[i],
                    ..listed[i]@
                }),
    {
        proof {
            assert(m == listed[n as int]);
        }
        out.push(
            Memory {
                item_id: m.item_id,
                text: m.text,
                shared_bands: m.shared_bands,
                score: scores[n],
            },
        );
        n = n + 1;
    }
    out
}

/// What was written reads back: a sealed write that carries a memory opens, at the generation it
/// was written under, to the name it was asked for and the text that was written.
pub proof fn law_written_memories_read_back(
    req: SealedWrite,
    root: Seq<u8>,
    generation: u32,
    namespace: Seq<char>,
    item_id: Seq<char>,
    text: Seq<char>,
    expires_at: Option<u64>,
)
    requires
        carries(req, root, generation, namespace, item_id, text, expires_at),
        encode_utf8(item_id).len() < 0x1_0000_0000,
    ensures
        read_outcome(root, generation, namespace, item_id, req.sealed@) == Ok::<_, EnvelopeError>(
            MemoryView { item_id, text, shared_bands: 0, score: ONE },
        ),
{
    law_frames_round_trip(item_id, text);
}

/// What was written to a provider that did not refuse it reads back from that provider, whatever it
/// is asked in between that neither overwrites nor deletes it nor collects it once it has expired:
/// it is held under the namespace's handle and the blinded id, and what is held opens to the text.
pub proof fn law_stored_memories_read_back(
    m: StoreModel,
    req: SealedWrite,
    root: Seq<u8>,
    generation: u32,
    namespace: Seq<char>,
    item_id: Seq<char>,
    text: Seq<char>,
    expires_at: Option<u64>,
    steps: Seq<Step>,
)
    requires
        carries(req, root, generation, namespace, item_id, text, expires_at),
        encode_utf8(item_id).len() < 0x1_0000_0000,
        !over_capacity(m, req.namespace@, req.item_id@),
        forall|i: int|
            0 <= i < steps.len() ==> spares(
                #[trigger] steps[i],
                req.namespace@,
                written_item(req),
            ),
    ensures
        ({
            let after = after_steps(after_put(m, req.namespace@, written_item(req)), steps);
            let ns = handle_of(root, namespace);
            let id = wire_id(root, namespace, item_id);
            &&& holds(after, ns, id)
            &&& read_outcome(
                root,
                generation,
                namespace,
                item_id,
                items_in(after, ns)[encode_utf8(id)].sealed,
            ) == Ok::<_, EnvelopeError>(
                MemoryView { item_id, text, shared_bands: 0, score: ONE },
            )
        }),
{
    law_written_memories_read_back(req, root, generation, namespace, item_id, text, expires_at);
    law_items_last_until_they_are_touched(
        after_put(m, req.namespace@, written_item(req)),
        req.namespace@,
        written_item(req),
        steps,
    );
}

/// A candidate that opens is among those opened.
proof fn candidates_that_open_are_opened(key: Seq<u8>, candidates: Seq<Candidate>, i: int)
    requires
        0 <= i < candidates.len(),
        opens(key, candidates[i]),
    ensures
        opened(key, candidates).contains(candidates[i]),
    decreases candidates.len(),
{
    let rest = opened(key, candidates.drop_last());
    if i == candidates.len() - 1 {
        assert(opened(key, candidates).last() == candidates[i]);
    } else {
        assert(candidates.drop_last()[i] == candidates[i]);
        candidates_that_open_are_opened(key, candidates.drop_last(), i);
        let j = rest.index_of(candidates[i]);
        assert(opened(key, candidates)[j] == candidates[i]);
    }
}

/// What was written is found: a search of the namespace at the same generation, for tokens of which
/// the memory was given at least one, returns the memory under its own name and with its own text
/// among those it scores, unless as many others as it asks for outrank it. The memory is still held
/// and has not expired, and a search for exactly its own tokens shares them all.
pub proof fn law_written_memories_are_found(
    m: StoreModel,
    req: SealedWrite,
    root: Seq<u8>,
    generation: u32,
    namespace: Seq<char>,
    item_id: Seq<char>,
    text: Seq<char>,
    expires_at: Option<u64>,
    steps: Seq<Step>,
    tokens: Seq<Seq<u8>>,
    shared: int,
    limit: usize,
    now: u64,
    candidates: Seq<Candidate>,
)
    requires
        carries(req, root, generation, namespace, item_id, text, expires_at),
        encode_utf8(item_id).len() < 0x1_0000_0000,
        !over_capacity(m, req.namespace@, req.item_id@),
        forall|i: int|
            0 <= i < steps.len() ==> spares(
                #[trigger] steps[i],
                req.namespace@,
                written_item(req),
            ),
        unexpired(written_item(req), now),
        0 <= shared < req.tokens@.len(),
        tokens.contains(token_views(req.tokens@)[shared]),
        is_search_result(
            kept_items(
                items_in(
                    after_steps(after_put(m, req.namespace@, written_item(req)), steps),
                    handle_of(root, namespace),
                ),
                now,
            ),
            tokens,
            over_fetch(limit) as nat,
            candidate_views(candidates),
        ),
    ensures
        ({
            let hit = candidate_of(written_item(req), tokens);
            let found = unscored(namespace_key_of(root, namespace, generation), candidates);
            &&& tokens == token_views(req.tokens@) ==> hit.shared_bands == tokens.len()
            &&& (exists|i: int|
                0 <= i < found.len() && (#[trigger] found[i]).item_id == item_id && found[i].text
                    == text && found[i].shared_bands == hit.shared_bands) || (candidates.len()
                == over_fetch(limit) && forall|i: int|
                0 <= i < candidates.len() ==> outranks((#[trigger] candidates[i])@, hit))
        }),
{
    let key = namespace_key_of(root, namespace, generation);
    let item = written_item(req);
    let after = after_steps(after_put(m, req.namespace@, item), steps);
    let kept = kept_items(items_in(after, handle_of(root, namespace)), now);
    let hit = candidate_of(item, tokens);
    let hits = candidate_views(candidates);
    let k = encode_utf8(item.item_id);
    law_items_last_until_they_are_touched(
        after_put(m, req.namespace@, item),
        req.namespace@,
        item,
        steps,
    );
    assert(kept.dom().contains(k) && kept[k] == item);
    a_token_asked_for_is_shared(item.tokens, tokens, shared);
    if tokens == token_views(req.tokens@) {
        shared_with_itself(item.tokens, tokens);
    }
    if hits.contains(hit) {
        let i = hits.index_of(hit);
        assert(candidates[i]@ == hit);
        law_frames_round_trip(item_id, text);
        assert(opens(key, candidates[i]));
        candidates_that_open_are_opened(key, candidates, i);
        let j = opened(key, candidates).index_of(candidates[i]);
        let found = unscored(key, candidates);
        assert(found[j] == memory_of(key, candidates[i], 0));
        assert(found[j].item_id == item_id);
    } else {
        assert(candidates.len() == over_fetch(limit));
        assert forall|i: int| 0 <= i < candidates.len() implies outranks(
            (#[trigger] candidates[i])@,
            hit,
        ) by {
            assert(hits[i] == candidates[i]@);
        }
    }
}

/// Rotation loses nothing that is rewrapped: a memory written at one generation and rewrapped for
/// another reads back at that one, under the same id.
pub proof fn law_rewrapped_memories_read_back(
    req: SealedWrite,
    rewrapped: SealedView,
    root: Seq<u8>,
    generation: u32,
    next: u32,
    namespace: Seq<char>,
    item_id: Seq<char>,
    text: Seq<char>,
    expires_at: Option<u64>,
)
    requires
        carries(req, root, generation, namespace, item_id, text, expires_at),
        encode_utf8(item_id).len() < 0x1_0000_0000,
        open_outcome(namespace_key_of(root, namespace, next), req.item_id@, rewrapped)
            == open_outcome(
            namespace_key_of(root, namespace, generation),
            req.item_id@,
            req.sealed@,
        ),
    ensures
        read_outcome(root, next, namespace, item_id, rewrapped) == Ok::<_, EnvelopeError>(
            MemoryView { item_id, text, shared_bands: 0, score: ONE },
        ),
{
    law_written_memories_read_back(req, root, generation, namespace, item_id, text, expires_at);
}

/// What was written can be forgotten at every generation: the handle and the id that a deletion
/// asks for are those the memory is held under, and once it has been asked for nothing is left to
/// forget.
pub proof fn law_written_memories_can_be_forgotten(
    m: StoreModel,
    req: SealedWrite,
    root: Seq<u8>,
    generation: u32,
    namespace: Seq<char>,
    item_id: Seq<char>,
    text: Seq<char>,
    expires_at: Option<u64>,
)
    requires
        carries(req, root, generation, namespace, item_id, text, expires_at),
        !over_capacity(m, req.namespace@, req.item_id@),
    ensures
        ({
            let written = after_put(m, req.namespace@, written_item(req));
            let ns = handle_of(root, namespace);
            let id = wire_id(root, namespace, item_id);
            &&& holds(written, ns, id)
            &&& !holds(after_forget(written, ns, id), ns, id)
        }),
{
}

/// Blinded ids never share a derivation: within a namespace the digested bytes tell ids apart, and
/// across namespaces they tell handles apart.
pub proof fn law_blind_inputs_are_distinct(
    handle: Seq<u8>,
    item_id: Seq<char>,
    other_handle: Seq<u8>,
    other_id: Seq<char>,
)
    requires
        handle.len() == 16,
        other_handle.len() == 16,
        blind_input(handle, item_id) == blind_input(other_handle, other_id),
    ensures
        handle == other_handle,
        item_id == other_id,
{
    let n = encode_utf8("nutcracker:item:v1"@).len() as int;
    let a = blind_input(handle, item_id);
    let b = blind_input(other_handle, other_id);
    assert(handle =~= a.subrange(n, n + 16));
    assert(other_handle =~= b.subrange(n, n + 16));
    assert(encode_utf8(item_id) =~= a.skip(n + 16));
    assert(encode_utf8(other_id) =~= b.skip(n + 16));
    crate::text::utf8_is_injective(item_id, other_id);
}

/// A blinded id is the first half of a digest, in hexadecimal: of the label, the namespace's handle
/// and all the bytes of the caller's id.
pub proof fn law_blinded_ids_digest_the_whole_name(
    root: Seq<u8>,
    namespace: Seq<char>,
    item_id: Seq<char>,
)
    ensures
        ({
            let label = encode_utf8("nutcracker:item:v1"@);
            let handle = handle_of(root, namespace);
            let input = label + handle + encode_utf8(item_id);
            &&& wire_id(root, namespace, item_id) == hex_text(sha256_of(input).take(16))
            &&& input.take(label.len() as int) == label
            &&& input.subrange(label.len() as int, (label.len() + handle.len()) as int) == handle
            &&& input.skip((label.len() + handle.len()) as int) == encode_utf8(item_id)
        }),
{
    let label = encode_utf8("nutcracker:item:v1"@);
    let handle = handle_of(root, namespace);
    let input = label + handle + encode_utf8(item_id);
    assert(input.take(label.len() as int) =~= label);
    assert(input.subrange(label.len() as int, (label.len() + handle.len()) as int) =~= handle);
    assert(input.skip((label.len() + handle.len()) as int) =~= encode_utf8(item_id));
}

/// A search asks the provider for four times as many as it returns, or for as many as can be
/// counted.
pub proof fn law_searches_over_fetch(limit: usize)
    ensures
        over_fetch(limit) >= limit,
        over_fetch(limit) == 4 * limit || (4 * limit > usize::MAX && over_fetch(limit)
            == usize::MAX),
{
}

/// Whether places of candidates, in order, are exactly those of the candidates that open.
pub open spec fn opening_places(key: Seq<u8>, candidates: Seq<Candidate>, at: Seq<int>) -> bool {
    &&& forall|i: int| 0 <= i < at.len() ==> 0 <= (#[trigger] at[i]) < candidates.len()
    &&& forall|i: int, j: int|
        #![trigger at[i], at[j]]
        0 <= i < j < at.len() ==> at[i] < at[j]
    &&& forall|i: int|
        0 <= i < candidates.len() ==> (open_outcome(
            key,
            (#[trigger] candidates[i]).item_id@,
            candidates[i].sealed@,
        ) is Ok <==> at.contains(i))
}

/// The places of the candidates that open.
proof fn places_that_open(key: Seq<u8>, candidates: Seq<Candidate>) -> (at: Seq<int>)
    ensures
        opening_places(key, candidates, at),
        at.len() == opened(key, candidates).len(),
        forall|j: int|
            0 <= j < at.len() ==> opened(key, candidates)[j] == candidates[#[trigger] at[j]],
    decreases candidates.len(),
{
    if candidates.len() == 0 {
        Seq::empty()
    } else {
        let n = candidates.len() - 1;
        let most = candidates.drop_last();
        let rest = places_that_open(key, most);
        let at = if opens(key, candidates.last()) {
            rest.push(n)
        } else {
            rest
        };
        assert forall|i: int| 0 <= i < candidates.len() implies (open_outcome(
            key,
            (#[trigger] candidates[i]).item_id@,
            candidates[i].sealed@,
        ) is Ok <==> at.contains(i)) by {
            if i < n {
                assert(most[i] == candidates[i]);
                if rest.contains(i) {
                    let j = rest.index_of(i);
                    assert(at[j] == i);
                }
                if at.contains(i) {
                    let j = at.index_of(i);
                    assert(rest[j] == i);
                }
            } else {
                if opens(key, candidates.last()) {
                    assert(at[rest.len() as int] == n);
                }
                if at.contains(n) {
                    let j = at.index_of(n);
                    if j < rest.len() {
                        assert(rest[j] < most.len());
                    }
                }
            }
        }
        assert forall|j: int| 0 <= j < at.len() implies opened(key, candidates)[j]
            == candidates[#[trigger] at[j]] by {
            if j < rest.len() {
                assert(opened(key, most)[j] == most[rest[j]]);
            }
        }
        at
    }
}

/// What a search finds is what opens, and all of it: the memories found are those of the candidates
/// that open under the namespace's key, in the order in which the provider returned them, each with
/// the name and the text that its payload holds and the bands the provider counted.
pub proof fn law_found_memories_are_the_candidates_that_open(
    key: Seq<u8>,
    candidates: Seq<Candidate>,
)
    ensures
        exists|at: Seq<int>| #[trigger]
            opening_places(key, candidates, at) && at.len() == unscored(key, candidates).len()
                && forall|j: int|
                0 <= j < at.len() ==> {
                    let c = candidates[#[trigger] at[j]];
                    let found = unscored(key, candidates)[j];
                    &&& open_outcome(key, c.item_id@, c.sealed@) matches Ok(plain)
                    &&& (found.item_id, found.text) == unframed(plain)
                    &&& found.shared_bands == c.shared_bands
                },
{
    let at = places_that_open(key, candidates);
    assert forall|j: int| 0 <= j < at.len() implies {
        let c = candidates[#[trigger] at[j]];
        let found = unscored(key, candidates)[j];
        &&& open_outcome(key, c.item_id@, c.sealed@) matches Ok(plain)
        &&& (found.item_id, found.text) == unframed(plain)
        &&& found.shared_bands == c.shared_bands
    } by {
        assert(at.contains(at[j]));
        assert(open_outcome(
            key,
            candidates[at[j]].item_id@,
            candidates[at[j]].sealed@,
        ) is Ok);
    }
}

/// Whether a memory is one of those found, with its similarity to a query's embedding for a score.
pub open spec fn found_and_scored<E: Embedder>(
    e: &E,
    query_vec: Vec<u32>,
    found: Seq<MemoryView>,
    m: MemoryView,
) -> bool {
    &&& exists|j: int|
        0 <= j < found.len() && (#[trigger] found[j]).item_id == m.item_id && found[j].text
            == m.text && found[j].shared_bands == m.shared_bands
    &&& exists|embedding: Vec<u32>| #[trigger]
        embeds_as(e, m.text, Ok(embedding)) && scores_as(e, query_vec, embedding, m.score)
}

/// A search answers with memories it found, as many as there are and its limit allows, each with
/// the similarity of its own text to one embedding of the query.
pub proof fn law_recalled_memories_are_scored_by_their_text<E: Embedder>(
    e: &E,
    query: Seq<char>,
    key: Seq<u8>,
    candidates: Seq<Candidate>,
    limit: nat,
    out: Seq<MemoryView>,
)
    requires
        recalls(e, query, key, candidates, limit, out),
    ensures
        out.len() == if unscored(key, candidates).len() <= limit {
            unscored(key, candidates).len()
        } else {
            limit
        },
        exists|query_vec: Vec<u32>| #[trigger]
            embeds_as(e, query, Ok(query_vec)) && forall|i: int|
                0 <= i < out.len() ==> found_and_scored(
                    e,
                    query_vec,
                    unscored(key, candidates),
                    #[trigger] out[i],
                ),
{
    let found = unscored(key, candidates);
    let scores = choose|scores: Seq<u32>| #[trigger]
        scores_for(e, query, found, scores) && is_recall(
            memories_of(key, candidates, scores),
            limit,
            out,
        );
    let memories = memories_of(key, candidates, scores);
    law_recalls_are_bounded(memories, limit, out);
    let query_vec = choose|v: Vec<u32>| #[trigger]
        embeds_as(e, query, Ok(v)) && scores.len() == found.len() && forall|i: int|
            0 <= i < scores.len() ==> scored(e, v, found[i].text, #[trigger] scores[i]);
    assert forall|i: int| 0 <= i < out.len() implies found_and_scored(
        e,
        query_vec,
        found,
        #[trigger] out[i],
    ) by {
        assert(memories.contains(out[i]));
        let j = memories.index_of(out[i]);
        assert(memories[j] == out[i]);
        assert(scored(e, query_vec, found[j].text, scores[j]));
        assert(found[j].text == out[i].text);
    }
}

/// A search answers best first: there is a similarity of each memory found, and where all of them
/// are numbers, no memory stands behind one that is less similar, and none is left out that is more
/// similar than one returned.
pub proof fn law_recalled_memories_are_best_first<E: Embedder>(
    e: &E,
    query: Seq<char>,
    key: Seq<u8>,
    candidates: Seq<Candidate>,
    limit: nat,
    out: Seq<MemoryView>,
)
    requires
        recalls(e, query, key, candidates, limit, out),
        candidates.len() <= usize::MAX,
    ensures
        exists|scores: Seq<u32>| #[trigger]
            scores_for(e, query, unscored(key, candidates), scores) && ((forall|i: int|
                0 <= i < scores.len() ==> is_number(#[trigger] scores[i])) ==> best_first(
                scores,
                out,
            )),
{
    let found = unscored(key, candidates);
    let scores = choose|scores: Seq<u32>| #[trigger]
        scores_for(e, query, found, scores) && is_recall(
            memories_of(key, candidates, scores),
            limit,
            out,
        );
    let memories = memories_of(key, candidates, scores);
    if forall|i: int| 0 <= i < scores.len() ==> is_number(#[trigger] scores[i]) {
        opened_are_no_more(key, candidates);
        assert forall|i: int| 0 <= i < memories.len() implies is_number(
            (#[trigger] memories[i]).score,
        ) by {
            assert(is_number(scores[i]));
        }
        law_recalls_are_best_first(memories, limit, out);
        assert forall|k: int|
            0 <= k < scores.len() && (forall|i: int|
                0 <= i < out.len() ==> (#[trigger] out[i]).score != #[trigger] scores[k]) implies forall|
            i: int,
        |
            0 <= i < out.len() ==> number_of((#[trigger] out[i]).score) >= number_of(scores[k]) by {
            assert(memories[k].score == scores[k]);
            if out.contains(memories[k]) {
                let i = out.index_of(memories[k]);
                assert(out[i].score == scores[k]);
            }
        }
    }
}

/// Whether memories stand by their scores, largest first, and no score that is missing among them
/// is larger than one that is there.
pub open spec fn best_first(scores: Seq<u32>, out: Seq<MemoryView>) -> bool {
    &&& forall|i: int, j: int|
        #![trigger out[i], out[j]]
        0 <= i < j < out.len() ==> number_of(out[i].score) >= number_of(out[j].score)
    &&& forall|k: int|
        0 <= k < scores.len() && (forall|i: int|
            0 <= i < out.len() ==> (#[trigger] out[i]).score != #[trigger] scores[k]) ==> forall|
            i: int,
        |
            0 <= i < out.len() ==> number_of((#[trigger] out[i]).score) >= number_of(scores[k])
}

/// No more candidates open than there are.
pub(crate) proof fn opened_are_no_more(key: Seq<u8>, candidates: Seq<Candidate>)
    ensures
        opened(key, candidates).len() <= candidates.len(),
    decreases candidates.len(),
{
    if candidates.len() > 0 {
        opened_are_no_more(key, candidates.drop_last());
    }
}

/// An index asks for every hyperplane: the tokens of a text are those of signs, as many as bands
/// times bits, of which each is the side on which one embedding of the text lies of the hyperplane
/// with that number and as many components as the embedding has.
pub proof fn law_every_hyperplane_is_asked<E: Embedder>(
    tokens: Seq<Seq<u8>>,
    key: Seq<u8>,
    params: IndexParams,
    e: E,
    text: Seq<char>,
)
    requires
        indexes(tokens, key, params, Some(e), text),
    ensures
        exists|embedding: Vec<u32>, signs: Seq<bool>|
            #[trigger] embeds_as(&e, text, Ok(embedding)) && tokens == #[trigger] tokens_of(
                key,
                params,
                signs,
            ) && signs.len() == params.bands * params.band_bits && forall|i: int|
                0 <= i < signs.len() ==> lies_on(
                    &e,
                    plane_of(key, i, embedding@.len()),
                    embedding,
                    #[trigger] signs[i],
                ),
{
    let signs = choose|signs: Seq<bool>|
        signs_for(&e, key, params, text, signs) && tokens == #[trigger] tokens_of(
            key,
            params,
            signs,
        );
    let embedding = choose|embedding: Vec<u32>| #[trigger]
        embeds_as(&e, text, Ok(embedding)) && signs_from(&e, key, params, embedding, signs);
    assert(embeds_as(&e, text, Ok(embedding)));
    assert(tokens == tokens_of(key, params, signs));
}

} // verus!
