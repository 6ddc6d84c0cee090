//! The local shim, end to end against an in-process provider.
//!
//! The provider here is the real store, so these exercise the actual sealing, indexing, narrowing
//! and decryption path, not a mock of it.

use nutcracker::blind_index::{BlindIndex, IndexParams};
use nutcracker::embedder::{EmbedError, Embedder};
use nutcracker::envelope::{NamespaceHandle, RootKey, SealedItem};
use nutcracker::local::LocalProvider;
use nutcracker::memory_store::{InMemoryStore, Snapshot};
use nutcracker::recall::{rank_memories, Memory};
use nutcracker::rpc::{perform, Answer, Call};
use nutcracker::store::{Candidate, IndexMode, MemoryStore, Usage};
use nutcracker::tool_list::{tool_definitions, ParamDefault, ParamKind};
use nutcracker::tools::{
    candidates_wanted, open_candidates, score as similarities, signs_of, with_scores, MemoryTools,
    ToolError,
};
use nutcracker::transport::{ProviderTransport, SealedSearch, SealedWrite, TransportError};
use std::cell::RefCell;
use std::rc::Rc;

/// Every byte the provider was ever handed. Shared with the test so the "never sees plaintext"
/// claim can be checked against what actually crossed the boundary, rather than asserted.
type Wire = Rc<RefCell<Vec<Vec<u8>>>>;

/// A provider that is the real store, reached in process, with a tap on what it is handed.
struct Tapped {
    provider: LocalProvider,
    seen: Wire,
    limits: Rc<RefCell<Vec<usize>>>,
}

impl Tapped {
    fn new(seen: &Wire) -> Self {
        Tapped {
            provider: LocalProvider::new(InMemoryStore::new(), 0),
            seen: Rc::clone(seen),
            limits: Rc::new(RefCell::new(Vec::new())),
        }
    }
}

impl ProviderTransport for Tapped {
    fn write(&mut self, r: SealedWrite) -> Result<(), TransportError> {
        // Record everything that crossed the wire: ciphertext, nonces, wrapped key, tokens.
        let mut seen = self.seen.borrow_mut();
        seen.push(r.sealed.ciphertext.clone());
        seen.push(r.sealed.nonce.to_vec());
        seen.push(r.sealed.wrapped_key.clone());
        seen.push(r.sealed.wrap_nonce.to_vec());
        for t in &r.tokens {
            seen.push(t.0.to_vec());
        }
        seen.push(r.item_id.as_bytes().to_vec());
        seen.push(r.namespace.0.to_vec());
        drop(seen);
        self.provider.write(r)
    }

    fn read(&mut self, ns: &NamespaceHandle, id: &str) -> Result<SealedItem, TransportError> {
        self.provider.read(ns, id)
    }

    fn search(&mut self, r: SealedSearch) -> Result<Vec<Candidate>, TransportError> {
        self.limits.borrow_mut().push(r.limit);
        self.provider.search(r)
    }

    fn forget(&mut self, ns: &NamespaceHandle, id: &str) -> Result<bool, TransportError> {
        self.provider.forget(ns, id)
    }
}

fn floats(v: &[u32]) -> Vec<f32> {
    v.iter().map(|b| f32::from_bits(*b)).collect()
}

fn bits(v: &[f32]) -> Vec<u32> {
    v.iter().map(|x| x.to_bits()).collect()
}

fn side_of(plane: &[u32], embedding: &[u32]) -> bool {
    let mut acc = 0f64;
    for (w, x) in plane.iter().zip(floats(embedding)) {
        let component = (*w as f64 / u32::MAX as f64 * 2.0 - 1.0) as f32;
        acc += f64::from(component) * f64::from(x);
    }
    acc >= 0.0
}

fn cosine(a: &[f32], b: &[f32]) -> f32 {
    let dot: f32 = a.iter().zip(b).map(|(x, y)| x * y).sum();
    let na: f32 = a.iter().map(|x| x * x).sum::<f32>().sqrt();
    let nb: f32 = b.iter().map(|x| x * x).sum::<f32>().sqrt();
    if na == 0.0 || nb == 0.0 {
        0.0
    } else {
        dot / (na * nb)
    }
}

/// A deterministic stand-in for a real local embedding model: a bag-of-characters vector. Crude,
/// but it puts similar strings near each other, which is all these tests need.
struct CharEmbedder;

impl Embedder for CharEmbedder {
    fn embed(&self, text: &str) -> Result<Vec<u32>, EmbedError> {
        let mut v = vec![0f32; 64];
        for b in text.to_lowercase().bytes() {
            v[(b % 64) as usize] += 1.0;
        }
        let norm = v.iter().map(|x| x * x).sum::<f32>().sqrt().max(1.0);
        let unit: Vec<f32> = v.iter().map(|x| x / norm).collect();
        Ok(bits(&unit))
    }

    fn id(&self) -> String {
        "characters".into()
    }

    fn side(&self, plane: &Vec<u32>, embedding: &Vec<u32>) -> bool {
        side_of(plane, embedding)
    }

    fn similarity(&self, a: &Vec<u32>, b: &Vec<u32>) -> u32 {
        cosine(&floats(a), &floats(b)).to_bits()
    }
}

/// An embedder that is down.
struct Down;

impl Embedder for Down {
    fn embed(&self, _: &str) -> Result<Vec<u32>, EmbedError> {
        Err(EmbedError::Empty)
    }

    fn id(&self) -> String {
        "down".into()
    }

    fn side(&self, _: &Vec<u32>, _: &Vec<u32>) -> bool {
        unreachable!("there is no vector to ask about")
    }

    fn similarity(&self, _: &Vec<u32>, _: &Vec<u32>) -> u32 {
        unreachable!("there is no vector to ask about")
    }
}

fn provider() -> LocalProvider {
    LocalProvider::new(InMemoryStore::new(), 0)
}

fn tools() -> MemoryTools<LocalProvider, CharEmbedder> {
    MemoryTools::new(
        RootKey::from_bytes([11u8; 32]),
        provider(),
        Some(CharEmbedder),
    )
}

fn score(m: &Memory) -> f32 {
    f32::from_bits(m.score)
}

#[test]
fn the_four_tools_take_text_because_the_shim_is_local() {
    let defs = tool_definitions();
    let names: Vec<&str> = defs.iter().map(|t| t.name).collect();
    assert_eq!(
        names,
        [
            "memory.write",
            "memory.search",
            "memory.read",
            "memory.forget"
        ]
    );

    // The write tool asks for `text`, not ciphertext. That is only safe because this process holds
    // the key and runs on the user's machine.
    let write: Vec<&str> = defs[0].params.iter().map(|p| p.name).collect();
    assert!(write.contains(&"text"));
    assert!(
        !write.contains(&"ciphertext"),
        "an agent must never be asked to hand over ciphertext"
    );
}

#[test]
fn the_tools_say_what_they_need_and_what_they_assume() {
    let defs = tool_definitions();
    let required: Vec<Vec<&str>> = defs.iter().map(|t| t.required.clone()).collect();
    assert_eq!(
        required,
        [vec!["text"], vec!["query"], vec!["item_id"], vec!["item_id"]]
    );
    for t in &defs {
        let ns = t.params.iter().find(|p| p.name == "namespace").unwrap();
        assert_eq!(ns.default, Some(ParamDefault::Text("default")));
        assert_eq!(ns.kind, ParamKind::Text);
    }
    let limit = &defs[1].params[2];
    assert_eq!(limit.name, "limit");
    assert_eq!(limit.kind, ParamKind::Integer);
    assert_eq!(limit.default, Some(ParamDefault::Integer(10)));
    assert_eq!(limit.description, None);
    let expiry = &defs[0].params[2];
    assert_eq!(
        expiry.description,
        Some("Unix seconds. Omit to keep until forgotten.")
    );
    assert_eq!(
        defs[3].description,
        "Delete a memory. The provider is asked to remove it and cannot prove that it did."
    );
}

#[test]
fn a_memory_can_be_written_and_read_back() {
    let mut t = tools();
    t.write("notes", "m1", "we chose postgres over sqlite", None)
        .unwrap();
    assert_eq!(
        t.read("notes", "m1").unwrap().text,
        "we chose postgres over sqlite"
    );
}

/// The property the whole architecture exists for, checked against the bytes that actually
/// crossed the boundary rather than asserted in prose.
#[test]
fn the_provider_never_receives_the_plaintext() {
    let wire: Wire = Rc::new(RefCell::new(Vec::new()));
    let mut t = MemoryTools::new(
        RootKey::from_bytes([11u8; 32]),
        Tapped::new(&wire),
        Some(CharEmbedder),
    );

    let secret = b"my passphrase is hunter2";
    t.write("notes", "m1", "my passphrase is hunter2", None)
        .unwrap();
    t.write("notes", "m2", "my passphrase is hunter2", None)
        .unwrap();

    let seen = wire.borrow();
    assert!(!seen.is_empty(), "sanity: the wire recorded something");

    // No fragment of the secret appears anywhere the provider could see it.
    for window in 6..=secret.len() {
        for chunk in secret.windows(window) {
            for buf in seen.iter() {
                assert!(
                    !buf.windows(chunk.len()).any(|w| w == chunk),
                    "a {window}-byte fragment of the plaintext crossed the wire"
                );
            }
        }
    }

    // And two identical plaintexts must not produce identical ciphertexts, or the provider learns
    // that the same thing was written twice.
    let ciphertexts: Vec<&Vec<u8>> = seen.iter().filter(|b| b.len() > secret.len()).collect();
    assert!(ciphertexts.len() >= 2);
    assert_ne!(
        ciphertexts[0], ciphertexts[1],
        "identical plaintexts must seal differently"
    );
}

#[test]
fn search_finds_a_related_memory_and_ranks_it() {
    let mut t = tools();
    t.write(
        "notes",
        "db",
        "we chose postgres over sqlite for the sink",
        None,
    )
    .unwrap();
    t.write("notes", "lunch", "sandwiches at the cafe on tuesday", None)
        .unwrap();

    let hits: Vec<Memory> = t
        .search("notes", "we chose postgres over sqlite for the sink", 5)
        .unwrap();
    assert!(!hits.is_empty(), "the matching memory must come back");
    assert_eq!(hits[0].item_id, "db");
    assert!(hits[0].shared_bands > 0);
}

/// Everything a provider held was once opaque except the item id, sitting there in plain text.
/// Callers name things descriptively: `sofia-lease-renewal` would tell a provider everything the
/// encryption was hiding.
#[test]
fn a_descriptive_item_id_never_reaches_the_provider() {
    let wire: Wire = Rc::new(RefCell::new(Vec::new()));
    let mut t = MemoryTools::new(
        RootKey::from_bytes([11u8; 32]),
        Tapped::new(&wire),
        Some(CharEmbedder),
    );

    t.write("notes", "sofia-lease-renewal", "renews in March", None)
        .unwrap();

    let seen = wire.borrow();
    for buf in seen.iter() {
        for chunk in b"sofia-lease-renewal".windows(5) {
            assert!(
                !buf.windows(chunk.len()).any(|w| w == chunk),
                "a fragment of the item id crossed the wire"
            );
        }
    }
    drop(seen);
    // And it still round-trips under the caller's own name.
    assert_eq!(
        t.read("notes", "sofia-lease-renewal").unwrap().text,
        "renews in March"
    );
}

/// The blinded id must be stable across key rotation, or revoking an agent orphans every item.
#[test]
fn a_blinded_id_survives_key_rotation() {
    let mut t = tools();
    t.write("notes", "named", "before rotation", None).unwrap();
    t.rotate();
    // The item cannot be *decrypted* after rotation (that is the point of rotation), but it must
    // still be addressable, otherwise rewrapping it would be impossible.
    assert!(
        t.forget("notes", "named").unwrap(),
        "still addressable by the same name"
    );
}

#[test]
fn namespaces_do_not_leak_into_each_other() {
    let mut t = tools();
    t.write("work", "a", "the deploy key rotates monthly", None)
        .unwrap();
    assert!(
        t.read("personal", "a").is_err(),
        "a different namespace must not resolve it"
    );
}

#[test]
fn forget_removes_it() {
    let mut t = tools();
    t.write("notes", "m1", "temporary thought", None).unwrap();
    assert!(t.forget("notes", "m1").unwrap());
    assert!(t.read("notes", "m1").is_err());
    assert!(!t.forget("notes", "m1").unwrap(), "already gone");
}

/// Without a local embedder, search must fail loudly rather than quietly sending the query
/// somewhere to be embedded.
#[test]
fn search_without_an_embedder_refuses_rather_than_leaking_the_query() {
    let mut t: MemoryTools<LocalProvider, Down> =
        MemoryTools::new(RootKey::from_bytes([1u8; 32]), provider(), None);

    t.write("notes", "m1", "still storable", None).unwrap();
    assert_eq!(
        t.read("notes", "m1").unwrap().text,
        "still storable",
        "read still works"
    );
    assert!(
        t.search("notes", "anything", 5).is_err(),
        "search must refuse"
    );
    let e = t.search("notes", "anything", 5).err().unwrap();
    assert!(matches!(e, ToolError::NoEmbedder));
    assert_eq!(
        e.message(),
        "this build has no embedder configured, so semantic search is unavailable; memory.read still works"
    );
}

/// After rotation, items written under the old generation no longer decrypt. They are not lost,
/// they need rewrapping, but the shim must skip them rather than hand the agent rubbish.
#[test]
fn candidates_that_do_not_decrypt_are_skipped_not_surfaced() {
    let mut t = tools();
    t.write("notes", "old", "written before the rotation", None)
        .unwrap();
    t.rotate();
    t.write("notes", "new", "written before the rotation", None)
        .unwrap();

    let hits = t
        .search("notes", "written before the rotation", 10)
        .unwrap();
    assert_eq!(hits.len(), 1, "only the current generation decrypts");
    assert_eq!(hits[0].item_id, "new");
}

/// The half the provider cannot do. Bucket collisions are a coarse hint, so the provider's ordering
/// must not be what reaches the agent.
#[test]
fn candidates_are_re_ranked_locally_not_served_in_provider_order() {
    let mut t = tools();
    t.write(
        "notes",
        "match",
        "postgres postgres postgres postgres",
        None,
    )
    .unwrap();
    t.write("notes", "unrelated", "zzz qqq zzz qqq zzz qqq", None)
        .unwrap();

    let hits = t
        .search("notes", "postgres postgres postgres postgres", 5)
        .unwrap();
    assert!(!hits.is_empty());
    assert_eq!(
        hits[0].item_id, "match",
        "the closest memory must come first"
    );
    assert!(
        score(&hits[0]) > 0.9,
        "an near-identical query should score high: {}",
        score(&hits[0])
    );
    if hits.len() > 1 {
        assert!(
            score(&hits[0]) > score(&hits[1]),
            "results must be ordered by local similarity, not by the provider's bucket count"
        );
    }
}

/// A zero-magnitude embedding must not produce NaN, because NaN in a sort comparator silently
/// yields a nonsense ordering rather than an error.
#[test]
fn an_empty_query_does_not_produce_a_nan_ordering() {
    let mut t = tools();
    t.write("notes", "a", "something", None).unwrap();
    let hits = t.search("notes", "", 5).unwrap();
    assert!(hits.iter().all(|h| !score(h).is_nan()), "no NaN scores");
}

#[test]
fn search_respects_the_limit_after_local_ranking() {
    let mut t = tools();
    for i in 0..12 {
        t.write(
            "notes",
            &format!("m{i}"),
            "postgres postgres postgres",
            None,
        )
        .unwrap();
    }
    assert_eq!(
        t.search("notes", "postgres postgres postgres", 3)
            .unwrap()
            .len(),
        3
    );
}

#[test]
fn a_read_memory_is_the_one_asked_for() {
    let mut t = tools();
    t.write("notes", "имя", "текст", Some(9)).unwrap();
    let m = t.read("notes", "имя").unwrap();
    assert_eq!(m.item_id, "имя");
    assert_eq!(m.text, "текст");
    assert_eq!(m.shared_bands, 0);
    assert_eq!(score(&m), 1.0);
}

#[test]
fn writing_again_under_a_name_replaces_the_memory() {
    let mut t = tools();
    t.write("notes", "m", "first", None).unwrap();
    t.write("notes", "m", "second", None).unwrap();
    assert_eq!(t.read("notes", "m").unwrap().text, "second");
}

#[test]
fn a_memory_of_another_generation_is_a_crypto_error_not_rubbish() {
    let mut t = tools();
    t.write("notes", "m", "text", None).unwrap();
    t.rotate();
    let e = t.read("notes", "m").err().unwrap();
    assert_eq!(
        e.message(),
        "crypto: decryption failed: wrong key, or the ciphertext or its associated data was altered"
    );
}

#[test]
fn an_unknown_name_is_a_transport_error() {
    let mut t = tools();
    let e = t.read("notes", "never").err().unwrap();
    assert!(matches!(e, ToolError::Transport(TransportError::NotFound)));
    assert_eq!(e.message(), "item not found");
}

#[test]
fn a_failing_embedder_stores_and_searches_nothing() {
    let wire: Wire = Rc::new(RefCell::new(Vec::new()));
    let mut t = MemoryTools::new(
        RootKey::from_bytes([11u8; 32]),
        Tapped::new(&wire),
        Some(Down),
    );
    let e = t.write("notes", "m", "text", None).err().unwrap();
    assert!(matches!(e, ToolError::Embed(EmbedError::Empty)));
    assert_eq!(e.message(), "the embedder returned no vector for this text");
    assert!(t.search("notes", "text", 3).is_err());
    assert!(wire.borrow().is_empty(), "nothing crossed to the provider");
}

#[test]
fn blinded_ids_are_what_they_always_were() {
    let t = MemoryTools::new(
        RootKey::from_bytes([7u8; 32]),
        provider(),
        Some(CharEmbedder),
    );
    assert_eq!(
        t.blind_id("notes", "m1"),
        "405423239604e72e01ebc9c4926dd95e"
    );
    assert_ne!(t.blind_id("notes", "m1"), t.blind_id("notes", "m2"));
    assert_ne!(t.blind_id("notes", "m1"), t.blind_id("other", "m1"));
    let (key, handle) = t.keys("notes");
    assert_eq!(handle.to_hex(), "487023a32ff7a014e7c6e260fa562812");
    assert_eq!(key.as_bytes()[0], 0x70);
}

#[test]
fn a_search_over_fetches_because_the_providers_ranking_is_coarse() {
    let wire: Wire = Rc::new(RefCell::new(Vec::new()));
    let tap = Tapped::new(&wire);
    let limits = Rc::clone(&tap.limits);
    let mut t = MemoryTools::new(RootKey::from_bytes([11u8; 32]), tap, Some(CharEmbedder));
    t.search("notes", "x", 5).unwrap();
    assert_eq!(*limits.borrow(), vec![20]);
    assert_eq!(candidates_wanted(0), 0);
    assert_eq!(candidates_wanted(usize::MAX), usize::MAX);
    assert_eq!(candidates_wanted(usize::MAX / 2), usize::MAX);
}

#[test]
fn the_index_parameters_decide_how_many_tokens_a_write_carries() {
    let wire: Wire = Rc::new(RefCell::new(Vec::new()));
    let params = IndexParams {
        bands: 3,
        band_bits: 5,
    };
    let mut t = MemoryTools::new(
        RootKey::from_bytes([11u8; 32]),
        Tapped::new(&wire),
        Some(CharEmbedder),
    )
    .with_params(params);
    t.write("notes", "m", "text", None).unwrap();
    // Four pieces of the sealed item, the tokens, the id and the namespace.
    assert_eq!(wire.borrow().len(), 4 + 3 + 2);
    assert_eq!(t.search("notes", "text", 1).unwrap()[0].shared_bands, 3);
}

#[test]
fn memories_are_ranked_by_score_then_name_then_order() {
    let memory = |id: &str, s: f32, bands: usize| Memory {
        item_id: id.into(),
        text: format!("{bands}"),
        shared_bands: bands,
        score: s.to_bits(),
    };
    let all = vec![
        memory("b", 0.5, 0),
        memory("c", 0.5, 1),
        memory("a", 0.5, 2),
        memory("low", -0.25, 3),
        memory("zero", 0.0, 4),
        memory("negative-zero", -0.0, 5),
        memory("a", 0.5, 6),
        memory("top", 1.5, 7),
        memory("lower", -0.5, 8),
    ];
    let order: Vec<usize> = rank_memories(&all, 20)
        .iter()
        .map(|m| m.shared_bands)
        .collect();
    assert_eq!(order, vec![7, 2, 6, 0, 1, 5, 4, 3, 8]);
    let first: Vec<usize> = rank_memories(&all, 3)
        .iter()
        .map(|m| m.shared_bands)
        .collect();
    assert_eq!(first, vec![7, 2, 6]);
    assert!(rank_memories(&all, 0).is_empty());
}

#[test]
fn a_score_that_is_not_a_number_ties_and_the_name_decides() {
    let ranked = |scores: &[(&str, f32)], limit: usize| -> Vec<String> {
        let all: Vec<Memory> = scores
            .iter()
            .map(|(id, s)| Memory {
                item_id: id.to_string(),
                text: String::new(),
                shared_bands: 0,
                score: s.to_bits(),
            })
            .collect();
        rank_memories(&all, limit)
            .into_iter()
            .map(|m| m.item_id)
            .collect()
    };
    assert_eq!(ranked(&[("b", 0.5), ("a", f32::NAN)], 5), ["a", "b"]);
    assert_eq!(ranked(&[("b", 0.5), ("c", -f32::NAN)], 5), ["b", "c"]);
    assert_eq!(ranked(&[("b", f32::NAN), ("a", f32::NAN)], 1), ["a"]);
    assert_eq!(
        ranked(&[("b", 0.5), ("m", f32::NAN), ("t", 0.7)], 5).len(),
        3
    );
}

#[test]
fn a_full_provider_refuses_with_its_own_words() {
    let mut store = InMemoryStore::new();
    let root = RootKey::from_bytes([11u8; 32]);
    store.set_capacity(&root.namespace_handle("notes"), 0);
    let mut t = MemoryTools::new(root, LocalProvider::new(store, 0), Some(CharEmbedder));
    let e = t.write("notes", "m", "text", None).err().unwrap();
    assert_eq!(
        e.message(),
        "provider returned 507: namespace is at its committed capacity of 0 items"
    );
}

#[test]
fn a_provider_that_cannot_count_any_more_refuses() {
    let snap = Snapshot {
        items: vec![],
        capacity: vec![],
        usage: Usage {
            writes: u128::MAX,
            reads: u128::MAX,
            searches: u128::MAX,
            forgets: u128::MAX,
        },
    };
    assert!(!snap.usage.can_count());
    assert!(Usage::default().can_count());
    let mut t = MemoryTools::new(
        RootKey::from_bytes([11u8; 32]),
        LocalProvider::new(InMemoryStore::restore(snap), 0),
        Some(CharEmbedder),
    );
    assert!(t.write("notes", "m", "text", None).is_err());
    assert!(t.read("notes", "m").is_err());
    assert!(t.search("notes", "m", 1).is_err());
    assert!(t.forget("notes", "m").is_err());
}

#[test]
fn the_store_behind_a_local_provider_can_be_looked_at() {
    let mut p = provider();
    let ns = NamespaceHandle([1; 16]);
    assert!(!p.forget(&ns, "x").unwrap());
    assert_eq!(p.store().usage().forgets, 1);
}

#[test]
fn a_rewrapped_memory_reads_back_under_the_next_generation() {
    let root = RootKey::from_bytes([11u8; 32]);
    let mut t = tools();
    let sealed = t.seal_memory("notes", "m", "we chose postgres").unwrap();
    assert_eq!(
        t.open_memory("notes", "m", &sealed).unwrap().text,
        "we chose postgres"
    );
    let wire = t.blind_id("notes", "m");
    t.rotate();
    assert!(t.open_memory("notes", "m", &sealed).is_err());
    let rewrapped = root
        .namespace_key("notes", 0)
        .rewrap(&root.namespace_key("notes", 1), &wire, &sealed)
        .unwrap();
    let back = t.open_memory("notes", "m", &rewrapped).unwrap();
    assert_eq!(back.text, "we chose postgres");
    assert_eq!(back.item_id, "m");
    assert_eq!(rewrapped.ciphertext, sealed.ciphertext);
    // And a memory sent as it was rewrapped is the one that is read.
    t.send("notes", "m", rewrapped, None, None).unwrap();
    assert_eq!(t.read("notes", "m").unwrap().text, "we chose postgres");
}

#[test]
fn a_search_is_its_parts() {
    let mut t = tools();
    t.write("notes", "a", "the cat sat on the mat", None).unwrap();
    t.write("notes", "b", "quarterly revenue rose", None).unwrap();
    let query = "the cat sat on the mat";

    let signs = t.embed_signs("notes", query).unwrap().unwrap();
    let (key, _) = t.keys("notes");
    let index = BlindIndex::new(&key, IndexParams::default());
    let embedding = CharEmbedder.embed(query).unwrap();
    assert_eq!(signs_of(&index, &CharEmbedder, &embedding), signs);
    assert_eq!(t.index_tokens("notes", &signs), index.tokens(&signs));

    let candidates = t.ask("notes", &signs, 2).unwrap();
    let found = open_candidates(&key, &candidates);
    assert_eq!(found[0].item_id, "a");
    assert_eq!(found[0].shared_bands, 8);
    let scores = similarities(&CharEmbedder, query, &found).unwrap();
    let ranked = rank_memories(&with_scores(found, &scores), 2);
    assert!((score(&ranked[0]) - 1.0).abs() < 1e-5);
    assert_eq!(t.search("notes", query, 2).unwrap(), ranked);
    // What does not open under the key is left out.
    assert!(open_candidates(&t.keys("other").0, &candidates).is_empty());
}

#[test]
fn parameters_without_an_embedder_index_nothing() {
    let mut t: MemoryTools<LocalProvider, CharEmbedder> =
        MemoryTools::new(RootKey::from_bytes([11u8; 32]), provider(), None).with_params(
            IndexParams {
                bands: 1,
                band_bits: 65,
            },
        );
    t.write("notes", "m", "text", None).unwrap();
    assert_eq!(t.read("notes", "m").unwrap().text, "text");
    assert!(matches!(
        t.search("notes", "text", 1),
        Err(ToolError::NoEmbedder)
    ));
    assert!(t.embed_signs("notes", "text").unwrap().is_none());
}

fn said(a: Answer) -> String {
    match a {
        Answer::Said(s) => s,
        other => panic!("nothing was said: {other:?}"),
    }
}

fn failed(a: Answer) -> String {
    match a {
        Answer::Failed(s) => s,
        other => panic!("nothing failed: {other:?}"),
    }
}

#[test]
fn a_session_does_what_the_agent_asks() {
    let mut t = tools();
    assert!(matches!(perform(&mut t, Call::Initialize), Answer::Welcome));
    assert!(matches!(perform(&mut t, Call::Initialized), Answer::Silence));
    assert!(matches!(perform(&mut t, Call::ListTools), Answer::Tools));
    let write = Call::Write {
        namespace: "notes".into(),
        item_id: "m".into(),
        text: "we chose postgres".into(),
        expires_at: None,
    };
    assert_eq!(said(perform(&mut t, write)), "remembered as m");
    let search = Call::Search {
        namespace: "notes".into(),
        query: "we chose postgres".into(),
        limit: 3,
    };
    match perform(&mut t, search) {
        Answer::Recalled(hits) => {
            assert_eq!(hits.len(), 1);
            assert_eq!(hits[0].text, "we chose postgres");
        }
        other => panic!("nothing was recalled: {other:?}"),
    }
    let read = || Call::Read {
        namespace: "notes".into(),
        item_id: "m".into(),
    };
    let forget = || Call::Forget {
        namespace: "notes".into(),
        item_id: "m".into(),
    };
    assert_eq!(said(perform(&mut t, read())), "we chose postgres");
    assert_eq!(said(perform(&mut t, forget())), "forgotten");
    assert_eq!(
        said(perform(&mut t, forget())),
        "nothing to forget under that id"
    );
    assert_eq!(failed(perform(&mut t, read())), "item not found");
    assert_eq!(
        failed(perform(&mut t, Call::UnknownTool("memory.eat".into()))),
        "unknown tool: memory.eat"
    );
    assert_eq!(
        failed(perform(&mut t, Call::UnknownMethod("ping".into()))),
        "unknown method: ping"
    );
}

#[test]
fn a_memory_is_not_recalled_once_it_has_expired() {
    let mut provider = LocalProvider::new(InMemoryStore::new(), 0);
    let root = RootKey::from_bytes([11u8; 32]);
    let t = MemoryTools::new(root.clone(), LocalProvider::new(InMemoryStore::new(), 0), Some(CharEmbedder));
    let text = "gone tomorrow";
    let signs = t.embed_signs("notes", text).unwrap().unwrap();
    let (_, handle) = t.keys("notes");
    provider
        .write(SealedWrite {
            namespace: handle,
            item_id: t.blind_id("notes", "m"),
            sealed: t.seal_memory("notes", "m", text).unwrap(),
            tokens: t.index_tokens("notes", &signs),
            mode: IndexMode::BlindIndex,
            expires_at: Some(100),
        })
        .unwrap();
    let ask = || SealedSearch {
        namespace: handle,
        tokens: t.index_tokens("notes", &signs),
        limit: 5,
    };
    provider.set_clock(99);
    assert_eq!(provider.search(ask()).unwrap().len(), 1);
    provider.set_clock(100);
    assert!(provider.search(ask()).unwrap().is_empty());
}

#[test]
fn a_deletion_is_answered_by_the_provider_at_every_generation() {
    let mut t = tools();
    t.write("notes", "named", "before rotation", None).unwrap();
    t.rotate();
    assert!(t.forget("notes", "named").unwrap());
    assert!(!t.forget("notes", "named").unwrap());
}
