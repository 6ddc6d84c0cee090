//! The provider-side semantics, tested against the reference store.

use nutcracker::blind_index::{BlindIndex, BucketToken, IndexParams};
use nutcracker::envelope::{NamespaceHandle, RootKey};
use nutcracker::memory_store::{InMemoryStore, Snapshot};
use nutcracker::store::{copy_tokens, IndexMode, MemoryStore, StoreError, StoredItem, Usage};

fn handle(seed: u8, name: &str) -> NamespaceHandle {
    RootKey::from_bytes([seed; 32]).namespace_handle(name)
}

fn item(id: &str, tokens: Vec<BucketToken>, mode: IndexMode, expires: Option<u64>) -> StoredItem {
    let ns = RootKey::from_bytes([1u8; 32]).namespace_key("n", 0);
    StoredItem {
        item_id: id.to_string(),
        sealed: ns.seal(id, format!("contents of {id}").as_bytes()).unwrap(),
        tokens,
        mode,
        expires_at: expires,
    }
}

fn tok(n: u8) -> BucketToken {
    BucketToken([n; 16])
}

fn signs(idx: &BlindIndex, embedding: &[f32]) -> Vec<bool> {
    let mut out = Vec::new();
    for p in 0..idx.params().hyperplanes() {
        let plane = idx.plane(p, embedding.len());
        let mut acc = 0f64;
        for (w, x) in plane.iter().zip(embedding) {
            let component = (*w as f64 / u32::MAX as f64 * 2.0 - 1.0) as f32;
            acc += f64::from(component) * f64::from(*x);
        }
        out.push(acc >= 0.0);
    }
    out
}

#[test]
fn a_stored_item_round_trips_and_stays_sealed() {
    let mut s = InMemoryStore::new();
    let ns = handle(1, "notes");
    s.put(&ns, item("a", vec![tok(1)], IndexMode::BlindIndex, None))
        .unwrap();
    let sealed = s.get(&ns, "a").unwrap();
    // The store returns ciphertext. It never had anything else.
    assert!(!sealed.ciphertext.windows(8).any(|w| w == b"contents"));
}

#[test]
fn namespaces_are_isolated() {
    let mut s = InMemoryStore::new();
    let a = handle(1, "notes");
    let b = handle(2, "notes");
    s.put(&a, item("x", vec![tok(1)], IndexMode::BlindIndex, None))
        .unwrap();
    assert_eq!(s.get(&b, "x"), Err(StoreError::NotFound));
    assert!(
        s.search(&b, &[tok(1)], 10, 0).is_empty(),
        "a token must not match across namespaces"
    );
}

#[test]
fn search_ranks_by_shared_bands_and_breaks_ties_deterministically() {
    let mut s = InMemoryStore::new();
    let ns = handle(1, "notes");
    s.put(
        &ns,
        item(
            "three",
            vec![tok(1), tok(2), tok(3)],
            IndexMode::BlindIndex,
            None,
        ),
    )
    .unwrap();
    s.put(
        &ns,
        item("one-b", vec![tok(1)], IndexMode::BlindIndex, None),
    )
    .unwrap();
    s.put(
        &ns,
        item("one-a", vec![tok(2)], IndexMode::BlindIndex, None),
    )
    .unwrap();
    s.put(&ns, item("none", vec![tok(9)], IndexMode::BlindIndex, None))
        .unwrap();

    let hits = s.search(&ns, &[tok(1), tok(2), tok(3)], 10, 0);
    assert_eq!(hits.len(), 3, "the non-matching item must not be returned");
    assert_eq!(hits[0].item_id, "three");
    assert_eq!(hits[0].shared_bands, 3);
    assert_eq!(hits[1].item_id, "one-a");
    assert_eq!(hits[2].item_id, "one-b");
    assert_eq!(
        s.search(&ns, &[tok(1), tok(2), tok(3)], 10, 0),
        hits,
        "stable across identical queries"
    );
}

#[test]
fn search_respects_the_limit() {
    let mut s = InMemoryStore::new();
    let ns = handle(1, "notes");
    for i in 0..10 {
        s.put(
            &ns,
            item(&format!("i{i}"), vec![tok(1)], IndexMode::BlindIndex, None),
        )
        .unwrap();
    }
    assert_eq!(s.search(&ns, &[tok(1)], 3, 0).len(), 3);
}

#[test]
fn forget_actually_removes_and_reports_honestly() {
    let mut s = InMemoryStore::new();
    let ns = handle(1, "notes");
    s.put(&ns, item("a", vec![tok(1)], IndexMode::BlindIndex, None))
        .unwrap();
    assert!(s.forget(&ns, "a"), "removed");
    assert_eq!(s.get(&ns, "a"), Err(StoreError::NotFound));
    assert!(
        s.search(&ns, &[tok(1)], 10, 0).is_empty(),
        "its buckets went with it"
    );
    assert!(
        !s.forget(&ns, "a"),
        "nothing left to remove: say so rather than claim success"
    );
}

/// Deletion is counted whether or not anything was there. The count reflects requests billed, not
/// a flattering subset of them.
#[test]
fn forget_is_counted_even_when_it_removes_nothing() {
    let mut s = InMemoryStore::new();
    s.forget(&handle(1, "notes"), "never-existed");
    assert_eq!(s.usage().forgets, 1);
}

#[test]
fn expired_items_are_collected() {
    let mut s = InMemoryStore::new();
    let ns = handle(1, "notes");
    s.put(&ns, item("keep", vec![tok(1)], IndexMode::BlindIndex, None))
        .unwrap();
    s.put(
        &ns,
        item("go", vec![tok(1)], IndexMode::BlindIndex, Some(100)),
    )
    .unwrap();
    assert_eq!(s.gc(50), 0, "not yet expired");
    assert_eq!(s.gc(101), 1);
    assert_eq!(s.len(&ns), 1);
    assert!(s.get(&ns, "keep").is_ok());
}

#[test]
fn capacity_is_enforced_but_overwrites_are_not_growth() {
    let mut s = InMemoryStore::new();
    let ns = handle(1, "notes");
    s.set_capacity(&ns, 2);
    s.put(&ns, item("a", vec![tok(1)], IndexMode::BlindIndex, None))
        .unwrap();
    s.put(&ns, item("b", vec![tok(1)], IndexMode::BlindIndex, None))
        .unwrap();
    assert_eq!(
        s.put(&ns, item("c", vec![tok(1)], IndexMode::BlindIndex, None)),
        Err(StoreError::AtCapacity(2))
    );
    // Rewriting an existing id must still work at capacity, or a full namespace becomes read-only.
    s.put(&ns, item("a", vec![tok(2)], IndexMode::BlindIndex, None))
        .unwrap();
}

/// The claim has to be able to become false, or it is not a claim.
#[test]
fn one_plaintext_vector_item_voids_the_e2e_claim_for_the_whole_namespace() {
    let mut s = InMemoryStore::new();
    let ns = handle(1, "notes");
    s.put(&ns, item("a", vec![tok(1)], IndexMode::BlindIndex, None))
        .unwrap();
    assert!(s.is_e2e(&ns));
    s.put(
        &ns,
        item("b", vec![tok(1)], IndexMode::PlaintextVectors, None),
    )
    .unwrap();
    assert!(!s.is_e2e(&ns), "a single named-mode item voids it");
    s.forget(&ns, "b");
    assert!(s.is_e2e(&ns), "and removing it restores the claim");
}

#[test]
fn usage_counts_each_operation() {
    let mut s = InMemoryStore::new();
    let ns = handle(1, "notes");
    s.put(&ns, item("a", vec![tok(1)], IndexMode::BlindIndex, None))
        .unwrap();
    let _ = s.get(&ns, "a");
    s.search(&ns, &[tok(1)], 10, 0);
    s.forget(&ns, "a");
    let u = s.usage();
    assert_eq!((u.writes, u.reads, u.searches, u.forgets), (1, 1, 1, 1));
}

/// End to end against the real crypto: seal, index, store, search, retrieve, decrypt.
#[test]
fn a_real_memory_survives_the_whole_round_trip() {
    let root = RootKey::from_bytes([5u8; 32]);
    let nsk = root.namespace_key("notes", 0);
    let ns = root.namespace_handle("notes");
    let idx = BlindIndex::new(&nsk, IndexParams::default());
    let mut s = InMemoryStore::new();

    let embedding: Vec<f32> = (0..64).map(|i| (i as f32 * 0.037).sin()).collect();
    let plaintext = b"we chose postgres over sqlite for the sink";
    s.put(
        &ns,
        StoredItem {
            item_id: "m1".into(),
            sealed: nsk.seal("m1", plaintext).unwrap(),
            tokens: idx.tokens(&signs(&idx, &embedding)),
            mode: IndexMode::BlindIndex,
            expires_at: None,
        },
    )
    .unwrap();

    let query: Vec<f32> = embedding.iter().map(|x| x + 0.01).collect();
    let hits = s.search(&ns, &idx.tokens(&signs(&idx, &query)), 5, 0);
    assert_eq!(hits.len(), 1, "the memory should be retrieved");
    assert_eq!(
        nsk.open(&hits[0].item_id, &hits[0].sealed).unwrap(),
        plaintext
    );
}

#[test]
fn a_read_that_finds_nothing_is_not_counted() {
    let mut s = InMemoryStore::new();
    let ns = handle(1, "notes");
    assert_eq!(s.get(&ns, "a"), Err(StoreError::NotFound));
    assert_eq!(s.usage(), Usage::default());
    s.search(&ns, &[tok(1)], 1, 0);
    assert_eq!(s.usage().searches, 1);
}

#[test]
fn a_refused_write_changes_nothing_and_is_not_counted() {
    let mut s = InMemoryStore::new();
    let ns = handle(1, "notes");
    s.set_capacity(&ns, 0);
    assert!(s
        .put(&ns, item("a", vec![tok(1)], IndexMode::BlindIndex, None))
        .is_err());
    assert!(s.is_empty(&ns));
    assert_eq!(s.usage().writes, 0);
    assert_eq!(s.get(&ns, "a"), Err(StoreError::NotFound));
}

#[test]
fn an_item_expires_at_its_second_and_not_before() {
    let mut s = InMemoryStore::new();
    let a = handle(1, "notes");
    let b = handle(2, "notes");
    for ns in [&a, &b] {
        for (id, at) in [("x", 10), ("y", 11), ("z", 12)] {
            s.put(ns, item(id, vec![tok(1)], IndexMode::BlindIndex, Some(at)))
                .unwrap();
        }
    }
    assert_eq!(s.gc(9), 0);
    assert_eq!(s.gc(11), 4, "an item is gone once its second has come");
    assert_eq!(s.len(&a), 1);
    assert!(s.get(&b, "z").is_ok());
    assert_eq!(s.gc(11), 0, "collecting again finds nothing");
}

#[test]
fn an_expired_item_is_not_found_though_it_is_not_collected_yet() {
    let mut s = InMemoryStore::new();
    let ns = handle(1, "notes");
    s.put(&ns, item("old", vec![tok(1)], IndexMode::BlindIndex, Some(100)))
        .unwrap();
    s.put(&ns, item("kept", vec![tok(1)], IndexMode::BlindIndex, None))
        .unwrap();
    let ids = |s: &mut InMemoryStore, now: u64| -> Vec<String> {
        s.search(&ns, &[tok(1)], 10, now)
            .into_iter()
            .map(|c| c.item_id)
            .collect()
    };
    assert_eq!(ids(&mut s, 99), ["kept", "old"]);
    assert_eq!(ids(&mut s, 100), ["kept"], "its second has come");
    assert_eq!(ids(&mut s, 200), ["kept"]);
    // Collecting changes what is held, and no answer.
    assert_eq!(s.len(&ns), 2);
    assert_eq!(s.gc(200), 1);
    assert_eq!(ids(&mut s, 200), ["kept"]);
}

#[test]
fn a_smaller_limit_cuts_the_tail_and_tokens_are_a_set() {
    let mut s = InMemoryStore::new();
    let ns = handle(1, "notes");
    for (id, tokens) in [
        ("a", vec![tok(1)]),
        ("b", vec![tok(1), tok(2)]),
        ("c", vec![tok(2)]),
    ] {
        s.put(&ns, item(id, tokens, IndexMode::BlindIndex, None))
            .unwrap();
    }
    let all = s.search(&ns, &[tok(1), tok(2)], 10, 0);
    assert_eq!(all.len(), 3);
    for n in 0..5 {
        assert_eq!(
            s.search(&ns, &[tok(2), tok(1), tok(2)], n, 0),
            all[..n.min(3)]
        );
    }
}

#[test]
fn every_matching_token_of_an_item_counts() {
    let mut s = InMemoryStore::new();
    let ns = handle(1, "notes");
    s.put(
        &ns,
        item("a", vec![tok(1), tok(1), tok(2)], IndexMode::BlindIndex, None),
    )
    .unwrap();
    // Twice the same token in the item counts twice; twice in the query counts once.
    let hits = s.search(&ns, &[tok(1), tok(1)], 10, 0);
    assert_eq!(hits[0].shared_bands, 2);
    assert!(s.search(&ns, &[tok(1)], 0, 0).is_empty());
    assert!(s.search(&ns, &[], 10, 0).is_empty());
}

#[test]
fn a_snapshot_restores_the_same_store() {
    let mut s = InMemoryStore::new();
    let a = handle(1, "notes");
    let b = handle(2, "notes");
    s.set_capacity(&b, 7);
    s.put(&a, item("y", vec![tok(1)], IndexMode::BlindIndex, None))
        .unwrap();
    s.put(&a, item("x", vec![tok(2)], IndexMode::PlaintextVectors, Some(5)))
        .unwrap();
    s.put(&b, item("x", vec![tok(3)], IndexMode::BlindIndex, None))
        .unwrap();
    let kept = s.get(&a, "x").unwrap();

    let snap = s.snapshot();
    assert_eq!(snap.items.len(), 2);
    let of_a = snap.items.iter().find(|(ns, _)| *ns == a).unwrap();
    let ids: Vec<&str> = of_a.1.iter().map(|i| i.item_id.as_str()).collect();
    assert_eq!(ids, ["x", "y"], "in the order of their ids");
    assert_eq!(snap.capacity, vec![(b, 7)]);

    let mut reborn = InMemoryStore::restore(snap);
    assert_eq!(reborn.usage().writes, 3);
    assert_eq!(reborn.usage().reads, 1);
    assert_eq!(reborn.get(&a, "x"), Ok(kept));
    assert_eq!(reborn.len(&a), 2);
    assert!(!reborn.is_e2e(&a));
    assert!(reborn.is_e2e(&b));
    assert_eq!(reborn.gc(5), 1);
}

#[test]
fn in_a_snapshot_the_later_entry_counts() {
    let ns = handle(1, "notes");
    let first = item("a", vec![tok(1)], IndexMode::BlindIndex, None);
    let second = item("a", vec![tok(2)], IndexMode::BlindIndex, None);
    let third = item("b", vec![tok(3)], IndexMode::BlindIndex, None);
    let snap = Snapshot {
        items: vec![(ns, vec![first, second.clone()]), (ns, vec![third])],
        capacity: vec![(ns, 9), (ns, 2)],
        usage: Usage::default(),
    };
    let mut s = InMemoryStore::restore(snap);
    assert_eq!(s.len(&ns), 2);
    assert_eq!(s.get(&ns, "a"), Ok(second.sealed));
    assert_eq!(
        s.put(&ns, item("c", vec![], IndexMode::BlindIndex, None)),
        Err(StoreError::AtCapacity(2))
    );
    assert!(InMemoryStore::restore(Snapshot::default()).is_empty(&ns));
}

#[test]
fn store_errors_say_what_happened() {
    assert_eq!(StoreError::NotFound.message(), "item not found");
    assert_eq!(
        StoreError::AtCapacity(120).message(),
        "namespace is at its committed capacity of 120 items"
    );
}

#[test]
fn an_item_is_found_by_its_own_tokens() {
    let mut s = InMemoryStore::new();
    let ns = handle(1, "notes");
    let own = vec![tok(1), tok(2), tok(3)];
    s.put(&ns, item("mine", own.clone(), IndexMode::BlindIndex, None))
        .unwrap();
    s.put(&ns, item("near", vec![tok(1), tok(9)], IndexMode::BlindIndex, None))
        .unwrap();
    let hits = s.search(&ns, &own, 1, 0);
    assert_eq!(hits[0].item_id, "mine");
    assert_eq!(hits[0].shared_bands, 3);
    // As many items as the limit may outrank it.
    s.put(&ns, item("less", own.clone(), IndexMode::BlindIndex, None))
        .unwrap();
    assert_eq!(s.search(&ns, &own, 1, 0)[0].item_id, "less");
}

#[test]
fn collecting_again_changes_nothing() {
    let mut s = InMemoryStore::new();
    let ns = handle(1, "notes");
    s.put(&ns, item("a", vec![], IndexMode::BlindIndex, Some(5)))
        .unwrap();
    s.put(&ns, item("b", vec![], IndexMode::BlindIndex, Some(6)))
        .unwrap();
    assert_eq!(s.gc(5), 1);
    assert_eq!(s.gc(5), 0);
    assert_eq!(s.len(&ns), 1);
}

#[test]
fn a_copy_of_tokens_is_the_same_tokens() {
    assert_eq!(copy_tokens(&[tok(1), tok(2)]), vec![tok(1), tok(2)]);
    assert!(copy_tokens(&[]).is_empty());
}

#[test]
fn capacity_holds_through_any_requests() {
    let mut s = InMemoryStore::new();
    let ns = handle(1, "notes");
    let other = handle(2, "notes");
    s.set_capacity(&ns, 2);
    for i in 0..30u64 {
        let id = format!("{}", i % 7);
        let _ = s.put(&ns, item(&id, vec![tok(1)], IndexMode::BlindIndex, Some(i)));
        let _ = s.put(&other, item(&id, vec![tok(1)], IndexMode::BlindIndex, None));
        let _ = s.get(&ns, &id);
        s.search(&ns, &[tok(1)], 5, i);
        if i % 4 == 0 {
            s.forget(&ns, &id);
        }
        if i % 9 == 0 {
            s.gc(i);
        }
        assert!(s.len(&ns) <= 2);
        assert_eq!(s.is_empty(&ns), s.len(&ns) == 0);
    }
    assert_eq!(s.len(&other), 7);
}

#[test]
fn an_item_lasts_until_it_is_touched() {
    let mut s = InMemoryStore::new();
    let ns = handle(1, "notes");
    let kept = item("a", vec![tok(1)], IndexMode::BlindIndex, Some(10));
    s.put(&ns, kept.clone()).unwrap();
    s.put(&ns, item("b", vec![tok(1)], IndexMode::BlindIndex, None))
        .unwrap();
    s.forget(&ns, "b");
    s.forget(&handle(2, "notes"), "a");
    s.gc(9);
    assert_eq!(s.get(&ns, "a"), Ok(kept.sealed));
}
