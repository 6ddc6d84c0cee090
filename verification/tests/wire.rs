//! The wire format and what a provider answers to each request.

use nutcracker::blind_index::BucketToken;
use nutcracker::envelope::{NamespaceHandle, RootKey};
use nutcracker::memory_store::InMemoryStore;
use nutcracker::routes::{self, forget, read, search, usage};
use nutcracker::store::MemoryStore;
use nutcracker::wire::{
    default_limit, default_mode, encode_sealed, encode_tokens, from_hex, parse_handle,
    parse_sealed, parse_token, parse_tokens, to_hex, SealedItemWire, SearchRequest, WriteRequest,
};

const NS: &str = "000102030405060708090a0b0c0d0e0f"; // 16 bytes

fn sealed() -> SealedItemWire {
    SealedItemWire {
        ciphertext: "00".into(),
        nonce: "00".repeat(24),
        wrapped_key: "00".into(),
        wrap_nonce: "00".repeat(24),
    }
}

fn request(namespace: &str, item_id: &str, tokens: Vec<String>) -> WriteRequest {
    WriteRequest {
        namespace: namespace.into(),
        item_id: item_id.into(),
        sealed: sealed(),
        tokens,
        mode: default_mode(),
        expires_at: None,
    }
}

fn handle() -> NamespaceHandle {
    let mut h = [0u8; 16];
    for (i, b) in h.iter_mut().enumerate() {
        *b = i as u8;
    }
    NamespaceHandle(h)
}

#[test]
fn hex_round_trips() {
    let b = vec![0u8, 1, 0x7f, 0xff];
    assert_eq!(from_hex(&to_hex(&b)).unwrap(), b);
}

#[test]
fn odd_length_and_junk_hex_are_rejected_rather_than_truncated() {
    assert!(from_hex("abc").is_none());
    assert!(from_hex("zz").is_none());
}

#[test]
fn hex_is_read_in_either_case_and_never_panics() {
    assert_eq!(from_hex("DEadBEef").unwrap(), vec![0xde, 0xad, 0xbe, 0xef]);
    assert_eq!(to_hex(&[0xde, 0xad, 0xbe, 0xef]), "deadbeef");
    assert_eq!(from_hex("").unwrap(), Vec::<u8>::new());
    assert!(from_hex("0g").is_none());
    assert!(from_hex("é").is_none());
    assert!(from_hex("aéb").is_none());
    assert!(from_hex("+f").is_none(), "a sign is no digit");
    assert!(from_hex("a\u{e9}a").is_none());
    assert!(from_hex("-f").is_none());
    assert!(from_hex("f+").is_none());
}

#[test]
fn mode_defaults_to_blind_so_the_unsafe_option_must_be_asked_for() {
    let r = request("aa", "i", vec![]);
    assert_eq!(r.mode, "blind");
    assert_eq!(default_limit(), 20);
}

#[test]
fn a_short_namespace_handle_is_rejected_not_padded() {
    let mut s = InMemoryStore::new();
    let e = routes::write(&mut s, request("0001", "a", vec![])).err().unwrap();
    assert_eq!(e.status, 400);
    assert!(e.message.contains("16 hex bytes"));
}

#[test]
fn a_malformed_token_is_rejected_rather_than_silently_dropped() {
    // A dropped token is a memory that quietly stops being findable, which is the worst
    // available failure: no error, no data loss, just worse recall forever.
    let mut s = InMemoryStore::new();
    let e = routes::write(&mut s, request(NS, "a", vec!["zz".into()])).err().unwrap();
    assert_eq!(e.status, 400);
    assert_eq!(e.message, "each token must be 16 hex bytes");
    assert!(s.is_empty(&handle()));
}

#[test]
fn a_malformed_nonce_is_rejected() {
    let mut s = InMemoryStore::new();
    let mut r = request(NS, "a", vec![]);
    r.sealed.nonce = "0011".into();
    let e = routes::write(&mut s, r).err().unwrap();
    assert_eq!(e.status, 400);
    assert_eq!(e.message, "malformed sealed item");
}

#[test]
fn a_well_formed_write_is_accepted() {
    let mut s = InMemoryStore::new();
    let status = routes::write(&mut s, request(NS, "a", vec!["ff".repeat(16)])).ok();
    assert_eq!(status, Some(201));
}

/// A limit is a resource bound, not a suggestion: one request must not be able to ask a provider
/// to serialise a whole namespace.
#[test]
fn an_absurd_search_limit_is_clamped_rather_than_honoured() {
    let mut s = InMemoryStore::new();
    for i in 0..600 {
        let _ = routes::write(&mut s, request(NS, &format!("i{i}"), vec!["ff".repeat(16)]));
    }
    let hits = search(
        &mut s,
        SearchRequest {
            namespace: NS.into(),
            tokens: vec!["ff".repeat(16)],
            limit: 100000,
        },
        0,
    )
    .ok()
    .unwrap();
    assert_eq!(hits.len(), 500, "clamped to the ceiling");
}

/// A 404 on delete would leak whether an item existed to anyone who guesses an id.
#[test]
fn forgetting_something_that_was_never_there_does_not_leak_that_fact() {
    let mut s = InMemoryStore::new();
    assert_eq!(forget(&mut s, NS, "never-existed").ok(), Some(false));
}

#[test]
fn reading_an_unknown_item_is_a_404() {
    let mut s = InMemoryStore::new();
    let e = read(&mut s, NS, "nope").err().unwrap();
    assert_eq!(e.status, 404);
    assert_eq!(e.message, "not found");
}

/// Anything that is not exactly "blind" is treated as the unsafe named mode. Defaulting the other
/// way would let a typo silently void a namespace's end-to-end claim.
#[test]
fn an_unrecognised_index_mode_is_treated_as_unsafe_not_as_blind() {
    let mut s = InMemoryStore::new();
    let mut r = request(NS, "a", vec![]);
    r.mode = "blindd".into();
    assert_eq!(routes::write(&mut s, r).ok(), Some(201));
    assert!(
        !s.is_e2e(&handle()),
        "a typo in `mode` must fail closed"
    );
}

#[test]
fn an_item_survives_a_restart() {
    let mut s = InMemoryStore::new();
    assert_eq!(
        routes::write(&mut s, request(NS, "a", vec!["ff".repeat(16)])).ok(),
        Some(201)
    );
    let mut reborn = InMemoryStore::restore(s.snapshot());
    assert_eq!(read(&mut reborn, NS, "a").ok(), Some(sealed()));
}

#[test]
fn a_forget_is_persisted_too_or_deleted_memories_come_back() {
    let mut s = InMemoryStore::new();
    let _ = routes::write(&mut s, request(NS, "a", vec![]));
    assert_eq!(forget(&mut s, NS, "a").ok(), Some(true));
    let mut reborn = InMemoryStore::restore(s.snapshot());
    assert_eq!(
        read(&mut reborn, NS, "a").err().map(|e| e.status),
        Some(404),
        "a forgotten memory must not resurrect"
    );
}

#[test]
fn a_full_namespace_answers_507_and_says_how_full() {
    let mut s = InMemoryStore::new();
    s.set_capacity(&handle(), 1);
    assert_eq!(routes::write(&mut s, request(NS, "a", vec![])).ok(), Some(201));
    let e = routes::write(&mut s, request(NS, "b", vec![])).err().unwrap();
    assert_eq!(e.status, 507);
    assert_eq!(e.message, "at capacity (1)");
    assert_eq!(routes::write(&mut s, request(NS, "a", vec![])).ok(), Some(201));
}

#[test]
fn malformed_namespaces_are_refused_everywhere() {
    let mut s = InMemoryStore::new();
    for ns in ["", "00", "zz", "000102030405060708090a0b0c0d0e0f00"] {
        assert_eq!(read(&mut s, ns, "a").err().unwrap().status, 400);
        assert_eq!(forget(&mut s, ns, "a").err().unwrap().status, 400);
        let e = search(
            &mut s,
            SearchRequest {
                namespace: ns.into(),
                tokens: vec![],
                limit: 1,
            },
            0,
        )
        .err()
        .unwrap();
        assert_eq!(e.status, 400);
        assert_eq!(e.message, "namespace must be 16 hex bytes");
    }
    let e = search(
        &mut s,
        SearchRequest {
            namespace: NS.into(),
            tokens: vec!["00".into()],
            limit: 1,
        },
        0,
    )
    .err()
    .unwrap();
    assert_eq!(e.message, "each token must be 16 hex bytes");
    assert_eq!(usage(&s).searches, 0);
    assert_eq!(usage(&s).forgets, 0);
}

#[test]
fn a_search_answers_best_first_on_the_wire() {
    let mut s = InMemoryStore::new();
    let _ = routes::write(&mut s, request(NS, "b", vec!["11".repeat(16)]));
    let _ = routes::write(&mut s, request(NS, "a", vec!["11".repeat(16)]));
    let _ = routes::write(
        &mut s,
        request(NS, "c", vec!["11".repeat(16), "22".repeat(16)]),
    );
    let hits = search(
        &mut s,
        SearchRequest {
            namespace: NS.into(),
            tokens: vec!["22".repeat(16), "11".repeat(16)],
            limit: 2,
        },
        0,
    )
    .ok()
    .unwrap();
    assert_eq!(hits.len(), 2);
    assert_eq!((hits[0].item_id.as_str(), hits[0].shared_bands), ("c", 2));
    assert_eq!((hits[1].item_id.as_str(), hits[1].shared_bands), ("a", 1));
    assert_eq!(hits[1].sealed, sealed());
    assert_eq!(usage(&s).writes, 3);
    assert_eq!(usage(&s).searches, 1);
}

#[test]
fn a_sealed_item_survives_the_wire() {
    let ns = RootKey::from_bytes([3u8; 32]).namespace_key("n", 0);
    let s = ns.seal("i", b"hello").unwrap();
    assert_eq!(parse_sealed(&encode_sealed(&s)).unwrap(), s);
}

#[test]
fn handles_and_tokens_are_sixteen_bytes_or_nothing() {
    assert_eq!(parse_handle(NS), Some(handle()));
    assert_eq!(parse_handle("00"), None);
    assert_eq!(parse_token(&"ab".repeat(16)), Some(BucketToken([0xab; 16])));
    assert_eq!(parse_token(&"ab".repeat(17)), None);
    let tokens = vec![BucketToken([1; 16]), BucketToken([2; 16])];
    assert_eq!(parse_tokens(&encode_tokens(&tokens)), Some(tokens));
    assert_eq!(parse_tokens(&vec!["ab".repeat(16), "zz".into()]), None);
}

/// The request type must have nowhere to put a plaintext. If a field is ever added that could, this
/// is the test that should stop it.
#[test]
fn the_write_request_has_no_field_for_text_or_a_key() {
    let shown = format!(
        "{:?}",
        WriteRequest {
            namespace: "aa".into(),
            item_id: "i".into(),
            sealed: SealedItemWire {
                ciphertext: "00".into(),
                nonce: "00".into(),
                wrapped_key: "00".into(),
                wrap_nonce: "00".into(),
            },
            tokens: vec![],
            mode: "blind".into(),
            expires_at: None,
        }
    );
    // The fields, inner ones included, as they would be named on the wire.
    let fields: String = shown
        .split(' ')
        .filter_map(|word| word.strip_suffix(':'))
        .map(|name| format!("\"{name}\":"))
        .collect();
    assert!(fields.contains("\"namespace\":") && fields.contains("\"wrap_nonce\":"));
    for forbidden in [
        "\"text\"",
        "\"plaintext\"",
        "\"key\":",
        "\"embedding\"",
        "\"vector\"",
    ] {
        assert!(
            !fields.contains(forbidden),
            "wire format must not carry {forbidden}"
        );
    }
}

/// The one claim a snapshot must not break. It is written to a provider's disk, so it holds
/// ciphertext and tokens and nothing that could be read.
#[test]
fn the_snapshot_on_disk_holds_no_plaintext() {
    let nsk = RootKey::from_bytes([9u8; 32]).namespace_key("n", 0);
    let sealed = nsk.seal("a", b"a memorable secret phrase").unwrap();
    let mut s = InMemoryStore::new();
    let mut req = request(NS, "a", vec![]);
    req.sealed = encode_sealed(&sealed);
    assert_eq!(routes::write(&mut s, req).ok(), Some(201));

    let snap = s.snapshot();
    let mut raw = format!("{snap:?}").into_bytes();
    for (ns, items) in &snap.items {
        raw.extend_from_slice(&ns.0);
        for i in items {
            raw.extend_from_slice(i.item_id.as_bytes());
            raw.extend_from_slice(&i.sealed.ciphertext);
            raw.extend_from_slice(&i.sealed.nonce);
            raw.extend_from_slice(&i.sealed.wrapped_key);
            raw.extend_from_slice(&i.sealed.wrap_nonce);
        }
    }
    assert!(raw.len() > 100);
    for chunk in b"a memorable secret phrase".windows(6) {
        assert!(
            !raw.windows(chunk.len()).any(|w| w == chunk),
            "a fragment of the plaintext reached the snapshot"
        );
    }
}

#[test]
fn a_search_answers_with_what_has_not_expired() {
    let mut s = InMemoryStore::new();
    let mut req = request(NS, "a", vec!["ff".repeat(16)]);
    req.expires_at = Some(100);
    assert_eq!(routes::write(&mut s, req).ok(), Some(201));
    let ask = || SearchRequest {
        namespace: NS.into(),
        tokens: vec!["ff".repeat(16)],
        limit: 10,
    };
    assert_eq!(search(&mut s, ask(), 99).ok().unwrap().len(), 1);
    assert!(search(&mut s, ask(), 100).ok().unwrap().is_empty());
}
