//! What a client sends and how it reads the answers.

use nutcracker::blind_index::BucketToken;
use nutcracker::envelope::{NamespaceHandle, RootKey};
use nutcracker::http::{
    forget_reply, parse_candidate, parse_candidates, parse_sealed, read_reply, search_reply,
    search_request, status_error, write_request, ProviderUrl,
};
use nutcracker::json::Json;
use nutcracker::memory_store::InMemoryStore;
use nutcracker::routes::{self, search};
use nutcracker::store::IndexMode;
use nutcracker::text::{hex, unhex};
use nutcracker::transport::{SealedSearch, SealedWrite, TransportError};
use nutcracker::wire::{encode_sealed, sealed_from_hex, SealedItemWire};

/// A JSON text.
fn quoted(s: &str) -> String {
    format!("\"{s}\"")
}

fn object(members: &[(&str, String)]) -> Json {
    Json::Object(
        members
            .iter()
            .map(|(k, v)| (k.to_string(), v.clone()))
            .collect(),
    )
}

fn sealed_value(w: &SealedItemWire) -> Json {
    object(&[
        ("ciphertext", quoted(&w.ciphertext)),
        ("nonce", quoted(&w.nonce)),
        ("wrapped_key", quoted(&w.wrapped_key)),
        ("wrap_nonce", quoted(&w.wrap_nonce)),
    ])
}

fn sealed_text(w: &SealedItemWire) -> String {
    format!(
        "{{\"ciphertext\":\"{}\",\"nonce\":\"{}\",\"wrapped_key\":\"{}\",\"wrap_nonce\":\"{}\"}}",
        w.ciphertext, w.nonce, w.wrapped_key, w.wrap_nonce
    )
}

#[test]
fn hex_round_trips_and_rejects_junk() {
    assert_eq!(unhex(&hex(&[0, 1, 0xff])).unwrap(), vec![0, 1, 0xff]);
    assert!(unhex("abc").is_none());
    assert!(unhex("zz").is_none());
}

#[test]
fn a_sealed_item_survives_the_json_shape() {
    let ns = RootKey::from_bytes([3u8; 32]).namespace_key("n", 0);
    let s = ns.seal("i", b"hello").unwrap();
    let w = encode_sealed(&s);
    assert_eq!(parse_sealed(&sealed_value(&w)).unwrap(), s);
    assert_eq!(read_reply(sealed_text(&w).as_bytes()).unwrap(), s);
}

#[test]
fn a_truncated_nonce_fails_to_parse_rather_than_being_padded() {
    let v = object(&[
        ("ciphertext", quoted("00")),
        ("nonce", quoted("0011")),
        ("wrapped_key", quoted("00")),
        ("wrap_nonce", quoted("00")),
    ]);
    assert!(parse_sealed(&v).is_none());
}

#[test]
fn a_read_answer_that_spells_no_item_is_not_found() {
    for body in ["{}", "[]", "null", "{\"ciphertext\":1}"] {
        assert!(matches!(
            read_reply(body.as_bytes()),
            Err(TransportError::NotFound)
        ));
    }
    match read_reply(b"not json") {
        Err(TransportError::Unreachable(m)) => assert!(m.starts_with("json: "), "{m}"),
        other => panic!("wrong answer: {other:?}"),
    }
}

#[test]
fn a_search_answer_leaves_out_what_does_not_parse() {
    let w = SealedItemWire {
        ciphertext: "00".into(),
        nonce: "11".repeat(24),
        wrapped_key: "22".into(),
        wrap_nonce: "33".repeat(24),
    };
    let good = format!(
        "{{\"item_id\":\"a\\\"b\",\"sealed\":{},\"shared_bands\":3}}",
        sealed_text(&w)
    );
    let negative = format!(
        "{{\"item_id\":\"c\",\"sealed\":{},\"shared_bands\":-1}}",
        sealed_text(&w)
    );
    let body = format!("[{good}, 7, {negative}, {{\"item_id\":\"d\"}}, {good}]");
    let hits = search_reply(body.as_bytes()).unwrap();
    assert_eq!(hits.len(), 2);
    assert_eq!(hits[0].item_id, "a\"b");
    assert_eq!(hits[0].shared_bands, 3);
    assert_eq!(hits[0].sealed.nonce, [0x11; 24]);
    assert_eq!(hits[0], hits[1]);
    assert!(search_reply(b"{\"hits\":[]}").unwrap().is_empty());
    assert!(matches!(
        search_reply(b"["),
        Err(TransportError::Unreachable(_))
    ));
    assert!(parse_candidate(&Json::Null).is_none());
}

#[test]
fn a_forget_answer_that_does_not_say_removed_nothing() {
    assert!(forget_reply(b"{\"removed\":true}").unwrap());
    assert!(!forget_reply(b"{\"removed\":false}").unwrap());
    assert!(!forget_reply(b"{}").unwrap());
    assert!(!forget_reply(b"{\"removed\":1}").unwrap());
    assert!(forget_reply(b"").is_err());
}

#[test]
fn statuses_that_want_different_reactions_are_told_apart() {
    match status_error(402) {
        TransportError::PaymentRequired(why) => assert_eq!(why, "provider requires a TAP receipt"),
        other => panic!("wrong error: {other:?}"),
    }
    assert!(matches!(status_error(404), TransportError::NotFound));
    match status_error(507) {
        TransportError::Http { status, body } => assert_eq!((status, body.as_str()), (507, "")),
        other => panic!("wrong error: {other:?}"),
    }
}

#[test]
fn transport_errors_say_what_happened() {
    let e = TransportError::Http {
        status: 503,
        body: "busy".into(),
    };
    assert_eq!(e.message(), "provider returned 503: busy");
    assert_eq!(
        TransportError::PaymentRequired("x".into()).message(),
        "payment required: x"
    );
    assert_eq!(
        TransportError::Unreachable("y".into()).message(),
        "provider is unreachable: y"
    );
    assert_eq!(TransportError::NotFound.message(), "item not found");
}

#[test]
fn urls_are_built_under_the_base() {
    let p = ProviderUrl::new("http://127.0.0.1:8099/");
    assert_eq!(p.items(), "http://127.0.0.1:8099/v1/items");
    assert_eq!(p.search(), "http://127.0.0.1:8099/v1/search");
    assert_eq!(
        p.item(&NamespaceHandle([0xab; 16]), "x"),
        format!("http://127.0.0.1:8099/v1/items/{}/x", "ab".repeat(16))
    );
}

#[test]
fn what_a_client_sends_is_what_a_provider_stores() {
    let root = RootKey::from_bytes([3u8; 32]);
    let sealed = root.namespace_key("n", 0).seal("i", b"hello").unwrap();
    let token = BucketToken([9; 16]);
    for mode in [IndexMode::BlindIndex, IndexMode::PlaintextVectors] {
        let w = SealedWrite {
            namespace: root.namespace_handle("n"),
            item_id: "i".into(),
            sealed: sealed.clone(),
            tokens: vec![token],
            mode,
            expires_at: Some(7),
        };
        let mut store = InMemoryStore::new();
        assert_eq!(routes::write(&mut store, write_request(&w)).ok(), Some(201));
        let held = store.snapshot();
        assert_eq!(held.items[0].0, w.namespace);
        let item = &held.items[0].1[0];
        assert_eq!(item.item_id, "i");
        assert_eq!(item.sealed, sealed);
        assert_eq!(item.tokens, vec![token]);
        assert_eq!(item.mode, mode);
        assert_eq!(item.expires_at, Some(7));
        let q = SealedSearch {
            namespace: w.namespace,
            tokens: vec![token],
            limit: 4,
        };
        let r = search_request(&q);
        assert_eq!(r.limit, 4);
        assert_eq!(search(&mut store, r, 0).ok().unwrap().len(), 1);
    }
}

#[test]
fn a_value_is_read_one_level_at_a_time() {
    let v = Json::Object(vec![
        ("a".into(), "[1, \"x\"]".into()),
        ("n".into(), "3".into()),
        ("t".into(), quoted("text")),
        ("a".into(), "null".into()),
    ]);
    assert_eq!(v.member("a"), Some("[1, \"x\"]"));
    assert_eq!(v.member("b"), None);
    assert_eq!(v.get("n").number(), Some(3));
    assert_eq!(v.get("t").into_text().unwrap(), "text");
    assert!(v.get("n").into_text().is_none());
    match v.get("a") {
        Json::List(elements) => assert_eq!(elements, vec!["1", "\"x\""]),
        other => panic!("not a list: {other:?}"),
    }
    assert!(matches!(v.get("b"), Json::Null));
    assert!(parse_candidates(&v).is_empty());
    assert!(parse_candidates(&Json::List(vec!["{}".into()])).is_empty());
}

#[test]
fn four_texts_spell_a_sealed_item_or_nothing() {
    let nonce = "0a".repeat(24);
    let s = sealed_from_hex("00ff", &nonce, "", &nonce).unwrap();
    assert_eq!(s.ciphertext, vec![0, 0xff]);
    assert_eq!(s.nonce, [10; 24]);
    assert!(s.wrapped_key.is_empty());
    assert!(sealed_from_hex("0", &nonce, "", &nonce).is_none());
    assert!(sealed_from_hex("00", &nonce[2..], "", &nonce).is_none());
    assert!(sealed_from_hex("00", &nonce, "zz", &nonce).is_none());
    assert!(sealed_from_hex("00", &nonce, "", "").is_none());
}
