//! The key hierarchy: sealing, opening, rewrapping and derivation.

use nutcracker::envelope::{ContentKey, EnvelopeError, NamespaceHandle, RootKey, SealedItem};
use nutcracker::text::hex;

fn root() -> RootKey {
    RootKey::from_bytes([7u8; 32])
}

#[test]
fn a_sealed_item_round_trips() {
    let ns = root().namespace_key("notes", 0);
    let sealed = ns
        .seal("item-1", b"the database decision was postgres")
        .unwrap();
    assert_eq!(
        ns.open("item-1", &sealed).unwrap(),
        b"the database decision was postgres"
    );
}

#[test]
fn the_ciphertext_does_not_contain_the_plaintext() {
    let ns = root().namespace_key("notes", 0);
    let sealed = ns.seal("item-1", b"postgres").unwrap();
    assert!(!sealed.ciphertext.windows(8).any(|w| w == b"postgres"));
}

/// The item id is bound as associated data on both layers, so a provider cannot answer
/// "give me item X" with a relabelled item Y.
#[test]
fn an_item_cannot_be_relabelled_and_still_decrypt() {
    let ns = root().namespace_key("notes", 0);
    let sealed = ns.seal("item-1", b"secret").unwrap();
    assert!(matches!(
        ns.open("item-2", &sealed),
        Err(EnvelopeError::Decrypt)
    ));
}

#[test]
fn a_different_namespace_cannot_open_it() {
    let r = root();
    let a = r.namespace_key("notes", 0);
    let b = r.namespace_key("other", 0);
    let sealed = a.seal("item-1", b"secret").unwrap();
    assert!(matches!(
        b.open("item-1", &sealed),
        Err(EnvelopeError::Decrypt)
    ));
}

#[test]
fn a_different_root_cannot_open_it() {
    let a = RootKey::from_bytes([1u8; 32]).namespace_key("notes", 0);
    let b = RootKey::from_bytes([2u8; 32]).namespace_key("notes", 0);
    let sealed = a.seal("item-1", b"secret").unwrap();
    assert!(matches!(
        b.open("item-1", &sealed),
        Err(EnvelopeError::Decrypt)
    ));
}

/// Rotation is the revocation mechanism, and it must not require re-encrypting content.
#[test]
fn rotation_rewraps_the_key_and_leaves_the_ciphertext_alone() {
    let r = root();
    let g0 = r.namespace_key("notes", 0);
    let g1 = r.namespace_key("notes", 1);

    let sealed = g0.seal("item-1", b"secret").unwrap();
    let rotated = g0.rewrap(&g1, "item-1", &sealed).unwrap();

    assert_eq!(
        rotated.ciphertext, sealed.ciphertext,
        "content is NOT re-encrypted"
    );
    assert_eq!(rotated.nonce, sealed.nonce);
    assert_ne!(rotated.wrapped_key, sealed.wrapped_key, "the wrap changed");

    assert_eq!(g1.open("item-1", &rotated).unwrap(), b"secret");
    // The revoked generation can no longer read it, which is the whole point.
    assert!(matches!(
        g0.open("item-1", &rotated),
        Err(EnvelopeError::Decrypt)
    ));
}

#[test]
fn every_item_gets_its_own_content_key() {
    let ns = root().namespace_key("notes", 0);
    let a = ns.seal("item-1", b"same plaintext").unwrap();
    let b = ns.seal("item-2", b"same plaintext").unwrap();
    assert_ne!(
        a.ciphertext, b.ciphertext,
        "identical plaintexts must not produce identical ciphertexts"
    );
    assert_ne!(a.wrapped_key, b.wrapped_key);
}

#[test]
fn a_tampered_ciphertext_is_rejected_rather_than_returning_rubbish() {
    let ns = root().namespace_key("notes", 0);
    let mut sealed = ns.seal("item-1", b"secret").unwrap();
    sealed.ciphertext[0] ^= 0xff;
    assert!(matches!(
        ns.open("item-1", &sealed),
        Err(EnvelopeError::Decrypt)
    ));
}

/// The handle must survive rotation, or revoking an agent orphans every stored item.
#[test]
fn the_namespace_handle_is_stable_across_key_rotations() {
    let r = root();
    assert_eq!(r.namespace_handle("notes"), r.namespace_handle("notes"));
    // Rotating the key changes the key...
    assert_ne!(
        r.namespace_key("notes", 0).as_bytes(),
        r.namespace_key("notes", 1).as_bytes()
    );
    // ...and deliberately does not change the handle.
    assert_eq!(r.namespace_handle("notes"), r.namespace_handle("notes"));
}

#[test]
fn handles_differ_per_namespace_and_per_user() {
    let a = root();
    let b = RootKey::from_bytes([8u8; 32]);
    assert_ne!(a.namespace_handle("notes"), a.namespace_handle("other"));
    assert_ne!(a.namespace_handle("notes"), b.namespace_handle("notes"));
}

/// It is a keyed derivation, not a hash of the name: two users with a namespace called "notes"
/// must not share a handle, or the provider can bucket users by what they call things.
#[test]
fn the_handle_does_not_leak_the_namespace_name() {
    let h = root().namespace_handle("medical-records");
    assert!(!h.to_hex().contains("6d65646963616c"));
}

#[test]
fn generated_roots_differ() {
    let a = RootKey::generate().namespace_key("n", 0);
    let b = RootKey::generate().namespace_key("n", 0);
    assert_ne!(a.as_bytes(), b.as_bytes());
}

#[test]
fn derivation_gives_the_keys_and_handles_it_always_gave() {
    let r = root();
    assert_eq!(
        hex(r.namespace_key("notes", 0).as_bytes()),
        "7053d6abceac330c949011875aee93f73411d3f9215a884c960b9e8f25d51c07"
    );
    assert_eq!(
        hex(r.namespace_key("notes", 1).as_bytes()),
        "8732bd196ca5586c3b5588d1c4bf7c9cdc0110f35cde773a3892b6a6a9e5e69d"
    );
    assert_eq!(
        r.namespace_handle("notes").to_hex(),
        "487023a32ff7a014e7c6e260fa562812"
    );
    assert_eq!(NamespaceHandle([0xab; 16]).to_hex(), "ab".repeat(16));
}

#[test]
fn sealing_is_determined_by_the_content_key_and_the_nonces() {
    let ns = root().namespace_key("notes", 0);
    let key = ContentKey::from_bytes([3u8; 32]);
    assert_eq!(key.as_bytes(), &[3u8; 32]);
    let a = ns.seal_with("i", b"text", &key, [1u8; 24], [2u8; 24]).unwrap();
    let b = ns.seal_with("i", b"text", &key, [1u8; 24], [2u8; 24]).unwrap();
    let c = ns.seal_with("i", b"text", &key, [9u8; 24], [2u8; 24]).unwrap();
    assert_eq!(a, b);
    assert_ne!(a.ciphertext, c.ciphertext);
    assert_eq!(a.wrapped_key, c.wrapped_key);
    assert_eq!(a.nonce, [1u8; 24]);
    assert_eq!(a.wrap_nonce, [2u8; 24]);
    assert_eq!(a.ciphertext.len(), 4 + 16);
    assert_eq!(a.wrapped_key.len(), 32 + 16);
    assert_eq!(ns.open("i", &a).unwrap(), b"text");
}

#[test]
fn fresh_seals_never_share_a_nonce() {
    let ns = root().namespace_key("notes", 0);
    let a = ns.seal("i", b"").unwrap();
    let b = ns.seal("i", b"").unwrap();
    assert_ne!(a.nonce, b.nonce);
    assert_ne!(a.wrap_nonce, b.wrap_nonce);
    assert_eq!(ns.open("i", &a).unwrap(), b"");
}

#[test]
fn something_wrapped_that_is_not_a_key_is_malformed() {
    let outer = root().namespace_key("notes", 0);
    let inner = ContentKey::from_bytes(*outer.as_bytes());
    // The ciphertext of a short message, sealed under the namespace key itself, stands where a
    // wrapped content key should.
    let short = outer
        .seal_with("i", b"not a key", &inner, [4u8; 24], [5u8; 24])
        .unwrap();
    let item = SealedItem {
        ciphertext: short.ciphertext.clone(),
        nonce: [4u8; 24],
        wrapped_key: short.ciphertext.clone(),
        wrap_nonce: [4u8; 24],
    };
    assert_eq!(outer.open("i", &item), Err(EnvelopeError::Malformed));
    // Rewrapping carries whatever was wrapped, so the other generation finds the same.
    let next = root().namespace_key("notes", 1);
    let moved = outer.rewrap_with(&next, "i", &item, [6u8; 24]).unwrap();
    assert_eq!(moved.wrap_nonce, [6u8; 24]);
    assert_eq!(next.open("i", &moved), Err(EnvelopeError::Malformed));
}

#[test]
fn rewrapping_under_the_wrong_key_or_id_is_refused() {
    let g0 = root().namespace_key("notes", 0);
    let g1 = root().namespace_key("notes", 1);
    let sealed = g0.seal("item-1", b"secret").unwrap();
    assert_eq!(
        g1.rewrap(&g0, "item-1", &sealed),
        Err(EnvelopeError::Decrypt)
    );
    assert_eq!(
        g0.rewrap(&g1, "item-2", &sealed),
        Err(EnvelopeError::Decrypt)
    );
}

#[test]
fn truncated_bytes_do_not_open() {
    let ns = root().namespace_key("notes", 0);
    let mut sealed = ns.seal("i", b"secret").unwrap();
    sealed.wrapped_key.truncate(15);
    assert_eq!(ns.open("i", &sealed), Err(EnvelopeError::Decrypt));
}

#[test]
fn envelope_errors_say_what_happened() {
    assert_eq!(
        EnvelopeError::Decrypt.message(),
        "decryption failed: wrong key, or the ciphertext or its associated data was altered"
    );
    assert_eq!(EnvelopeError::Encrypt.message(), "encryption failed");
    assert_eq!(EnvelopeError::Malformed.message(), "malformed sealed item");
}

#[test]
fn a_cloned_key_is_the_same_key() {
    let r = root();
    let k = r.clone().namespace_key("notes", 0);
    assert_eq!(k.as_bytes(), k.clone().as_bytes());
    let c = ContentKey::from_bytes([1u8; 32]);
    assert_eq!(c.as_bytes(), c.clone().as_bytes());
}
