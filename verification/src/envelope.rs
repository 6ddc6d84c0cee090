//! The three-layer key hierarchy.
//!
//! ```text
//! user root key            held by the user, never sent
//!   └── namespace key      wraps content keys; one per namespace
//!         └── content key  one per item; encrypts the item
//! ```
//!
//! Three layers rather than two exist for one reason: revocation must not mean re-encrypting
//! everything. Rotating a namespace key rewraps the content keys, which is small and fast, and
//! leaves every ciphertext alone.

use crate::bytes::{be32, exactly, from_be32, prefix, push_be32};
use crate::primitives::{
    aead_open, aead_seal, fresh_key, fresh_nonce, hkdf, hkdf_sha256, opened_bytes, sealed_bytes,
    wipe, MAX_MESSAGE, TAG_LEN,
};
use crate::text::{hex, hex_text};
use vstd::prelude::*;
use vstd::slice::slice_to_vec;
use vstd::utf8::{encode_utf8, is_ascii_chars_encode_utf8};

verus! {

/// Why an item could not be sealed or opened.
#[derive(Debug, Clone, Copy, PartialEq, Eq, Structural)]
pub enum EnvelopeError {
    /// Wrong key, or the ciphertext or its associated data was altered.
    Decrypt,
    /// The plaintext is longer than the cipher can seal.
    Encrypt,
    /// What was wrapped is not a content key.
    Malformed,
}

impl EnvelopeError {
    /// What the error says.
    pub open spec fn text(self) -> Seq<char> {
        match self {
            EnvelopeError::Decrypt =>
                "decryption failed: wrong key, or the ciphertext or its associated data was altered"@,
            EnvelopeError::Encrypt => "encryption failed"@,
            EnvelopeError::Malformed => "malformed sealed item"@,
        }
    }

    /// The error as a sentence.
    pub fn message(&self) -> (r: String)
        ensures
            r@ == self.text(),
    {
        let s = match self {
            EnvelopeError::Decrypt =>
                "decryption failed: wrong key, or the ciphertext or its associated data was altered",
            EnvelopeError::Encrypt => "encryption failed",
            EnvelopeError::Malformed => "malformed sealed item",
        };
        s.to_owned()
    }
}

/// Held by the user and never transmitted. Losing it loses the memory; that is what user-held
/// means, and any provider-side recovery is a provider-side copy of the key.
pub struct RootKey([u8; 32]);

/// Wraps content keys for one namespace. Rotating this is how an agent is revoked.
pub struct NamespaceKey([u8; 32]);

/// One per item. Never reused across items, so a compromised item cannot decrypt its neighbours.
pub struct ContentKey([u8; 32]);

impl View for RootKey {
    type V = Seq<u8>;

    closed spec fn view(&self) -> Seq<u8> {
        self.0@
    }
}

impl View for NamespaceKey {
    type V = Seq<u8>;

    closed spec fn view(&self) -> Seq<u8> {
        self.0@
    }
}

impl View for ContentKey {
    type V = Seq<u8>;

    closed spec fn view(&self) -> Seq<u8> {
        self.0@
    }
}

impl Clone for RootKey {
    fn clone(&self) -> (r: Self)
        ensures
            r@ == self@,
    {
        RootKey(self.0)
    }
}

impl Clone for NamespaceKey {
    fn clone(&self) -> (r: Self)
        ensures
            r@ == self@,
    {
        NamespaceKey(self.0)
    }
}

impl Clone for ContentKey {
    fn clone(&self) -> (r: Self)
        ensures
            r@ == self@,
    {
        ContentKey(self.0)
    }
}

impl Drop for RootKey {
    /// Overwrites the key with zeros, so that no copy of it is left behind.
    fn drop(&mut self)
        ensures
            forall|i: int| 0 <= i < 32 ==> final(self)@[i] == 0,
        opens_invariants none
        no_unwind
    {
        wipe(&mut self.0);
    }
}

impl Drop for NamespaceKey {
    /// Overwrites the key with zeros, so that no copy of it is left behind.
    fn drop(&mut self)
        ensures
            forall|i: int| 0 <= i < 32 ==> final(self)@[i] == 0,
        opens_invariants none
        no_unwind
    {
        wipe(&mut self.0);
    }
}

impl Drop for ContentKey {
    /// Overwrites the key with zeros, so that no copy of it is left behind.
    fn drop(&mut self)
        ensures
            forall|i: int| 0 <= i < 32 ==> final(self)@[i] == 0,
        opens_invariants none
        no_unwind
    {
        wipe(&mut self.0);
    }
}

/// What the provider actually stores. Opaque to it in its entirety.
#[derive(Debug, PartialEq)]
pub struct SealedItem {
    /// The item, under its content key.
    pub ciphertext: Vec<u8>,
    pub nonce: [u8; 24],
    /// The content key, under the namespace key. Rewrapped on rotation; the ciphertext is not
    /// touched, which is the entire point of the middle layer.
    pub wrapped_key: Vec<u8>,
    pub wrap_nonce: [u8; 24],
}

/// The bytes of a sealed item.
#[verifier::ext_equal]
pub struct SealedView {
    pub ciphertext: Seq<u8>,
    pub nonce: Seq<u8>,
    pub wrapped_key: Seq<u8>,
    pub wrap_nonce: Seq<u8>,
}

impl View for SealedItem {
    type V = SealedView;

    open spec fn view(&self) -> SealedView {
        SealedView {
            ciphertext: self.ciphertext@,
            nonce: self.nonce@,
            wrapped_key: self.wrapped_key@,
            wrap_nonce: self.wrap_nonce@,
        }
    }
}

impl Clone for SealedItem {
    fn clone(&self) -> (r: Self)
        ensures
            r@ == self@,
    {
        SealedItem {
            ciphertext: slice_to_vec(self.ciphertext.as_slice()),
            nonce: self.nonce,
            wrapped_key: slice_to_vec(self.wrapped_key.as_slice()),
            wrap_nonce: self.wrap_nonce,
        }
    }
}

/// The opaque handle a provider uses to group one namespace's items.
///
/// The provider needs something to group by, or it cannot serve a namespace at all. It must not be
/// the namespace name, which would tell it what the memory is about, and it must not be derived
/// from the namespace key, which rotates: a rotating handle would orphan every stored item on
/// revocation. So it is derived from the root key and the name, stable across generations.
#[derive(Debug, Clone, Copy, PartialEq, Eq, Hash, PartialOrd, Ord)]
pub struct NamespaceHandle(pub [u8; 16]);

impl View for NamespaceHandle {
    type V = Seq<u8>;

    open spec fn view(&self) -> Seq<u8> {
        self.0@
    }
}

impl NamespaceHandle {
    /// The handle in hexadecimal, as it travels.
    pub fn to_hex(&self) -> (r: String)
        ensures
            r@ == hex_text(self@),
    {
        hex(self.0.as_slice())
    }
}

/// What a namespace key is derived from besides the root key: a label, the name, a separator and
/// the rotation counter.
pub open spec fn namespace_key_info(namespace: Seq<char>, generation: u32) -> Seq<u8> {
    encode_utf8("nutcracker:ns:v1:"@) + encode_utf8(namespace) + seq![0u8] + be32(generation)
}

/// What a namespace handle is derived from besides the root key: a label and the name.
pub open spec fn handle_info(namespace: Seq<char>) -> Seq<u8> {
    encode_utf8("nutcracker:handle:v1:"@) + encode_utf8(namespace)
}

/// The key of a namespace at a generation.
pub open spec fn namespace_key_of(root: Seq<u8>, namespace: Seq<char>, generation: u32) -> Seq<u8> {
    hkdf_sha256(root, namespace_key_info(namespace, generation))
}

/// The handle of a namespace.
pub open spec fn handle_of(root: Seq<u8>, namespace: Seq<char>) -> Seq<u8> {
    hkdf_sha256(root, handle_info(namespace)).take(16)
}

/// A sealed item, from everything that goes into it. The item id is bound in as associated data on
/// both layers.
pub open spec fn sealed_with(
    key: Seq<u8>,
    item_id: Seq<char>,
    plaintext: Seq<u8>,
    content_key: Seq<u8>,
    nonce: Seq<u8>,
    wrap_nonce: Seq<u8>,
) -> SealedView {
    SealedView {
        ciphertext: sealed_bytes(content_key, nonce, encode_utf8(item_id), plaintext),
        nonce,
        wrapped_key: sealed_bytes(key, wrap_nonce, encode_utf8(item_id), content_key),
        wrap_nonce,
    }
}

/// Whether a key is one that the operating system's random numbers gave.
pub closed spec fn drawn_key(key: Seq<u8>) -> bool {
    exists|k: [u8; 32]| k@ == key && #[trigger] call_ensures(fresh_key, (), k)
}

/// Whether a nonce is one that the operating system's random numbers gave.
pub closed spec fn drawn_nonce(nonce: Seq<u8>) -> bool {
    exists|n: [u8; 24]| n@ == nonce && #[trigger] call_ensures(fresh_nonce, (), n)
}

/// Whether an item was sealed under a content key of its own: the key and both nonces drawn for it.
pub open spec fn freshly_sealed(
    key: Seq<u8>,
    item_id: Seq<char>,
    plaintext: Seq<u8>,
    item: SealedView,
) -> bool {
    &&& drawn_nonce(item.nonce)
    &&& drawn_nonce(item.wrap_nonce)
    &&& exists|content_key: Seq<u8>|
        content_key.len() == 32 && drawn_key(content_key) && item == #[trigger] sealed_with(
            key,
            item_id,
            plaintext,
            content_key,
            item.nonce,
            item.wrap_nonce,
        )
}

/// What one layer opens to, nothing where the tag does not match or the bytes are more than the
/// cipher can cover.
pub open spec fn layer_opened(
    key: Seq<u8>,
    nonce: Seq<u8>,
    item_id: Seq<char>,
    ct: Seq<u8>,
) -> Option<Seq<u8>> {
    if ct.len() <= MAX_MESSAGE + TAG_LEN {
        opened_bytes(key, nonce, encode_utf8(item_id), ct)
    } else {
        None
    }
}

/// The content key inside a sealed item, as the namespace key unwraps it.
pub open spec fn unwrapped_key(key: Seq<u8>, item_id: Seq<char>, item: SealedView) -> Option<
    Seq<u8>,
> {
    layer_opened(key, item.wrap_nonce, item_id, item.wrapped_key)
}

/// What opening a sealed item under an id gives: the plaintext, or why not.
pub open spec fn open_outcome(key: Seq<u8>, item_id: Seq<char>, item: SealedView) -> Result<
    Seq<u8>,
    EnvelopeError,
> {
    match unwrapped_key(key, item_id, item) {
        None => Err(EnvelopeError::Decrypt),
        Some(content_key) => if content_key.len() != 32 {
            Err(EnvelopeError::Malformed)
        } else {
            match layer_opened(content_key, item.nonce, item_id, item.ciphertext) {
                None => Err(EnvelopeError::Decrypt),
                Some(plaintext) => Ok(plaintext),
            }
        },
    }
}

/// Opens one layer.
fn open_layer(key: &[u8; 32], nonce: &[u8; 24], item_id: &str, ct: &[u8]) -> (r: Result<
    Vec<u8>,
    EnvelopeError,
>)
    ensures
        match r {
            Ok(msg) => layer_opened(key@, nonce@, item_id@, ct@) == Some(msg@) && ct@.len()
                == msg@.len() + TAG_LEN && msg@.len() <= MAX_MESSAGE,
            Err(e) => e == EnvelopeError::Decrypt && layer_opened(
                key@,
                nonce@,
                item_id@,
                ct@,
            ) is None,
        },
{
    if ct.len() as u64 > MAX_MESSAGE + TAG_LEN {
        return Err(EnvelopeError::Decrypt);
    }
    match aead_open(key, nonce, item_id.as_bytes(), ct) {
        Some(msg) => Ok(msg),
        None => Err(EnvelopeError::Decrypt),
    }
}

impl RootKey {
    /// A root key from its 32 bytes.
    pub fn from_bytes(b: [u8; 32]) -> (r: Self)
        ensures
            r@ == b@,
    {
        RootKey(b)
    }

    /// A root key from the operating system's random numbers.
    pub fn generate() -> (r: Self)
        ensures
            r@.len() == 32,
            drawn_key(r@),
    {
        RootKey(fresh_key())
    }

    /// Derives a namespace key. `generation` is the rotation counter: bumping it changes the whole
    /// derivation, which is how revocation works.
    pub fn namespace_key(&self, namespace: &str, generation: u32) -> (r: NamespaceKey)
        ensures
            r@ == namespace_key_of(self@, namespace@, generation),
    {
        let mut info = slice_to_vec("nutcracker:ns:v1:".as_bytes());
        info.extend_from_slice(namespace.as_bytes());
        info.push(0);
        push_be32(&mut info, generation);
        proof {
            assert(info@ =~= namespace_key_info(namespace@, generation));
        }
        NamespaceKey(hkdf(self.0.as_slice(), info.as_slice()))
    }

    /// Derives a namespace's handle. Stable across key rotations: no generation goes into it.
    pub fn namespace_handle(&self, namespace: &str) -> (r: NamespaceHandle)
        ensures
            r@ == handle_of(self@, namespace@),
    {
        let mut info = slice_to_vec("nutcracker:handle:v1:".as_bytes());
        info.extend_from_slice(namespace.as_bytes());
        proof {
            assert(info@ =~= handle_info(namespace@));
        }
        let full = hkdf(self.0.as_slice(), info.as_slice());
        NamespaceHandle(prefix::<16>(full.as_slice()))
    }
}

impl ContentKey {
    /// A content key from its 32 bytes.
    pub fn from_bytes(b: [u8; 32]) -> (r: Self)
        ensures
            r@ == b@,
    {
        ContentKey(b)
    }

    /// The key's bytes.
    pub fn as_bytes(&self) -> (r: &[u8; 32])
        ensures
            r@ == self@,
    {
        &self.0
    }
}

impl NamespaceKey {
    /// The key's bytes.
    pub fn as_bytes(&self) -> (r: &[u8; 32])
        ensures
            r@ == self@,
    {
        &self.0
    }

    /// Seals an item under a given content key and given nonces.
    pub fn seal_with(
        &self,
        item_id: &str,
        plaintext: &[u8],
        content_key: &ContentKey,
        nonce: [u8; 24],
        wrap_nonce: [u8; 24],
    ) -> (r: Result<SealedItem, EnvelopeError>)
        ensures
            match r {
                Ok(item) => {
                    &&& plaintext@.len() <= MAX_MESSAGE
                    &&& item@ == sealed_with(
                        self@,
                        item_id@,
                        plaintext@,
                        content_key@,
                        nonce@,
                        wrap_nonce@,
                    )
                    &&& item@.ciphertext.len() == plaintext@.len() + TAG_LEN
                    &&& item@.wrapped_key.len() == 32 + TAG_LEN
                    &&& open_outcome(self@, item_id@, item@) == Ok::<_, EnvelopeError>(plaintext@)
                },
                Err(e) => e == EnvelopeError::Encrypt && plaintext@.len() > MAX_MESSAGE,
            },
    {
        if plaintext.len() as u64 > MAX_MESSAGE {
            return Err(EnvelopeError::Encrypt);
        }
        let ciphertext = aead_seal(&content_key.0, &nonce, item_id.as_bytes(), plaintext);
        let wrapped_key = aead_seal(
            &self.0,
            &wrap_nonce,
            item_id.as_bytes(),
            content_key.0.as_slice(),
        );
        Ok(SealedItem { ciphertext, nonce, wrapped_key, wrap_nonce })
    }

    /// Seals an item under a fresh content key, then wraps that key under this namespace key.
    ///
    /// `item_id` is bound in as associated data on both layers, so a provider cannot move a
    /// ciphertext to a different id and have it still decrypt. Without that, "delete item X" could
    /// be answered by relabelling item Y.
    pub fn seal(&self, item_id: &str, plaintext: &[u8]) -> (r: Result<SealedItem, EnvelopeError>)
        ensures
            match r {
                Ok(item) => {
                    &&& plaintext@.len() <= MAX_MESSAGE
                    &&& freshly_sealed(self@, item_id@, plaintext@, item@)
                    &&& item@.ciphertext.len() == plaintext@.len() + TAG_LEN
                    &&& item@.wrapped_key.len() == 32 + TAG_LEN
                    &&& open_outcome(self@, item_id@, item@) == Ok::<_, EnvelopeError>(plaintext@)
                },
                Err(e) => e == EnvelopeError::Encrypt && plaintext@.len() > MAX_MESSAGE,
            },
    {
        let content_key = ContentKey(fresh_key());
        let nonce = fresh_nonce();
        let wrap_nonce = fresh_nonce();
        proof {
            assert(drawn_key(content_key@));
            assert(drawn_nonce(nonce@));
            assert(drawn_nonce(wrap_nonce@));
        }
        self.seal_with(item_id, plaintext, &content_key, nonce, wrap_nonce)
    }

    /// Opens an item under the id it was sealed for.
    pub fn open(&self, item_id: &str, item: &SealedItem) -> (r: Result<Vec<u8>, EnvelopeError>)
        ensures
            match r {
                Ok(plaintext) => open_outcome(self@, item_id@, item@) == Ok::<_, EnvelopeError>(
                    plaintext@,
                ),
                Err(e) => open_outcome(self@, item_id@, item@) == Err::<Seq<u8>, _>(e),
            },
    {
        let unwrapped = open_layer(
            &self.0,
            &item.wrap_nonce,
            item_id,
            item.wrapped_key.as_slice(),
        )?;
        match exactly::<32>(unwrapped.as_slice()) {
            None => Err(EnvelopeError::Malformed),
            Some(bytes) => {
                let content_key = ContentKey(bytes);
                open_layer(&content_key.0, &item.nonce, item_id, item.ciphertext.as_slice())
            },
        }
    }

    /// Rewraps an item's content key under a new namespace key with a given nonce.
    pub fn rewrap_with(
        &self,
        new: &NamespaceKey,
        item_id: &str,
        item: &SealedItem,
        wrap_nonce: [u8; 24],
    ) -> (r: Result<SealedItem, EnvelopeError>)
        ensures
            match r {
                Ok(rewrapped) => {
                    &&& unwrapped_key(self@, item_id@, item@) matches Some(content_key)
                    &&& rewrapped@ == (SealedView {
                        wrapped_key: sealed_bytes(
                            new@,
                            wrap_nonce@,
                            encode_utf8(item_id@),
                            content_key,
                        ),
                        wrap_nonce: wrap_nonce@,
                        ..item@
                    })
                    &&& open_outcome(new@, item_id@, rewrapped@) == open_outcome(
                        self@,
                        item_id@,
                        item@,
                    )
                },
                Err(e) => e == EnvelopeError::Decrypt && unwrapped_key(
                    self@,
                    item_id@,
                    item@,
                ) is None,
            },
    {
        let unwrapped = open_layer(
            &self.0,
            &item.wrap_nonce,
            item_id,
            item.wrapped_key.as_slice(),
        )?;
        let wrapped_key = aead_seal(
            &new.0,
            &wrap_nonce,
            item_id.as_bytes(),
            unwrapped.as_slice(),
        );
        Ok(
            SealedItem {
                ciphertext: slice_to_vec(item.ciphertext.as_slice()),
                nonce: item.nonce,
                wrapped_key,
                wrap_nonce,
            },
        )
    }

    /// Rewraps an item's content key under a new namespace key. The ciphertext is untouched: this
    /// is what makes rotation cheap enough that people will actually do it.
    pub fn rewrap(&self, new: &NamespaceKey, item_id: &str, item: &SealedItem) -> (r: Result<
        SealedItem,
        EnvelopeError,
    >)
        ensures
            match r {
                Ok(rewrapped) => {
                    &&& drawn_nonce(rewrapped@.wrap_nonce)
                    &&& unwrapped_key(self@, item_id@, item@) matches Some(content_key)
                    &&& rewrapped@ == (SealedView {
                        wrapped_key: sealed_bytes(
                            new@,
                            rewrapped@.wrap_nonce,
                            encode_utf8(item_id@),
                            content_key,
                        ),
                        wrap_nonce: rewrapped@.wrap_nonce,
                        ..item@
                    })
                    &&& open_outcome(new@, item_id@, rewrapped@) == open_outcome(
                        self@,
                        item_id@,
                        item@,
                    )
                },
                Err(e) => e == EnvelopeError::Decrypt && unwrapped_key(
                    self@,
                    item_id@,
                    item@,
                ) is None,
            },
    {
        self.rewrap_with(new, item_id, item, fresh_nonce())
    }
}

/// Namespaces and generations never share a derivation: the info string of a namespace key tells
/// both apart.
pub proof fn law_namespace_key_inputs_are_distinct(
    namespace: Seq<char>,
    generation: u32,
    other_namespace: Seq<char>,
    other_generation: u32,
)
    requires
        namespace_key_info(namespace, generation) == namespace_key_info(
            other_namespace,
            other_generation,
        ),
    ensures
        namespace == other_namespace,
        generation == other_generation,
{
    let label = encode_utf8("nutcracker:ns:v1:"@);
    let a = namespace_key_info(namespace, generation);
    let b = namespace_key_info(other_namespace, other_generation);
    let n = encode_utf8(namespace);
    let m = encode_utf8(other_namespace);
    assert(n =~= a.subrange(label.len() as int, a.len() - 5));
    assert(m =~= b.subrange(label.len() as int, b.len() - 5));
    crate::text::utf8_is_injective(namespace, other_namespace);
    assert(be32(generation) =~= a.subrange(a.len() - 4, a.len() as int));
    assert(be32(other_generation) =~= b.subrange(b.len() - 4, b.len() as int));
    crate::bytes::be32_round_trips(generation);
    crate::bytes::be32_round_trips(other_generation);
}

/// Namespaces never share a handle derivation, and no handle is derived as a namespace key is: the
/// provider's grouping handle says nothing of a key of any generation.
pub proof fn law_handle_inputs_are_distinct(namespace: Seq<char>, other_namespace: Seq<char>)
    ensures
        handle_info(namespace) == handle_info(other_namespace) ==> namespace == other_namespace,
        forall|generation: u32|
            handle_info(namespace) != #[trigger] namespace_key_info(other_namespace, generation),
{
    let label = encode_utf8("nutcracker:handle:v1:"@);
    if handle_info(namespace) == handle_info(other_namespace) {
        assert(encode_utf8(namespace) =~= handle_info(namespace).skip(label.len() as int));
        assert(encode_utf8(other_namespace) =~= handle_info(other_namespace).skip(
            label.len() as int,
        ));
        crate::text::utf8_is_injective(namespace, other_namespace);
    }
    reveal_strlit("nutcracker:handle:v1:");
    reveal_strlit("nutcracker:ns:v1:");
    is_ascii_chars_encode_utf8("nutcracker:handle:v1:"@);
    is_ascii_chars_encode_utf8("nutcracker:ns:v1:"@);
    assert forall|generation: u32|
        handle_info(namespace) != #[trigger] namespace_key_info(other_namespace, generation) by {
        assert("nutcracker:handle:v1:"@[11] == 'h');
        assert("nutcracker:ns:v1:"@[11] == 'n');
        assert(handle_info(namespace)[11] == 'h' as u8);
        assert(namespace_key_info(other_namespace, generation)[11] == 'n' as u8);
    }
}

/// A namespace's key is derived from the root key and from what spells the label, the whole name,
/// a separator and the generation; its handle from the root key and what spells a label and the
/// whole name, and no generation.
pub proof fn law_keys_and_handles_are_derived_from_their_names(
    root: Seq<u8>,
    namespace: Seq<char>,
    generation: u32,
)
    ensures
        ({
            let info = namespace_key_info(namespace, generation);
            let label = encode_utf8("nutcracker:ns:v1:"@);
            let name = encode_utf8(namespace);
            let n = (label.len() + name.len()) as int;
            &&& namespace_key_of(root, namespace, generation) == hkdf_sha256(root, info)
            &&& info.len() == n + 5
            &&& info.take(label.len() as int) == label
            &&& info.subrange(label.len() as int, n) == name
            &&& info[n] == 0
            &&& from_be32(info.skip(n + 1)) == generation
        }),
        ({
            let info = handle_info(namespace);
            let label = encode_utf8("nutcracker:handle:v1:"@);
            &&& handle_of(root, namespace) == hkdf_sha256(root, info).take(16)
            &&& info.take(label.len() as int) == label
            &&& info.skip(label.len() as int) == encode_utf8(namespace)
        }),
{
    let info = namespace_key_info(namespace, generation);
    let label = encode_utf8("nutcracker:ns:v1:"@);
    let name = encode_utf8(namespace);
    let n = (label.len() + name.len()) as int;
    assert(info.take(label.len() as int) =~= label);
    assert(info.subrange(label.len() as int, n) =~= name);
    crate::bytes::be32_round_trips(generation);
    assert(info.skip(n + 1) =~= be32(generation));
    let other = handle_info(namespace);
    let tag = encode_utf8("nutcracker:handle:v1:"@);
    assert(other.take(tag.len() as int) =~= tag);
    assert(other.skip(tag.len() as int) =~= encode_utf8(namespace));
}

/// Sealing binds the whole id into both layers: the plaintext is sealed under the content key and
/// the content key under the namespace key, each with all the bytes of the id as associated data,
/// and two ids never have the same bytes.
pub proof fn law_both_layers_are_bound_to_the_id(
    key: Seq<u8>,
    item_id: Seq<char>,
    other_id: Seq<char>,
    plaintext: Seq<u8>,
    content_key: Seq<u8>,
    nonce: Seq<u8>,
    wrap_nonce: Seq<u8>,
)
    ensures
        ({
            let item = sealed_with(key, item_id, plaintext, content_key, nonce, wrap_nonce);
            &&& item.ciphertext == sealed_bytes(
                content_key,
                nonce,
                encode_utf8(item_id),
                plaintext,
            )
            &&& item.wrapped_key == sealed_bytes(
                key,
                wrap_nonce,
                encode_utf8(item_id),
                content_key,
            )
            &&& item.nonce == nonce
            &&& item.wrap_nonce == wrap_nonce
        }),
        item_id != other_id ==> encode_utf8(item_id) != encode_utf8(other_id),
{
    if encode_utf8(item_id) == encode_utf8(other_id) {
        crate::text::utf8_is_injective(item_id, other_id);
    }
}

/// Opening undoes both layers: an item opens to a plaintext exactly where the namespace key opens
/// the wrapped key to 32 bytes and those open the ciphertext to it, both bound to the id asked for.
/// What is wrapped that is no key is malformed, and whatever the cipher refuses fails to decrypt.
pub proof fn law_opening_undoes_both_layers(
    key: Seq<u8>,
    item_id: Seq<char>,
    item: SealedView,
    content_key: Seq<u8>,
)
    requires
        item.wrapped_key.len() <= MAX_MESSAGE + TAG_LEN,
        item.ciphertext.len() <= MAX_MESSAGE + TAG_LEN,
    ensures
        opened_bytes(key, item.wrap_nonce, encode_utf8(item_id), item.wrapped_key) is None
            ==> open_outcome(key, item_id, item) == Err::<Seq<u8>, _>(EnvelopeError::Decrypt),
        opened_bytes(key, item.wrap_nonce, encode_utf8(item_id), item.wrapped_key) == Some(
            content_key,
        ) ==> open_outcome(key, item_id, item) == if content_key.len() != 32 {
            Err(EnvelopeError::Malformed)
        } else {
            match opened_bytes(content_key, item.nonce, encode_utf8(item_id), item.ciphertext) {
                Some(plaintext) => Ok(plaintext),
                None => Err(EnvelopeError::Decrypt),
            }
        },
{
}

} // verus!
