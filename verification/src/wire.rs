//! The wire format between the local shim and a provider.
//!
//! Every field is hex-encoded opaque bytes. There is no field here that could carry a plaintext or
//! a key, which is the point: a provider implementing this format correctly cannot read what it
//! stores even if it wants to, and cannot be asked to.

use crate::blind_index::BucketToken;
use crate::bytes::exactly;
use crate::envelope::{NamespaceHandle, SealedItem, SealedView};
use crate::text::{
    hex, hex_bytes, hex_text, is_hex_digit, law_hex_is_digits_and_nothing_else,
    law_hex_round_trips, lowered, unhex,
};
use vstd::prelude::*;
use vstd::utf8::encode_utf8;

verus! {

/// Spells bytes in hexadecimal.
pub fn to_hex(b: &[u8]) -> (r: String)
    ensures
        r@ == hex_text(b@),
{
    hex(b)
}

/// Reads hexadecimal text. Odd lengths and junk are refused rather than truncated.
pub fn from_hex(s: &str) -> (r: Option<Vec<u8>>)
    ensures
        match r {
            Some(v) => hex_bytes(encode_utf8(s@)) == Some(v@),
            None => hex_bytes(encode_utf8(s@)) is None,
        },
{
    unhex(s)
}

/// A sealed item as it travels.
#[derive(Debug, Clone, PartialEq)]
pub struct SealedItemWire {
    pub ciphertext: String,
    pub nonce: String,
    pub wrapped_key: String,
    pub wrap_nonce: String,
}

/// A request to store an item.
#[derive(Debug, Clone)]
pub struct WriteRequest {
    pub namespace: String,
    pub item_id: String,
    pub sealed: SealedItemWire,
    pub tokens: Vec<String>,
    /// "blind" (default) or "plaintext_vectors". Naming the second one is deliberate: it must be
    /// an explicit act, because it voids the namespace's end-to-end claim.
    pub mode: String,
    pub expires_at: Option<u64>,
}

/// A request for candidates.
#[derive(Debug, Clone)]
pub struct SearchRequest {
    pub namespace: String,
    pub tokens: Vec<String>,
    pub limit: usize,
}

/// A candidate as it travels.
#[derive(Debug, Clone)]
pub struct CandidateWire {
    pub item_id: String,
    pub sealed: SealedItemWire,
    pub shared_bands: usize,
}

/// The counters as they travel.
#[derive(Debug, Clone, Copy, PartialEq, Eq, Structural)]
pub struct UsageWire {
    pub writes: u128,
    pub reads: u128,
    pub searches: u128,
    pub forgets: u128,
}

/// The mode of a write that names none.
pub fn default_mode() -> (r: String)
    ensures
        r@ == "blind"@,
{
    "blind".to_owned()
}

/// The limit of a search that names none.
pub fn default_limit() -> (r: usize)
    ensures
        r == 20,
{
    20
}

/// Whether a sealed item on the wire spells the given bytes.
pub open spec fn spells(w: SealedItemWire, s: SealedView) -> bool {
    &&& w.ciphertext@ == hex_text(s.ciphertext)
    &&& w.nonce@ == hex_text(s.nonce)
    &&& w.wrapped_key@ == hex_text(s.wrapped_key)
    &&& w.wrap_nonce@ == hex_text(s.wrap_nonce)
}

/// The bytes that hexadecimal text spells, where they are as many as expected.
pub open spec fn hex_exactly(s: Seq<char>, n: nat) -> Option<Seq<u8>> {
    match hex_bytes(encode_utf8(s)) {
        Some(b) => if b.len() == n {
            Some(b)
        } else {
            None
        },
        None => None,
    }
}

/// The sealed item that four texts spell, where each is hexadecimal and the nonces are whole.
pub open spec fn sealed_of(
    ciphertext: Seq<char>,
    nonce: Seq<char>,
    wrapped_key: Seq<char>,
    wrap_nonce: Seq<char>,
) -> Option<SealedView> {
    match (
        hex_bytes(encode_utf8(ciphertext)),
        hex_exactly(nonce, 24),
        hex_bytes(encode_utf8(wrapped_key)),
        hex_exactly(wrap_nonce, 24),
    ) {
        (Some(ciphertext), Some(nonce), Some(wrapped_key), Some(wrap_nonce)) => Some(
            SealedView { ciphertext, nonce, wrapped_key, wrap_nonce },
        ),
        _ => None,
    }
}

/// The sealed item that the wire spells.
pub open spec fn wire_sealed(w: SealedItemWire) -> Option<SealedView> {
    sealed_of(w.ciphertext@, w.nonce@, w.wrapped_key@, w.wrap_nonce@)
}

/// The texts of a run.
pub open spec fn texts(s: Seq<String>) -> Seq<Seq<char>> {
    Seq::new(s.len(), |i: int| s[i]@)
}

/// The tokens that a run of texts spells, each sixteen bytes, or none at all.
pub open spec fn tokens_spelled(s: Seq<Seq<char>>) -> Option<Seq<Seq<u8>>> {
    if forall|i: int| 0 <= i < s.len() ==> hex_exactly(#[trigger] s[i], 16) is Some {
        Some(Seq::new(s.len(), |i: int| hex_exactly(s[i], 16)->0))
    } else {
        None
    }
}

/// Reads a namespace handle. Anything but sixteen bytes of hexadecimal is refused.
pub fn parse_handle(s: &str) -> (r: Option<NamespaceHandle>)
    ensures
        match r {
            Some(h) => hex_exactly(s@, 16) == Some(h@),
            None => hex_exactly(s@, 16) is None,
        },
{
    match exactly::<16>(unhex(s)?.as_slice()) {
        Some(h) => Some(NamespaceHandle(h)),
        None => None,
    }
}

/// Reads a bucket token. Anything but sixteen bytes of hexadecimal is a protocol error rather than
/// something to coerce.
pub fn parse_token(s: &str) -> (r: Option<BucketToken>)
    ensures
        match r {
            Some(t) => hex_exactly(s@, 16) == Some(t@),
            None => hex_exactly(s@, 16) is None,
        },
{
    match exactly::<16>(unhex(s)?.as_slice()) {
        Some(t) => Some(BucketToken(t)),
        None => None,
    }
}

/// Reads a nonce.
fn parse_nonce(s: &str) -> (r: Option<[u8; 24]>)
    ensures
        match r {
            Some(n) => hex_exactly(s@, 24) == Some(n@),
            None => hex_exactly(s@, 24) is None,
        },
{
    exactly::<24>(unhex(s)?.as_slice())
}

/// Reads a run of bucket tokens, all of them or none.
pub fn parse_tokens(s: &Vec<String>) -> (r: Option<Vec<BucketToken>>)
    ensures
        match r {
            Some(t) => tokens_spelled(texts(s@)) == Some(crate::blind_index::token_views(t@)),
            None => tokens_spelled(texts(s@)) is None,
        },
{
    let ghost spelled = texts(s@);
    let mut out: Vec<BucketToken> = Vec::new();
    let mut i: usize = 0;
    while i < s.len()
        invariant
            spelled == texts(s@),
            i <= s.len(),
            out@.len() == i,
            forall|j: int|
                0 <= j < i ==> hex_exactly(#[trigger] spelled[j], 16) == Some(out@[j]@),
        decreases s.len() - i,
    {
        match parse_token(s[i].as_str()) {
            Some(t) => {
                out.push(t);
            },
            None => {
                proof {
                    assert(hex_exactly(spelled[i as int], 16) is None);
                }
                return None;
            },
        }
        i = i + 1;
    }
    proof {
        assert(Seq::new(spelled.len(), |j: int| hex_exactly(spelled[j], 16)->0)
            =~= crate::blind_index::token_views(out@));
    }
    Some(out)
}

/// Reads a sealed item from its four texts. A truncated nonce fails to parse rather than being
/// padded.
pub fn sealed_from_hex(
    ciphertext: &str,
    nonce: &str,
    wrapped_key: &str,
    wrap_nonce: &str,
) -> (r: Option<SealedItem>)
    ensures
        match r {
            Some(s) => sealed_of(ciphertext@, nonce@, wrapped_key@, wrap_nonce@) == Some(s@),
            None => sealed_of(ciphertext@, nonce@, wrapped_key@, wrap_nonce@) is None,
        },
{
    let nonce = parse_nonce(nonce)?;
    let wrap_nonce = parse_nonce(wrap_nonce)?;
    Some(
        SealedItem {
            ciphertext: unhex(ciphertext)?,
            nonce,
            wrapped_key: unhex(wrapped_key)?,
            wrap_nonce,
        },
    )
}

/// Reads a sealed item from the wire.
pub fn parse_sealed(w: &SealedItemWire) -> (r: Option<SealedItem>)
    ensures
        match r {
            Some(s) => wire_sealed(*w) == Some(s@),
            None => wire_sealed(*w) is None,
        },
{
    sealed_from_hex(
        w.ciphertext.as_str(),
        w.nonce.as_str(),
        w.wrapped_key.as_str(),
        w.wrap_nonce.as_str(),
    )
}

/// Spells a sealed item for the wire.
pub fn encode_sealed(s: &SealedItem) -> (r: SealedItemWire)
    ensures
        spells(r, s@),
{
    SealedItemWire {
        ciphertext: hex(s.ciphertext.as_slice()),
        nonce: hex(s.nonce.as_slice()),
        wrapped_key: hex(s.wrapped_key.as_slice()),
        wrap_nonce: hex(s.wrap_nonce.as_slice()),
    }
}

/// Spells a run of tokens for the wire.
pub fn encode_tokens(tokens: &Vec<BucketToken>) -> (r: Vec<String>)
    ensures
        r@.len() == tokens@.len(),
        forall|i: int| 0 <= i < r@.len() ==> (#[trigger] r@[i])@ == hex_text(tokens@[i]@),
{
    let mut out: Vec<String> = Vec::new();
    let mut i: usize = 0;
    while i < tokens.len()
        invariant
            i <= tokens.len(),
            out@.len() == i,
            forall|j: int| 0 <= j < i ==> (#[trigger] out@[j])@ == hex_text(tokens@[j]@),
        decreases tokens.len() - i,
    {
        out.push(tokens[i].to_hex());
        i = i + 1;
    }
    out
}

/// A sealed item survives the wire: what one end spells, the other end reads back unchanged.
pub proof fn law_sealed_items_survive_the_wire(w: SealedItemWire, s: SealedView)
    requires
        spells(w, s),
        s.nonce.len() == 24,
        s.wrap_nonce.len() == 24,
    ensures
        wire_sealed(w) == Some(s),
{
    law_hex_round_trips(s.ciphertext);
    law_hex_round_trips(s.nonce);
    law_hex_round_trips(s.wrapped_key);
    law_hex_round_trips(s.wrap_nonce);
}

/// Handles and tokens survive the wire.
pub proof fn law_sixteen_bytes_survive_the_wire(b: Seq<u8>)
    requires
        b.len() == 16,
    ensures
        hex_exactly(hex_text(b), 16) == Some(b),
{
    law_hex_round_trips(b);
}

/// What is read as a number of bytes is exactly twice as many hexadecimal digits, and spells them
/// again but for their case; anything else is refused.
pub proof fn law_only_whole_hex_is_read(s: Seq<char>, n: nat)
    ensures
        hex_exactly(s, n) is Some <==> encode_utf8(s).len() == 2 * n && forall|i: int|
            0 <= i < encode_utf8(s).len() ==> is_hex_digit(#[trigger] encode_utf8(s)[i]),
        hex_exactly(s, n) matches Some(b) ==> {
            &&& b.len() == n
            &&& forall|i: int|
                0 <= i < 2 * n ==> hex_text(b)[i] as u8 == lowered(#[trigger] encode_utf8(s)[i])
        },
{
    law_hex_is_digits_and_nothing_else(encode_utf8(s));
}

/// Tokens are read one for one, and one that is not sixteen bytes refuses them all.
pub proof fn law_tokens_are_read_all_or_none(s: Seq<Seq<char>>)
    ensures
        tokens_spelled(s) is Some <==> forall|i: int|
            0 <= i < s.len() ==> hex_exactly(#[trigger] s[i], 16) is Some,
        tokens_spelled(s) matches Some(tokens) ==> {
            &&& tokens.len() == s.len()
            &&& forall|i: int|
                0 <= i < s.len() ==> #[trigger] tokens[i].len() == 16 && hex_exactly(s[i], 16)
                    == Some(tokens[i])
        },
{
    if tokens_spelled(s) is Some {
        let tokens = tokens_spelled(s)->0;
        assert forall|i: int| 0 <= i < s.len() implies #[trigger] tokens[i].len() == 16
            && hex_exactly(s[i], 16) == Some(tokens[i]) by {
            assert(hex_exactly(s[i], 16) is Some);
        }
    }
}

/// A sealed item is read exactly where its four texts are hexadecimal and its nonces are whole, and
/// each part is what its text spells.
pub proof fn law_sealed_items_are_read_part_by_part(
    ciphertext: Seq<char>,
    nonce: Seq<char>,
    wrapped_key: Seq<char>,
    wrap_nonce: Seq<char>,
)
    ensures
        sealed_of(ciphertext, nonce, wrapped_key, wrap_nonce) is Some <==> hex_bytes(
            encode_utf8(ciphertext),
        ) is Some && hex_exactly(nonce, 24) is Some && hex_bytes(encode_utf8(wrapped_key)) is Some
            && hex_exactly(wrap_nonce, 24) is Some,
        sealed_of(ciphertext, nonce, wrapped_key, wrap_nonce) matches Some(s) ==> {
            &&& Some(s.ciphertext) == hex_bytes(encode_utf8(ciphertext))
            &&& Some(s.nonce) == hex_bytes(encode_utf8(nonce))
            &&& Some(s.wrapped_key) == hex_bytes(encode_utf8(wrapped_key))
            &&& Some(s.wrap_nonce) == hex_bytes(encode_utf8(wrap_nonce))
        },
{
}

} // verus!
