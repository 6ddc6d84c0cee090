//! The keyed blind index: searchable memory that does not hand the provider a copy of it.
//!
//! Standard SimHash with banding, keyed so that buckets are meaningless without the namespace key:
//!
//! 1. Derive `bands × band_bits` hyperplanes deterministically from the namespace key.
//! 2. Sign the embedding against each hyperplane, one bit per hyperplane.
//! 3. Split the bits into `bands` groups of `band_bits`.
//! 4. HMAC each `(band index, band bits)` under the namespace key to get an opaque token.
//!
//! The arithmetic of step 2 is floating point and happens where the embedding is; this module
//! derives the hyperplanes and turns the signs into tokens.

use crate::bytes::{be32, be64, from_be32, prefix, push_be32, push_be64, same_bytes};
use crate::envelope::NamespaceKey;
use crate::primitives::{hmac, hmac_sha256, sha256, sha256_of};
use crate::text::{hex, hex_text};
use vstd::arithmetic::power2::{
    lemma2_to64, lemma2_to64_rest, lemma_pow2_strictly_increases, lemma_pow2_unfold, pow2,
};
use vstd::prelude::*;
use vstd::slice::slice_to_vec;
use vstd::utf8::encode_utf8;

verus! {

/// An opaque bucket identifier. This is what actually goes to the provider.
#[derive(Debug, Clone, Copy, PartialEq, Eq, Hash, PartialOrd, Ord)]
pub struct BucketToken(pub [u8; 16]);

impl View for BucketToken {
    type V = Seq<u8>;

    open spec fn view(&self) -> Seq<u8> {
        self.0@
    }
}

impl BucketToken {
    /// The token in hexadecimal, as it travels.
    pub fn to_hex(&self) -> (r: String)
        ensures
            r@ == hex_text(self@),
    {
        hex(self.0.as_slice())
    }
}

/// The bytes of each token of a run.
pub open spec fn token_views(tokens: Seq<BucketToken>) -> Seq<Seq<u8>> {
    Seq::new(tokens.len(), |i: int| tokens[i]@)
}

/// The privacy and recall knob. More bands, better recall and more buckets revealed; more bits per
/// band, more selective buckets and a finer-grained disclosure.
#[derive(Debug, Clone, Copy, PartialEq, Eq, Structural)]
pub struct IndexParams {
    /// Number of independent bands.
    pub bands: usize,
    /// Bits per band.
    pub band_bits: usize,
}

impl Default for IndexParams {
    /// Eight bands of four bits, chosen on measurement: the disclosure per item is
    /// `bands × band_bits`, and on centred embeddings this shape recalls best at the least of it.
    fn default() -> (r: Self)
        ensures
            r.bands == 8,
            r.band_bits == 4,
    {
        IndexParams { bands: 8, band_bits: 4 }
    }
}

impl IndexParams {
    /// How many hyperplanes the parameters ask for.
    pub open spec fn planes(self) -> int {
        self.bands * self.band_bits
    }

    /// Parameters that can be indexed with: the bits of a band fit one word, and the hyperplanes
    /// can be counted.
    pub open spec fn usable(self) -> bool {
        &&& self.band_bits <= 64
        &&& self.planes() <= usize::MAX
    }

    /// Whether the parameters can be indexed with.
    pub fn is_usable(&self) -> (r: bool)
        ensures
            r == self.usable(),
    {
        self.band_bits <= 64 && self.bands.checked_mul(self.band_bits).is_some()
    }

    /// Bits of information a single band discloses about an item, ignoring correlation.
    pub fn bits_disclosed_per_band(&self) -> (r: usize)
        ensures
            r == self.band_bits,
    {
        self.band_bits
    }

    /// Total hyperplanes, and so the cost of indexing one item.
    pub fn hyperplanes(&self) -> (r: usize)
        requires
            self.planes() <= usize::MAX,
        ensures
            r == self.planes(),
    {
        self.bands * self.band_bits
    }
}

/// The low 32 bits of a count.
pub open spec fn low32(n: int) -> u32 {
    (n % 0x1_0000_0000) as u32
}

/// What the seed of a namespace's hyperplanes is the digest of: a label and the key.
pub open spec fn seed_input(key: Seq<u8>) -> Seq<u8> {
    encode_utf8("nutcracker:lsh:v1"@) + key
}

/// The seed of a namespace's hyperplanes.
pub open spec fn seed_of(key: Seq<u8>) -> Seq<u8> {
    sha256_of(seed_input(key))
}

/// What a component's digest is the digest of: the seed, the hyperplane and the dimension.
pub open spec fn component_input(key: Seq<u8>, plane: int, dim: int) -> Seq<u8> {
    seed_of(key) + be32(low32(plane)) + be32(low32(dim))
}

/// The digest that the component of a hyperplane at a dimension is read from.
pub open spec fn component_digest(key: Seq<u8>, plane: int, dim: int) -> Seq<u8> {
    sha256_of(component_input(key, plane, dim))
}

/// The component of a hyperplane at a dimension, as a word: zero stands for minus one, the largest
/// word for one.
pub open spec fn component_of(key: Seq<u8>, plane: int, dim: int) -> int {
    from_be32(component_digest(key, plane, dim))
}

/// The components of a hyperplane, dimension by dimension.
pub open spec fn plane_of(key: Seq<u8>, plane: int, dims: nat) -> Seq<u32> {
    Seq::new(dims, |dim: int| component_of(key, plane, dim) as u32)
}

/// The number that a run of signs spells, the first sign its lowest bit.
pub open spec fn bits_value(signs: Seq<bool>) -> nat
    decreases signs.len(),
{
    if signs.len() == 0 {
        0
    } else {
        (if signs[0] { 1nat } else { 0nat }) + 2 * bits_value(signs.drop_first())
    }
}

/// The signs of one band.
pub open spec fn band_of(params: IndexParams, signs: Seq<bool>, band: int) -> Seq<bool> {
    signs.subrange(band * params.band_bits, band * params.band_bits + params.band_bits)
}

/// What a band's token is the tag of.
pub open spec fn bucket_input(band: int, bits: u64) -> Seq<u8> {
    encode_utf8("nutcracker:bucket:v1"@) + be32(low32(band)) + be64(bits)
}

/// The token of a band holding some bits.
pub open spec fn token_of(key: Seq<u8>, band: int, bits: u64) -> Seq<u8> {
    hmac_sha256(key, bucket_input(band, bits)).take(16)
}

/// The tokens of an embedding, one per band, given on which side of each hyperplane it lies.
pub open spec fn tokens_of(key: Seq<u8>, params: IndexParams, signs: Seq<bool>) -> Seq<Seq<u8>> {
    Seq::new(
        params.bands as nat,
        |band: int| token_of(key, band, bits_value(band_of(params, signs, band)) as u64),
    )
}

/// How many places two runs agree in.
pub open spec fn agreements(a: Seq<Seq<u8>>, b: Seq<Seq<u8>>) -> nat
    decreases a.len(),
{
    if a.len() == 0 || b.len() == 0 {
        0
    } else {
        agreements(a.drop_first(), b.drop_first()) + (if a[0] == b[0] { 1nat } else { 0nat })
    }
}

/// A run of `n` signs spells a number of at most `n` bits.
proof fn bits_value_bound(signs: Seq<bool>)
    ensures
        bits_value(signs) < pow2(signs.len()),
    decreases signs.len(),
{
    if signs.len() == 0 {
        lemma2_to64();
    } else {
        bits_value_bound(signs.drop_first());
        lemma_pow2_unfold(signs.len());
    }
}

/// A run of at most 64 signs spells a word.
proof fn bits_value_fits(signs: Seq<bool>)
    requires
        signs.len() <= 64,
    ensures
        bits_value(signs) <= u64::MAX,
{
    bits_value_bound(signs);
    lemma2_to64_rest();
    if signs.len() < 64 {
        lemma_pow2_strictly_increases(signs.len(), 64);
    }
}

/// The tokens of two embeddings agree in every band in which the embeddings lie on the same sides.
pub proof fn law_same_band_shares_its_token(
    key: Seq<u8>,
    params: IndexParams,
    a: Seq<bool>,
    b: Seq<bool>,
    band: int,
)
    requires
        0 <= band < params.bands,
        band_of(params, a, band) == band_of(params, b, band),
    ensures
        tokens_of(key, params, a)[band] == tokens_of(key, params, b)[band],
{
}

/// An embedding shares every band with itself.
pub proof fn law_tokens_agree_with_themselves(tokens: Seq<Seq<u8>>)
    ensures
        agreements(tokens, tokens) == tokens.len(),
    decreases tokens.len(),
{
    if tokens.len() > 0 {
        law_tokens_agree_with_themselves(tokens.drop_first());
    }
}

/// No two buckets of a namespace share a derivation: the tagged bytes tell the band and its bits
/// apart, for any band that can be counted in 32 bits.
pub proof fn law_bucket_inputs_are_distinct(
    band: int,
    bits: u64,
    other_band: int,
    other_bits: u64,
)
    requires
        0 <= band < 0x1_0000_0000,
        0 <= other_band < 0x1_0000_0000,
        bucket_input(band, bits) == bucket_input(other_band, other_bits),
    ensures
        band == other_band,
        bits == other_bits,
{
    let label = encode_utf8("nutcracker:bucket:v1"@);
    let n = label.len() as int;
    let x = bucket_input(band, bits);
    let y = bucket_input(other_band, other_bits);
    assert(x.subrange(n, n + 4) =~= be32(low32(band)));
    assert(y.subrange(n, n + 4) =~= be32(low32(other_band)));
    crate::bytes::be32_round_trips(low32(band));
    crate::bytes::be32_round_trips(low32(other_band));
    let h = (bits / 0x1_0000_0000) as u32;
    let l = (bits % 0x1_0000_0000) as u32;
    let g = (other_bits / 0x1_0000_0000) as u32;
    let m = (other_bits % 0x1_0000_0000) as u32;
    assert(x.subrange(n + 4, n + 8) =~= be32(h));
    assert(y.subrange(n + 4, n + 8) =~= be32(g));
    assert(x.subrange(n + 8, n + 12) =~= be32(l));
    assert(y.subrange(n + 8, n + 12) =~= be32(m));
    crate::bytes::be32_round_trips(h);
    crate::bytes::be32_round_trips(g);
    crate::bytes::be32_round_trips(l);
    crate::bytes::be32_round_trips(m);
}

/// No two components of a namespace's hyperplanes share a derivation: the digested bytes tell the
/// hyperplane and the dimension apart, for any that can be counted in 32 bits.
pub proof fn law_component_inputs_are_distinct(
    key: Seq<u8>,
    plane: int,
    dim: int,
    other_plane: int,
    other_dim: int,
)
    requires
        0 <= plane < 0x1_0000_0000,
        0 <= dim < 0x1_0000_0000,
        0 <= other_plane < 0x1_0000_0000,
        0 <= other_dim < 0x1_0000_0000,
        component_input(key, plane, dim) == component_input(key, other_plane, other_dim),
    ensures
        plane == other_plane,
        dim == other_dim,
{
    let n = seed_of(key).len() as int;
    let x = component_input(key, plane, dim);
    let y = component_input(key, other_plane, other_dim);
    assert(x.subrange(n, n + 4) =~= be32(low32(plane)));
    assert(y.subrange(n, n + 4) =~= be32(low32(other_plane)));
    assert(x.subrange(n + 4, n + 8) =~= be32(low32(dim)));
    assert(y.subrange(n + 4, n + 8) =~= be32(low32(other_dim)));
    crate::bytes::be32_round_trips(low32(plane));
    crate::bytes::be32_round_trips(low32(other_plane));
    crate::bytes::be32_round_trips(low32(dim));
    crate::bytes::be32_round_trips(low32(other_dim));
}

/// Every component of every hyperplane has a digest of its own: it is the big-endian number in the
/// first four bytes of the digest of the namespace's seed, the hyperplane's number and the
/// dimension's, and a hyperplane has one for each dimension asked for. The seed is the digest of
/// the label and the whole key.
pub proof fn law_components_are_read_from_their_own_digests(
    key: Seq<u8>,
    plane: int,
    dims: nat,
    dim: int,
)
    requires
        0 <= plane < 0x1_0000_0000,
        0 <= dim < dims,
        dim < 0x1_0000_0000,
    ensures
        ({
            let seed = sha256_of(encode_utf8("nutcracker:lsh:v1"@) + key);
            let digest = sha256_of(component_input(key, plane, dim));
            let word = plane_of(key, plane, dims)[dim];
            &&& plane_of(key, plane, dims).len() == dims
            &&& component_input(key, plane, dim).take(seed.len() as int) == seed
            &&& component_input(key, plane, dim).len() == seed.len() + 8
            &&& from_be32(component_input(key, plane, dim).skip(seed.len() as int)) == plane
            &&& from_be32(component_input(key, plane, dim).skip(seed.len() + 4int)) == dim
            &&& word == from_be32(digest)
        }),
{
    let n = seed_of(key).len() as int;
    let x = component_input(key, plane, dim);
    assert(x.take(n) =~= seed_of(key));
    crate::bytes::be32_round_trips(low32(plane));
    crate::bytes::be32_round_trips(low32(dim));
    assert(from_be32(x.skip(n)) == from_be32(be32(low32(plane))));
    assert(from_be32(x.skip(n + 4)) == from_be32(be32(low32(dim))));
}

/// Whether a bit of a number is set.
pub open spec fn bit_of(x: int, i: nat) -> bool {
    x / (pow2(i) as int) % 2 == 1
}

/// The bit above the lowest is the one below it of the half.
proof fn bit_of_half(x: int, i: nat)
    requires
        x >= 0,
    ensures
        bit_of(x, i + 1) == bit_of(x / 2, i),
        bit_of(x, 0) == (x % 2 == 1),
{
    lemma2_to64();
    lemma_pow2_unfold(i + 1);
    vstd::arithmetic::power2::lemma_pow2_pos(i);
    vstd::arithmetic::div_mod::lemma_div_denominator(x, 2, pow2(i) as int);
    assert(x / 1 == x);
}

/// Bits below a power of two determine the number.
proof fn bits_determine(signs: Seq<bool>, x: nat)
    requires
        x < pow2(signs.len()),
        forall|i: int| 0 <= i < signs.len() ==> #[trigger] signs[i] == bit_of(x as int, i as nat),
    ensures
        x == bits_value(signs),
    decreases signs.len(),
{
    lemma2_to64();
    if signs.len() > 0 {
        let rest = signs.drop_first();
        let half = x / 2;
        lemma_pow2_unfold(signs.len());
        assert forall|i: int| 0 <= i < rest.len() implies #[trigger] rest[i] == bit_of(
            half as int,
            i as nat,
        ) by {
            assert(rest[i] == signs[i + 1]);
            bit_of_half(x as int, i as nat);
        }
        bits_determine(rest, half);
        bit_of_half(x as int, 0);
        assert(signs[0] == bit_of(x as int, 0));
    }
}

/// There is one token per band, and it is the first sixteen bytes of the tag of the band and its
/// bits: of the number whose bits, from the lowest, say on which side of the band's hyperplanes the
/// embedding lies.
pub proof fn law_tokens_tag_the_bits_of_their_band(
    key: Seq<u8>,
    params: IndexParams,
    signs: Seq<bool>,
    band: int,
    bits: u64,
)
    requires
        params.band_bits <= 64,
        signs.len() == params.bands * params.band_bits,
        0 <= band < params.bands,
        bits < pow2(params.band_bits as nat),
        forall|i: int|
            0 <= i < params.band_bits ==> #[trigger] bit_of(bits as int, i as nat)
                == signs[band * params.band_bits + i],
    ensures
        tokens_of(key, params, signs).len() == params.bands,
        tokens_of(key, params, signs)[band] == hmac_sha256(key, bucket_input(band, bits)).take(16),
{
    let width = params.band_bits as int;
    assert(band * width + width <= params.bands * width) by (nonlinear_arith)
        requires
            band + 1 <= params.bands,
            width >= 0,
    ;
    assert(0 <= band * width) by (nonlinear_arith)
        requires
            band >= 0,
            width >= 0,
    ;
    let run = band_of(params, signs, band);
    assert(run.len() == width);
    assert forall|i: int| 0 <= i < run.len() implies #[trigger] run[i] == bit_of(
        bits as int,
        i as nat,
    ) by {
        assert(bit_of(bits as int, i as nat) == signs[band * width + i]);
    }
    bits_determine(run, bits as nat);
}

/// A bucket's tag is over the label, the band and its bits, each whole.
pub proof fn law_bucket_inputs_spell_their_parts(band: int, bits: u64)
    requires
        0 <= band < 0x1_0000_0000,
    ensures
        ({
            let label = encode_utf8("nutcracker:bucket:v1"@);
            let x = bucket_input(band, bits);
            let n = label.len() as int;
            &&& x.len() == n + 12
            &&& x.take(n) == label
            &&& from_be32(x.skip(n)) == band
            &&& from_be32(x.skip(n + 4)) * 0x1_0000_0000 + from_be32(x.skip(n + 8)) == bits
        }),
{
    let label = encode_utf8("nutcracker:bucket:v1"@);
    let x = bucket_input(band, bits);
    let n = label.len() as int;
    assert(x.take(n) =~= label);
    crate::bytes::be32_round_trips(low32(band));
    crate::bytes::law_large_numbers_read_back(bits);
    assert(from_be32(x.skip(n)) == from_be32(be32(low32(band))));
    assert(from_be32(x.skip(n + 4)) == from_be32(be64(bits)));
    assert(from_be32(x.skip(n + 8)) == from_be32(be64(bits).skip(4)));
}

/// Every place counts once: one more pair of tokens adds one where they agree and nothing where
/// they do not.
pub proof fn law_agreements_count_each_band(
    a: Seq<Seq<u8>>,
    b: Seq<Seq<u8>>,
    x: Seq<u8>,
    y: Seq<u8>,
)
    requires
        a.len() == b.len(),
    ensures
        agreements(a.push(x), b.push(y)) == agreements(a, b) + (if x == y {
            1nat
        } else {
            0nat
        }),
        a.len() == 0 ==> agreements(a, b) == 0,
    decreases a.len(),
{
    let p = a.push(x);
    let q = b.push(y);
    if a.len() == 0 {
        reveal_with_fuel(agreements, 2);
    } else {
        assert(p.drop_first() =~= a.drop_first().push(x));
        assert(q.drop_first() =~= b.drop_first().push(y));
        law_agreements_count_each_band(a.drop_first(), b.drop_first(), x, y);
    }
}

/// A namespace's blind index. Deterministic given the namespace key and params, so the same client
/// on a different device reproduces identical tokens without any shared state.
pub struct BlindIndex {
    key: [u8; 32],
    params: IndexParams,
    seed: [u8; 32],
}

impl BlindIndex {
    /// The seed is the key's.
    #[verifier::type_invariant]
    spec fn seeded(self) -> bool {
        self.seed@ == seed_of(self.key@)
    }

    /// The namespace key the index is under.
    pub closed spec fn key(&self) -> Seq<u8> {
        self.key@
    }

    /// The parameters the index was made with.
    pub closed spec fn shape(&self) -> IndexParams {
        self.params
    }

    /// The index of a namespace.
    pub fn new(ns: &NamespaceKey, params: IndexParams) -> (r: Self)
        ensures
            r.key() == ns@,
            r.shape() == params,
    {
        let key = *ns.as_bytes();
        let mut data = slice_to_vec("nutcracker:lsh:v1".as_bytes());
        data.extend_from_slice(key.as_slice());
        proof {
            assert(data@ =~= encode_utf8("nutcracker:lsh:v1"@) + key@);
        }
        BlindIndex { key, params, seed: sha256(data.as_slice()) }
    }

    /// The parameters the index was made with.
    pub fn params(&self) -> (r: IndexParams)
        ensures
            r == self.shape(),
    {
        self.params
    }

    /// The pseudo-random component of hyperplane `plane` at dimension `dim`.
    ///
    /// Derived rather than stored: an embedding may have 1536 dimensions, and materialising every
    /// hyperplane of a namespace to hash a single vector would be silly.
    pub fn component(&self, plane: usize, dim: usize) -> (r: u32)
        ensures
            r == component_of(self.key(), plane as int, dim as int),
    {
        proof {
            use_type_invariant(self);
        }
        let mut data = slice_to_vec(self.seed.as_slice());
        push_be32(&mut data, (plane as u64 % 0x1_0000_0000) as u32);
        push_be32(&mut data, (dim as u64 % 0x1_0000_0000) as u32);
        proof {
            assert(data@ =~= seed_of(self.key@) + be32(low32(plane as int)) + be32(
                low32(dim as int),
            ));
        }
        let d = sha256(data.as_slice());
        (d[0] as u32) * 0x100_0000 + (d[1] as u32) * 0x1_0000 + (d[2] as u32) * 0x100 + (
        d[3] as u32)
    }

    /// The components of a hyperplane, dimension by dimension.
    pub fn plane(&self, plane: usize, dims: usize) -> (r: Vec<u32>)
        ensures
            r@ == plane_of(self.key(), plane as int, dims as nat),
    {
        let mut r: Vec<u32> = Vec::new();
        let mut dim: usize = 0;
        while dim < dims
            invariant
                dim <= dims,
                r@.len() == dim,
                forall|d: int|
                    0 <= d < dim ==> #[trigger] r@[d] == component_of(
                        self.key(),
                        plane as int,
                        d,
                    ),
            decreases dims - dim,
        {
            r.push(self.component(plane, dim));
            dim = dim + 1;
        }
        proof {
            assert(r@ =~= plane_of(self.key(), plane as int, dims as nat));
        }
        r
    }

    /// The bits of one band as a word.
    fn band_value(&self, signs: &[bool], band: usize) -> (bits: u64)
        requires
            self.shape().usable(),
            signs@.len() == self.shape().planes(),
            band < self.shape().bands,
        ensures
            bits == bits_value(band_of(self.shape(), signs@, band as int)),
    {
        let width = self.params.band_bits;
        assert(band * width + width <= self.params.bands * width) by (nonlinear_arith)
            requires
                band + 1 <= self.params.bands,
        ;
        assert(0 <= band * width) by (nonlinear_arith);
        let ghost run = band_of(self.shape(), signs@, band as int);
        let start: usize = band * width;
        let mut bits: u64 = 0;
        let mut b: usize = width;
        proof {
            assert(run.skip(width as int) =~= Seq::<bool>::empty());
        }
        while b > 0
            invariant
                b <= width <= 64,
                start + width <= signs.len(),
                run == signs@.subrange(start as int, start + width),
                bits == bits_value(run.skip(b as int)),
            decreases b,
        {
            b = b - 1;
            proof {
                assert(run.skip(b as int).drop_first() =~= run.skip(b + 1));
                bits_value_fits(run.skip(b as int));
            }
            bits = 2 * bits + (if signs[start + b] { 1 } else { 0 });
        }
        proof {
            assert(run.skip(0) =~= run);
        }
        bits
    }

    /// The bucket tokens of an embedding, given on which side of each hyperplane it lies. These are
    /// what the provider stores or searches by.
    pub fn tokens(&self, signs: &[bool]) -> (r: Vec<BucketToken>)
        requires
            self.shape().usable(),
            signs@.len() == self.shape().planes(),
        ensures
            token_views(r@) == tokens_of(self.key(), self.shape(), signs@),
    {
        let mut out: Vec<BucketToken> = Vec::new();
        let mut band: usize = 0;
        let ghost expected = tokens_of(self.key(), self.shape(), signs@);
        while band < self.params.bands
            invariant
                self.shape().usable(),
                signs@.len() == self.shape().planes(),
                self.shape() == self.params,
                expected == tokens_of(self.key(), self.shape(), signs@),
                band <= self.params.bands,
                out@.len() == band,
                forall|i: int| 0 <= i < band ==> (#[trigger] out@[i])@ == expected[i],
            decreases self.params.bands - band,
        {
            let bits: u64 = self.band_value(signs, band);
            let mut data = slice_to_vec("nutcracker:bucket:v1".as_bytes());
            push_be32(&mut data, (band as u64 % 0x1_0000_0000) as u32);
            push_be64(&mut data, bits);
            proof {
                assert(data@ =~= bucket_input(band as int, bits));
            }
            let tag = hmac(self.key.as_slice(), data.as_slice());
            out.push(BucketToken(prefix::<16>(tag.as_slice())));
            band = band + 1;
        }
        proof {
            assert(token_views(out@) =~= expected);
        }
        out
    }

    /// How many bands two embeddings share. The provider computes this over tokens without ever
    /// seeing an embedding; it is exposed here so the client can reason about recall.
    pub fn shared_bands(&self, a: &[bool], b: &[bool]) -> (r: usize)
        requires
            self.shape().usable(),
            a@.len() == self.shape().planes(),
            b@.len() == self.shape().planes(),
        ensures
            r == agreements(
                tokens_of(self.key(), self.shape(), a@),
                tokens_of(self.key(), self.shape(), b@),
            ),
    {
        let ta = self.tokens(a);
        let tb = self.tokens(b);
        let ghost va = token_views(ta@);
        let ghost vb = token_views(tb@);
        let mut count: usize = 0;
        let mut i: usize = ta.len();
        proof {
            assert(va.len() == vb.len());
            assert(va.skip(i as int).len() == 0);
        }
        while i > 0
            invariant
                i <= ta.len(),
                ta.len() == tb.len(),
                va == token_views(ta@),
                vb == token_views(tb@),
                count <= ta.len() - i,
                count == agreements(va.skip(i as int), vb.skip(i as int)),
            decreases i,
        {
            i = i - 1;
            proof {
                assert(va.skip(i as int).drop_first() =~= va.skip(i + 1));
                assert(vb.skip(i as int).drop_first() =~= vb.skip(i + 1));
            }
            if same_bytes(ta[i].0.as_slice(), tb[i].0.as_slice()) {
                count = count + 1;
            }
        }
        proof {
            assert(va.skip(0) =~= va);
            assert(vb.skip(0) =~= vb);
        }
        count
    }
}

} // verus!
