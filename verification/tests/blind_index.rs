//! The blind index: hyperplanes, signs and tokens.

use nutcracker::blind_index::{BlindIndex, BucketToken, IndexParams};
use nutcracker::envelope::{NamespaceKey, RootKey};
use rand::rngs::StdRng;
use rand::{Rng, SeedableRng};

fn ns(seed: u8, name: &str) -> NamespaceKey {
    RootKey::from_bytes([seed; 32]).namespace_key(name, 0)
}

/// The sign of the dot product with each hyperplane.
fn signs(idx: &BlindIndex, embedding: &[f32]) -> Vec<bool> {
    let mut out = Vec::new();
    for p in 0..idx.params().hyperplanes() {
        let plane = idx.plane(p, embedding.len());
        let mut acc = 0f64;
        for (w, x) in plane.iter().zip(embedding) {
            let component = (*w as f64 / u32::MAX as f64 * 2.0 - 1.0) as f32;
            acc += f64::from(component) * f64::from(*x);
        }
        out.push(acc >= 0.0);
    }
    out
}

fn tokens(idx: &BlindIndex, embedding: &[f32]) -> Vec<BucketToken> {
    idx.tokens(&signs(idx, embedding))
}

fn shared_bands(idx: &BlindIndex, a: &[f32], b: &[f32]) -> usize {
    idx.shared_bands(&signs(idx, a), &signs(idx, b))
}

fn random_vec(rng: &mut StdRng, dims: usize) -> Vec<f32> {
    (0..dims).map(|_| rng.gen_range(-1.0..1.0)).collect()
}

/// A near-duplicate is a small perturbation of the original.
fn perturb(rng: &mut StdRng, v: &[f32], scale: f32) -> Vec<f32> {
    v.iter().map(|x| x + rng.gen_range(-scale..scale)).collect()
}

/// Pinned to the measurement, not to taste.
#[test]
fn the_default_is_the_configuration_that_was_measured_best() {
    let p = IndexParams::default();
    assert_eq!((p.bands, p.band_bits), (8, 4));
    assert_eq!(
        p.hyperplanes(),
        32,
        "per-item disclosure is bands x band_bits"
    );
}

#[test]
fn tokens_are_deterministic() {
    let idx = BlindIndex::new(&ns(1, "notes"), IndexParams::default());
    let v = vec![0.1, -0.4, 0.9, 0.2];
    assert_eq!(tokens(&idx, &v), tokens(&idx, &v));
}

#[test]
fn there_is_one_token_per_band() {
    let p = IndexParams {
        bands: 5,
        band_bits: 4,
    };
    let idx = BlindIndex::new(&ns(1, "notes"), p);
    assert_eq!(tokens(&idx, &[0.3, 0.7, -0.2]).len(), 5);
    assert_eq!(p.hyperplanes(), 20);
}

/// The property the whole scheme rests on: similar things collide, dissimilar things mostly
/// do not. Without this it is not an index, it is a hash.
#[test]
fn near_duplicates_share_far_more_bands_than_unrelated_vectors() {
    let idx = BlindIndex::new(&ns(1, "notes"), IndexParams::default());
    let mut rng = StdRng::seed_from_u64(42);

    let mut near_total: usize = 0;
    let mut far_total: usize = 0;
    let trials: usize = 60;

    for _ in 0..trials {
        let base = random_vec(&mut rng, 64);
        let near = perturb(&mut rng, &base, 0.05);
        let far = random_vec(&mut rng, 64);
        near_total += shared_bands(&idx, &base, &near);
        far_total += shared_bands(&idx, &base, &far);
    }

    let near_avg = near_total as f64 / trials as f64;
    let far_avg = far_total as f64 / trials as f64;
    assert!(
        near_avg > far_avg * 3.0,
        "near-duplicates must collide far more often: near={near_avg:.2} far={far_avg:.2}"
    );
    assert!(
        near_avg > 4.0,
        "recall too low to be useful: {near_avg:.2} of 8 bands"
    );
}

/// THE privacy property. The same vector in two namespaces must produce unrelated tokens, or
/// a provider could correlate users, which is precisely the metadata leak the design exists
/// to avoid.
#[test]
fn the_same_vector_in_two_namespaces_produces_unrelated_tokens() {
    let v = vec![0.4, -0.1, 0.8, 0.3, -0.6];
    let a = tokens(&BlindIndex::new(&ns(1, "notes"), IndexParams::default()), &v);
    let b = tokens(&BlindIndex::new(&ns(2, "notes"), IndexParams::default()), &v);
    let shared = a.iter().zip(b.iter()).filter(|(x, y)| x == y).count();
    assert_eq!(shared, 0, "tokens must not be comparable across namespaces");
}

/// Rotating the namespace key must reindex, not silently keep working, otherwise a revoked
/// agent's stale tokens would still match.
#[test]
fn rotating_the_namespace_key_changes_every_token() {
    let root = RootKey::from_bytes([9u8; 32]);
    let v = vec![0.2, 0.5, -0.3, 0.1];
    let g0 = tokens(
        &BlindIndex::new(&root.namespace_key("notes", 0), IndexParams::default()),
        &v,
    );
    let g1 = tokens(
        &BlindIndex::new(&root.namespace_key("notes", 1), IndexParams::default()),
        &v,
    );
    assert_eq!(g0.iter().zip(g1.iter()).filter(|(a, b)| a == b).count(), 0);
}

/// Tokens are HMAC outputs: fixed width regardless of the embedding, so they leak nothing
/// about dimensionality or magnitude.
#[test]
fn tokens_reveal_nothing_about_the_vectors_shape() {
    let idx = BlindIndex::new(&ns(1, "notes"), IndexParams::default());
    let short = tokens(&idx, &[1.0, 2.0]);
    let long = tokens(&idx, &vec![0.5f32; 1536]);
    assert_eq!(short.len(), long.len());
    assert!(short.iter().all(|t| t.0.len() == 16));
    assert!(long.iter().all(|t| t.0.len() == 16));
}

/// The knob has to actually move. Tightening the parameters must reduce collisions.
#[test]
fn more_bits_per_band_means_more_selective_buckets() {
    let key = ns(1, "notes");
    let mut rng = StdRng::seed_from_u64(7);
    let base = random_vec(&mut rng, 64);
    let near = perturb(&mut rng, &base, 0.05);

    let loose = BlindIndex::new(
        &key,
        IndexParams {
            bands: 8,
            band_bits: 2,
        },
    );
    let tight = BlindIndex::new(
        &key,
        IndexParams {
            bands: 8,
            band_bits: 16,
        },
    );

    assert!(
        shared_bands(&loose, &base, &near) >= shared_bands(&tight, &base, &near),
        "more bits per band must be at least as selective"
    );
}

#[test]
fn an_empty_embedding_does_not_panic() {
    let idx = BlindIndex::new(&ns(1, "notes"), IndexParams::default());
    assert_eq!(tokens(&idx, &[]).len(), 8);
}

#[test]
fn the_index_gives_the_components_and_tokens_it_always_gave() {
    let p = IndexParams {
        bands: 2,
        band_bits: 3,
    };
    let idx = BlindIndex::new(&ns(7, "notes"), p);
    assert_eq!(idx.component(0, 0), 0x51b311f1);
    assert_eq!(idx.component(3, 5), 0x634c03a9);
    assert_eq!(idx.plane(3, 6)[5], 0x634c03a9);
    assert_eq!(idx.plane(0, 6).len(), 6);
    let t = idx.tokens(&[true, false, true, false, true, true]);
    assert_eq!(t[0].to_hex(), "34921e7e45209461597b3e6a0f83c584");
    assert_eq!(t[1].to_hex(), "6e8dea9631c59509f66197b5c7d20898");
    assert_eq!(idx.params(), p);
    assert_eq!(p.bits_disclosed_per_band(), 3);
}

#[test]
fn bands_are_shared_exactly_where_their_bits_agree() {
    let p = IndexParams {
        bands: 3,
        band_bits: 2,
    };
    let idx = BlindIndex::new(&ns(7, "notes"), p);
    let a = [true, false, true, true, false, false];
    let b = [true, false, false, true, false, false];
    assert_eq!(idx.shared_bands(&a, &b), 2);
    assert_eq!(idx.shared_bands(&a, &a), 3);
}

#[test]
fn the_widest_band_is_a_whole_word() {
    let p = IndexParams {
        bands: 1,
        band_bits: 64,
    };
    assert!(p.is_usable());
    let idx = BlindIndex::new(&ns(7, "notes"), p);
    let all = idx.tokens(&[true; 64]);
    let mut low = [false; 64];
    low[63] = true;
    assert_ne!(all, idx.tokens(&low));
    let wide = IndexParams {
        bands: 1,
        band_bits: 65,
    };
    assert!(!wide.is_usable());
    let many = IndexParams {
        bands: usize::MAX,
        band_bits: 2,
    };
    assert!(!many.is_usable());
    let none = IndexParams {
        bands: 0,
        band_bits: 4,
    };
    assert!(BlindIndex::new(&ns(7, "notes"), none).tokens(&[]).is_empty());
}
