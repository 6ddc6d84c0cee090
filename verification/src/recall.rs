//! Recalled memories, and their ranking by actual similarity.

use crate::bytes::{bytes_before, bytes_before_is_total};
use crate::ranking::{
    ahead, ahead_is_total, consistent, is_ranked, key_views, law_rankings_are_unique,
    law_weighed_keys_are_consistent, rank, RankKey, RankView,
};
use crate::text::utf8_is_injective;
use vstd::arithmetic::power2::{
    lemma2_to64, lemma_pow2_pos, lemma_pow2_strictly_increases, lemma_pow2_unfold, pow2,
};
use vstd::prelude::*;
use vstd::slice::slice_to_vec;
use vstd::utf8::encode_utf8;

verus! {

/// The bits of the binary32 value one.
pub const ONE: u32 = 0x3f80_0000;

/// A retrieved memory, decrypted locally.
#[derive(Debug, PartialEq)]
pub struct Memory {
    pub item_id: String,
    pub text: String,
    /// How many index bands this shared with the query. The provider's contribution, and it is
    /// coarse: a bucket collision is a hint, not a similarity.
    pub shared_bands: usize,
    /// Cosine similarity between the query and this memory, as the bits of a binary32 value,
    /// computed after decryption. This is the ranking that matters, and the provider could not
    /// have computed it.
    pub score: u32,
}

/// The contents of a memory.
#[verifier::ext_equal]
pub struct MemoryView {
    pub item_id: Seq<char>,
    pub text: Seq<char>,
    pub shared_bands: usize,
    pub score: u32,
}

impl View for Memory {
    type V = MemoryView;

    open spec fn view(&self) -> MemoryView {
        MemoryView {
            item_id: self.item_id@,
            text: self.text@,
            shared_bands: self.shared_bands,
            score: self.score,
        }
    }
}

impl Clone for Memory {
    fn clone(&self) -> (r: Self)
        ensures
            r@ == self@,
    {
        Memory {
            item_id: self.item_id.clone(),
            text: self.text.clone(),
            shared_bands: self.shared_bands,
            score: self.score,
        }
    }
}

/// The contents of each memory of a run.
pub open spec fn memory_views(s: Seq<Memory>) -> Seq<MemoryView> {
    Seq::new(s.len(), |i: int| s[i]@)
}

/// A binary32 value's place among all of them: negative values below zero, and both zeros together.
/// What is not a number has none.
pub open spec fn score_weight(bits: u32) -> Option<u64> {
    if bits < 0x8000_0000 {
        if bits > 0x7f80_0000 {
            None
        } else {
            Some((0x8000_0000 + bits) as u64)
        }
    } else if bits - 0x8000_0000 > 0x7f80_0000 {
        None
    } else {
        Some((0x8000_0000 - (bits - 0x8000_0000)) as u64)
    }
}

/// What memories are ranked by: the score, and the id where scores tie. A score that is not a
/// number ties with every other.
pub open spec fn recall_keys(s: Seq<MemoryView>) -> Seq<RankView> {
    Seq::new(
        s.len(),
        |i: int| RankView { weight: score_weight(s[i].score), id: encode_utf8(s[i].item_id) },
    )
}

/// The memories at some places.
pub open spec fn picked(s: Seq<MemoryView>, picks: Seq<usize>) -> Seq<MemoryView> {
    Seq::new(picks.len(), |i: int| s[picks[i] as int])
}

/// Whether memories can be put in order. They always can where every score is a number.
pub open spec fn can_be_ordered(s: Seq<MemoryView>) -> bool {
    consistent(recall_keys(s))
}

/// What a recall answers: memories best first, ties broken on id and then on the order in which
/// they came, and no more than the limit. Where scores that are not numbers leave no such order, as
/// many memories in any.
pub open spec fn is_recall(s: Seq<MemoryView>, limit: nat, out: Seq<MemoryView>) -> bool {
    exists|picks: Seq<usize>| #[trigger]
        is_ranked(recall_keys(s), limit, picks) && out == picked(s, picks)
}

/// Memories whose scores are all numbers can be put in order.
pub proof fn law_numbers_can_be_ordered(s: Seq<MemoryView>)
    requires
        forall|i: int| 0 <= i < s.len() ==> score_weight((#[trigger] s[i]).score) is Some,
    ensures
        can_be_ordered(s),
{
    let keys = recall_keys(s);
    assert forall|i: int| 0 <= i < keys.len() implies (#[trigger] keys[i]).weight is Some by {
        assert(score_weight(s[i].score) is Some);
    }
    law_weighed_keys_are_consistent(keys);
}

/// Identical memories give identical orderings: a recall is determined by what is ranked and by
/// the limit, wherever there is an order.
pub proof fn law_recalls_are_unique(
    s: Seq<MemoryView>,
    limit: nat,
    a: Seq<MemoryView>,
    b: Seq<MemoryView>,
)
    requires
        can_be_ordered(s),
        is_recall(s, limit, a),
        is_recall(s, limit, b),
    ensures
        a == b,
{
    let p = choose|p: Seq<usize>| #[trigger]
        is_ranked(recall_keys(s), limit, p) && a == picked(s, p);
    let q = choose|q: Seq<usize>| #[trigger]
        is_ranked(recall_keys(s), limit, q) && b == picked(s, q);
    law_rankings_are_unique(recall_keys(s), limit, p, q);
}

/// A recall returns as many memories as there are and the limit allows, each of them one of those
/// ranked.
pub proof fn law_recalls_are_bounded(s: Seq<MemoryView>, limit: nat, out: Seq<MemoryView>)
    requires
        is_recall(s, limit, out),
    ensures
        out.len() == if s.len() <= limit {
            s.len()
        } else {
            limit
        },
        forall|i: int| 0 <= i < out.len() ==> s.contains(#[trigger] out[i]),
{
    let picks = choose|p: Seq<usize>| #[trigger]
        is_ranked(recall_keys(s), limit, p) && out == picked(s, p);
    assert forall|i: int| 0 <= i < out.len() implies s.contains(#[trigger] out[i]) by {
        assert(0 <= picks[i] < s.len());
        assert(s[picks[i] as int] == out[i]);
    }
}

/// Whether bits stand for a number, as IEEE 754 has it: the exponent is not the largest, or the
/// fraction is zero.
pub open spec fn is_number(bits: u32) -> bool {
    bits / 0x80_0000 % 0x100 != 0xff || bits % 0x80_0000 == 0
}

/// The magnitude that bits stand for, as IEEE 754 has it, in units of the smallest positive number:
/// a fraction alone below the first exponent, and beyond it a fraction behind a leading one, scaled
/// by the exponent. Infinity stands where the next magnitude would.
#[verifier::opaque]
pub open spec fn magnitude(bits: u32) -> nat {
    let exponent = (bits / 0x80_0000 % 0x100) as nat;
    let fraction = (bits % 0x80_0000) as nat;
    if exponent == 0 {
        fraction
    } else {
        (0x80_0000 + fraction) * pow2((exponent - 1) as nat)
    }
}

/// The number that bits stand for, in units of the smallest positive one: its magnitude, and its
/// sign in the highest bit.
pub open spec fn number_of(bits: u32) -> int {
    if bits / 0x8000_0000 == 0 {
        magnitude(bits) as int
    } else {
        -(magnitude(bits) as int)
    }
}

/// Magnitudes grow with the bits behind the sign.
proof fn magnitudes_grow(x: u32, y: u32)
    requires
        x % 0x8000_0000 < y % 0x8000_0000,
    ensures
        magnitude(x) < magnitude(y),
{
    reveal(magnitude);
    let e = (x / 0x80_0000 % 0x100) as nat;
    let f = (y / 0x80_0000 % 0x100) as nat;
    let a = (x % 0x80_0000) as nat;
    let b = (y % 0x80_0000) as nat;
    assert(x % 0x8000_0000 == e * 0x80_0000 + a);
    assert(y % 0x8000_0000 == f * 0x80_0000 + b);
    lemma2_to64();
    if e == f {
        if e > 0 {
            lemma_pow2_pos((e - 1) as nat);
            let p = pow2((e - 1) as nat);
            assert((0x80_0000 + a) * p < (0x80_0000 + b) * p) by (nonlinear_arith)
                requires
                    a < b,
                    p > 0,
            ;
        }
    } else {
        assert(e < f);
        let q = pow2((f - 1) as nat);
        lemma_pow2_pos((f - 1) as nat);
        assert((0x80_0000 + b) * q >= 0x80_0000 * q) by (nonlinear_arith)
            requires
                b >= 0,
                q > 0,
        ;
        if e > 0 {
            let p = pow2((e - 1) as nat);
            lemma_pow2_pos((e - 1) as nat);
            lemma_pow2_unfold(e);
            assert(pow2(e) == 2 * p);
            if e < f - 1 {
                lemma_pow2_strictly_increases(e, (f - 1) as nat);
            }
            assert(q >= 2 * p);
            assert((0x80_0000 + a) * p < 0x100_0000 * p) by (nonlinear_arith)
                requires
                    a < 0x80_0000,
                    p > 0,
            ;
        }
    }
}

/// Only what lies behind the sign makes a magnitude, and nothing makes none.
proof fn magnitudes_ignore_the_sign(x: u32)
    ensures
        magnitude(x) == magnitude((x % 0x8000_0000) as u32),
        magnitude(0) == 0,
        x % 0x8000_0000 > 0 ==> magnitude(x) > 0,
{
    reveal(magnitude);
    if x % 0x8000_0000 > 0 {
        magnitudes_grow(0, x);
    }
}

/// A score's weight, by what lies behind its sign.
proof fn weight_by_parts(x: u32)
    ensures
        is_number(x) <==> x % 0x8000_0000 <= 0x7f80_0000,
        score_weight(x) is Some <==> is_number(x),
        is_number(x) && x / 0x8000_0000 == 0 ==> score_weight(x)->0 == 0x8000_0000 + x % 0x8000_0000,
        is_number(x) && x / 0x8000_0000 != 0 ==> score_weight(x)->0 == 0x8000_0000 - x % 0x8000_0000,
{
    let a = x % 0x8000_0000;
    let e = x / 0x80_0000 % 0x100;
    assert(a == e * 0x80_0000 + x % 0x80_0000);
}

/// Scores weigh what they are worth: a score has a weight exactly where it is a number, and one
/// score weighs more than another exactly where its number is the larger. So both zeros weigh the
/// same, and every negative number less than every positive one.
pub proof fn law_scores_weigh_what_they_are_worth(x: u32, y: u32)
    ensures
        score_weight(x) is Some <==> is_number(x),
        is_number(x) && is_number(y) ==> (score_weight(x)->0 < score_weight(y)->0 <==> number_of(x)
            < number_of(y)),
        is_number(x) && is_number(y) ==> (score_weight(x)->0 == score_weight(y)->0 <==> number_of(x)
            == number_of(y)),
{
    let a = x % 0x8000_0000;
    let b = y % 0x8000_0000;
    weight_by_parts(x);
    weight_by_parts(y);
    magnitudes_ignore_the_sign(x);
    magnitudes_ignore_the_sign(y);
    if a < b {
        magnitudes_grow(x, y);
    } else if b < a {
        magnitudes_grow(y, x);
    } else {
        assert(magnitude(x) == magnitude(y));
    }
}

/// A recall is best first: where every score is a number, no memory stands behind one with a
/// smaller score, memories with the same score stand in the order of their ids, and none is left
/// out that should stand before one returned, or while there was room.
pub proof fn law_recalls_are_best_first(s: Seq<MemoryView>, limit: nat, out: Seq<MemoryView>)
    requires
        is_recall(s, limit, out),
        s.len() <= usize::MAX,
        forall|i: int| 0 <= i < s.len() ==> is_number((#[trigger] s[i]).score),
    ensures
        forall|i: int, j: int|
            #![trigger out[i], out[j]]
            0 <= i < j < out.len() ==> number_of(out[i].score) >= number_of(out[j].score),
        forall|i: int, j: int|
            #![trigger out[i], out[j]]
            0 <= i < j < out.len() && number_of(out[i].score) == number_of(out[j].score)
                ==> !bytes_before(encode_utf8(out[j].item_id), encode_utf8(out[i].item_id)),
        forall|k: int|
            0 <= k < s.len() && !out.contains(#[trigger] s[k]) ==> out.len() == limit && forall|
                i: int,
            |
                0 <= i < out.len() ==> number_of((#[trigger] out[i]).score) > number_of(s[k].score)
                    || (number_of(out[i].score) == number_of(s[k].score) && !bytes_before(
                    encode_utf8(s[k].item_id),
                    encode_utf8(out[i].item_id),
                )),
{
    assert forall|i: int| 0 <= i < s.len() implies score_weight((#[trigger] s[i]).score) is Some by {
        law_scores_weigh_what_they_are_worth(s[i].score, s[i].score);
    }
    law_numbers_can_be_ordered(s);
    let keys = recall_keys(s);
    let picks = choose|p: Seq<usize>| #[trigger] is_ranked(keys, limit, p) && out == picked(s, p);
    assert forall|i: int, j: int|
        #![trigger out[i], out[j]]
        0 <= i < j < out.len() implies number_of(out[i].score) >= number_of(out[j].score) && (
    number_of(out[i].score) == number_of(out[j].score) ==> !bytes_before(
        encode_utf8(out[j].item_id),
        encode_utf8(out[i].item_id),
    )) by {
        let a = picks[i] as int;
        let b = picks[j] as int;
        assert(ahead(keys, a, b));
        assert(is_number(s[a].score) && is_number(s[b].score));
        law_scores_weigh_what_they_are_worth(s[a].score, s[b].score);
        law_scores_weigh_what_they_are_worth(s[b].score, s[a].score);
        bytes_before_is_total(keys[a].id, keys[b].id);
    }
    assert forall|k: int| 0 <= k < s.len() && !out.contains(#[trigger] s[k]) implies out.len()
        == limit && forall|i: int|
        0 <= i < out.len() ==> number_of((#[trigger] out[i]).score) > number_of(s[k].score) || (
        number_of(out[i].score) == number_of(s[k].score) && !bytes_before(
            encode_utf8(s[k].item_id),
            encode_utf8(out[i].item_id),
        )) by {
        if picks.contains(k as usize) {
            let i = picks.index_of(k as usize);
            assert(out[i] == s[k]);
        }
        assert forall|i: int| 0 <= i < out.len() implies number_of((#[trigger] out[i]).score)
            > number_of(s[k].score) || (number_of(out[i].score) == number_of(s[k].score)
            && !bytes_before(encode_utf8(s[k].item_id), encode_utf8(out[i].item_id))) by {
            let a = picks[i] as int;
            bytes_before_is_total(keys[a].id, keys[k].id);
            assert(ahead(keys, a, k));
            assert(is_number(s[a].score) && is_number(s[k].score));
            law_scores_weigh_what_they_are_worth(s[a].score, s[k].score);
            law_scores_weigh_what_they_are_worth(s[k].score, s[a].score);
        }
    }
}

/// Whether the memory at one place comes before that at another: the larger number first; where the
/// numbers are the same, or one of the scores is none, the smaller id; and where the ids are the
/// same too, the earlier.
pub open spec fn comes_before(s: Seq<MemoryView>, i: int, j: int) -> bool {
    let a = s[i];
    let b = s[j];
    if is_number(a.score) && is_number(b.score) && number_of(a.score) != number_of(b.score) {
        number_of(a.score) > number_of(b.score)
    } else if a.item_id != b.item_id {
        bytes_before(encode_utf8(a.item_id), encode_utf8(b.item_id))
    } else {
        i < j
    }
}

/// Ranking ahead is coming before.
proof fn ahead_is_coming_before(s: Seq<MemoryView>, i: int, j: int)
    requires
        0 <= i < s.len(),
        0 <= j < s.len(),
    ensures
        ahead(recall_keys(s), i, j) == comes_before(s, i, j),
{
    law_scores_weigh_what_they_are_worth(s[i].score, s[j].score);
    law_scores_weigh_what_they_are_worth(s[j].score, s[i].score);
    bytes_before_is_total(encode_utf8(s[i].item_id), encode_utf8(s[j].item_id));
    if encode_utf8(s[i].item_id) == encode_utf8(s[j].item_id) {
        utf8_is_injective(s[i].item_id, s[j].item_id);
    }
}

/// Wherever memories have an order, a recall is in that order: given all places in a row, each
/// coming before all behind it, a recall returns the memories at the first of them, as many as the
/// limit allows.
pub proof fn law_recalls_are_in_order(
    s: Seq<MemoryView>,
    order: Seq<usize>,
    limit: nat,
    out: Seq<MemoryView>,
)
    requires
        order.len() == s.len(),
        forall|i: int| 0 <= i < order.len() ==> 0 <= (#[trigger] order[i]) < s.len(),
        forall|k: usize| k < s.len() ==> #[trigger] order.contains(k),
        forall|i: int, j: int|
            #![trigger order[i], order[j]]
            0 <= i < j < order.len() ==> comes_before(s, order[i] as int, order[j] as int),
        s.len() <= usize::MAX,
        is_recall(s, limit, out),
    ensures
        out.len() == if s.len() <= limit {
            s.len()
        } else {
            limit
        },
        forall|i: int| 0 <= i < out.len() ==> #[trigger] out[i] == s[order[i] as int],
{
    let keys = recall_keys(s);
    assert forall|i: int, j: int| 0 <= i < s.len() && 0 <= j < s.len() && ahead(keys, i, j) implies
        order.index_of(i as usize) < order.index_of(j as usize) by {
        assert(order.contains(i as usize) && order.contains(j as usize));
        let a = order.index_of(i as usize);
        let b = order.index_of(j as usize);
        assert(order[a] == i && order[b] == j);
        ahead_is_coming_before(s, i, j);
        ahead_is_coming_before(s, j, i);
        ahead_is_total(keys, i, j);
        if b < a {
            assert(comes_before(s, order[b] as int, order[a] as int));
        }
    }
    assert(consistent(keys)) by {
        reveal(consistent);
        assert forall|i: int, j: int, k: int|
            0 <= i < keys.len() && 0 <= j < keys.len() && 0 <= k < keys.len() && #[trigger] ahead(
                keys,
                i,
                j,
            ) && #[trigger] ahead(keys, j, k) implies ahead(keys, i, k) by {
            assert(order.index_of(i as usize) < order.index_of(k as usize));
            ahead_is_total(keys, i, k);
            if ahead(keys, k, i) {
                assert(order.index_of(k as usize) < order.index_of(i as usize));
            }
        }
    }
    let n = if s.len() <= limit {
        s.len() as int
    } else {
        limit as int
    };
    let first = order.take(n);
    assert forall|i: int, j: int|
        #![trigger first[i], first[j]]
        0 <= i < j < first.len() implies ahead(keys, first[i] as int, first[j] as int) by {
        assert(comes_before(s, order[i] as int, order[j] as int));
        ahead_is_coming_before(s, order[i] as int, order[j] as int);
    }
    assert forall|k: usize| k < keys.len() && !(#[trigger] first.contains(k)) implies first.len()
        == limit && forall|i: int|
        0 <= i < first.len() ==> ahead(keys, (#[trigger] first[i]) as int, k as int) by {
        assert(order.contains(k));
        let at = order.index_of(k);
        assert(order[at] == k);
        if at < n {
            assert(first[at] == k);
        }
        assert forall|i: int| 0 <= i < first.len() implies ahead(
            keys,
            (#[trigger] first[i]) as int,
            k as int,
        ) by {
            assert(comes_before(s, order[i] as int, order[at] as int));
            ahead_is_coming_before(s, order[i] as int, k as int);
        }
    }
    let picks = choose|p: Seq<usize>| #[trigger] is_ranked(keys, limit, p) && out == picked(s, p);
    law_rankings_are_unique(keys, limit, picks, first);
}

/// A score's place among all scores.
fn weigh(bits: u32) -> (r: Option<u64>)
    ensures
        r == score_weight(bits),
{
    if bits < 0x8000_0000 {
        if bits > 0x7f80_0000 {
            None
        } else {
            Some(0x8000_0000 + bits as u64)
        }
    } else {
        let magnitude: u64 = bits as u64 - 0x8000_0000;
        if magnitude > 0x7f80_0000 {
            None
        } else {
            Some(0x8000_0000 - magnitude)
        }
    }
}

/// Ranks memories: descending by score, ties broken on id so identical queries give identical
/// orderings, and then cut.
pub fn rank_memories(memories: &Vec<Memory>, limit: usize) -> (r: Vec<Memory>)
    ensures
        is_recall(memory_views(memories@), limit as nat, memory_views(r@)),
{
    let ghost views = memory_views(memories@);
    let mut keys: Vec<RankKey> = Vec::new();
    let mut i: usize = 0;
    while i < memories.len()
        invariant
            views == memory_views(memories@),
            i <= memories.len(),
            keys@.len() == i,
            forall|j: int| 0 <= j < i ==> (#[trigger] keys@[j])@ == recall_keys(views)[j],
        decreases memories.len() - i,
    {
        let m = &memories[i];
        keys.push(
            RankKey {
                weight: weigh(m.score),
                id: slice_to_vec(m.item_id.as_str().as_bytes()),
            },
        );
        i = i + 1;
    }
    proof {
        assert(key_views(keys@) =~= recall_keys(views));
    }
    let picks = rank(&keys, limit);
    let mut out: Vec<Memory> = Vec::new();
    let mut p: usize = 0;
    while p < picks.len()
        invariant
            views == memory_views(memories@),
            is_ranked(recall_keys(views), limit as nat, picks@),
            p <= picks.len(),
            out@.len() == p,
            forall|j: int| 0 <= j < p ==> (#[trigger] out@[j])@ == views[picks@[j] as int],
        decreases picks.len() - p,
    {
        assert(0 <= picks@[p as int] < recall_keys(views).len());
        out.push(memories[picks[p]].clone());
        p = p + 1;
    }
    proof {
        assert(memory_views(out@) =~= picked(views, picks@));
    }
    out
}

} // verus!
