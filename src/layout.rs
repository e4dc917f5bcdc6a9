//! Initial placement of anchors: random candidates inside a rectangle,
//! thinned so that no two kept anchors stand too close.
use vstd::prelude::*;
use crate::pos::{Pos, dist_sq, distance_sq};
use crate::interaction::Anchor;
use crate::random::random_between;

verus! {

/// Smallest distance between two anchors placed at start-up.
pub const MIN_SPACING: u16 = 50;

/// `p` is at least `min` away from every anchor of `kept`.
pub open spec fn clear_of(kept: Seq<Anchor>, p: Pos, min: int) -> bool {
    forall|k: int| 0 <= k < kept.len() ==> dist_sq(#[trigger] kept[k].pos, p) >= min * min
}

/// The candidates taken in order, each kept when it is at least `min` away
/// from every one kept before it.
pub open spec fn spaced(candidates: Seq<Pos>, min: int) -> Seq<Anchor>
    decreases candidates.len(),
{
    if candidates.len() == 0 {
        Seq::empty()
    } else {
        let prev = spaced(candidates.drop_last(), min);
        if clear_of(prev, candidates.last(), min) {
            prev.push(Anchor { pos: candidates.last() })
        } else {
            prev
        }
    }
}

/// `p` lies in the rectangle `[-half_width, half_width) x [-half_height, half_height)`.
pub open spec fn in_rect(p: Pos, half_width: int, half_height: int) -> bool {
    -half_width <= p.x < half_width && -half_height <= p.y < half_height
}

/// Any two anchors that the thinning keeps are at least `min` apart.
pub proof fn lemma_spaced_apart(candidates: Seq<Pos>, min: int)
    ensures
        forall|a: int, b: int|
            0 <= a < b < spaced(candidates, min).len() ==> dist_sq(
                #[trigger] spaced(candidates, min)[a].pos,
                #[trigger] spaced(candidates, min)[b].pos,
            ) >= min * min,
    decreases candidates.len(),
{
    if candidates.len() > 0 {
        let init = candidates.drop_last();
        lemma_spaced_apart(init, min);
        let prev = spaced(init, min);
        let r = spaced(candidates, min);
        assert forall|a: int, b: int| 0 <= a < b < r.len() implies dist_sq(
            #[trigger] r[a].pos,
            #[trigger] r[b].pos,
        ) >= min * min by {
            if b < prev.len() {
                assert(r[a] == prev[a] && r[b] == prev[b]);
            } else {
                assert(r[a] == prev[a]);
                assert(dist_sq(prev[a].pos, candidates.last()) >= min * min);
            }
        }
    }
}

/// Every anchor that the thinning keeps is one of the candidates.
pub proof fn lemma_spaced_from_candidates(candidates: Seq<Pos>, min: int)
    ensures
        forall|a: int|
            0 <= a < spaced(candidates, min).len() ==> candidates.contains(
                #[trigger] spaced(candidates, min)[a].pos,
            ),
    decreases candidates.len(),
{
    if candidates.len() > 0 {
        let init = candidates.drop_last();
        lemma_spaced_from_candidates(init, min);
        let prev = spaced(init, min);
        let r = spaced(candidates, min);
        assert forall|a: int| 0 <= a < r.len() implies candidates.contains(#[trigger] r[a].pos) by {
            if a < prev.len() {
                assert(r[a] == prev[a]);
                let k = choose|k: int| 0 <= k < init.len() && init[k] == prev[a].pos;
                assert(candidates[k] == init[k]);
            } else {
                assert(candidates[candidates.len() - 1] == r[a].pos);
            }
        }
    }
}

/// Whether `p` is at least `min` away from every anchor of `kept`.
fn is_clear_of(kept: &Vec<Anchor>, p: &Pos, min: u16) -> (r: bool)
    ensures
        r == clear_of(kept@, *p, min as int),
{
    proof {
        crate::pos::lemma_mul_bound(min as int, min as int, 0x10000, 0x10000);
    }
    let limit: u64 = min as u64 * min as u64;
    let n = kept.len();
    let mut k: usize = 0;
    while k < n
        invariant
            n == kept@.len(),
            k <= n,
            limit == min * min,
            forall|j: int| 0 <= j < k ==> dist_sq(#[trigger] kept@[j].pos, *p) >= min * min,
        decreases n - k,
    {
        if distance_sq(&kept[k].pos, p) < limit {
            return false;
        }
        k = k + 1;
    }
    true
}

/// Keeps, in order, each candidate that is at least `min` away from every
/// one kept before it.
pub fn spaced_anchors(candidates: &Vec<Pos>, min: u16) -> (r: Vec<Anchor>)
    ensures
        r@ == spaced(candidates@, min as int),
{
    let mut kept: Vec<Anchor> = Vec::new();
    let n = candidates.len();
    let mut i: usize = 0;
    while i < n
        invariant
            n == candidates@.len(),
            i <= n,
            kept@ == spaced(candidates@.take(i as int), min as int),
        decreases n - i,
    {
        let p = candidates[i];
        proof {
            assert(candidates@.take(i + 1).drop_last() == candidates@.take(i as int));
        }
        if is_clear_of(&kept, &p, min) {
            kept.push(Anchor { pos: p });
        }
        i = i + 1;
    }
    assert(candidates@.take(n as int) == candidates@);
    kept
}

/// Draws `count` random candidate points in the rectangle
/// `[-half_width, half_width) x [-half_height, half_height)` and keeps those
/// that `spaced_anchors` keeps, so that any two anchors are at least `min` apart.
pub fn random_anchors(count: usize, half_width: i16, half_height: i16, min: u16) -> (r: Vec<Anchor>)
    requires
        0 < half_width,
        0 < half_height,
    ensures
        r@.len() <= count,
        exists|candidates: Seq<Pos>|
            candidates.len() == count && (forall|k: int|
                0 <= k < count ==> in_rect(#[trigger] candidates[k], half_width as int, half_height as int))
                && r@ == #[trigger] spaced(candidates, min as int),
        forall|a: int| 0 <= a < r@.len() ==> in_rect(#[trigger] r@[a].pos, half_width as int, half_height as int),
        forall|a: int, b: int| 0 <= a < b < r@.len() ==> dist_sq(#[trigger] r@[a].pos, #[trigger] r@[b].pos) >= min * min,
{
    let mut candidates: Vec<Pos> = Vec::new();
    let mut i: usize = 0;
    while i < count
        invariant
            i <= count,
            candidates@.len() == i,
            0 < half_width,
            0 < half_height,
            forall|k: int| 0 <= k < i ==> in_rect(#[trigger] candidates@[k], half_width as int, half_height as int),
        decreases count - i,
    {
        let x = random_between(-half_width, half_width);
        let y = random_between(-half_height, half_height);
        candidates.push(Pos::new(x, y));
        i = i + 1;
    }
    let r = spaced_anchors(&candidates, min);
    proof {
        lemma_spaced_apart(candidates@, min as int);
        lemma_spaced_from_candidates(candidates@, min as int);
        lemma_spaced_len(candidates@, min as int);
        assert forall|a: int| 0 <= a < r@.len() implies in_rect(#[trigger] r@[a].pos, half_width as int, half_height as int) by {
            let k = choose|k: int| 0 <= k < candidates@.len() && candidates@[k] == r@[a].pos;
        }
    }
    r
}

/// The thinning keeps at most as many anchors as there are candidates.
pub proof fn lemma_spaced_len(candidates: Seq<Pos>, min: int)
    ensures
        spaced(candidates, min).len() <= candidates.len(),
    decreases candidates.len(),
{
    if candidates.len() > 0 {
        lemma_spaced_len(candidates.drop_last(), min);
    }
}

} // verus!
