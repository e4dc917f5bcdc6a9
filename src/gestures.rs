//! Properties of gesture sequences and of anchor removal, stated over the
//! mathematical view of the interaction state.
use vstd::prelude::*;
use crate::pos::Pos;
use crate::interaction::{GraphView, edges_after_removal, shifted_edge, touches};

verus! {

/// The first anchor hit depends on the anchors alone.
pub proof fn lemma_first_hit_same_anchors(s: GraphView, t: GraphView, p: Pos)
    requires
        s.anchors == t.anchors,
    ensures
        s.first_hit(p) == t.first_hit(p),
{
    assert(forall|i: int| s.is_first_hit(p, i) == t.is_first_hit(p, i));
}

/// Pointer down on empty space adds exactly one anchor, at that position, and
/// starts no drag; pointer down on an anchor drags the first one hit and adds
/// no anchor.
pub proof fn lemma_start_drag(s: GraphView, p: Pos)
    requires
        s.anchors.len() <= usize::MAX,
    ensures
        s.first_hit(p) is None ==> {
            let t = s.start_drag(p);
            &&& t.anchors.len() == s.anchors.len() + 1
            &&& t.anchors.last().pos == p
            &&& t.anchors.take(s.anchors.len() as int) == s.anchors
            &&& t.dragged is None
        },
        s.first_hit(p) matches Some(i) ==> {
            let t = s.start_drag(p);
            &&& t.anchors == s.anchors
            &&& t.dragged == Some(i)
            &&& s.is_first_hit(p, i as int)
        },
{
    if s.first_hit(p) is None {
        assert(s.anchors.push(crate::interaction::Anchor { pos: p }).take(s.anchors.len() as int) == s.anchors);
    } else {
        let c = choose|c: int| s.is_first_hit(p, c);
        assert(s.is_first_hit(p, c));
    }
}

/// On a graph without edges, dragging from one anchor to another makes
/// exactly that edge; the same gesture once more makes none, and the single
/// edge remains.
pub proof fn lemma_drag_connects_once(s: GraphView, p: Pos, q: Pos)
    requires
        s.wf(),
        s.edges.len() == 0,
        s.first_hit(p) is Some,
        s.first_hit(q) is Some,
        s.first_hit(p) != s.first_hit(q),
    ensures
        ({
            let i = s.first_hit(p).unwrap();
            let j = s.first_hit(q).unwrap();
            let s1 = s.start_drag(p);
            let s2 = s1.end_drag(q);
            let s3 = s2.start_drag(p);
            &&& s1.end_drag_result(q) == Some((i, j))
            &&& s2.edges == seq![(i, j)]
            &&& s3.end_drag_result(q) is None
            &&& s3.end_drag(q).edges == s2.edges
        }),
{
    let i = s.first_hit(p).unwrap();
    let j = s.first_hit(q).unwrap();
    let s1 = s.start_drag(p);
    lemma_first_hit_same_anchors(s, s1, q);
    assert(!s1.edges.contains((i, j)));
    assert(!s1.crosses_any(s1.segment((i, j))));
    assert(s1.end_drag_result(q) == Some((i, j)));
    let s2 = s1.end_drag(q);
    assert(s2.edges == seq![(i, j)]);
    lemma_first_hit_same_anchors(s, s2, p);
    let s3 = s2.start_drag(p);
    lemma_first_hit_same_anchors(s, s3, q);
    assert(s3.edges[0] == (i, j));
    assert(s3.edges.contains((i, j)));
}

/// Releasing a drag on the anchor it started from makes no edge.
pub proof fn lemma_no_self_edge(s: GraphView, p: Pos, q: Pos)
    requires
        s.wf(),
        s.first_hit(p) is Some,
        s.first_hit(q) == s.first_hit(p),
    ensures
        s.start_drag(p).end_drag_result(q) is None,
        s.start_drag(p).end_drag(q).edges == s.edges,
{
    lemma_first_hit_same_anchors(s, s.start_drag(p), q);
}

/// A drag whose segment crosses an existing edge makes no edge, and the
/// edges stay as they were.
pub proof fn lemma_crossing_drag_rejected(s: GraphView, p: Pos, q: Pos)
    requires
        s.wf(),
        s.first_hit(p) is Some,
        s.first_hit(q) is Some,
        s.crosses_any(s.segment((s.first_hit(p).unwrap(), s.first_hit(q).unwrap()))),
    ensures
        s.start_drag(p).end_drag_result(q) is None,
        s.start_drag(p).end_drag(q).edges == s.edges,
{
    let s1 = s.start_drag(p);
    lemma_first_hit_same_anchors(s, s1, q);
    let seg = s.segment((s.first_hit(p).unwrap(), s.first_hit(q).unwrap()));
    let k = choose|k: int| 0 <= k < s.edges.len() && crate::segment::segments_intersect(#[trigger] s.segment(s.edges[k]), seg);
    assert(crate::segment::segments_intersect(s1.segment(s1.edges[k]), seg));
}

/// Removal keeps exactly the edges that do not touch the removed anchor,
/// each renumbered: every such edge survives renumbered, and every surviving
/// edge is such an edge.
pub proof fn lemma_edges_after_removal(edges: Seq<(usize, usize)>, index: usize)
    ensures
        forall|k: int|
            0 <= k < edges.len() && !touches(#[trigger] edges[k], index) ==> edges_after_removal(edges, index).contains(
                shifted_edge(edges[k], index),
            ),
        forall|a: int|
            0 <= a < edges_after_removal(edges, index).len() ==> exists|k: int|
                0 <= k < edges.len() && !touches(edges[k], index) && #[trigger] edges_after_removal(edges, index)[a]
                    == shifted_edge(#[trigger] edges[k], index),
    decreases edges.len(),
{
    if edges.len() > 0 {
        let init = edges.drop_last();
        let rest = edges_after_removal(init, index);
        let r = edges_after_removal(edges, index);
        lemma_edges_after_removal(init, index);
        let e = edges.last();
        assert forall|k: int| 0 <= k < edges.len() && !touches(#[trigger] edges[k], index) implies r.contains(
            shifted_edge(edges[k], index),
        ) by {
            if k < edges.len() - 1 {
                assert(init[k] == edges[k]);
                let x = choose|x: int| 0 <= x < rest.len() && rest[x] == shifted_edge(init[k], index);
                if !touches(e, index) {
                    assert(r[x] == rest[x]);
                }
            } else {
                assert(r[r.len() - 1] == shifted_edge(e, index));
            }
        }
        assert forall|a: int| 0 <= a < r.len() implies exists|k: int|
            0 <= k < edges.len() && !touches(edges[k], index) && #[trigger] r[a] == shifted_edge(
                #[trigger] edges[k],
                index,
            ) by {
            if a < rest.len() {
                let k = choose|k: int|
                    0 <= k < init.len() && !touches(init[k], index) && #[trigger] rest[a] == shifted_edge(
                        #[trigger] init[k],
                        index,
                    );
                assert(edges[k] == init[k]);
                assert(r[a] == rest[a]);
            } else {
                assert(edges[edges.len() - 1] == e);
            }
        }
    }
}

/// Removing an existing anchor leaves one anchor fewer, drops every edge that
/// touches it, and moves every index above it down by exactly one.
pub proof fn lemma_remove_anchor(s: GraphView, index: usize)
    requires
        s.wf(),
        index < s.anchors.len(),
    ensures
        ({
            let t = s.without_anchor(index);
            &&& t.anchors.len() == s.anchors.len() - 1
            &&& forall|a: int| 0 <= a < t.edges.len() ==> exists|k: int|
                0 <= k < s.edges.len() && !touches(s.edges[k], index) && #[trigger] t.edges[a] == shifted_edge(
                    #[trigger] s.edges[k],
                    index,
                )
            &&& forall|k: int| 0 <= k < s.edges.len() && !touches(#[trigger] s.edges[k], index) ==> t.edges.contains(
                shifted_edge(s.edges[k], index),
            )
        }),
{
    lemma_edges_after_removal(s.edges, index);
}

} // verus!
