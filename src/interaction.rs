use vstd::prelude::*;
use crate::pos::{Pos, dist_sq, distance_sq};
use crate::segment::{LineSegment, segments_intersect};
use crate::random::{random_below, random_between};

verus! {

/// A pointer closer than this to an anchor is on that anchor.
pub const HIT_RADIUS: u64 = 10;

/// A node of the graph. Its identity is its index in the anchor list.
#[derive(Clone, Copy, Debug, PartialEq, Eq, Structural)]
pub struct Anchor {
    pub pos: Pos,
}

/// Anchors, the edges between them, and the anchor a drag started from.
pub struct InteractionState {
    pub anchors: Vec<Anchor>,
    pub dragged_anchor: Option<usize>,
    pub edges: Vec<(usize, usize)>,
}

/// The state as mathematical values.
pub struct GraphView {
    pub anchors: Seq<Anchor>,
    pub dragged: Option<usize>,
    pub edges: Seq<(usize, usize)>,
}

/// The pointer at `p` is on anchor `a`.
pub open spec fn hits(a: Anchor, p: Pos) -> bool {
    dist_sq(a.pos, p) < HIT_RADIUS * HIT_RADIUS
}

/// Both ends of `e` are anchors among `n`, and they differ.
pub open spec fn edge_fits(e: (usize, usize), n: int) -> bool {
    e.0 < n && e.1 < n && e.0 != e.1
}

/// Index `v` once the anchor at `index` is gone.
pub open spec fn shifted(v: usize, index: usize) -> usize {
    if v > index {
        (v - 1) as usize
    } else {
        v
    }
}

/// Edge `e` renumbered once the anchor `index` is gone.
pub open spec fn shifted_edge(e: (usize, usize), index: usize) -> (usize, usize) {
    (shifted(e.0, index), shifted(e.1, index))
}

/// Edge `e` has the anchor `index` at one of its ends.
pub open spec fn touches(e: (usize, usize), index: usize) -> bool {
    e.0 == index || e.1 == index
}

/// The edges kept, in order and renumbered, once the anchor `index` is gone.
pub open spec fn edges_after_removal(edges: Seq<(usize, usize)>, index: usize) -> Seq<(usize, usize)>
    decreases edges.len(),
{
    if edges.len() == 0 {
        Seq::empty()
    } else {
        let rest = edges_after_removal(edges.drop_last(), index);
        let e = edges.last();
        if touches(e, index) {
            rest
        } else {
            rest.push(shifted_edge(e, index))
        }
    }
}

/// The anchor other than `first` that `draw` (below the anchor count less one) selects.
pub open spec fn other_index(first: usize, draw: usize) -> usize {
    if draw >= first {
        (draw + 1) as usize
    } else {
        draw
    }
}

/// `base` followed, for each anchor `i` in order, by the edge `(i, partners[i])`
/// unless that edge is a self-loop or already present.
pub open spec fn extend_drawn(base: Seq<(usize, usize)>, partners: Seq<usize>) -> Seq<(usize, usize)>
    decreases partners.len(),
{
    if partners.len() == 0 {
        base
    } else {
        let prev = extend_drawn(base, partners.drop_last());
        let e = ((partners.len() - 1) as usize, partners.last());
        if e.0 != e.1 && !prev.contains(e) {
            prev.push(e)
        } else {
            prev
        }
    }
}

/// The edges that random draws give: first the edge from `first` to the
/// other anchor that `draw` selects, then one candidate edge per anchor.
pub open spec fn drawn_edges(first: usize, draw: usize, partners: Seq<usize>) -> Seq<(usize, usize)> {
    extend_drawn(seq![(first, other_index(first, draw))], partners)
}

/// The draws fit a graph of `n` anchors.
pub open spec fn valid_draws(first: usize, draw: usize, partners: Seq<usize>, n: int) -> bool {
    &&& 2 <= n
    &&& first < n
    &&& draw < n - 1
    &&& partners.len() == n
    &&& forall|k: int| 0 <= k < n ==> #[trigger] partners[k] < n
}

/// `v` moved by `step`, or left where it is when that would leave the `i16` range.
pub open spec fn stepped(v: i16, step: i16) -> i16 {
    if i16::MIN <= v + step <= i16::MAX {
        (v + step) as i16
    } else {
        v
    }
}

impl GraphView {
    /// Every edge joins two distinct existing anchors, no ordered pair occurs
    /// twice, and the dragged anchor exists.
    pub open spec fn wf(self) -> bool {
        &&& forall|k: int| 0 <= k < self.edges.len() ==> edge_fits(#[trigger] self.edges[k], self.anchors.len() as int)
        &&& self.edges.no_duplicates()
        &&& (self.dragged matches Some(d) ==> d < self.anchors.len())
    }

    /// Anchor `i` is hit by `p`, and no anchor before it is.
    pub open spec fn is_first_hit(self, p: Pos, i: int) -> bool {
        &&& 0 <= i < self.anchors.len()
        &&& hits(self.anchors[i], p)
        &&& forall|j: int| 0 <= j < i ==> !hits(#[trigger] self.anchors[j], p)
    }

    /// The lowest index of an anchor hit by `p`, if any.
    pub open spec fn first_hit(self, p: Pos) -> Option<usize> {
        if exists|i: int| self.is_first_hit(p, i) {
            Some((choose|i: int| self.is_first_hit(p, i)) as usize)
        } else {
            None
        }
    }

    /// The segment drawn for the edge `e`.
    pub open spec fn segment(self, e: (usize, usize)) -> LineSegment {
        LineSegment { start: self.anchors[e.0 as int].pos, end: self.anchors[e.1 as int].pos }
    }

    /// Some existing edge crosses `seg`.
    pub open spec fn crosses_any(self, seg: LineSegment) -> bool {
        exists|k: int| 0 <= k < self.edges.len() && segments_intersect(#[trigger] self.segment(self.edges[k]), seg)
    }

    /// Pointer down at `p`: drag the first anchor hit, or place a new anchor.
    pub open spec fn start_drag(self, p: Pos) -> GraphView {
        match self.first_hit(p) {
            Some(i) => GraphView { anchors: self.anchors, dragged: Some(i), edges: self.edges },
            None => GraphView { anchors: self.anchors.push(Anchor { pos: p }), dragged: None, edges: self.edges },
        }
    }

    /// An edge from `f` to `t` may be added: no self-loop, not already
    /// present as this ordered pair, and crossing no existing edge.
    pub open spec fn connectable(self, f: usize, t: usize) -> bool {
        &&& f != t
        &&& !self.edges.contains((f, t))
        &&& !self.crosses_any(self.segment((f, t)))
    }

    /// The edge made by releasing the pointer at `p`, if any.
    pub open spec fn end_drag_result(self, p: Pos) -> Option<(usize, usize)> {
        match (self.dragged, self.first_hit(p)) {
            (Some(f), Some(t)) => if self.connectable(f, t) {
                Some((f, t))
            } else {
                None
            },
            _ => None,
        }
    }

    /// Pointer up at `p`: the drag ends, with or without a new edge.
    pub open spec fn end_drag(self, p: Pos) -> GraphView {
        GraphView {
            anchors: self.anchors,
            dragged: None,
            edges: match self.end_drag_result(p) {
                Some(e) => self.edges.push(e),
                None => self.edges,
            },
        }
    }

    /// The segment from the dragged anchor to `p` crosses an existing edge.
    pub open spec fn dragging_intersecting(self, p: Pos) -> bool {
        match self.dragged {
            Some(i) => self.crosses_any(LineSegment { start: self.anchors[i as int].pos, end: p }),
            None => false,
        }
    }

    /// The graph once anchor `index` is removed: edges touching it are gone,
    /// higher indices move down by one, and a drag of that anchor is dropped.
    pub open spec fn without_anchor(self, index: usize) -> GraphView {
        GraphView {
            anchors: self.anchors.remove(index as int),
            dragged: match self.dragged {
                Some(d) => if d == index {
                    None
                } else {
                    Some(shifted(d, index))
                },
                None => None,
            },
            edges: edges_after_removal(self.edges, index),
        }
    }
}

impl View for InteractionState {
    type V = GraphView;

    open spec fn view(&self) -> GraphView {
        GraphView { anchors: self.anchors@, dragged: self.dragged_anchor, edges: self.edges@ }
    }
}

/// At most one anchor is the first one hit.
pub proof fn lemma_first_hit_unique(s: GraphView, p: Pos, i: int, j: int)
    requires
        s.is_first_hit(p, i),
        s.is_first_hit(p, j),
    ensures
        i == j,
{
    if i < j {
        assert(!hits(s.anchors[i], p));
    } else if j < i {
        assert(!hits(s.anchors[j], p));
    }
}

impl InteractionState {
    /// An empty graph, not dragging.
    pub fn new() -> (r: Self)
        ensures
            r@.wf(),
            r@.anchors.len() == 0,
            r@.edges.len() == 0,
            r@.dragged is None,
    {
        InteractionState { anchors: Vec::new(), dragged_anchor: None, edges: Vec::new() }
    }

    /// A graph of the given anchors and no edges, not dragging.
    pub fn with_anchors(anchors: Vec<Anchor>) -> (r: Self)
        ensures
            r@.wf(),
            r@.anchors == anchors@,
            r@.edges.len() == 0,
            r@.dragged is None,
    {
        InteractionState { anchors, dragged_anchor: None, edges: Vec::new() }
    }

    /// Index of the first anchor hit by `pos`.
    fn find_hit(&self, pos: &Pos) -> (r: Option<usize>)
        ensures
            r == self@.first_hit(*pos),
    {
        let n = self.anchors.len();
        let mut i: usize = 0;
        while i < n
            invariant
                n == self.anchors@.len(),
                i <= n,
                forall|j: int| 0 <= j < i ==> !hits(#[trigger] self.anchors@[j], *pos),
            decreases n - i,
        {
            if distance_sq(&self.anchors[i].pos, pos) < HIT_RADIUS * HIT_RADIUS {
                proof {
                    assert(self@.is_first_hit(*pos, i as int));
                    let c = choose|c: int| self@.is_first_hit(*pos, c);
                    lemma_first_hit_unique(self@, *pos, c, i as int);
                }
                return Some(i);
            }
            i = i + 1;
        }
        None
    }

    /// Pointer down at `pos`. When an anchor is hit, the first one in order
    /// becomes the dragged anchor and its index is returned; otherwise a new
    /// anchor is placed at `pos` and `None` is returned.
    pub fn try_start_drag(&mut self, pos: Pos) -> (r: Option<usize>)
        requires
            old(self)@.wf(),
        ensures
            final(self)@ == old(self)@.start_drag(pos),
            r == old(self)@.first_hit(pos),
            final(self)@.wf(),
    {
        let hit = self.find_hit(&pos);
        if hit.is_none() {
            self.anchors.push(Anchor { pos });
        }
        self.dragged_anchor = hit;
        hit
    }

    /// Whether `e` is already an edge, as this ordered pair.
    fn has_edge(&self, e: (usize, usize)) -> (r: bool)
        ensures
            r == self@.edges.contains(e),
    {
        let n = self.edges.len();
        let mut k: usize = 0;
        while k < n
            invariant
                n == self.edges@.len(),
                k <= n,
                forall|j: int| 0 <= j < k ==> self.edges@[j] != e,
            decreases n - k,
        {
            if self.edges[k].0 == e.0 && self.edges[k].1 == e.1 {
                assert(self.edges@[k as int] == e);
                return true;
            }
            k = k + 1;
        }
        false
    }

    /// Whether some existing edge crosses `seg`.
    fn crosses_existing(&self, seg: &LineSegment) -> (r: bool)
        requires
            self@.wf(),
        ensures
            r == self@.crosses_any(*seg),
    {
        let n = self.edges.len();
        let mut k: usize = 0;
        while k < n
            invariant
                n == self.edges@.len(),
                k <= n,
                self@.wf(),
                forall|j: int| 0 <= j < k ==> !segments_intersect(#[trigger] self@.segment(self.edges@[j]), *seg),
            decreases n - k,
        {
            let (a, b) = self.edges[k];
            assert(edge_fits(self.edges@[k as int], self.anchors@.len() as int));
            let line = LineSegment::new(self.anchors[a].pos, self.anchors[b].pos);
            if line.line_segments_intersect(seg) {
                assert(self@.segment(self.edges@[k as int]) == line);
                return true;
            }
            k = k + 1;
        }
        false
    }

    /// Pointer up at `pos`. The drag ends in every case. An edge from the
    /// dragged anchor to the first anchor hit is added and returned when it is
    /// no self-loop, not already present, and crosses no existing edge.
    pub fn try_end_drag(&mut self, pos: Pos) -> (r: Option<(usize, usize)>)
        requires
            old(self)@.wf(),
        ensures
            final(self)@ == old(self)@.end_drag(pos),
            r == old(self)@.end_drag_result(pos),
            final(self)@.wf(),
    {
        let target = self.find_hit(&pos);
        let mut new_edge: Option<(usize, usize)> = None;
        if let Some(from) = self.dragged_anchor {
            if let Some(to) = target {
                if from != to && !self.has_edge((from, to)) {
                    let new_line = LineSegment::new(self.anchors[from].pos, self.anchors[to].pos);
                    assert(new_line == self@.segment((from, to)));
                    if !self.crosses_existing(&new_line) {
                        self.edges.push((from, to));
                        new_edge = Some((from, to));
                    }
                }
            }
        }
        self.dragged_anchor = None;
        new_edge
    }

    /// Whether the segment from the dragged anchor to `current_pos` crosses an
    /// existing edge; `false` when no drag is under way.
    pub fn is_dragging_intersecting(&self, current_pos: Pos) -> (r: bool)
        requires
            self@.wf(),
        ensures
            r == self@.dragging_intersecting(current_pos),
    {
        match self.dragged_anchor {
            Some(anchor) => {
                let line = LineSegment::new(self.anchors[anchor].pos, current_pos);
                self.crosses_existing(&line)
            },
            None => false,
        }
    }

    /// Removes every edge; anchors and drag are kept.
    pub fn clear_edges(&mut self)
        requires
            old(self)@.wf(),
        ensures
            final(self)@ == (GraphView { edges: Seq::empty(), ..old(self)@ }),
            final(self)@.wf(),
    {
        self.edges.clear();
    }

    /// Replaces the edges by those that the given draws select (see
    /// `drawn_edges`). No crossing test is made here.
    pub fn randomize_edges_with(&mut self, first: usize, draw: usize, partners: &Vec<usize>)
        requires
            old(self)@.wf(),
            valid_draws(first, draw, partners@, old(self)@.anchors.len() as int),
        ensures
            final(self)@ == (GraphView { edges: drawn_edges(first, draw, partners@), ..old(self)@ }),
            final(self)@.edges.len() > 0,
            final(self)@.wf(),
    {
        let n = self.anchors.len();
        let second: usize = if draw >= first {
            draw + 1
        } else {
            draw
        };
        self.edges.clear();
        self.edges.push((first, second));
        let ghost base = self.edges@;
        assert(base == seq![(first, other_index(first, draw))]);
        let mut i: usize = 0;
        while i < n
            invariant
                n == self.anchors@.len(),
                n == partners@.len(),
                valid_draws(first, draw, partners@, n as int),
                i <= n,
                self.anchors@ == old(self)@.anchors,
                self.dragged_anchor == old(self)@.dragged,
                self@.wf(),
                self.edges@ == extend_drawn(base, partners@.take(i as int)),
                self.edges@.len() > 0,
            decreases n - i,
        {
            let j = partners[i];
            proof {
                assert(partners@.take(i + 1).drop_last() == partners@.take(i as int));
            }
            if i != j && !self.has_edge((i, j)) {
                self.edges.push((i, j));
            }
            i = i + 1;
        }
        assert(partners@.take(n as int) == partners@);
    }

    /// Replaces the edges by random ones; a graph of fewer than two anchors is
    /// left as it is. One edge between two distinct anchors is always made,
    /// then each anchor in turn draws one partner, and the edge to it is added
    /// unless it is a self-loop or already present. Crossing edges may result.
    pub fn randomize_edges(&mut self)
        requires
            old(self)@.wf(),
        ensures
            final(self)@.wf(),
            final(self)@.anchors == old(self)@.anchors,
            final(self)@.dragged == old(self)@.dragged,
            old(self)@.anchors.len() < 2 ==> final(self)@ == old(self)@,
            old(self)@.anchors.len() >= 2 ==> final(self)@.edges.len() > 0,
            old(self)@.anchors.len() >= 2 ==> exists|first: usize, draw: usize, partners: Seq<usize>|
                valid_draws(first, draw, partners, old(self)@.anchors.len() as int)
                    && final(self)@.edges == #[trigger] drawn_edges(first, draw, partners),
    {
        let n = self.anchors.len();
        if n < 2 {
            return;
        }
        let first = random_below(n);
        let draw = random_below(n - 1);
        let mut partners: Vec<usize> = Vec::new();
        let mut i: usize = 0;
        while i < n
            invariant
                i <= n,
                partners@.len() == i,
                forall|k: int| 0 <= k < i ==> #[trigger] partners@[k] < n,
            decreases n - i,
        {
            partners.push(random_below(n));
            i = i + 1;
        }
        self.randomize_edges_with(first, draw, &partners);
        assert(valid_draws(first, draw, partners@, n as int));
        assert(self@.edges == drawn_edges(first, draw, partners@));
    }

    /// Removes the anchor at `index` with every edge that touches it; edges
    /// to higher indices are renumbered down by one. A drag of that anchor is
    /// dropped, and a drag of a higher one follows its renumbering. Returns
    /// `false`, changing nothing, when `index` is not an anchor.
    pub fn remove_anchor(&mut self, index: usize) -> (r: bool)
        requires
            old(self)@.wf(),
        ensures
            r == (index < old(self)@.anchors.len()),
            r ==> final(self)@ == old(self)@.without_anchor(index),
            !r ==> final(self)@ == old(self)@,
            final(self)@.wf(),
    {
        if index >= self.anchors.len() {
            return false;
        }
        let ghost old_edges = self.edges@;
        let ghost n = self.anchors@.len() as int;
        let mut kept: Vec<(usize, usize)> = Vec::new();
        let ghost mut src: Seq<int> = Seq::empty();
        let m = self.edges.len();
        let mut k: usize = 0;
        while k < m
            invariant
                m == old_edges.len(),
                self.edges@ == old_edges,
                self@.wf(),
                n == self.anchors@.len(),
                index < n,
                k <= m,
                kept@ == edges_after_removal(old_edges.take(k as int), index),
                src.len() == kept@.len(),
                forall|a: int|
                    0 <= a < kept@.len() ==> {
                        &&& 0 <= #[trigger] src[a] < k
                        &&& !touches(old_edges[src[a]], index)
                        &&& kept@[a] == shifted_edge(old_edges[src[a]], index)
                    },
                forall|a: int| 0 <= a < kept@.len() ==> edge_fits(#[trigger] kept@[a], n - 1),
                kept@.no_duplicates(),
            decreases m - k,
        {
            let (a, b) = self.edges[k];
            proof {
                assert(old_edges.take(k + 1).drop_last() == old_edges.take(k as int));
                assert(edge_fits(old_edges[k as int], n));
            }
            if a != index && b != index {
                let na: usize = if a > index {
                    a - 1
                } else {
                    a
                };
                let nb: usize = if b > index {
                    b - 1
                } else {
                    b
                };
                proof {
                    assert forall|x: int| 0 <= x < kept@.len() implies kept@[x] != (na, nb) by {
                        let sx = src[x];
                        assert(old_edges[sx] != old_edges[k as int]);
                    }
                }
                kept.push((na, nb));
                proof {
                    src = src.push(k as int);
                }
            }
            k = k + 1;
        }
        assert(old_edges.take(m as int) == old_edges);
        self.edges = kept;
        self.anchors.remove(index);
        self.dragged_anchor = match self.dragged_anchor {
            Some(d) => if d == index {
                None
            } else if d > index {
                Some(d - 1)
            } else {
                Some(d)
            },
            None => None,
        };
        true
    }

    /// Whether the edge at position `k` crosses some edge of the graph.
    pub fn is_edge_crossed(&self, k: usize) -> (r: bool)
        requires
            self@.wf(),
            k < self@.edges.len(),
        ensures
            r == self@.crosses_any(self@.segment(self@.edges[k as int])),
    {
        let (a, b) = self.edges[k];
        assert(edge_fits(self.edges@[k as int], self.anchors@.len() as int));
        let line = LineSegment::new(self.anchors[a].pos, self.anchors[b].pos);
        self.crosses_existing(&line)
    }

    /// Moves anchor `k` by `steps[k]` on each axis; a coordinate that would
    /// leave the `i16` range stays where it is. Edges are not checked again.
    pub fn move_anchors_by(&mut self, steps: &Vec<(i16, i16)>)
        requires
            old(self)@.wf(),
            steps@.len() == old(self)@.anchors.len(),
        ensures
            final(self)@.wf(),
            final(self)@.edges == old(self)@.edges,
            final(self)@.dragged == old(self)@.dragged,
            final(self)@.anchors.len() == old(self)@.anchors.len(),
            forall|k: int|
                0 <= k < steps@.len() ==> #[trigger] final(self)@.anchors[k].pos == Pos::new_spec(
                    stepped(old(self)@.anchors[k].pos.x, steps@[k].0),
                    stepped(old(self)@.anchors[k].pos.y, steps@[k].1),
                ),
    {
        let n = self.anchors.len();
        let mut k: usize = 0;
        while k < n
            invariant
                n == self.anchors@.len(),
                n == steps@.len(),
                k <= n,
                self.edges@ == old(self)@.edges,
                self.dragged_anchor == old(self)@.dragged,
                forall|j: int|
                    0 <= j < k ==> #[trigger] self.anchors@[j].pos == Pos::new_spec(
                        stepped(old(self)@.anchors[j].pos.x, steps@[j].0),
                        stepped(old(self)@.anchors[j].pos.y, steps@[j].1),
                    ),
                forall|j: int| k <= j < n ==> #[trigger] self.anchors@[j] == old(self)@.anchors[j],
            decreases n - k,
        {
            let p = self.anchors[k].pos;
            let (sx, sy) = steps[k];
            let x: i16 = if i16::MIN as i32 <= p.x as i32 + sx as i32 && p.x as i32 + sx as i32 <= i16::MAX as i32 {
                p.x + sx
            } else {
                p.x
            };
            let y: i16 = if i16::MIN as i32 <= p.y as i32 + sy as i32 && p.y as i32 + sy as i32 <= i16::MAX as i32 {
                p.y + sy
            } else {
                p.y
            };
            self.anchors.set(k, Anchor { pos: Pos::new(x, y) });
            k = k + 1;
        }
    }

    /// Moves every anchor by a random step of -1, 0 or 1 on each axis (see
    /// `move_anchors_by`).
    pub fn wiggle_anchors(&mut self)
        requires
            old(self)@.wf(),
        ensures
            final(self)@.wf(),
            final(self)@.edges == old(self)@.edges,
            final(self)@.dragged == old(self)@.dragged,
            final(self)@.anchors.len() == old(self)@.anchors.len(),
            forall|k: int|
                0 <= k < old(self)@.anchors.len() ==> {
                    &&& -1 <= #[trigger] final(self)@.anchors[k].pos.x - old(self)@.anchors[k].pos.x <= 1
                    &&& -1 <= final(self)@.anchors[k].pos.y - old(self)@.anchors[k].pos.y <= 1
                },
    {
        let n = self.anchors.len();
        let mut steps: Vec<(i16, i16)> = Vec::new();
        let mut k: usize = 0;
        while k < n
            invariant
                k <= n,
                steps@.len() == k,
                forall|j: int| 0 <= j < k ==> -1 <= (#[trigger] steps@[j]).0 <= 1 && -1 <= steps@[j].1 <= 1,
            decreases n - k,
        {
            let sx = random_between(-1, 2);
            let sy = random_between(-1, 2);
            steps.push((sx, sy));
            k = k + 1;
        }
        self.move_anchors_by(&steps);
        assert forall|k: int| 0 <= k < old(self)@.anchors.len() implies {
            &&& -1 <= #[trigger] self@.anchors[k].pos.x - old(self)@.anchors[k].pos.x <= 1
            &&& -1 <= self@.anchors[k].pos.y - old(self)@.anchors[k].pos.y <= 1
        } by {
            assert(-1 <= steps@[k].0 <= 1);
        }
    }

    /// Number of edges.
    pub fn edge_count(&self) -> (r: usize)
        ensures
            r == self@.edges.len(),
    {
        self.edges.len()
    }

    /// Number of anchors.
    pub fn anchor_count(&self) -> (r: usize)
        ensures
            r == self@.anchors.len(),
    {
        self.anchors.len()
    }
}

} // verus!
