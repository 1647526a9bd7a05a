//! The rough quadtree: every leaf resolves to exactly one timezone.
use vstd::prelude::*;

use crate::artifact::{classify, law_zone_relation_holds_throughout_cell, Rel, Zone};
use crate::geom::{Aabb, Pt};
use crate::lookup::{
    cell_center, center_of, child_cell, in_cell, is_cell_at, law_midpoints_exact,
    law_quadrant_is_the_only_child, lemma_cell_height, quadrant_for_point, quadrant_of, split_cell,
};
use crate::quant::{ROOT_CELL, Y_MIN};
use crate::resolve::{lemma_smallest, smallest};
use crate::segment::{in_box, is_box};
use crate::serialize::quad_local::{
    build_local, holds_locally, local_contains, records, rings_numberable, Local,
};
use crate::subdivide::{ids_below, lemma_with_relation, lemma_with_relation_ids, with_relation};

verus! {

/// The depth below which no cell is split.
pub const QMAX_DEPTH: usize = 18;

/// Sample points per axis of a leaf cell.
pub const SAMPLES: i64 = 8;

/// A rough quadtree: a leaf holds a timezone id, an inner node its four
/// quadrants.
pub enum QNode {
    Leaf(u64),
    Internal(Box<QNode>, Box<QNode>, Box<QNode>, Box<QNode>),
}

impl QNode {
    /// An inner node.
    pub fn internal(a: QNode, b: QNode, c: QNode, d: QNode) -> (r: QNode)
        ensures
            r == QNode::Internal(Box::new(a), Box::new(b), Box::new(c), Box::new(d)),
    {
        QNode::Internal(Box::new(a), Box::new(b), Box::new(c), Box::new(d))
    }
}

/// Which cells are long enough to be split: `rows[d][r]` speaks of the cells at
/// depth `d` in the `r`-th row from the south.  (Within a row all cells have the
/// same size and latitude.)
pub struct LeafRule {
    pub rows: Vec<Vec<bool>>,
}

/// The row of a cell among those of its size.
pub open spec fn row_of(cell: Aabb) -> int {
    (cell[0][1] - Y_MIN) / (cell[1][1] - cell[0][1])
}

impl LeafRule {
    /// The cell is to be split if it is not homogeneous.
    pub open spec fn allows(&self, cell: Aabb, depth: nat) -> bool {
        &&& depth < QMAX_DEPTH
        &&& depth < self.rows@.len()
        &&& row_of(cell) < self.rows@[depth as int]@.len()
        &&& self.rows@[depth as int]@[row_of(cell)]
    }

    /// Whether the cell is to be split if it is not homogeneous.
    pub fn splits(&self, cell: &Aabb, depth: usize) -> (r: bool)
        requires
            depth <= QMAX_DEPTH,
            is_cell_at(*cell, depth as nat),
        ensures
            r == self.allows(*cell, depth as nat),
    {
        proof {
            lemma_cell_height(depth as nat);
            lemma_row(*cell);
        }
        if depth >= QMAX_DEPTH || depth >= self.rows.len() {
            return false;
        }
        let row = ((cell[0][1] - Y_MIN) / (cell[1][1] - cell[0][1])) as usize;
        row < self.rows[depth].len() && self.rows[depth][row]
    }
}

proof fn lemma_row(cell: Aabb)
    requires
        cell[0][1] >= Y_MIN,
        cell[1][1] > cell[0][1],
    ensures
        0 <= row_of(cell) <= cell[0][1] - Y_MIN,
{
    vstd::arithmetic::div_mod::lemma_div_pos_is_pos(
        cell[0][1] - Y_MIN,
        cell[1][1] - cell[0][1],
    );
    vstd::arithmetic::div_mod::lemma_div_is_ordered_by_denominator(
        cell[0][1] - Y_MIN,
        1,
        cell[1][1] - cell[0][1],
    );
    vstd::arithmetic::div_mod::lemma_div_by_self(1);
    assert((cell[0][1] - Y_MIN) / 1 == cell[0][1] - Y_MIN);
}

/// The timezone of a zone, `none` where there is no zone.
pub open spec fn tz_of(zones: Seq<Zone>, best: Option<usize>, none: u64) -> u64 {
    match best {
        Some(b) => zones[b as int].tzid as u64,
        None => none,
    }
}

/// The smaller of the best so far and another zone.
fn better(zones: &[Zone], best: Option<usize>, z: usize) -> (r: Option<usize>)
    requires
        z < zones@.len(),
        best matches Some(b) ==> b < zones@.len(),
    ensures
        r == match best {
            None => Some(z),
            Some(b) => if zones@[z as int].a < zones@[b as int].a {
                Some(z)
            } else {
                Some(b)
            },
        },
        r matches Some(b) ==> b < zones@.len(),
{
    match best {
        None => Some(z),
        Some(b) => if zones[z].a < zones[b].a {
            Some(z)
        } else {
            Some(b)
        },
    }
}

/// The smallest zone of a list.
fn smallest_of(zones: &[Zone], ids: &[usize]) -> (r: Option<usize>)
    requires
        ids_below(ids@, zones@.len() as int),
    ensures
        r == smallest(zones@, ids@),
        r matches Some(b) ==> b < zones@.len(),
{
    let mut best: Option<usize> = None;
    let mut i: usize = 0;
    while i < ids.len()
        invariant
            0 <= i <= ids@.len(),
            ids_below(ids@, zones@.len() as int),
            best == smallest(zones@, ids@.take(i as int)),
            best matches Some(b) ==> b < zones@.len(),
        decreases ids.len() - i,
    {
        proof {
            let longer = ids@.take(i + 1);
            assert(longer.drop_last() =~= ids@.take(i as int));
            assert(longer.last() == ids@[i as int]);
        }
        best = better(zones, best, ids[i]);
        i += 1;
    }
    proof {
        assert(ids@.take(i as int) =~= ids@);
    }
    best
}

fn tzid_of(zones: &[Zone], best: Option<usize>, none_id: u64) -> (r: u64)
    requires
        best matches Some(b) ==> b < zones@.len(),
    ensures
        r == tz_of(zones@, best, none_id),
{
    match best {
        Some(b) => zones[b].tzid as u64,
        None => none_id,
    }
}

/// The timezone of the smallest zone that covers the cell.
pub fn uniform_tzid(zones: &[Zone], cover: &[usize], none_id: u64) -> (r: u64)
    requires
        ids_below(cover@, zones@.len() as int),
    ensures
        r == tz_of(zones@, smallest(zones@, cover@), none_id),
{
    let best = smallest_of(zones, cover);
    tzid_of(zones, best, none_id)
}

// --- the vote ---

/// How often the timezone occurs among the votes.
pub open spec fn votes_for(votes: Seq<u64>, t: u64) -> int
    decreases votes.len(),
{
    if votes.len() == 0 {
        0
    } else {
        votes_for(votes.drop_last(), t) + if votes.last() == t {
            1int
        } else {
            0
        }
    }
}

/// One timezone beats another: more votes, or as many and the lower id.
pub open spec fn beats(votes: Seq<u64>, a: u64, b: u64) -> bool {
    votes_for(votes, a) > votes_for(votes, b) || (votes_for(votes, a) == votes_for(votes, b) && a
        < b)
}

/// The winner among those that the first `k` votes name.
pub open spec fn leader(votes: Seq<u64>, k: int) -> u64
    decreases k,
{
    if k <= 1 {
        votes[0]
    } else {
        let before = leader(votes, k - 1);
        if beats(votes, votes[k - 1], before) {
            votes[k - 1]
        } else {
            before
        }
    }
}

fn count_votes(votes: &[u64], t: u64) -> (r: usize)
    ensures
        r == votes_for(votes@, t),
{
    let mut n: usize = 0;
    let mut i: usize = 0;
    while i < votes.len()
        invariant
            0 <= i <= votes@.len(),
            n == votes_for(votes@.take(i as int), t),
            n <= i,
        decreases votes.len() - i,
    {
        proof {
            let longer = votes@.take(i + 1);
            assert(longer.drop_last() =~= votes@.take(i as int));
            assert(longer.last() == votes@[i as int]);
        }
        if votes[i] == t {
            n += 1;
        }
        i += 1;
    }
    proof {
        assert(votes@.take(i as int) =~= votes@);
    }
    n
}

/// The timezone with the most votes; of equals the one with the lowest id.
fn elect(votes: &[u64]) -> (r: u64)
    requires
        votes@.len() > 0,
    ensures
        r == leader(votes@, votes@.len() as int),
{
    let mut best = votes[0];
    let mut best_count = count_votes(votes, best);
    let mut i: usize = 1;
    while i < votes.len()
        invariant
            1 <= i <= votes@.len(),
            best == leader(votes@, i as int),
            best_count == votes_for(votes@, best),
        decreases votes.len() - i,
    {
        let t = votes[i];
        if t != best {
            let c = count_votes(votes, t);
            if c > best_count || (c == best_count && t < best) {
                best = t;
                best_count = c;
            }
        }
        i += 1;
    }
    best
}

proof fn lemma_leader(votes: Seq<u64>, k: int, j: int)
    requires
        0 <= j < k <= votes.len(),
    ensures
        !beats(votes, votes[j], leader(votes, k)),
    decreases k,
{
    if k > 1 {
        if j < k - 1 {
            lemma_leader(votes, k - 1, j);
        }
    }
}

proof fn lemma_no_votes(votes: Seq<u64>, t: u64)
    ensures
        votes_for(votes, t) >= 0,
        votes_for(votes, t) > 0 ==> votes.contains(t),
        votes.contains(t) ==> votes_for(votes, t) > 0,
    decreases votes.len(),
{
    if votes.len() > 0 {
        let shorter = votes.drop_last();
        lemma_no_votes(shorter, t);
        assert(votes[votes.len() - 1] == votes.last());
        if shorter.contains(t) {
            let i = choose|i: int| 0 <= i < shorter.len() && shorter[i] == t;
            assert(votes[i] == t);
        }
        if votes.contains(t) && votes.last() != t {
            let i = choose|i: int| 0 <= i < votes.len() && votes[i] == t;
            assert(shorter[i] == t);
        }
    }
}

/// No timezone beats the winner: none has more votes, and none with a lower id
/// has as many.
pub proof fn law_winner_has_the_most_votes(votes: Seq<u64>, t: u64)
    requires
        votes.len() > 0,
    ensures
        !beats(votes, t, leader(votes, votes.len() as int)),
{
    let w = leader(votes, votes.len() as int);
    lemma_no_votes(votes, t);
    lemma_no_votes(votes, w);
    lemma_no_votes(votes, votes[0]);
    lemma_leader(votes, votes.len() as int, 0);
    assert(votes.contains(votes[0]));
    if votes.contains(t) {
        let j = choose|j: int| 0 <= j < votes.len() && votes[j] == t;
        lemma_leader(votes, votes.len() as int, j);
    }
}

/// The `g`-th sample point of a cell: an even grid, row by row.
pub open spec fn grid_point(cell: Aabb, g: int) -> Pt {
    let (gx, gy) = (g % 8, g / 8);
    [
        (cell[0][0] + (cell[1][0] - cell[0][0]) * (2 * gx + 1) / 16) as i64,
        (cell[0][1] + (cell[1][1] - cell[0][1]) * (2 * gy + 1) / 16) as i64,
    ]
}

/// The candidates among the first `k` that hold the point.
pub open spec fn holders(
    zones: Seq<Zone>,
    cell: Aabb,
    candidates: Seq<usize>,
    p: Pt,
    k: int,
) -> Seq<usize>
    decreases k,
{
    if k <= 0 {
        Seq::empty()
    } else {
        let before = holders(zones, cell, candidates, p, k - 1);
        if holds_locally(zones[candidates[k - 1] as int], cell, p) {
            before.push(candidates[k - 1])
        } else {
            before
        }
    }
}

/// The timezone at a point of a cell: that of the smallest zone that covers the
/// cell or is a candidate and holds the point.
pub open spec fn vote_at(
    zones: Seq<Zone>,
    cell: Aabb,
    candidates: Seq<usize>,
    cover: Seq<usize>,
    none: u64,
    p: Pt,
) -> u64 {
    tz_of(
        zones,
        smallest(zones, cover + holders(zones, cell, candidates, p, candidates.len() as int)),
        none,
    )
}

/// The votes of the sample points.
pub open spec fn votes_of(
    zones: Seq<Zone>,
    cell: Aabb,
    candidates: Seq<usize>,
    cover: Seq<usize>,
    none: u64,
) -> Seq<u64> {
    Seq::new(
        64,
        |g: int| vote_at(zones, cell, candidates, cover, none, grid_point(cell, g)),
    )
}

/// The timezone that most sample points vote for.
pub open spec fn majority(
    zones: Seq<Zone>,
    cell: Aabb,
    candidates: Seq<usize>,
    cover: Seq<usize>,
    none: u64,
) -> u64 {
    leader(votes_of(zones, cell, candidates, cover, none), 64)
}

/// The records of the candidates.
spec fn all_recorded(
    locals: Seq<Local>,
    zones: Seq<Zone>,
    cell: Aabb,
    candidates: Seq<usize>,
) -> bool {
    &&& locals.len() == candidates.len()
    &&& forall|k: int|
        0 <= k < locals.len() ==> records(
            #[trigger] locals[k],
            candidates[k],
            zones[candidates[k] as int],
            cell,
        )
}

/// The edges of every ring of every zone can be numbered.
pub open spec fn zones_numberable(zones: Seq<Zone>) -> bool {
    forall|i: int| 0 <= i < zones.len() ==> rings_numberable(#[trigger] zones[i])
}

fn coordinate(lo: i64, hi: i64, g: i64) -> (r: i64)
    requires
        -0x10_0000 <= lo <= hi <= 0x10_0000,
        0 <= g < 8,
    ensures
        r == lo + (hi - lo) * (2 * g + 1) / 16,
{
    proof {
        assert(0 <= (hi - lo) * (2 * g + 1) <= 0x20_0000 * 15) by (nonlinear_arith)
            requires
                -0x10_0000 <= lo <= hi <= 0x10_0000,
                0 <= g < 8,
        ;
    }
    lo + (hi - lo) * (2 * g + 1) / (2 * SAMPLES)
}

fn vote(
    zones: &[Zone],
    cell: &Aabb,
    locals: &[Local],
    covering: Option<usize>,
    none_id: u64,
    point: Pt,
    Ghost(candidates): Ghost<Seq<usize>>,
    Ghost(cover): Ghost<Seq<usize>>,
) -> (r: u64)
    requires
        crate::lookup::has_midpoints(*cell),
        zones_numberable(zones@),
        ids_below(candidates, zones@.len() as int),
        all_recorded(locals@, zones@, *cell, candidates),
        covering == smallest(zones@, cover),
        covering matches Some(b) ==> b < zones@.len(),
    ensures
        r == vote_at(zones@, *cell, candidates, cover, none_id, point),
{
    let center = cell_center(cell);
    let mut best = covering;
    let mut k: usize = 0;
    proof {
        assert(cover + holders(zones@, *cell, candidates, point, 0) =~= cover);
    }
    while k < locals.len()
        invariant
            0 <= k <= locals@.len(),
            center == center_of(*cell),
            zones_numberable(zones@),
            ids_below(candidates, zones@.len() as int),
            all_recorded(locals@, zones@, *cell, candidates),
            best == smallest(
                zones@,
                cover + holders(zones@, *cell, candidates, point, k as int),
            ),
            best matches Some(b) ==> b < zones@.len(),
        decreases locals.len() - k,
    {
        let local = &locals[k];
        proof {
            assert(records(
                locals@[k as int],
                candidates[k as int],
                zones@[candidates[k as int] as int],
                *cell,
            ));
            assert(candidates[k as int] < zones@.len());
            assert(rings_numberable(zones@[local.zi as int]));
        }
        let ghost list = cover + holders(zones@, *cell, candidates, point, k as int);
        if local_contains(local, &zones[local.zi], cell, center, point) {
            best = better(zones, best, local.zi);
            proof {
                let next = cover + holders(zones@, *cell, candidates, point, k + 1);
                assert(next.drop_last() =~= list);
                assert(next.last() == local.zi);
            }
        }
        k += 1;
    }
    tzid_of(zones, best, none_id)
}

/// The timezone that most of a grid of sample points in the cell resolve to.
#[verifier::spinoff_prover]
pub fn majority_tzid(
    zones: &[Zone],
    cell: &Aabb,
    candidates: &[usize],
    cover: &[usize],
    none_id: u64,
) -> (r: u64)
    requires
        is_box(*cell),
        -0x10_0000 <= cell[0][0] && cell[1][0] <= 0x10_0000,
        -0x10_0000 <= cell[0][1] && cell[1][1] <= 0x10_0000,
        zones_numberable(zones@),
        ids_below(candidates@, zones@.len() as int),
        ids_below(cover@, zones@.len() as int),
    ensures
        r == majority(zones@, *cell, candidates@, cover@, none_id),
{
    let center = cell_center(cell);
    let mut locals: Vec<Local> = Vec::with_capacity(candidates.len());
    let mut k: usize = 0;
    while k < candidates.len()
        invariant
            0 <= k <= candidates@.len(),
            is_box(*cell),
            center == center_of(*cell),
            zones_numberable(zones@),
            ids_below(candidates@, zones@.len() as int),
            locals@.len() == k,
            forall|j: int|
                0 <= j < k ==> records(
                    #[trigger] locals@[j],
                    candidates@[j],
                    zones@[candidates@[j] as int],
                    *cell,
                ),
        decreases candidates.len() - k,
    {
        let zi = candidates[k];
        proof {
            assert(rings_numberable(zones@[zi as int]));
        }
        locals.push(build_local(&zones[zi], zi, cell, center));
        k += 1;
    }
    let covering = smallest_of(zones, cover);
    let ghost all = votes_of(zones@, *cell, candidates@, cover@, none_id);
    let mut votes: Vec<u64> = Vec::with_capacity(64);
    let mut g: usize = 0;
    while g < 64
        invariant
            0 <= g <= 64,
            is_box(*cell),
            -0x10_0000 <= cell[0][0] && cell[1][0] <= 0x10_0000,
            -0x10_0000 <= cell[0][1] && cell[1][1] <= 0x10_0000,
            zones_numberable(zones@),
            ids_below(candidates@, zones@.len() as int),
            all_recorded(locals@, zones@, *cell, candidates@),
            covering == smallest(zones@, cover@),
            covering matches Some(b) ==> b < zones@.len(),
            all == votes_of(zones@, *cell, candidates@, cover@, none_id),
            votes@ == all.take(g as int),
        decreases 64 - g,
    {
        let p: Pt = [
            coordinate(cell[0][0], cell[1][0], (g % 8) as i64),
            coordinate(cell[0][1], cell[1][1], (g / 8) as i64),
        ];
        proof {
            lemma_grid_point(*cell, g as int);
            assert(p =~= grid_point(*cell, g as int));
        }
        let v = vote(
            zones,
            cell,
            locals.as_slice(),
            covering,
            none_id,
            p,
            Ghost(candidates@),
            Ghost(cover@),
        );
        votes.push(v);
        proof {
            assert(all.take(g + 1) =~= all.take(g as int).push(v));
        }
        g += 1;
    }
    proof {
        assert(votes@ =~= all);
    }
    elect(votes.as_slice())
}

/// The sample points lie in the cell.
proof fn lemma_grid_coordinate(lo: int, hi: int, g: int)
    requires
        lo <= hi,
        0 <= g < 8,
    ensures
        lo <= lo + (hi - lo) * (2 * g + 1) / 16 <= hi,
        lo < hi ==> lo + (hi - lo) * (2 * g + 1) / 16 < hi,
{
    let w = hi - lo;
    assert(0 <= w * (2 * g + 1) <= 15 * w) by (nonlinear_arith)
        requires
            0 <= w,
            0 <= g < 8,
    ;
}

proof fn lemma_grid_point(cell: Aabb, g: int)
    requires
        is_box(cell),
        0 <= g < 64,
    ensures
        ({
            let (gx, gy) = (g % 8, g / 8);
            &&& cell[0][0] <= cell[0][0] + (cell[1][0] - cell[0][0]) * (2 * gx + 1) / 16
                <= cell[1][0]
            &&& cell[0][1] <= cell[0][1] + (cell[1][1] - cell[0][1]) * (2 * gy + 1) / 16
                <= cell[1][1]
        }),
        in_box(grid_point(cell, g), cell),
{
    lemma_grid_coordinate(cell[0][0] as int, cell[1][0] as int, g % 8);
    lemma_grid_coordinate(cell[0][1] as int, cell[1][1] as int, g / 8);
}

// --- the tree ---

/// An inner node, or a leaf where the four quadrants are equal leaves.
pub open spec fn merged(a: QNode, b: QNode, c: QNode, d: QNode) -> QNode {
    match (a, b, c, d) {
        (QNode::Leaf(x), QNode::Leaf(y), QNode::Leaf(z), QNode::Leaf(w)) => if x == y && y == z
            && z == w {
            QNode::Leaf(x)
        } else {
            QNode::Internal(Box::new(a), Box::new(b), Box::new(c), Box::new(d))
        },
        _ => QNode::Internal(Box::new(a), Box::new(b), Box::new(c), Box::new(d)),
    }
}

/// The zones of a list that may hold some points of the cell and not others.
pub open spec fn unsettled(ids: Seq<usize>, zones: Seq<Zone>, cell: Aabb) -> Seq<usize> {
    with_relation(ids, zones, cell, Rel::Candidate)
}

/// The zones of a list that hold all points of the cell.
pub open spec fn covering(ids: Seq<usize>, zones: Seq<Zone>, cell: Aabb) -> Seq<usize> {
    with_relation(ids, zones, cell, Rel::Definite)
}

/// The rough tree of a cell: a leaf where the cell is homogeneous, four
/// quadrants where it is not and may be split, the majority where it may not.
pub open spec fn rough(
    zones: Seq<Zone>,
    cell: Aabb,
    depth: nat,
    ids: Seq<usize>,
    rule: LeafRule,
    none: u64,
) -> QNode
    decreases QMAX_DEPTH - depth,
{
    let candidates = unsettled(ids, zones, cell);
    let cover = covering(ids, zones, cell);
    if candidates.len() == 0 {
        QNode::Leaf(tz_of(zones, smallest(zones, cover), none))
    } else if rule.allows(cell, depth) {
        let next = candidates + cover;
        merged(
            rough(zones, child_cell(cell, 0), depth + 1, next, rule, none),
            rough(zones, child_cell(cell, 1), depth + 1, next, rule, none),
            rough(zones, child_cell(cell, 2), depth + 1, next, rule, none),
            rough(zones, child_cell(cell, 3), depth + 1, next, rule, none),
        )
    } else {
        QNode::Leaf(majority(zones, cell, candidates, cover, none))
    }
}

fn partition(zones: &[Zone], cell: &Aabb, ids: &[usize]) -> (r: (Vec<usize>, Vec<usize>))
    requires
        is_box(*cell),
        zones_numberable(zones@),
        ids_below(ids@, zones@.len() as int),
    ensures
        r.0@ == unsettled(ids@, zones@, *cell),
        r.1@ == covering(ids@, zones@, *cell),
{
    let mut candidates: Vec<usize> = Vec::new();
    let mut cover: Vec<usize> = Vec::new();
    let mut i: usize = 0;
    while i < ids.len()
        invariant
            0 <= i <= ids@.len(),
            is_box(*cell),
            zones_numberable(zones@),
            ids_below(ids@, zones@.len() as int),
            candidates@ == unsettled(ids@.take(i as int), zones@, *cell),
            cover@ == covering(ids@.take(i as int), zones@, *cell),
        decreases ids.len() - i,
    {
        let zi = ids[i];
        proof {
            let longer = ids@.take(i + 1);
            assert(longer.drop_last() =~= ids@.take(i as int));
            assert(longer.last() == zi);
            assert(rings_numberable(zones@[zi as int]));
        }
        match classify(cell, &zones[zi]) {
            Rel::Disjoint => {},
            Rel::Candidate => {
                candidates.push(zi);
            },
            Rel::Definite => {
                cover.push(zi);
            },
        }
        i += 1;
    }
    proof {
        assert(ids@.take(i as int) =~= ids@);
    }
    (candidates, cover)
}

fn merge(a: QNode, b: QNode, c: QNode, d: QNode) -> (r: QNode)
    ensures
        r == merged(a, b, c, d),
{
    if let (QNode::Leaf(x), QNode::Leaf(y), QNode::Leaf(z), QNode::Leaf(w)) = (&a, &b, &c, &d) {
        if *x == *y && *y == *z && *z == *w {
            return QNode::Leaf(*x);
        }
    }
    QNode::internal(a, b, c, d)
}

/// Both lists in a row.
fn append(first: &[usize], second: &[usize]) -> (r: Vec<usize>)
    ensures
        r@ == first@ + second@,
{
    let mut out: Vec<usize> = Vec::with_capacity(first.len());
    let mut i: usize = 0;
    while i < first.len()
        invariant
            0 <= i <= first@.len(),
            out@ == first@.take(i as int),
        decreases first.len() - i,
    {
        out.push(first[i]);
        proof {
            assert(first@.take(i + 1) =~= first@.take(i as int).push(first@[i as int]));
        }
        i += 1;
    }
    let mut j: usize = 0;
    proof {
        assert(out@ =~= first@ + second@.take(0));
    }
    while j < second.len()
        invariant
            0 <= j <= second@.len(),
            out@ == first@ + second@.take(j as int),
        decreases second.len() - j,
    {
        out.push(second[j]);
        proof {
            assert(second@.take(j + 1) =~= second@.take(j as int).push(second@[j as int]));
            assert(out@ =~= first@ + second@.take(j + 1));
        }
        j += 1;
    }
    proof {
        assert(second@.take(j as int) =~= second@);
    }
    out
}

proof fn lemma_lists_below(ids: Seq<usize>, zones: Seq<Zone>, cell: Aabb)
    requires
        ids_below(ids, zones.len() as int),
    ensures
        ids_below(unsettled(ids, zones, cell), zones.len() as int),
        ids_below(covering(ids, zones, cell), zones.len() as int),
        ids_below(
            unsettled(ids, zones, cell) + covering(ids, zones, cell),
            zones.len() as int,
        ),
{
    lemma_with_relation_ids(ids, zones, cell, Rel::Candidate, zones.len() as int);
    lemma_with_relation_ids(ids, zones, cell, Rel::Definite, zones.len() as int);
}

/// Build the rough tree of a cell from the zones that may overlap it.
pub fn build_node(
    zones: &[Zone],
    cell: &Aabb,
    depth: usize,
    overlapping: &[usize],
    rule: &LeafRule,
    none_id: u64,
) -> (r: QNode)
    requires
        depth <= QMAX_DEPTH,
        is_cell_at(*cell, depth as nat),
        zones_numberable(zones@),
        ids_below(overlapping@, zones@.len() as int),
    ensures
        r == rough(zones@, *cell, depth as nat, overlapping@, *rule, none_id),
    decreases QMAX_DEPTH - depth,
{
    proof {
        lemma_cell_height(depth as nat);
        lemma_lists_below(overlapping@, zones@, *cell);
    }
    let (candidates, cover) = partition(zones, cell, overlapping);
    if candidates.len() == 0 {
        return QNode::Leaf(uniform_tzid(zones, cover.as_slice(), none_id));
    }
    if rule.splits(cell, depth) {
        proof {
            law_midpoints_exact(*cell, depth as nat, 0);
            law_midpoints_exact(*cell, depth as nat, 1);
            law_midpoints_exact(*cell, depth as nat, 2);
            law_midpoints_exact(*cell, depth as nat, 3);
        }
        let next = append(candidates.as_slice(), cover.as_slice());
        let a = build_node(zones, &split_cell(cell, 0), depth + 1, next.as_slice(), rule, none_id);
        let b = build_node(zones, &split_cell(cell, 1), depth + 1, next.as_slice(), rule, none_id);
        let c = build_node(zones, &split_cell(cell, 2), depth + 1, next.as_slice(), rule, none_id);
        let d = build_node(zones, &split_cell(cell, 3), depth + 1, next.as_slice(), rule, none_id);
        merge(a, b, c, d)
    } else {
        QNode::Leaf(
            majority_tzid(zones, cell, candidates.as_slice(), cover.as_slice(), none_id),
        )
    }
}

/// The timezone at a point.
pub open spec fn tree_value(node: QNode, cell: Aabb, p: Pt) -> u64
    decreases node,
{
    match node {
        QNode::Leaf(t) => t,
        QNode::Internal(a, b, c, d) => {
            let q = quadrant_of(cell, p);
            if q == 0 {
                tree_value(*a, child_cell(cell, 0), p)
            } else if q == 1 {
                tree_value(*b, child_cell(cell, 1), p)
            } else if q == 2 {
                tree_value(*c, child_cell(cell, 2), p)
            } else {
                tree_value(*d, child_cell(cell, 3), p)
            }
        },
    }
}

/// A cell within the root cell.
pub open spec fn is_within(cell: Aabb) -> bool {
    &&& ROOT_CELL[0][0] <= cell[0][0] <= cell[1][0] <= ROOT_CELL[1][0]
    &&& ROOT_CELL[0][1] <= cell[0][1] <= cell[1][1] <= ROOT_CELL[1][1]
}

/// Look the point up in the tree of a cell.
pub fn lookup_tree(node: &QNode, cell: &Aabb, point: Pt) -> (r: u64)
    requires
        is_within(*cell),
    ensures
        r == tree_value(*node, *cell, point),
    decreases node,
{
    match node {
        QNode::Leaf(t) => *t,
        QNode::Internal(a, b, c, d) => {
            let q = quadrant_for_point(cell, point);
            let child = split_cell(cell, q);
            if q == 0 {
                lookup_tree(&**a, &child, point)
            } else if q == 1 {
                lookup_tree(&**b, &child, point)
            } else if q == 2 {
                lookup_tree(&**c, &child, point)
            } else {
                lookup_tree(&**d, &child, point)
            }
        },
    }
}

// --- leaves ---

/// The number of nodes.
pub open spec fn node_count(node: QNode) -> int
    decreases node,
{
    match node {
        QNode::Leaf(_) => 1,
        QNode::Internal(a, b, c, d) => 1 + node_count(*a) + node_count(*b) + node_count(*c)
            + node_count(*d),
    }
}

/// The number of leaves.
pub open spec fn leaf_count(node: QNode) -> int
    decreases node,
{
    match node {
        QNode::Leaf(_) => 1,
        QNode::Internal(a, b, c, d) => leaf_count(*a) + leaf_count(*b) + leaf_count(*c)
            + leaf_count(*d),
    }
}

/// The number of leaves with a timezone.
pub open spec fn leaves_with(node: QNode, t: int) -> int
    decreases node,
{
    match node {
        QNode::Leaf(u) => if u == t {
            1
        } else {
            0
        },
        QNode::Internal(a, b, c, d) => leaves_with(*a, t) + leaves_with(*b, t) + leaves_with(*c, t)
            + leaves_with(*d, t),
    }
}

/// Every leaf is ocean or has a timezone below `n`.
pub open spec fn leaves_below(node: QNode, n: int, ocean: u64) -> bool
    decreases node,
{
    match node {
        QNode::Leaf(t) => t == ocean || t < n,
        QNode::Internal(a, b, c, d) => leaves_below(*a, n, ocean) && leaves_below(*b, n, ocean)
            && leaves_below(*c, n, ocean) && leaves_below(*d, n, ocean),
    }
}

/// The tree with its timezones renumbered; ocean stays.
pub open spec fn renumbered(node: QNode, ranks: Seq<u64>, ocean: u64) -> QNode
    decreases node,
{
    match node {
        QNode::Leaf(t) => if t == ocean {
            QNode::Leaf(t)
        } else {
            QNode::Leaf(ranks[t as int])
        },
        QNode::Internal(a, b, c, d) => QNode::Internal(
            Box::new(renumbered(*a, ranks, ocean)),
            Box::new(renumbered(*b, ranks, ocean)),
            Box::new(renumbered(*c, ranks, ocean)),
            Box::new(renumbered(*d, ranks, ocean)),
        ),
    }
}

/// Every leaf is a node, and the leaves of a timezone are leaves.
pub proof fn lemma_counts(node: QNode, t: int)
    ensures
        1 <= leaf_count(node) <= node_count(node),
        0 <= leaves_with(node, t) <= leaf_count(node),
    decreases node,
{
    if let QNode::Internal(a, b, c, d) = node {
        lemma_counts(*a, t);
        lemma_counts(*b, t);
        lemma_counts(*c, t);
        lemma_counts(*d, t);
    }
}

/// The number of nodes and of leaves.
pub fn count(node: &QNode) -> (r: (usize, usize))
    requires
        node_count(*node) <= usize::MAX,
    ensures
        r.0 == node_count(*node),
        r.1 == leaf_count(*node),
    decreases node,
{
    match node {
        QNode::Leaf(_) => (1, 1),
        QNode::Internal(a, b, c, d) => {
            proof {
                lemma_counts(**a, 0);
                lemma_counts(**b, 0);
                lemma_counts(**c, 0);
                lemma_counts(**d, 0);
            }
            let (na, la) = count(&**a);
            let (nb, lb) = count(&**b);
            let (nc, lc) = count(&**c);
            let (nd, ld) = count(&**d);
            (1 + na + nb + nc + nd, la + lb + lc + ld)
        },
    }
}

/// Count the leaves of each timezone; ocean has no table entry.
pub fn count_refs(node: &QNode, refs: &mut Vec<u64>, ocean: u64)
    requires
        leaves_below(*node, old(refs)@.len() as int, ocean),
        ocean >= old(refs)@.len(),
        forall|t: int|
            0 <= t < old(refs)@.len() ==> (#[trigger] old(refs)@[t]) + leaf_count(*node)
                <= u64::MAX,
    ensures
        final(refs)@.len() == old(refs)@.len(),
        forall|t: int|
            0 <= t < old(refs)@.len() ==> (#[trigger] final(refs)@[t]) == old(refs)@[t]
                + leaves_with(*node, t),
    decreases node,
{
    match node {
        QNode::Leaf(t) => {
            let n = refs.len();
            if *t != ocean {
                proof {
                    assert(*t < n);
                }
                let at = *t as usize;
                let c = refs[at];
                refs.set(at, c + 1);
            }
        },
        QNode::Internal(a, b, c, d) => {
            let ghost start = refs@;
            proof {
                lemma_counts(**a, 0);
                lemma_counts(**b, 0);
                lemma_counts(**c, 0);
                lemma_counts(**d, 0);
                assert forall|t: int| 0 <= t < start.len() implies 0 <= #[trigger] leaves_with(
                    **a,
                    t,
                ) <= leaf_count(**a) && 0 <= leaves_with(**b, t) <= leaf_count(**b) && 0
                    <= leaves_with(**c, t) <= leaf_count(**c) by {
                    lemma_counts(**a, t);
                    lemma_counts(**b, t);
                    lemma_counts(**c, t);
                }
            }
            count_refs(&**a, refs, ocean);
            count_refs(&**b, refs, ocean);
            count_refs(&**c, refs, ocean);
            count_refs(&**d, refs, ocean);
        },
    }
}

/// Renumber the timezones of the leaves; ocean stays.
pub fn remap_leaves(node: QNode, ranks: &[u64], ocean: u64) -> (r: QNode)
    requires
        leaves_below(node, ranks@.len() as int, ocean),
    ensures
        r == renumbered(node, ranks@, ocean),
    decreases node,
{
    match node {
        QNode::Leaf(t) => if t == ocean {
            QNode::Leaf(t)
        } else {
            QNode::Leaf(ranks[t as usize])
        },
        QNode::Internal(a, b, c, d) => QNode::internal(
            remap_leaves(*a, ranks, ocean),
            remap_leaves(*b, ranks, ocean),
            remap_leaves(*c, ranks, ocean),
            remap_leaves(*d, ranks, ocean),
        ),
    }
}

/// Renumbering renumbers what a lookup answers.
pub proof fn law_renumbering_keeps_lookups(
    node: QNode,
    ranks: Seq<u64>,
    ocean: u64,
    cell: Aabb,
    p: Pt,
)
    ensures
        tree_value(renumbered(node, ranks, ocean), cell, p) == (if tree_value(node, cell, p)
            == ocean {
            ocean
        } else {
            ranks[tree_value(node, cell, p) as int]
        }),
    decreases node,
{
    if let QNode::Internal(a, b, c, d) = node {
        law_renumbering_keeps_lookups(*a, ranks, ocean, child_cell(cell, 0), p);
        law_renumbering_keeps_lookups(*b, ranks, ocean, child_cell(cell, 1), p);
        law_renumbering_keeps_lookups(*c, ranks, ocean, child_cell(cell, 2), p);
        law_renumbering_keeps_lookups(*d, ranks, ocean, child_cell(cell, 3), p);
    }
}

/// The most leaves of a tree that is `n` levels deep.
pub open spec fn most_leaves(n: nat) -> int
    decreases n,
{
    if n == 0 {
        1
    } else {
        4 * most_leaves((n - 1) as nat)
    }
}

proof fn lemma_most_leaves(n: nat)
    requires
        n <= 18,
    ensures
        1 <= most_leaves(n) <= 0x10_0000_0000,
{
    reveal_with_fuel(most_leaves, 19);
}

/// The leaves of a rough tree can be counted.
pub proof fn lemma_rough_count(
    zones: Seq<Zone>,
    cell: Aabb,
    depth: nat,
    ids: Seq<usize>,
    rule: LeafRule,
    none: u64,
)
    requires
        depth <= QMAX_DEPTH,
    ensures
        leaf_count(rough(zones, cell, depth, ids, rule, none)) <= most_leaves(
            (QMAX_DEPTH - depth) as nat,
        ),
        leaf_count(rough(zones, cell, depth, ids, rule, none)) <= 0x10_0000_0000,
    decreases QMAX_DEPTH - depth,
{
    lemma_most_leaves((QMAX_DEPTH - depth) as nat);
    let candidates = unsettled(ids, zones, cell);
    if candidates.len() > 0 && rule.allows(cell, depth) {
        let next = candidates + covering(ids, zones, cell);
        lemma_rough_count(zones, child_cell(cell, 0), depth + 1, next, rule, none);
        lemma_rough_count(zones, child_cell(cell, 1), depth + 1, next, rule, none);
        lemma_rough_count(zones, child_cell(cell, 2), depth + 1, next, rule, none);
        lemma_rough_count(zones, child_cell(cell, 3), depth + 1, next, rule, none);
    }
}

proof fn lemma_leader_votes(votes: Seq<u64>, k: int)
    requires
        1 <= k <= votes.len(),
    ensures
        exists|j: int| 0 <= j < k && votes[j] == leader(votes, k),
    decreases k,
{
    if k == 1 {
        assert(votes[0] == leader(votes, k));
    } else {
        lemma_leader_votes(votes, k - 1);
        if beats(votes, votes[k - 1], leader(votes, k - 1)) {
            assert(votes[k - 1] == leader(votes, k));
        }
    }
}

proof fn lemma_holders_below(
    zones: Seq<Zone>,
    cell: Aabb,
    candidates: Seq<usize>,
    p: Pt,
    k: int,
)
    requires
        ids_below(candidates, zones.len() as int),
        0 <= k <= candidates.len(),
    ensures
        ids_below(holders(zones, cell, candidates, p, k), zones.len() as int),
    decreases k,
{
    if k > 0 {
        lemma_holders_below(zones, cell, candidates, p, k - 1);
        assert(candidates[k - 1] < zones.len());
    }
}

proof fn lemma_tz_below(zones: Seq<Zone>, ids: Seq<usize>, none: u64, n: int)
    requires
        ids_below(ids, zones.len() as int),
        forall|i: int| 0 <= i < zones.len() ==> (#[trigger] zones[i]).tzid < n,
    ensures
        ({
            let t = tz_of(zones, smallest(zones, ids), none);
            t == none || t < n
        }),
{
    lemma_smallest(zones, ids);
    if let Some(b) = smallest(zones, ids) {
        let i = choose|i: int| 0 <= i < ids.len() && ids[i] == b;
        assert(ids[i] < zones.len());
        assert(zones[b as int].tzid < n);
    }
}

/// The leaves of a rough tree hold timezones of the zones.
pub proof fn lemma_rough_leaves(
    zones: Seq<Zone>,
    cell: Aabb,
    depth: nat,
    ids: Seq<usize>,
    rule: LeafRule,
    none: u64,
    n: int,
)
    requires
        ids_below(ids, zones.len() as int),
        forall|i: int| 0 <= i < zones.len() ==> (#[trigger] zones[i]).tzid < n,
    ensures
        leaves_below(rough(zones, cell, depth, ids, rule, none), n, none),
    decreases QMAX_DEPTH - depth,
{
    let candidates = unsettled(ids, zones, cell);
    let cover = covering(ids, zones, cell);
    lemma_lists_below(ids, zones, cell);
    if candidates.len() == 0 {
        lemma_tz_below(zones, cover, none, n);
    } else if rule.allows(cell, depth) {
        let next = candidates + cover;
        lemma_rough_leaves(zones, child_cell(cell, 0), depth + 1, next, rule, none, n);
        lemma_rough_leaves(zones, child_cell(cell, 1), depth + 1, next, rule, none, n);
        lemma_rough_leaves(zones, child_cell(cell, 2), depth + 1, next, rule, none, n);
        lemma_rough_leaves(zones, child_cell(cell, 3), depth + 1, next, rule, none, n);
    } else {
        let votes = votes_of(zones, cell, candidates, cover, none);
        lemma_leader_votes(votes, 64);
        let j = choose|j: int| 0 <= j < 64 && votes[j] == leader(votes, 64);
        let p = grid_point(cell, j);
        lemma_holders_below(zones, cell, candidates, p, candidates.len() as int);
        let list = cover + holders(zones, cell, candidates, p, candidates.len() as int);
        assert(ids_below(list, zones.len() as int));
        lemma_tz_below(zones, list, none, n);
    }
}

// --- homogeneous cells ---

/// The descent for the point ends in a homogeneous cell.
pub open spec fn is_settled_at(
    zones: Seq<Zone>,
    cell: Aabb,
    depth: nat,
    ids: Seq<usize>,
    rule: LeafRule,
    p: Pt,
) -> bool
    decreases QMAX_DEPTH - depth,
{
    let candidates = unsettled(ids, zones, cell);
    if candidates.len() == 0 {
        true
    } else if rule.allows(cell, depth) {
        is_settled_at(
            zones,
            child_cell(cell, quadrant_of(cell, p)),
            depth + 1,
            candidates + covering(ids, zones, cell),
            rule,
            p,
        )
    } else {
        false
    }
}

/// The timezone is that of a smallest zone that holds the point, `none` if no
/// zone does.
pub open spec fn is_answer(zones: Seq<Zone>, p: Pt, none: u64, t: u64) -> bool {
    if exists|z: int| 0 <= z < zones.len() && (#[trigger] zones[z]).contains(p) {
        exists|b: int|
            {
                &&& 0 <= b < zones.len()
                &&& (#[trigger] zones[b]).contains(p)
                &&& zones[b].tzid as u64 == t
                &&& forall|z: int|
                    0 <= z < zones.len() && (#[trigger] zones[z]).contains(p) ==> zones[b].a
                        <= zones[z].a
            }
    } else {
        t == none
    }
}

/// Every zone that holds the point is listed.
pub open spec fn lists_holders(zones: Seq<Zone>, ids: Seq<usize>, p: Pt) -> bool {
    forall|z: usize|
        #![trigger ids.contains(z)]
        z < zones.len() && zones[z as int].contains(p) ==> ids.contains(z)
}

proof fn lemma_settled_leaf(zones: Seq<Zone>, cell: Aabb, ids: Seq<usize>, none: u64, p: Pt)
    requires
        forall|i: int| 0 <= i < zones.len() ==> (#[trigger] zones[i]).boxes_match(),
        zones.len() <= usize::MAX,
        ids_below(ids, zones.len() as int),
        lists_holders(zones, ids, p),
        in_box(p, cell),
        unsettled(ids, zones, cell).len() == 0,
    ensures
        is_answer(zones, p, none, tz_of(zones, smallest(zones, covering(ids, zones, cell)), none)),
{
    let cover = covering(ids, zones, cell);
    lemma_lists_below(ids, zones, cell);
    lemma_smallest(zones, cover);
    let n = zones.len() as int;
    assert forall|z: int| 0 <= z < n implies cover.contains(z as usize) == (#[trigger] zones[z]).contains(
        p,
    ) by {
        lemma_with_relation(ids, zones, cell, Rel::Definite, z as usize);
        lemma_with_relation(ids, zones, cell, Rel::Candidate, z as usize);
        law_zone_relation_holds_throughout_cell(cell, zones[z], p);
        if zones[z].contains(p) {
            assert(ids.contains(z as usize));
        }
    }
    match smallest(zones, cover) {
        None => {
            assert forall|z: int| 0 <= z < n implies !(#[trigger] zones[z]).contains(p) by {
                if zones[z].contains(p) {
                    assert(cover.contains(z as usize));
                }
            }
        },
        Some(b) => {
            let i = choose|i: int| 0 <= i < cover.len() && cover[i] == b;
            assert(cover[i] < n);
            assert(zones[b as int].contains(p));
            assert forall|z: int|
                0 <= z < n && (#[trigger] zones[z]).contains(p) implies zones[b as int].a
                <= zones[z].a by {
                assert(cover.contains(z as usize));
                let j = choose|j: int| 0 <= j < cover.len() && cover[j] == z as usize;
                assert(zones[b as int].a <= zones[cover[j] as int].a);
            }
        },
    }
}

/// Where the descent for a point ends in a homogeneous cell, the rough tree
/// answers exactly.
pub proof fn law_homogeneous_cells_are_exact(
    zones: Seq<Zone>,
    cell: Aabb,
    depth: nat,
    ids: Seq<usize>,
    rule: LeafRule,
    none: u64,
    p: Pt,
)
    requires
        forall|i: int| 0 <= i < zones.len() ==> (#[trigger] zones[i]).boxes_match(),
        zones.len() <= usize::MAX,
        ids_below(ids, zones.len() as int),
        lists_holders(zones, ids, p),
        depth <= QMAX_DEPTH,
        is_cell_at(cell, depth),
        in_cell(p, cell),
        is_settled_at(zones, cell, depth, ids, rule, p),
    ensures
        is_answer(
            zones,
            p,
            none,
            tree_value(rough(zones, cell, depth, ids, rule, none), cell, p),
        ),
    decreases QMAX_DEPTH - depth,
{
    let candidates = unsettled(ids, zones, cell);
    let cover = covering(ids, zones, cell);
    if candidates.len() == 0 {
        lemma_settled_leaf(zones, cell, ids, none, p);
    } else {
        let next = candidates + cover;
        let q = quadrant_of(cell, p);
        law_midpoints_exact(cell, depth, q);
        law_quadrant_is_the_only_child(cell, p, q);
        lemma_cell_height(depth);
        lemma_lists_below(ids, zones, cell);
        assert(lists_holders(zones, next, p)) by {
            assert forall|z: usize|
                #![trigger next.contains(z)]
                z < zones.len() && zones[z as int].contains(p) implies next.contains(z) by {
                assert(ids.contains(z));
                assert(zones[z as int].boxes_match());
                law_zone_relation_holds_throughout_cell(cell, zones[z as int], p);
                lemma_with_relation(ids, zones, cell, Rel::Definite, z);
                lemma_with_relation(ids, zones, cell, Rel::Candidate, z);
                if candidates.contains(z) {
                    let i = choose|i: int| 0 <= i < candidates.len() && candidates[i] == z;
                    assert(next[i] == z);
                } else {
                    let i = choose|i: int| 0 <= i < cover.len() && cover[i] == z;
                    assert(next[candidates.len() + i] == z);
                }
            }
        }
        law_homogeneous_cells_are_exact(
            zones,
            child_cell(cell, q),
            depth + 1,
            next,
            rule,
            none,
            p,
        );
    }
}

/// The point lies in column `c` and row `r` of the cell cut into eight columns
/// and eight rows of equal size.
pub open spec fn in_part(p: Pt, cell: Aabb, c: int, r: int) -> bool {
    let (w, h) = (cell[1][0] - cell[0][0], cell[1][1] - cell[0][1]);
    &&& c * w <= 8 * (p[0] - cell[0][0]) < (c + 1) * w
    &&& r * h <= 8 * (p[1] - cell[0][1]) < (r + 1) * h
}

/// The point is the centre of column `c` and row `r` of the cell, rounded down.
pub open spec fn is_part_center(p: Pt, cell: Aabb, c: int, r: int) -> bool {
    let (w, h) = (cell[1][0] - cell[0][0], cell[1][1] - cell[0][1]);
    &&& 16 * (p[0] - cell[0][0]) <= (2 * c + 1) * w < 16 * (p[0] - cell[0][0]) + 16
    &&& 16 * (p[1] - cell[0][1]) <= (2 * r + 1) * h < 16 * (p[1] - cell[0][1]) + 16
}

proof fn lemma_part(lo: int, hi: int, g: int)
    requires
        lo <= hi,
        0 <= g < 8,
    ensures
        ({
            let w = hi - lo;
            let x = (hi - lo) * (2 * g + 1) / 16;
            &&& 16 * x <= (2 * g + 1) * w < 16 * x + 16
            &&& w > 0 && w % 8 == 0 ==> g * w <= 8 * x < (g + 1) * w
        }),
{
    let w = hi - lo;
    let x = (hi - lo) * (2 * g + 1) / 16;
    assert(w * (2 * g + 1) == (2 * g + 1) * w) by (nonlinear_arith);
    assert((2 * g + 1) * w == 2 * (g * w) + w) by (nonlinear_arith);
    assert((g + 1) * w == g * w + w) by (nonlinear_arith);
    if w > 0 && w % 8 == 0 {
        let m = w / 8;
        assert(w == 8 * m);
        assert(g * w == 8 * (g * m)) by (nonlinear_arith)
            requires
                w == 8 * m,
        ;
        assert(16 * x + 16 > 16 * (g * m) + 8 * m);
        assert(x >= g * m);
    }
}

/// The column and row of the `g`-th sample point.
proof fn lemma_grid_parts(cell: Aabb, g: int)
    requires
        is_box(cell),
        0 <= g < 64,
    ensures
        is_part_center(grid_point(cell, g), cell, g % 8, g / 8),
        cell[0][0] < cell[1][0] && cell[0][1] < cell[1][1] && (cell[1][0] - cell[0][0]) % 8 == 0
            && (cell[1][1] - cell[0][1]) % 8 == 0 ==> in_part(
            grid_point(cell, g),
            cell,
            g % 8,
            g / 8,
        ),
{
    lemma_grid_point(cell, g);
    lemma_part(cell[0][0] as int, cell[1][0] as int, g % 8);
    lemma_part(cell[0][1] as int, cell[1][1] as int, g / 8);
}

/// The sample points are spread evenly over the cell: for each of its eight
/// columns and eight rows there is one at the centre, and no other.  Where the
/// sides can be cut into eight, each of the 64 parts holds exactly one.
pub proof fn law_samples_cover_the_cell(cell: Aabb, c: int, r: int)
    requires
        is_box(cell),
        0 <= c < 8,
        0 <= r < 8,
    ensures
        exists|g: int|
            0 <= g < 64 && is_part_center(#[trigger] grid_point(cell, g), cell, c, r),
        cell[0][0] < cell[1][0] && cell[0][1] < cell[1][1] && (cell[1][0] - cell[0][0]) % 8 == 0
            && (cell[1][1] - cell[0][1]) % 8 == 0 ==> {
            &&& exists|g: int| 0 <= g < 64 && in_part(#[trigger] grid_point(cell, g), cell, c, r)
            &&& forall|g: int, k: int|
                0 <= g < 64 && 0 <= k < 64 && in_part(#[trigger] grid_point(cell, g), cell, c, r)
                    && in_part(#[trigger] grid_point(cell, k), cell, c, r) ==> g == k
        },
{
    let at = 8 * r + c;
    assert(at % 8 == c && at / 8 == r);
    lemma_grid_parts(cell, at);
    assert(is_part_center(grid_point(cell, at), cell, c, r));
    let (w, h) = (cell[1][0] - cell[0][0], cell[1][1] - cell[0][1]);
    if w > 0 && h > 0 && w % 8 == 0 && h % 8 == 0 {
        assert(in_part(grid_point(cell, at), cell, c, r));
        assert forall|g: int| 0 <= g < 64 && in_part(#[trigger] grid_point(cell, g), cell, c, r)
            implies g == at by {
            lemma_grid_parts(cell, g);
            lemma_one_part(8 * (grid_point(cell, g)[0] - cell[0][0]), w, c, g % 8);
            lemma_one_part(8 * (grid_point(cell, g)[1] - cell[0][1]), h, r, g / 8);
        }
    }
}

proof fn lemma_one_part(x: int, w: int, a: int, b: int)
    requires
        w > 0,
        a * w <= x < (a + 1) * w,
        b * w <= x < (b + 1) * w,
    ensures
        a == b,
{
    assert(a == b) by (nonlinear_arith)
        requires
            w > 0,
            a * w <= x < (a + 1) * w,
            b * w <= x < (b + 1) * w,
    ;
}

/// The sample points of a cell of at least eight units a side are all different.
pub proof fn law_samples_are_distinct(cell: Aabb, g: int, k: int)
    requires
        is_box(cell),
        cell[1][0] - cell[0][0] >= 8,
        cell[1][1] - cell[0][1] >= 8,
        0 <= g < k < 64,
    ensures
        grid_point(cell, g) != grid_point(cell, k),
{
    lemma_grid_parts(cell, g);
    lemma_grid_parts(cell, k);
    let (p, q) = (grid_point(cell, g), grid_point(cell, k));
    let (w, h) = (cell[1][0] - cell[0][0], cell[1][1] - cell[0][1]);
    if p == q {
        lemma_same_center(16 * (p[0] - cell[0][0]), w, g % 8, k % 8);
        lemma_same_center(16 * (p[1] - cell[0][1]), h, g / 8, k / 8);
    }
}

proof fn lemma_same_center(x: int, w: int, a: int, b: int)
    requires
        w >= 8,
        x <= (2 * a + 1) * w < x + 16,
        x <= (2 * b + 1) * w < x + 16,
    ensures
        a == b,
{
    assert(a == b) by (nonlinear_arith)
        requires
            w >= 8,
            x <= (2 * a + 1) * w < x + 16,
            x <= (2 * b + 1) * w < x + 16,
    ;
}

/// The votes for a timezone are counted one by one.
pub proof fn law_every_vote_counts(votes: Seq<u64>, t: u64)
    ensures
        Set::new(|g: int| 0 <= g < votes.len() && votes[g] == t).finite(),
        votes_for(votes, t) == Set::new(|g: int| 0 <= g < votes.len() && votes[g] == t).len(),
    decreases votes.len(),
{
    let all = Set::new(|g: int| 0 <= g < votes.len() && votes[g] == t);
    if votes.len() == 0 {
        assert(all =~= Set::empty());
    } else {
        let shorter = votes.drop_last();
        let before = Set::new(|g: int| 0 <= g < shorter.len() && shorter[g] == t);
        law_every_vote_counts(shorter, t);
        let last = votes.len() - 1;
        if votes.last() == t {
            assert(all =~= before.insert(last));
            assert(!before.contains(last));
        } else {
            assert(all =~= before);
        }
    }
}

} // verus!
