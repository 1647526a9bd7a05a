//! What the rough quadtree promises: the votes, the leaves, the counts, and what a
//! reader of the file finds.
use vstd::prelude::*;
use vstd::utf8::encode_utf8;

use crate::artifact::{all_ids, law_zone_relation_holds_throughout_cell, Output, Rel, Tz, Zone};
use crate::geom::{Aabb, Pt};
use crate::lookup::{
    center_of, child_cell, in_cell, is_cell_at, law_midpoints_exact, lemma_cell_height, quadrant_of,
};
use crate::quant::{ROOT_CELL, Y_MIN};
use crate::resolve::{
    expected, is_first_of_the_smallest, law_answer_is_the_first_of_the_smallest,
    law_answers_combine, law_brute_force_answers, lcg_after, lemma_smallest, no_hole_swallows,
    smallest,
};
use crate::segment::in_box;
use crate::serialize::order::{
    by_key, law_ranks_undo_the_order, lemma_in_order, positions, ranks_in,
};
use crate::serialize::quad::{
    agreements, differs, exact_name, first_difference, folded_point, get_table, is_plottable,
    law_quad_file_reads_back, leaf_keys, leaf_order, quad_outcome, ranked_tree, rough_name,
    rough_tree, SELF_CHECK_SEED,
};
use crate::serialize::quad_code::{coded_value, payload, quad_bytes, too_long};
use crate::serialize::quad_local::{holds_locally, law_local_test_is_exact, rings_numberable};
use crate::serialize::quad_tree::{
    covering, holders, is_answer, law_renumbering_keeps_lookups, leader, leaf_count, leaves_below,
    leaves_with, lemma_rough_leaves, lists_holders, majority, merged, node_count, rough, row_of,
    tree_value, tz_of, unsettled, vote_at, votes_for, zones_numberable, LeafRule, QNode, QMAX_DEPTH,
};
use crate::serialize::qvarint::{q_at_least, Q_MAX};
use crate::serialize::Outcome;
use crate::subdivide::{ids_below, lemma_with_relation};

verus! {

// --- votes ---

proof fn lemma_has_votes(votes: Seq<u64>, t: u64)
    ensures
        votes_for(votes, t) >= 0,
        votes_for(votes, t) > 0 <==> votes.contains(t),
    decreases votes.len(),
{
    if votes.len() > 0 {
        let shorter = votes.drop_last();
        lemma_has_votes(shorter, t);
        if shorter.contains(t) {
            let i = choose|i: int| 0 <= i < shorter.len() && shorter[i] == t;
            assert(votes[i] == t);
        }
        if votes.last() == t {
            assert(votes[votes.len() - 1] == t);
        }
        if votes.contains(t) && votes.last() != t {
            let i = choose|i: int| 0 <= i < votes.len() && votes[i] == t;
            assert(shorter[i] == t);
        }
    }
}

proof fn lemma_leader(votes: Seq<u64>, k: int)
    requires
        1 <= k <= votes.len(),
    ensures
        votes.contains(leader(votes, k)),
        forall|i: int|
            0 <= i < k ==> {
                let (a, b) = (#[trigger] votes[i], leader(votes, k));
                votes_for(votes, a) < votes_for(votes, b) || (votes_for(votes, a) == votes_for(
                    votes,
                    b,
                ) && b <= a)
            },
    decreases k,
{
    if k > 1 {
        lemma_leader(votes, k - 1);
        assert(votes.contains(votes[k - 1]));
    } else {
        assert(votes.contains(votes[0]));
    }
}

/// The winner of a vote got a vote, no timezone got more, and of those that got as
/// many it has the lowest id.
pub proof fn law_winner_leads(votes: Seq<u64>, t: u64)
    requires
        votes.len() > 0,
    ensures
        ({
            let winner = leader(votes, votes.len() as int);
            &&& votes.contains(winner)
            &&& votes_for(votes, t) <= votes_for(votes, winner)
            &&& votes_for(votes, t) == votes_for(votes, winner) ==> winner <= t
        }),
{
    let winner = leader(votes, votes.len() as int);
    lemma_leader(votes, votes.len() as int);
    lemma_has_votes(votes, t);
    lemma_has_votes(votes, winner);
    if votes.contains(t) {
        let i = choose|i: int| 0 <= i < votes.len() && votes[i] == t;
        assert(votes[i] == t);
    }
}

proof fn lemma_holders(
    zones: Seq<Zone>,
    cell: Aabb,
    candidates: Seq<usize>,
    p: Pt,
    k: int,
    z: usize,
)
    requires
        0 <= k <= candidates.len(),
    ensures
        holders(zones, cell, candidates, p, k).contains(z) <==> candidates.take(k).contains(z)
            && holds_locally(zones[z as int], cell, p),
    decreases k,
{
    if k > 0 {
        lemma_holders(zones, cell, candidates, p, k - 1, z);
        let before = holders(zones, cell, candidates, p, k - 1);
        let all = holders(zones, cell, candidates, p, k);
        let (shorter, longer) = (candidates.take(k - 1), candidates.take(k));
        if shorter.contains(z) {
            let i = choose|i: int| 0 <= i < shorter.len() && shorter[i] == z;
            assert(longer[i] == z);
        }
        assert(longer[k - 1] == candidates[k - 1]);
        if longer.contains(z) && candidates[k - 1] != z {
            let i = choose|i: int| 0 <= i < longer.len() && longer[i] == z;
            assert(shorter[i] == z);
        }
        if before.contains(z) {
            let i = choose|i: int| 0 <= i < before.len() && before[i] == z;
            assert(all[i] == z);
        }
        if all.len() > before.len() {
            assert(all[before.len() as int] == candidates[k - 1]);
        }
        if all.contains(z) && candidates[k - 1] != z {
            let i = choose|i: int| 0 <= i < all.len() && all[i] == z;
            assert(before[i] == z);
        }
        if all.contains(z) && candidates[k - 1] == z && all.len() == before.len() {
            assert(before.contains(z));
            assert(shorter.contains(z));
        }
    }
}

/// The zones that a sample finds: those that cover the cell, and the candidates
/// that hold the point.
spec fn found_at(zones: Seq<Zone>, cell: Aabb, ids: Seq<usize>, p: Pt) -> Seq<usize> {
    let candidates = unsettled(ids, zones, cell);
    covering(ids, zones, cell) + holders(zones, cell, candidates, p, candidates.len() as int)
}

proof fn lemma_joined_contains(a: Seq<usize>, b: Seq<usize>, z: usize)
    ensures
        (a + b).contains(z) <==> a.contains(z) || b.contains(z),
{
    let c = a + b;
    if a.contains(z) {
        let i = choose|i: int| 0 <= i < a.len() && a[i] == z;
        assert(c[i] == z);
    }
    if b.contains(z) {
        let i = choose|i: int| 0 <= i < b.len() && b[i] == z;
        assert(c[a.len() + i] == z);
    }
    if c.contains(z) {
        let i = choose|i: int| 0 <= i < c.len() && c[i] == z;
        if i < a.len() {
            assert(a[i] == z);
        } else {
            assert(b[i - a.len()] == z);
        }
    }
}

proof fn lemma_found_at(zones: Seq<Zone>, cell: Aabb, ids: Seq<usize>, p: Pt, z: usize)
    requires
        ids_below(ids, zones.len() as int),
        z < zones.len() ==> zones[z as int].boxes_match() && rings_numberable(zones[z as int])
            && no_hole_swallows(zones[z as int], cell, p),
        lists_holders(zones, ids, p),
        in_box(p, cell),
        in_box(center_of(cell), cell),
    ensures
        found_at(zones, cell, ids, p).contains(z) <==> z < zones.len() && zones[z as int].contains(p),
{
    let candidates = unsettled(ids, zones, cell);
    let cover = covering(ids, zones, cell);
    let held = holders(zones, cell, candidates, p, candidates.len() as int);
    lemma_joined_contains(cover, held, z);
    lemma_with_relation(ids, zones, cell, Rel::Definite, z);
    lemma_with_relation(ids, zones, cell, Rel::Candidate, z);
    lemma_holders(zones, cell, candidates, p, candidates.len() as int, z);
    assert(candidates.take(candidates.len() as int) =~= candidates);
    if z < zones.len() {
        law_zone_relation_holds_throughout_cell(cell, zones[z as int], p);
        law_local_test_is_exact(zones[z as int], cell, p);
        if zones[z as int].contains(p) {
            assert(ids.contains(z));
        }
    } else if ids.contains(z) {
        let i = choose|i: int| 0 <= i < ids.len() && ids[i] == z;
        assert(ids[i] < zones.len());
    }
}

/// A list of just the zones that hold a point gives the answer for the point.
proof fn lemma_answer(zones: Seq<Zone>, found: Seq<usize>, none: u64, p: Pt)
    requires
        zones.len() <= usize::MAX,
        forall|z: usize| #[trigger]
            found.contains(z) <==> z < zones.len() && zones[z as int].contains(p),
    ensures
        is_answer(zones, p, none, tz_of(zones, smallest(zones, found), none)),
{
    let n = zones.len() as int;
    law_answer_is_the_first_of_the_smallest(zones, found);
    assert forall|z: int| 0 <= z < n && (#[trigger] zones[z]).contains(p) implies found.contains(
        z as usize,
    ) by {
        assert(zones[(z as usize) as int] == zones[z]);
    }
    match smallest(zones, found) {
        None => {
            assert forall|z: int| 0 <= z < n implies !(#[trigger] zones[z]).contains(p) by {
                if zones[z].contains(p) {
                    assert(found.contains(z as usize));
                }
            }
        },
        Some(b) => {
            let i = choose|i: int| #[trigger] is_first_of_the_smallest(zones, found, b, i);
            assert(found.contains(b));
            assert forall|z: int| 0 <= z < n && (#[trigger] zones[z]).contains(p) implies zones[
            b as int].a <= zones[z].a by {
                assert(found.contains(z as usize));
                let j = choose|j: int| 0 <= j < found.len() && found[j] == z as usize;
                assert(zones[b as int].a <= zones[found[j] as int].a);
            }
        },
    }
}

/// The vote of a sample point is the timezone of a smallest zone that holds the
/// point, and the vote for no timezone where no zone does.
pub proof fn law_vote_is_the_answer_at_the_sample(
    zones: Seq<Zone>,
    cell: Aabb,
    ids: Seq<usize>,
    none: u64,
    p: Pt,
)
    requires
        forall|i: int| 0 <= i < zones.len() ==> (#[trigger] zones[i]).boxes_match(),
        zones_numberable(zones),
        zones.len() <= usize::MAX,
        ids_below(ids, zones.len() as int),
        lists_holders(zones, ids, p),
        in_box(p, cell),
        in_box(center_of(cell), cell),
        forall|i: int|
            0 <= i < zones.len() ==> no_hole_swallows(#[trigger] zones[i], cell, p),
    ensures
        is_answer(
            zones,
            p,
            none,
            vote_at(
                zones,
                cell,
                unsettled(ids, zones, cell),
                covering(ids, zones, cell),
                none,
                p,
            ),
        ),
{
    let found = found_at(zones, cell, ids, p);
    assert forall|z: usize| #[trigger] found.contains(z) <==> z < zones.len()
        && zones[z as int].contains(p) by {
        lemma_found_at(zones, cell, ids, p, z);
    }
    lemma_answer(zones, found, none, p);
}

/// Of zones of one size a vote goes to one that covers the cell before one that only
/// holds the sample point.
pub proof fn law_covering_zones_win_ties(
    zones: Seq<Zone>,
    cell: Aabb,
    candidates: Seq<usize>,
    cover: Seq<usize>,
    none: u64,
    p: Pt,
    b: usize,
)
    requires
        smallest(zones, cover) == Some(b),
        forall|i: int|
            0 <= i < candidates.len() && holds_locally(zones[(#[trigger] candidates[i]) as int], cell, p)
                ==> zones[b as int].a <= zones[candidates[i] as int].a,
    ensures
        vote_at(zones, cell, candidates, cover, none, p) == zones[b as int].tzid as u64,
{
    let held = holders(zones, cell, candidates, p, candidates.len() as int);
    law_answers_combine(zones, cover, held);
    lemma_smallest(zones, held);
    if let Some(y) = smallest(zones, held) {
        lemma_holders(zones, cell, candidates, p, candidates.len() as int, y);
        assert(candidates.take(candidates.len() as int) =~= candidates);
        let i = choose|i: int| 0 <= i < candidates.len() && candidates[i] == y;
        assert(candidates[i] == y);
    }
}

// --- the tree ---

/// The row is counted from the south in steps of the cell's height.
#[verifier::spinoff_prover]
pub proof fn law_rows_count_from_the_south(cell: Aabb, depth: nat, quadrant: int)
    requires
        depth <= QMAX_DEPTH,
        is_cell_at(cell, depth),
        0 <= quadrant < 4,
        (cell[0][1] - ROOT_CELL[0][1]) % (cell[1][1] - cell[0][1]) == 0,
    ensures
        cell[0][1] == ROOT_CELL[0][1] + row_of(cell) * (cell[1][1] - cell[0][1]),
        row_of(child_cell(cell, quadrant)) == 2 * row_of(cell) + (if quadrant <= 1 {
            1int
        } else {
            0
        }),
        ({
            let child = child_cell(cell, quadrant);
            (child[0][1] - ROOT_CELL[0][1]) % (child[1][1] - child[0][1]) == 0
        }),
{
    law_midpoints_exact(cell, depth, quadrant);
    lemma_cell_height(depth);
    let h = cell[1][1] - cell[0][1];
    let row = row_of(cell);
    let up = cell[0][1] - Y_MIN;
    vstd::arithmetic::div_mod::lemma_fundamental_div_mod(up as int, h as int);
    assert(up == h * row);
    let child = child_cell(cell, quadrant);
    let g = child[1][1] - child[0][1];
    assert(2 * g == h);
    let north = if quadrant <= 1 {
        1int
    } else {
        0
    };
    let climb = child[0][1] - Y_MIN;
    assert(climb == up + north * g);
    assert(h * row == 2 * (g * row)) by (nonlinear_arith)
        requires
            2 * g == h,
    ;
    assert(row * h == h * row) by (nonlinear_arith);
    assert(climb == g * (2 * row + north)) by (nonlinear_arith)
        requires
            climb == up + north * g,
            up == h * row,
            h * row == 2 * (g * row),
    ;
    let r = 2 * row + north;
    assert(climb == r * g + 0) by (nonlinear_arith)
        requires
            climb == g * r,
    ;
    vstd::arithmetic::div_mod::lemma_fundamental_div_mod_converse(
        climb as int,
        g as int,
        r,
        0,
    );
}

/// A merge changes no lookup.
pub proof fn law_merging_keeps_lookups(
    a: QNode,
    b: QNode,
    c: QNode,
    d: QNode,
    cell: Aabb,
    p: Pt,
)
    ensures
        tree_value(merged(a, b, c, d), cell, p) == ({
            let q = quadrant_of(cell, p);
            tree_value(
                if q == 0 {
                    a
                } else if q == 1 {
                    b
                } else if q == 2 {
                    c
                } else {
                    d
                },
                child_cell(cell, q),
                p,
            )
        }),
{
}

/// No inner node has four leaves of one timezone for children.
pub open spec fn is_lean(node: QNode) -> bool
    decreases node,
{
    match node {
        QNode::Leaf(_) => true,
        QNode::Internal(a, b, c, d) => {
            &&& is_lean(*a) && is_lean(*b) && is_lean(*c) && is_lean(*d)
            &&& !(*a is Leaf && *b == *a && *c == *a && *d == *a)
        },
    }
}

/// The rough tree is as small as merging can make it.
pub proof fn law_rough_tree_is_lean(
    zones: Seq<Zone>,
    cell: Aabb,
    depth: nat,
    ids: Seq<usize>,
    rule: LeafRule,
    none: u64,
)
    ensures
        is_lean(rough(zones, cell, depth, ids, rule, none)),
    decreases QMAX_DEPTH - depth,
{
    let candidates = unsettled(ids, zones, cell);
    let next = candidates + covering(ids, zones, cell);
    if candidates.len() > 0 && rule.allows(cell, depth) {
        law_rough_tree_is_lean(zones, child_cell(cell, 0), depth + 1, next, rule, none);
        law_rough_tree_is_lean(zones, child_cell(cell, 1), depth + 1, next, rule, none);
        law_rough_tree_is_lean(zones, child_cell(cell, 2), depth + 1, next, rule, none);
        law_rough_tree_is_lean(zones, child_cell(cell, 3), depth + 1, next, rule, none);
    }
}

/// The cell in which the answer for a point is decided, its depth, and the zones
/// that are listed there: the first cell on the way down that no boundary meets or
/// that is not to be split.
pub open spec fn last_cell(
    zones: Seq<Zone>,
    cell: Aabb,
    depth: nat,
    ids: Seq<usize>,
    rule: LeafRule,
    p: Pt,
) -> (Aabb, nat, Seq<usize>)
    decreases QMAX_DEPTH - depth,
{
    if unsettled(ids, zones, cell).len() > 0 && rule.allows(cell, depth) {
        last_cell(
            zones,
            child_cell(cell, quadrant_of(cell, p)),
            depth + 1,
            unsettled(ids, zones, cell) + covering(ids, zones, cell),
            rule,
            p,
        )
    } else {
        (cell, depth, ids)
    }
}

/// The rough tree answers a point with what its last cell decides: the smallest of
/// the zones that cover the cell where no boundary meets it, and the majority of
/// the cell's samples where one does.  Such a cell is one that is not to be split.
pub proof fn law_last_cell_decides(
    zones: Seq<Zone>,
    cell: Aabb,
    depth: nat,
    ids: Seq<usize>,
    rule: LeafRule,
    none: u64,
    p: Pt,
)
    ensures
        ({
            let (last, level, listed) = last_cell(zones, cell, depth, ids, rule, p);
            let open = unsettled(listed, zones, last);
            let cover = covering(listed, zones, last);
            &&& tree_value(rough(zones, cell, depth, ids, rule, none), cell, p) == (
            if open.len() == 0 {
                tz_of(zones, smallest(zones, cover), none)
            } else {
                majority(zones, last, open, cover, none)
            })
            &&& open.len() > 0 ==> !rule.allows(last, level)
        }),
    decreases QMAX_DEPTH - depth,
{
    let candidates = unsettled(ids, zones, cell);
    let next = candidates + covering(ids, zones, cell);
    if candidates.len() > 0 && rule.allows(cell, depth) {
        let q = quadrant_of(cell, p);
        law_last_cell_decides(zones, child_cell(cell, q), depth + 1, next, rule, none, p);
        law_merging_keeps_lookups(
            rough(zones, child_cell(cell, 0), depth + 1, next, rule, none),
            rough(zones, child_cell(cell, 1), depth + 1, next, rule, none),
            rough(zones, child_cell(cell, 2), depth + 1, next, rule, none),
            rough(zones, child_cell(cell, 3), depth + 1, next, rule, none),
            cell,
            p,
        );
    }
}

/// The leaves of a tree, quadrant after quadrant.
pub open spec fn leaf_list(node: QNode) -> Seq<u64>
    decreases node,
{
    match node {
        QNode::Leaf(t) => seq![t],
        QNode::Internal(a, b, c, d) => leaf_list(*a) + leaf_list(*b) + leaf_list(*c) + leaf_list(
            *d,
        ),
    }
}

proof fn lemma_count_joined(a: Seq<u64>, b: Seq<u64>, t: u64)
    ensures
        (a + b).to_multiset().count(t) == a.to_multiset().count(t) + b.to_multiset().count(t),
{
    vstd::seq_lib::lemma_multiset_commutative(a, b);
}

/// Leaves are counted one by one, those of one timezone and all of them; and a tree
/// has one inner node for every three leaves but the first.
pub proof fn law_every_leaf_counts(node: QNode, t: u64)
    ensures
        leaf_count(node) == leaf_list(node).len(),
        leaves_with(node, t as int) == leaf_list(node).to_multiset().count(t),
        3 * node_count(node) == 4 * leaf_count(node) - 1,
    decreases node,
{
    match node {
        QNode::Leaf(u) => {
            vstd::seq_lib::to_multiset_build(Seq::<u64>::empty(), u);
            assert(Seq::<u64>::empty().push(u) =~= seq![u]);
            assert(Seq::<u64>::empty().to_multiset() =~= vstd::multiset::Multiset::empty()) by {
                broadcast use vstd::seq_lib::group_to_multiset_ensures;

            }
        },
        QNode::Internal(a, b, c, d) => {
            law_every_leaf_counts(*a, t);
            law_every_leaf_counts(*b, t);
            law_every_leaf_counts(*c, t);
            law_every_leaf_counts(*d, t);
            let (x, y, z, w) = (leaf_list(*a), leaf_list(*b), leaf_list(*c), leaf_list(*d));
            lemma_count_joined(x, y, t);
            lemma_count_joined(x + y, z, t);
            lemma_count_joined(x + y + z, w, t);
        },
    }
}

// --- the file ---

/// Some inner node of the tree has a payload of that many bytes.
pub open spec fn has_payload(node: QNode, ocean: u64, n: int) -> bool
    decreases node,
{
    match node {
        QNode::Leaf(_) => false,
        QNode::Internal(a, b, c, d) => {
            ||| has_payload(*a, ocean, n)
            ||| has_payload(*b, ocean, n)
            ||| has_payload(*c, ocean, n)
            ||| has_payload(*d, ocean, n)
            ||| n == quad_bytes(*a, ocean).len() + quad_bytes(*b, ocean).len() + quad_bytes(
                *c,
                ocean,
            ).len() + quad_bytes(*d, ocean).len()
        },
    }
}

/// A tree is refused exactly where a payload has no length code, and the length
/// that is reported is that of such a payload.
pub proof fn law_refused_payload_has_no_code(node: QNode, ocean: u64, n: int)
    ensures
        too_long(node, ocean) matches Some(m) ==> has_payload(node, ocean, m) && q_at_least(m)
            > Q_MAX,
        too_long(node, ocean) is None && has_payload(node, ocean, n) ==> q_at_least(n) <= Q_MAX,
    decreases node,
{
    match node {
        QNode::Leaf(_) => {},
        QNode::Internal(a, b, c, d) => {
            law_refused_payload_has_no_code(*a, ocean, n);
            law_refused_payload_has_no_code(*b, ocean, n);
            law_refused_payload_has_no_code(*c, ocean, n);
            law_refused_payload_has_no_code(*d, ocean, n);
            assert(payload(
                quad_bytes(*a, ocean),
                quad_bytes(*b, ocean),
                quad_bytes(*c, ocean),
                quad_bytes(*d, ocean),
            ).len() == quad_bytes(*a, ocean).len() + quad_bytes(*b, ocean).len() + quad_bytes(
                *c,
                ocean,
            ).len() + quad_bytes(*d, ocean).len());
        },
    }
}

/// A lookup in the file names the timezone that the rough tree gives the point: the
/// value read from the file is the place of that timezone's name in the table
/// behind the tree, or the count of timezones where the rough tree gives none.
pub proof fn law_quad_file_names_the_timezone(out: Output, rule: LeafRule, bytes: Seq<u8>, p: Pt)
    requires
        is_plottable(out),
        quad_outcome(out, rule) == Outcome::Ok(bytes),
    ensures
        ({
            let n = out.tz@.len();
            let t = tree_value(rough_tree(out, rule), ROOT_CELL, p);
            &&& t == n || t < n
            &&& coded_value(bytes, 4, ROOT_CELL, p, n as u64) matches Some(v) && {
                let at = 4int + quad_bytes(ranked_tree(out, rule), n as u64).len();
                &&& get_table(bytes, at) matches Some((names, end)) && {
                    &&& end == bytes.len()
                    &&& names.len() == n
                    &&& t == n ==> v == n
                    &&& t < n ==> v < n && names[v as int] == encode_utf8(out.tz@[t as int].n@)
                }
            }
        }),
{
    let n = out.tz@.len() as int;
    let ocean = n as u64;
    let root = rough_tree(out, rule);
    let order = leaf_order(root, n);
    let t = tree_value(root, ROOT_CELL, p);
    law_quad_file_reads_back(out, rule, p);
    law_renumbering_keeps_lookups(root, ranks_in(order), ocean, ROOT_CELL, p);
    lemma_in_order(by_key(leaf_keys(root, n)), n);
    lemma_rough_leaves(
        out.zones@,
        ROOT_CELL,
        0,
        all_ids(out.zones@.len() as int),
        rule,
        ocean,
        n,
    );
    lemma_value_below(root, n, ocean, ROOT_CELL, p);
    if t < n {
        assert(order.contains(t as int));
        let r = order.index_of(t as int);
        assert(0 <= r < order.len() && order[r] == t);
        assert(ranks_in(order)[t as int] == r);
    }
}

proof fn lemma_value_below(node: QNode, n: int, ocean: u64, cell: Aabb, p: Pt)
    requires
        leaves_below(node, n, ocean),
    ensures
        tree_value(node, cell, p) == ocean || tree_value(node, cell, p) < n,
    decreases node,
{
    match node {
        QNode::Leaf(_) => {},
        QNode::Internal(a, b, c, d) => {
            let q = quadrant_of(cell, p);
            if q == 0 {
                lemma_value_below(*a, n, ocean, child_cell(cell, 0), p);
            } else if q == 1 {
                lemma_value_below(*b, n, ocean, child_cell(cell, 1), p);
            } else if q == 2 {
                lemma_value_below(*c, n, ocean, child_cell(cell, 2), p);
            } else {
                lemma_value_below(*d, n, ocean, child_cell(cell, 3), p);
            }
        },
    }
}

// --- the checks ---

/// The difference that is reported is the first one, and none is reported only
/// where there is none.
pub proof fn law_first_difference_is_reported(
    bytes: Seq<u8>,
    root: QNode,
    ocean: u64,
    n: nat,
    k: nat,
)
    requires
        k < n,
    ensures
        first_difference(bytes, root, ocean, n) is None ==> !differs(bytes, root, ocean, k),
        first_difference(bytes, root, ocean, n) matches Some(j) ==> {
            &&& j < n
            &&& differs(bytes, root, ocean, j)
            &&& k < j ==> !differs(bytes, root, ocean, k)
        },
    decreases n,
{
    let m = (n - 1) as nat;
    if k < m {
        law_first_difference_is_reported(bytes, root, ocean, m, k);
    } else if m > 0 {
        law_first_difference_is_reported(bytes, root, ocean, m, 0);
    }
}

/// The samples among the first `n` on which the rough tree and brute force name the
/// same timezone.
pub open spec fn agreeing_samples(
    out: Output,
    root: QNode,
    order: Seq<usize>,
    ocean: u64,
    n: nat,
) -> Set<int> {
    Set::new(
        |k: int|
            0 <= k < n && rough_name(
                out.tz@,
                root,
                order,
                ocean,
                folded_point(SELF_CHECK_SEED, k as nat),
            ) == exact_name(out.zones@, out.tz@, folded_point(SELF_CHECK_SEED, k as nat)),
    )
}

/// Each sample on which the rough tree and brute force agree counts once.
pub proof fn law_every_agreement_counts(
    out: Output,
    root: QNode,
    order: Seq<usize>,
    ocean: u64,
    n: nat,
)
    ensures
        agreeing_samples(out, root, order, ocean, n).finite(),
        agreements(out, root, order, ocean, n) == agreeing_samples(
            out,
            root,
            order,
            ocean,
            n,
        ).len(),
    decreases n,
{
    let all = agreeing_samples(out, root, order, ocean, n);
    if n == 0 {
        assert(all =~= Set::empty());
    } else {
        let k = (n - 1) as nat;
        law_every_agreement_counts(out, root, order, ocean, k);
        let before = agreeing_samples(out, root, order, ocean, k);
        let p = folded_point(SELF_CHECK_SEED, k);
        if rough_name(out.tz@, root, order, ocean, p) == exact_name(out.zones@, out.tz@, p) {
            assert(all =~= before.insert(k as int));
        } else {
            assert(all =~= before);
        }
    }
}

/// The points of the checks lie in the root cell; each takes as many bits of two
/// states in a row as the root cell is wide and high, from the thirty-third on.
pub proof fn law_folded_points_lie_in_the_root_cell(seed: u64, k: nat)
    ensures
        in_cell(folded_point(seed, k), ROOT_CELL),
        ({
            let p = folded_point(seed, k);
            let sx = lcg_after(seed, 2 * k + 1);
            let sy = lcg_after(seed, 2 * k + 2);
            let (w, h) = (ROOT_CELL[1][0] - ROOT_CELL[0][0], ROOT_CELL[1][1] - ROOT_CELL[0][1]);
            &&& (p[0] - ROOT_CELL[0][0] - sx as int / 0x2_0000_0000) % w == 0
            &&& (p[1] - ROOT_CELL[0][1] - sy as int / 0x2_0000_0000) % h == 0
        }),
{
    let sx = lcg_after(seed, 2 * k + 1) as int / 0x2_0000_0000;
    let sy = lcg_after(seed, 2 * k + 2) as int / 0x2_0000_0000;
    assert(sx == 0x10_0000 * (sx / 0x10_0000) + sx % 0x10_0000);
    assert(sy == 0x8_0000 * (sy / 0x8_0000) + sy % 0x8_0000);
}

/// The rule is its table: a cell is to be split exactly where the table has an
/// entry for its depth and row that says so, and never at the depth of eighteen or
/// below.
pub proof fn law_rule_is_its_table(rule: LeafRule, cell: Aabb, depth: nat)
    ensures
        rule.allows(cell, depth) ==> depth < 18 && depth < rule.rows@.len() && row_of(cell)
            < rule.rows@[depth as int]@.len(),
        depth < 18 && depth < rule.rows@.len() && row_of(cell) < rule.rows@[depth as int]@.len()
            ==> rule.allows(cell, depth) == rule.rows@[depth as int]@[row_of(cell)],
{
}

/// The name that the self check takes from the ranked tree is that of the timezone
/// that the rough tree gives the point, and no name where it gives none.
pub proof fn law_ranked_tree_names_the_timezone(
    out: Output,
    rule: LeafRule,
    order: Seq<usize>,
    p: Pt,
)
    requires
        is_plottable(out),
        positions(order) == leaf_order(rough_tree(out, rule), out.tz@.len() as int),
    ensures
        ({
            let n = out.tz@.len();
            let t = tree_value(rough_tree(out, rule), ROOT_CELL, p);
            rough_name(out.tz@, ranked_tree(out, rule), order, n as u64, p) == (if t == n {
                Seq::<char>::empty()
            } else {
                out.tz@[t as int].n@
            })
        }),
{
    let n = out.tz@.len() as int;
    let ocean = n as u64;
    let root = rough_tree(out, rule);
    let ranked = leaf_order(root, n);
    let t = tree_value(root, ROOT_CELL, p);
    law_renumbering_keeps_lookups(root, ranks_in(ranked), ocean, ROOT_CELL, p);
    lemma_in_order(by_key(leaf_keys(root, n)), n);
    lemma_rough_leaves(
        out.zones@,
        ROOT_CELL,
        0,
        all_ids(out.zones@.len() as int),
        rule,
        ocean,
        n,
    );
    lemma_value_below(root, n, ocean, ROOT_CELL, p);
    if t < n {
        law_ranks_undo_the_order(ranked, t as int);
        let r = ranks_in(ranked)[t as int] as int;
        assert(positions(order)[r] == order[r]);
    }
}

/// The name that brute force gives a point is that of the timezone of a smallest
/// zone that holds it, and no name where no zone does.
pub proof fn law_brute_force_names_the_timezone(zones: Seq<Zone>, tz: Seq<Tz>, p: Pt)
    requires
        zones.len() <= usize::MAX,
    ensures
        (forall|z: int| 0 <= z < zones.len() ==> !(#[trigger] zones[z]).contains(p)) ==> exact_name(
            zones,
            tz,
            p,
        ) == Seq::<char>::empty(),
        (exists|z: int| 0 <= z < zones.len() && (#[trigger] zones[z]).contains(p)) ==> exists|b: int|
            {
                &&& 0 <= b < zones.len()
                &&& (#[trigger] zones[b]).contains(p)
                &&& exact_name(zones, tz, p) == tz[zones[b].tzid as int].n@
                &&& forall|z: int|
                    0 <= z < zones.len() && (#[trigger] zones[z]).contains(p) ==> zones[b].a
                        <= zones[z].a
            },
{
    law_brute_force_answers(zones, p);
    if exists|z: int| 0 <= z < zones.len() && (#[trigger] zones[z]).contains(p) {
        let b = expected(zones, p)->0 as int;
        assert(zones[b].contains(p));
    }
}

} // verus!
