//! The quadtree-only binary format: no polygon geometry, every leaf resolves to
//! exactly one timezone.
//!
//! ```text
//!   magic   "TZQ3"
//!   section 1: the quadtree, one recursive node
//!   section 2: the timezone table
//!       count:q, then count x ( nameLen:q, name:UTF-8 bytes ), indexed by tzid
//! ```
//!
//! Open ocean is the single most common leaf value, so it has a code of its own
//! in place of a table slot.  The other timezones are sorted by descending
//! reference count, so that the most used one gets id 0.
use vstd::prelude::*;
use vstd::string::{StrSliceExecFns, StringExecFns};
use vstd::utf8::encode_utf8;

use crate::artifact::{all_ids, Output, Tz, Zone};
use crate::geom::{Aabb, Pt};
use crate::lookup::lemma_root_cell;
use crate::quant::{ROOT_CELL, X_MIN, Y_MIN};
use crate::resolve::{expected, lcg_after, lcg_next, Lcg};
use crate::serialize::order::{
    by_key, in_order, lemma_in_order, lemma_lower_key_ranks_lower, lemma_ranks_in, positions,
    rank_table, ranks_in, sort_by_key,
};
use crate::serialize::quad_code::{
    coded_value, encode_node, law_coded_tree_answers_alike, leaves_exact, lookup_encoded,
    quad_bytes, too_long, too_long_text,
};
use crate::serialize::quad_local::rings_numberable;
use crate::serialize::quad_tree::{
    build_node, count_refs, leaf_count, leaves_below, leaves_with, lemma_counts, lemma_rough_count,
    lemma_rough_leaves, lookup_tree, remap_leaves, renumbered, rough, tree_value, zones_numberable,
    LeafRule, QNode,
};
use crate::serialize::qvarint::{
    get_q, is_q, law_q_round_trip, q_bytes, representable, write_q, Q_MAX,
};
use crate::serialize::stream::{holds_at, lemma_holds_in_middle, lemma_holds_two, push_bytes};
use crate::serialize::text::{decimal, decimal_text, signed_decimal, signed_text};
use crate::serialize::tree::prepend;
use crate::serialize::{Outcome, Serializer};
use crate::subdivide::ids_below;

verus! {

/// The seed of the round-trip check's sample points.
pub const ROUND_TRIP_SEED: u64 = 0x9E3779B97F4A7C15;

/// How many points the round-trip check samples.
pub const ROUND_TRIP_SAMPLES: usize = 2000;

/// The seed of the self-check's sample points.
pub const SELF_CHECK_SEED: u64 = 0xD1B54A32D192ED03;

/// The `k`-th sample point of a check: the high bits of two successive states,
/// folded into the root cell.
pub open spec fn folded_point(seed: u64, k: nat) -> Pt {
    let sx = lcg_after(seed, 2 * k + 1);
    let sy = lcg_after(seed, 2 * k + 2);
    [
        (X_MIN + (sx / 0x2_0000_0000) % 0x10_0000) as i64,
        (Y_MIN + (sy / 0x2_0000_0000) % 0x8_0000) as i64,
    ]
}

/// The next sample point.
fn next_folded(rng: &mut Lcg, Ghost(seed): Ghost<u64>, Ghost(k): Ghost<nat>) -> (r: Pt)
    requires
        old(rng).state == lcg_after(seed, 2 * k),
    ensures
        r == folded_point(seed, k),
        final(rng).state == lcg_after(seed, 2 * (k + 1)),
{
    let sx = rng.next();
    let sy = rng.next();
    let p = [
        X_MIN + ((sx / 0x2_0000_0000) % 0x10_0000) as i64,
        Y_MIN + ((sy / 0x2_0000_0000) % 0x8_0000) as i64,
    ];
    proof {
        assert(lcg_after(seed, 2 * k + 1) == lcg_next(lcg_after(seed, 2 * k)));
        assert(lcg_after(seed, 2 * k + 2) == lcg_next(lcg_after(seed, 2 * k + 1)));
        assert(p =~= folded_point(seed, k));
    }
    p
}

/// The coded tree and the tree answer differently at the `k`-th sample point.
pub open spec fn differs(bytes: Seq<u8>, root: QNode, ocean: u64, k: nat) -> bool {
    let p = folded_point(ROUND_TRIP_SEED, k);
    coded_value(bytes, 4, ROOT_CELL, p, ocean) != Some(tree_value(root, ROOT_CELL, p))
}

/// The first of the first `n` sample points at which they differ.
pub open spec fn first_difference(bytes: Seq<u8>, root: QNode, ocean: u64, n: nat) -> Option<nat>
    decreases n,
{
    if n == 0 {
        None
    } else {
        match first_difference(bytes, root, ocean, (n - 1) as nat) {
            Some(k) => Some(k),
            None => if differs(bytes, root, ocean, (n - 1) as nat) {
                Some((n - 1) as nat)
            } else {
                None
            },
        }
    }
}

/// The error for a difference.
pub open spec fn difference_text(p: Pt, a: u64, b: u64) -> Seq<char> {
    "quad encode round-trip mismatch at ["@ + signed_decimal(p[0] as int) + ", "@ + signed_decimal(
        p[1] as int,
    ) + "]: tree "@ + decimal(a as int) + " != encoded "@ + decimal(b as int)
}

fn difference_error(p: Pt, a: u64, b: u64) -> (r: String)
    ensures
        r@ == difference_text(p, a, b),
{
    let mut s = "quad encode round-trip mismatch at [".to_owned();
    s.append(signed_text(p[0]).as_str());
    s.append(", ");
    s.append(signed_text(p[1]).as_str());
    s.append("]: tree ");
    s.append(decimal_text(a).as_str());
    s.append(" != encoded ");
    s.append(decimal_text(b).as_str());
    s
}

/// Check the coded tree against the tree at sample points.
pub fn verify_roundtrip(bytes: &[u8], root: &QNode, ocean: u64) -> (r: Result<(), String>)
    requires
        forall|k: nat|
            k < ROUND_TRIP_SAMPLES ==> coded_value(
                bytes@,
                4,
                ROOT_CELL,
                #[trigger] folded_point(ROUND_TRIP_SEED, k),
                ocean,
            ) is Some,
    ensures
        match first_difference(bytes@, *root, ocean, ROUND_TRIP_SAMPLES as nat) {
            None => r is Ok,
            Some(k) => {
                let p = folded_point(ROUND_TRIP_SEED, k);
                r matches Err(s) && s@ == difference_text(
                    p,
                    tree_value(*root, ROOT_CELL, p),
                    coded_value(bytes@, 4, ROOT_CELL, p, ocean)->0,
                )
            },
        },
{
    let mut rng = Lcg::new(ROUND_TRIP_SEED);
    let mut k: usize = 0;
    while k < ROUND_TRIP_SAMPLES
        invariant
            0 <= k <= ROUND_TRIP_SAMPLES,
            rng.state == lcg_after(ROUND_TRIP_SEED, 2 * (k as nat)),
            first_difference(bytes@, *root, ocean, k as nat) is None,
            forall|k: nat|
                k < ROUND_TRIP_SAMPLES ==> coded_value(
                    bytes@,
                    4,
                    ROOT_CELL,
                    #[trigger] folded_point(ROUND_TRIP_SEED, k),
                    ocean,
                ) is Some,
        decreases ROUND_TRIP_SAMPLES - k,
    {
        let p = next_folded(&mut rng, Ghost(ROUND_TRIP_SEED), Ghost(k as nat));
        let a = lookup_tree(root, &ROOT_CELL, p);
        let b = lookup_encoded(bytes, p, ocean);
        if a != b {
            proof {
                assert(first_difference(bytes@, *root, ocean, k as nat + 1) == Some(k as nat));
                lemma_first_difference(
                    bytes@,
                    *root,
                    ocean,
                    k as nat + 1,
                    ROUND_TRIP_SAMPLES as nat,
                );
            }
            return Err(difference_error(p, a, b));
        }
        k += 1;
    }
    Ok(())
}

proof fn lemma_first_difference(bytes: Seq<u8>, root: QNode, ocean: u64, m: nat, n: nat)
    requires
        m <= n,
        first_difference(bytes, root, ocean, m) is Some,
    ensures
        first_difference(bytes, root, ocean, n) == first_difference(bytes, root, ocean, m),
    decreases n,
{
    if m < n {
        lemma_first_difference(bytes, root, ocean, m, (n - 1) as nat);
    }
}

// --- agreement with the exact lookup ---

/// The name that the rough tree gives for a point; empty for ocean.
pub open spec fn rough_name(
    tz: Seq<Tz>,
    root: QNode,
    order: Seq<usize>,
    ocean: u64,
    p: Pt,
) -> Seq<char> {
    let v = tree_value(root, ROOT_CELL, p);
    if v == ocean {
        Seq::empty()
    } else {
        tz[order[v as int] as int].n@
    }
}

/// The name of the timezone of the smallest zone that holds the point; empty if
/// none does.
pub open spec fn exact_name(zones: Seq<Zone>, tz: Seq<Tz>, p: Pt) -> Seq<char> {
    match expected(zones, p) {
        Some(b) => tz[zones[b as int].tzid as int].n@,
        None => Seq::empty(),
    }
}

/// At how many of the first `n` sample points the two names are the same.
pub open spec fn agreements(
    out: Output,
    root: QNode,
    order: Seq<usize>,
    ocean: u64,
    n: nat,
) -> int
    decreases n,
{
    if n == 0 {
        0
    } else {
        let p = folded_point(SELF_CHECK_SEED, (n - 1) as nat);
        agreements(out, root, order, ocean, (n - 1) as nat) + if rough_name(
            out.tz@,
            root,
            order,
            ocean,
            p,
        ) == exact_name(out.zones@, out.tz@, p) {
            1int
        } else {
            0
        }
    }
}

proof fn lemma_value_below(node: QNode, n: int, ocean: u64, cell: Aabb, p: Pt)
    requires
        leaves_below(node, n, ocean),
    ensures
        tree_value(node, cell, p) == ocean || tree_value(node, cell, p) < n,
    decreases node,
{
    if let QNode::Internal(a, b, c, d) = node {
        lemma_value_below(*a, n, ocean, crate::lookup::child_cell(cell, 0), p);
        lemma_value_below(*b, n, ocean, crate::lookup::child_cell(cell, 1), p);
        lemma_value_below(*c, n, ocean, crate::lookup::child_cell(cell, 2), p);
        lemma_value_below(*d, n, ocean, crate::lookup::child_cell(cell, 3), p);
    }
}

/// At how many sample points the rough tree gives the name that the exact
/// lookup gives (the others are near borders).  `order` lists the timezones by
/// their ids in the tree.
pub fn self_verify(
    out: &Output,
    root: &QNode,
    order: &[usize],
    ocean: u64,
    samples: usize,
) -> (r: usize)
    requires
        leaves_below(*root, order@.len() as int, ocean),
        ids_below(order@, out.tz@.len() as int),
        forall|i: int| 0 <= i < out.zones@.len() ==> (#[trigger] out.zones@[i]).tzid < out.tz@.len(),
    ensures
        r == agreements(*out, *root, order@, ocean, samples as nat),
{
    let mut rng = Lcg::new(SELF_CHECK_SEED);
    let mut agree: usize = 0;
    let mut k: usize = 0;
    while k < samples
        invariant
            0 <= k <= samples,
            agree <= k,
            agree == agreements(*out, *root, order@, ocean, k as nat),
            rng.state == lcg_after(SELF_CHECK_SEED, 2 * (k as nat)),
            leaves_below(*root, order@.len() as int, ocean),
            ids_below(order@, out.tz@.len() as int),
            forall|i: int|
                0 <= i < out.zones@.len() ==> (#[trigger] out.zones@[i]).tzid < out.tz@.len(),
        decreases samples - k,
    {
        let p = next_folded(&mut rng, Ghost(SELF_CHECK_SEED), Ghost(k as nat));
        let v = lookup_tree(root, &ROOT_CELL, p);
        let n = order.len();
        proof {
            lemma_value_below(*root, n as int, ocean, ROOT_CELL, p);
        }
        let exact = out.brute(p);
        let empty = String::new();
        let rough = if v == ocean {
            &empty
        } else {
            &out.tz[order[v as usize]].n
        };
        let wanted = match exact {
            Some(b) => &out.tz[out.zones[b].tzid].n,
            None => &empty,
        };
        if *rough == *wanted {
            agree += 1;
        }
        k += 1;
    }
    agree
}

// --- the file ---

/// The rough tree of an artifact, with the artifact's timezone ids; the number
/// of timezones stands for ocean.
pub open spec fn rough_tree(out: Output, rule: LeafRule) -> QNode {
    rough(
        out.zones@,
        ROOT_CELL,
        0,
        all_ids(out.zones@.len() as int),
        rule,
        out.tz@.len() as u64,
    )
}

/// Ordering by these keys puts the timezone with the most leaves first.
pub open spec fn leaf_keys(root: QNode, n: int) -> Seq<u64> {
    Seq::new(n as nat, |t: int| (u64::MAX - leaves_with(root, t)) as u64)
}

/// The timezones by descending number of leaves; of equals the lower id first.
pub open spec fn leaf_order(root: QNode, n: int) -> Seq<int> {
    in_order(by_key(leaf_keys(root, n)), n)
}

/// The tree with the timezones renumbered.
pub open spec fn ranked_tree(out: Output, rule: LeafRule) -> QNode {
    let root = rough_tree(out, rule);
    renumbered(
        root,
        ranks_in(leaf_order(root, out.tz@.len() as int)),
        out.tz@.len() as u64,
    )
}

/// The names of the timezones in an order, as bytes.
pub open spec fn table_names(tz: Seq<Tz>, order: Seq<int>) -> Seq<Seq<u8>> {
    Seq::new(order.len(), |k: int| encode_utf8(tz[order[k]].n@))
}

/// The entries of the table from the `k`-th on.
pub open spec fn entries_bytes(names: Seq<Seq<u8>>, k: int) -> Seq<u8>
    decreases names.len() - k,
{
    if k < 0 || k >= names.len() {
        Seq::empty()
    } else {
        q_bytes(names[k].len() as int) + (names[k] + entries_bytes(names, k + 1))
    }
}

/// The timezone table.
pub open spec fn table_bytes(names: Seq<Seq<u8>>) -> Seq<u8> {
    q_bytes(names.len() as int) + entries_bytes(names, 0)
}

/// The magic.
pub open spec fn magic() -> Seq<u8> {
    seq![84u8, 90, 81, 51]
}

/// The names of an artifact's timezones, by their ids in the file.
pub open spec fn file_names(out: Output, rule: LeafRule) -> Seq<Seq<u8>> {
    table_names(out.tz@, leaf_order(rough_tree(out, rule), out.tz@.len() as int))
}

/// The artifact in the quadtree-only format.
pub open spec fn quad_file(out: Output, rule: LeafRule) -> Seq<u8> {
    magic() + quad_bytes(ranked_tree(out, rule), out.tz@.len() as u64) + table_bytes(
        file_names(out, rule),
    )
}

/// The artifact is written unless a payload is too long for its length to be
/// coded.
pub open spec fn quad_outcome(out: Output, rule: LeafRule) -> Outcome {
    match too_long(ranked_tree(out, rule), out.tz@.len() as u64) {
        Some(n) => Err(too_long_text(n)),
        None => Ok(quad_file(out, rule)),
    }
}

/// The format can hold the artifact: the edges of every ring can be numbered,
/// and ids and name lengths have exact codes.
pub open spec fn is_plottable(out: Output) -> bool {
    &&& zones_numberable(out.zones@)
    &&& forall|i: int|
        0 <= i < out.zones@.len() ==> (#[trigger] out.zones@[i]).tzid < out.tz@.len()
    &&& out.tz@.len() <= 16511
    &&& forall|t: int|
        0 <= t < out.tz@.len() ==> is_q(encode_utf8((#[trigger] out.tz@[t]).n@).len() as int)
}

/// Whether the edges of every ring of the zone can be numbered.
fn is_numberable(zone: &Zone) -> (r: bool)
    ensures
        r == rings_numberable(*zone),
{
    let mut ok = zone.outer.len() < u32::MAX as usize && zone.hole_aabbs.len() == zone.holes.len();
    let mut k: usize = 0;
    while k < zone.holes.len()
        invariant
            0 <= k <= zone.holes@.len(),
            ok == (zone.outer@.len() < u32::MAX && zone.hole_aabbs@.len() == zone.holes@.len()
                && forall|j: int|
                0 <= j < k ==> (#[trigger] zone.holes@[j])@.len() < u32::MAX),
        decreases zone.holes.len() - k,
    {
        ok = ok && zone.holes[k].len() < u32::MAX as usize;
        k += 1;
    }
    ok
}

/// Whether the format can hold the artifact.
pub fn can_plot(out: &Output) -> (r: bool)
    ensures
        r == is_plottable(*out),
{
    if out.tz.len() > 16511 {
        return false;
    }
    let mut i: usize = 0;
    while i < out.zones.len()
        invariant
            0 <= i <= out.zones@.len(),
            forall|j: int|
                0 <= j < i ==> rings_numberable(#[trigger] out.zones@[j]) && out.zones@[j].tzid
                    < out.tz@.len(),
        decreases out.zones.len() - i,
    {
        if !is_numberable(&out.zones[i]) || out.zones[i].tzid >= out.tz.len() {
            return false;
        }
        i += 1;
    }
    let mut t: usize = 0;
    while t < out.tz.len()
        invariant
            0 <= t <= out.tz@.len(),
            forall|j: int|
                0 <= j < t ==> is_q(encode_utf8((#[trigger] out.tz@[j]).n@).len() as int),
        decreases out.tz.len() - t,
    {
        let n = out.tz[t].n.as_str().as_bytes_vec().len();
        if n > Q_MAX as usize || representable(n as u64) != n as u64 {
            return false;
        }
        t += 1;
    }
    true
}

proof fn lemma_leaves_exact(node: QNode, ranks: Seq<u64>, ocean: u64)
    requires
        leaves_below(node, ranks.len() as int, ocean),
        forall|t: int| 0 <= t < ranks.len() ==> (#[trigger] ranks[t]) < ranks.len(),
        ranks.len() <= 16511,
        ocean >= ranks.len(),
    ensures
        leaves_exact(renumbered(node, ranks, ocean), ocean),
        leaves_below(renumbered(node, ranks, ocean), ranks.len() as int, ocean),
    decreases node,
{
    match node {
        QNode::Leaf(t) => {
            if t != ocean {
                assert(ranks[t as int] < ranks.len());
            }
        },
        QNode::Internal(a, b, c, d) => {
            lemma_leaves_exact(*a, ranks, ocean);
            lemma_leaves_exact(*b, ranks, ocean);
            lemma_leaves_exact(*c, ranks, ocean);
            lemma_leaves_exact(*d, ranks, ocean);
        },
    }
}

proof fn lemma_rough_tree(out: Output, rule: LeafRule)
    requires
        is_plottable(out),
    ensures
        leaves_below(rough_tree(out, rule), out.tz@.len() as int, out.tz@.len() as u64),
        leaf_count(rough_tree(out, rule)) <= 0x10_0000_0000,
        forall|t: int|
            0 <= #[trigger] leaves_with(rough_tree(out, rule), t) <= leaf_count(
                rough_tree(out, rule),
            ),
        ids_below(all_ids(out.zones@.len() as int), out.zones@.len() as int),
{
    let n = out.zones@.len() as int;
    assert(out.zones.len() == n);
    let ids = all_ids(n);
    let none = out.tz@.len() as u64;
    lemma_rough_count(out.zones@, ROOT_CELL, 0, ids, rule, none);
    lemma_rough_leaves(out.zones@, ROOT_CELL, 0, ids, rule, none, out.tz@.len() as int);
    assert forall|t: int|
        0 <= #[trigger] leaves_with(rough_tree(out, rule), t) <= leaf_count(
            rough_tree(out, rule),
        ) by {
        lemma_counts(rough_tree(out, rule), t);
    }
}

/// The tree of the file and its timezones.
proof fn lemma_ranked_tree(out: Output, rule: LeafRule)
    requires
        is_plottable(out),
    ensures
        leaves_exact(ranked_tree(out, rule), out.tz@.len() as u64),
        leaves_below(ranked_tree(out, rule), out.tz@.len() as int, out.tz@.len() as u64),
{
    let root = rough_tree(out, rule);
    let n = out.tz@.len() as int;
    let order = leaf_order(root, n);
    let ranks = ranks_in(order);
    lemma_rough_tree(out, rule);
    lemma_in_order(by_key(leaf_keys(root, n)), n);
    assert forall|t: int| 0 <= t < ranks.len() implies (#[trigger] ranks[t]) < ranks.len() by {
        assert(order.contains(t));
        let r = order.index_of(t);
        assert(0 <= r < order.len() && order[r] == t);
    }
    lemma_leaves_exact(root, ranks, n as u64);
}

fn encode_table(tz: &[Tz], order: &[usize], buf: &mut Vec<u8>)
    requires
        ids_below(order@, tz@.len() as int),
        order@.len() <= 16511,
        forall|t: int|
            0 <= t < tz@.len() ==> is_q(encode_utf8((#[trigger] tz@[t]).n@).len() as int),
    ensures
        final(buf)@ == old(buf)@ + table_bytes(table_names(tz@, positions(order@))),
{
    let ghost names = table_names(tz@, positions(order@));
    let ghost start = buf@;
    write_q(buf, order.len() as u64);
    let mut k: usize = 0;
    proof {
        assert(buf@ + entries_bytes(names, 0) =~= start + table_bytes(names));
    }
    while k < order.len()
        invariant
            0 <= k <= order@.len(),
            ids_below(order@, tz@.len() as int),
            forall|t: int|
                0 <= t < tz@.len() ==> is_q(encode_utf8((#[trigger] tz@[t]).n@).len() as int),
            names == table_names(tz@, positions(order@)),
            buf@ + entries_bytes(names, k as int) == start + table_bytes(names),
        decreases order.len() - k,
    {
        let at = order[k];
        let name = tz[at].n.as_str().as_bytes_vec();
        let ghost mid = buf@;
        proof {
            assert(names[k as int] == name@);
            assert(is_q(encode_utf8(tz@[at as int].n@).len() as int));
        }
        write_q(buf, name.len() as u64);
        push_bytes(buf, name.as_slice());
        proof {
            assert(mid + (q_bytes(name@.len() as int) + (name@ + entries_bytes(names, k + 1)))
                =~= buf@ + entries_bytes(names, k + 1));
        }
        k += 1;
    }
    proof {
        assert(buf@ + entries_bytes(names, k as int) =~= buf@);
    }
}

/// Writes a quadtree without polygon geometry.
pub struct QuadtreeSerializer {
    pub rule: LeafRule,
}

impl QuadtreeSerializer {
    /// The tree of the file and the timezones by their ids in it.
    pub fn plan(&self, out: &Output) -> (r: (QNode, Vec<usize>))
        requires
            is_plottable(*out),
        ensures
            r.0 == ranked_tree(*out, self.rule),
            positions(r.1@) == leaf_order(
                rough_tree(*out, self.rule),
                out.tz@.len() as int,
            ),
            leaves_below(r.0, out.tz@.len() as int, out.tz@.len() as u64),
            r.1@.len() == out.tz@.len(),
            ids_below(r.1@, out.tz@.len() as int),
    {
        let none_id = out.tz.len() as u64;
        let overlapping = first_ids(out.zones.len());
        proof {
            lemma_root_cell();
            lemma_rough_tree(*out, self.rule);
            lemma_ranked_tree(*out, self.rule);
        }
        let root = build_node(
            out.zones.as_slice(),
            &ROOT_CELL,
            0,
            overlapping.as_slice(),
            &self.rule,
            none_id,
        );
        let keys = leaf_table(&root, out.tz.len(), none_id);
        let order = sort_by_key(keys.as_slice());
        let ranks = rank_table(order.as_slice());
        proof {
            lemma_ranks_in(ranks@, positions(order@));
            assert forall|i: int| 0 <= i < order@.len() implies (#[trigger] order@[i])
                < out.tz@.len() by {
                assert(positions(order@)[i] == order@[i]);
            }
        }
        let ranked = remap_leaves(root, ranks.as_slice(), none_id);
        (ranked, order)
    }
}

/// The ids of the first `n` zones.
fn first_ids(n: usize) -> (r: Vec<usize>)
    ensures
        r@ == all_ids(n as int),
{
    let mut ids: Vec<usize> = Vec::with_capacity(n);
    let mut i: usize = 0;
    while i < n
        invariant
            0 <= i <= n,
            ids@.len() == i,
            forall|k: int| 0 <= k < i ==> (#[trigger] ids@[k]) == k,
        decreases n - i,
    {
        ids.push(i);
        i += 1;
    }
    proof {
        assert(ids@ =~= all_ids(n as int));
    }
    ids
}

/// The keys by which the timezones of a tree are ordered.
fn leaf_table(root: &QNode, n: usize, ocean: u64) -> (r: Vec<u64>)
    requires
        leaves_below(*root, n as int, ocean),
        ocean >= n,
        leaf_count(*root) <= u64::MAX,
    ensures
        r@ == leaf_keys(*root, n as int),
{
    let mut refs: Vec<u64> = Vec::with_capacity(n);
    let mut i: usize = 0;
    while i < n
        invariant
            0 <= i <= n,
            refs@.len() == i,
            forall|k: int| 0 <= k < i ==> (#[trigger] refs@[k]) == 0,
        decreases n - i,
    {
        refs.push(0);
        i += 1;
    }
    count_refs(root, &mut refs, ocean);
    let mut keys: Vec<u64> = Vec::with_capacity(n);
    let mut j: usize = 0;
    while j < n
        invariant
            0 <= j <= n,
            refs@.len() == n,
            forall|k: int| 0 <= k < n ==> (#[trigger] refs@[k]) == leaves_with(*root, k),
            keys@.len() == j,
            forall|k: int| 0 <= k < j ==> (#[trigger] keys@[k]) == u64::MAX - refs@[k],
        decreases n - j,
    {
        keys.push(u64::MAX - refs[j]);
        j += 1;
    }
    proof {
        assert forall|k: int| 0 <= k < n implies (#[trigger] keys@[k]) == leaf_keys(
            *root,
            n as int,
        )[k] by {
            assert(refs@[k] == leaves_with(*root, k));
        }
        assert(keys@ =~= leaf_keys(*root, n as int));
    }
    keys
}

impl Serializer for QuadtreeSerializer {
    open spec fn takes(&self, out: Output) -> bool {
        is_plottable(out)
    }

    open spec fn outcome(&self, out: Output) -> Outcome {
        quad_outcome(out, self.rule)
    }

    open spec fn name(&self) -> Seq<char> {
        "quad"@
    }

    open spec fn stores_cost_tree(&self) -> bool {
        false
    }

    fn serialize(&self, out: &Output) -> (r: Result<Vec<u8>, String>) {
        let ocean = out.tz.len() as u64;
        proof {
            lemma_ranked_tree(*out, self.rule);
        }
        let (root, order) = self.plan(out);
        let mut buf: Vec<u8> = Vec::new();
        buf.push(84);
        buf.push(90);
        buf.push(81);
        buf.push(51);
        proof {
            assert(buf@ =~= magic());
        }
        if let Err(e) = encode_node(&root, &mut buf, ocean) {
            return Err(e);
        }
        encode_table(out.tz.as_slice(), order.as_slice(), &mut buf);
        proof {
            lemma_file(*out, self.rule);
        }
        if let Err(e) = verify_roundtrip(buf.as_slice(), &root, ocean) {
            return Err(e);
        }
        Ok(buf)
    }

    fn format_name(&self) -> (r: &'static str) {
        "quad"
    }

    fn uses_cost_tree(&self) -> (r: bool) {
        false
    }
}

/// Nothing differs where the coded tree answers as the tree does.
proof fn lemma_no_difference(bytes: Seq<u8>, root: QNode, ocean: u64, n: nat)
    requires
        forall|p: Pt| #[trigger]
            coded_value(bytes, 4, ROOT_CELL, p, ocean) == Some(tree_value(root, ROOT_CELL, p)),
    ensures
        first_difference(bytes, root, ocean, n) is None,
    decreases n,
{
    if n > 0 {
        lemma_no_difference(bytes, root, ocean, (n - 1) as nat);
    }
}

/// The round-trip check passes.
proof fn lemma_file(out: Output, rule: LeafRule)
    requires
        is_plottable(out),
        too_long(ranked_tree(out, rule), out.tz@.len() as u64) is None,
    ensures
        forall|p: Pt| #[trigger]
            coded_value(
                quad_file(out, rule),
                4,
                ROOT_CELL,
                p,
                out.tz@.len() as u64,
            ) == Some(tree_value(ranked_tree(out, rule), ROOT_CELL, p)),
        first_difference(
            quad_file(out, rule),
            ranked_tree(out, rule),
            out.tz@.len() as u64,
            ROUND_TRIP_SAMPLES as nat,
        ) is None,
{
    let ocean = out.tz@.len() as u64;
    let root = ranked_tree(out, rule);
    let bytes = quad_file(out, rule);
    lemma_ranked_tree(out, rule);
    lemma_holds_in_middle(magic(), quad_bytes(root, ocean), table_bytes(file_names(out, rule)));
    assert forall|p: Pt| #[trigger]
        coded_value(bytes, 4, ROOT_CELL, p, ocean) == Some(tree_value(root, ROOT_CELL, p)) by {
        law_coded_tree_answers_alike(bytes, 4, root, ocean, ROOT_CELL, p);
    }
    lemma_no_difference(bytes, root, ocean, ROUND_TRIP_SAMPLES as nat);
}

// --- reading the table ---

/// `n` entries.
pub open spec fn get_entries(bytes: Seq<u8>, pos: int, n: int) -> Option<(Seq<Seq<u8>>, int)>
    decreases n,
{
    if n <= 0 {
        Some((Seq::empty(), pos))
    } else {
        match get_q(bytes, pos) {
            None => None,
            Some((len, p)) => if p + len > bytes.len() {
                None
            } else {
                prepend(seq![bytes.subrange(p, p + len)], get_entries(bytes, p + len, n - 1))
            },
        }
    }
}

/// The table at a position.
pub open spec fn get_table(bytes: Seq<u8>, pos: int) -> Option<(Seq<Seq<u8>>, int)> {
    match get_q(bytes, pos) {
        None => None,
        Some((n, p)) => get_entries(bytes, p, n),
    }
}

proof fn lemma_entries(bytes: Seq<u8>, pos: int, names: Seq<Seq<u8>>, k: int)
    requires
        0 <= k <= names.len(),
        forall|i: int| 0 <= i < names.len() ==> is_q((#[trigger] names[i]).len() as int),
        holds_at(bytes, pos, entries_bytes(names, k)),
    ensures
        get_entries(bytes, pos, names.len() - k) == Some(
            (names.skip(k), pos + entries_bytes(names, k).len()),
        ),
    decreases names.len() - k,
{
    if k == names.len() {
        assert(names.skip(k) =~= Seq::empty());
    } else {
        let name = names[k];
        let n = name.len() as int;
        assert(is_q(names[k].len() as int));
        let rest = entries_bytes(names, k + 1);
        lemma_holds_two(bytes, pos, q_bytes(n), name + rest);
        law_q_round_trip(bytes, pos, n);
        let p = pos + q_bytes(n).len();
        lemma_holds_two(bytes, p, name, rest);
        lemma_entries(bytes, p + n, names, k + 1);
        assert(seq![bytes.subrange(p, p + n)] + names.skip(k + 1) =~= names.skip(k));
    }
}

/// Reading a written table gives the names back, wherever it stands.
pub proof fn law_table_round_trip(bytes: Seq<u8>, pos: int, names: Seq<Seq<u8>>)
    requires
        is_q(names.len() as int),
        forall|i: int| 0 <= i < names.len() ==> is_q((#[trigger] names[i]).len() as int),
        holds_at(bytes, pos, table_bytes(names)),
    ensures
        get_table(bytes, pos) == Some((names, pos + table_bytes(names).len())),
{
    let n = names.len() as int;
    lemma_holds_two(bytes, pos, q_bytes(n), entries_bytes(names, 0));
    law_q_round_trip(bytes, pos, n);
    lemma_entries(bytes, pos + q_bytes(n).len(), names, 0);
    assert(names.skip(0) =~= names);
}

proof fn lemma_names_exact(out: Output, rule: LeafRule)
    requires
        is_plottable(out),
    ensures
        is_q(file_names(out, rule).len() as int),
        forall|i: int|
            0 <= i < file_names(out, rule).len() ==> is_q(
                (#[trigger] file_names(out, rule)[i]).len() as int,
            ),
{
    let names = file_names(out, rule);
    let root = rough_tree(out, rule);
    let n = out.tz@.len() as int;
    lemma_in_order(by_key(leaf_keys(root, n)), n);
    let order = leaf_order(root, n);
    assert forall|i: int| 0 <= i < names.len() implies is_q((#[trigger] names[i]).len() as int) by {
        assert(0 <= order[i] < n);
        assert(is_q(encode_utf8(out.tz@[order[i]].n@).len() as int));
    }
}

/// The file reads back: behind the magic stands a tree that answers for every
/// point as the tree that was written, and behind that the table of names, which
/// ends the file.
pub proof fn law_quad_file_reads_back(out: Output, rule: LeafRule, p: Pt)
    requires
        is_plottable(out),
        quad_outcome(out, rule) is Ok,
    ensures
        quad_outcome(out, rule) == Outcome::Ok(quad_file(out, rule)),
        coded_value(quad_file(out, rule), 4, ROOT_CELL, p, out.tz@.len() as u64) == Some(
            tree_value(ranked_tree(out, rule), ROOT_CELL, p),
        ),
        get_table(
            quad_file(out, rule),
            4int + quad_bytes(ranked_tree(out, rule), out.tz@.len() as u64).len(),
        ) == Some((file_names(out, rule), quad_file(out, rule).len() as int)),
{
    let ocean = out.tz@.len() as u64;
    let root = ranked_tree(out, rule);
    let names = file_names(out, rule);
    let tree = quad_bytes(root, ocean);
    let table = table_bytes(names);
    lemma_ranked_tree(out, rule);
    lemma_names_exact(out, rule);
    lemma_holds_in_middle(magic(), tree, table);
    law_coded_tree_answers_alike(quad_file(out, rule), 4, root, ocean, ROOT_CELL, p);
    let head = magic() + tree;
    lemma_holds_in_middle(head, table, Seq::empty());
    assert(head + table + Seq::<u8>::empty() =~= head + table);
    law_table_round_trip(quad_file(out, rule), head.len() as int, names);
}

/// Timezones are numbered by descending number of leaves: of two timezones the
/// one with more leaves gets the lower id, and of two with as many the one that
/// had the lower id.
pub proof fn law_commoner_timezones_get_lower_ids(root: QNode, n: int, x: int, y: int)
    requires
        0 <= x < n,
        0 <= y < n <= u64::MAX,
        leaf_count(root) <= u64::MAX,
        leaves_with(root, x) > leaves_with(root, y) || (leaves_with(root, x) == leaves_with(root, y)
            && x < y),
    ensures
        ranks_in(leaf_order(root, n))[x] < ranks_in(leaf_order(root, n))[y],
{
    lemma_counts(root, x);
    lemma_counts(root, y);
    lemma_lower_key_ranks_lower(leaf_keys(root, n), x, y);
}

} // verus!
