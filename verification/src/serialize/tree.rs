//! The quadtree section of the binary format: its values, how they are written
//! and how they are read back.
//!
//! ```text
//!     node := bodyLen:q                         (byte length of the body; skip = jump bodyLen)
//!             hdr:q                             (bit0 = internal; bit1 = has eref;
//!                                                leaf: bits2+ = refCount)
//!             [ erefCount:q, erefCount x rankDelta:q ]   if bit1  (sorted, delta-coded)
//!             if internal: child0 child1 child2 child3   (each a node)
//!             else (leaf): refCount x candidate           (sorted by rank, z delta-coded)
//!     candidate := zDelta:q                     (rank delta from the previous candidate)
//!                  packed:q                     ((outerArcCount<<3)|(windCode<<1)|hasHoles)
//!                  [ w:zigzag-q ]  if windCode == 3   (escape for |w| > 1)
//!                  outerArcCount x arcRuns            (the outer arcs crossing this cell)
//!                  [ holeCount:q, holeCount x ( i:q, w:zigzag-q, arcCount:q, arcCount x arcRuns ) ]
//!     arcRuns := (arcIdxDelta << 1 | hasMoreRuns):q, gap0:q, len0:q,
//!                [ if hasMoreRuns: extraCount:q, extraCount x ( gap:q, len:q ) ]
//! ```
//!
//! `windCode`: 0 for w = 0, 1 for w = -1, 2 for w = 1, 3 for the escape.  Runs
//! are sorted, non-overlapping `[first, last]` edge ranges stored as
//! gap-from-previous plus length.
use vstd::prelude::*;

use crate::serialize::qvarint::{get_q, is_q, q_at_least, q_bytes, unzigzagged, zigzagged, Q_MAX};

verus! {

/// Runs of edges by arc.
pub type WireRuns = Seq<(int, Seq<(int, int)>)>;

/// A hole of a candidate on the wire.
#[verifier::ext_equal]
pub struct WireHole {
    pub i: int,
    pub w: int,
    pub e: WireRuns,
}

/// A candidate on the wire; `z` is a rank.
#[verifier::ext_equal]
pub struct WireCand {
    pub z: int,
    pub w: int,
    pub e: WireRuns,
    pub h: Seq<WireHole>,
}

/// A node on the wire.
pub enum WireNode {
    Inner(Seq<int>, Box<WireNode>, Box<WireNode>, Box<WireNode>, Box<WireNode>),
    Leaf(Seq<int>, Seq<WireCand>),
}

/// The codes of values in a row.
pub open spec fn qs_bytes(vals: Seq<int>) -> Seq<u8>
    decreases vals.len(),
{
    if vals.len() == 0 {
        Seq::empty()
    } else {
        qs_bytes(vals.drop_last()) + q_bytes(vals.last())
    }
}

/// Every value has an exact code.
pub open spec fn all_q(vals: Seq<int>) -> bool {
    forall|i: int| 0 <= i < vals.len() ==> is_q(#[trigger] vals[i])
}

/// The values of the runs from the `k`-th on: the gap from the run before, and
/// the length.
pub open spec fn vals_more(runs: Seq<(int, int)>, k: int) -> Seq<int>
    decreases runs.len() - k,
{
    if k < 1 || k >= runs.len() {
        Seq::empty()
    } else {
        seq![runs[k].0 - (runs[k - 1].1 + 1), runs[k].1 - runs[k].0] + vals_more(runs, k + 1)
    }
}

pub open spec fn flag(b: bool) -> int {
    if b {
        1
    } else {
        0
    }
}

/// The values of one arc's runs.
pub open spec fn vals_arc(prev: int, arc: (int, Seq<(int, int)>)) -> Seq<int> {
    let runs = arc.1;
    let head = seq![
        2 * (arc.0 - prev) + flag(runs.len() > 1),
        runs[0].0,
        runs[0].1 - runs[0].0,
    ];
    if runs.len() > 1 {
        head + (seq![runs.len() - 1] + vals_more(runs, 1))
    } else {
        head
    }
}

/// The arc index before the `k`-th one's.
pub open spec fn arc_before(e: WireRuns, k: int) -> int {
    if k <= 0 {
        0
    } else {
        e[k - 1].0
    }
}

/// The values of the arcs from the `k`-th on.
pub open spec fn vals_arcs(e: WireRuns, k: int) -> Seq<int>
    decreases e.len() - k,
{
    if k < 0 || k >= e.len() {
        Seq::empty()
    } else {
        vals_arc(arc_before(e, k), e[k]) + vals_arcs(e, k + 1)
    }
}

/// The values of the holes from the `k`-th on.
pub open spec fn vals_holes(h: Seq<WireHole>, k: int) -> Seq<int>
    decreases h.len() - k,
{
    if k < 0 || k >= h.len() {
        Seq::empty()
    } else {
        seq![h[k].i, zigzagged(h[k].w), h[k].e.len() as int] + (vals_arcs(h[k].e, 0) + vals_holes(
            h,
            k + 1,
        ))
    }
}

pub open spec fn wind_code(w: int) -> int {
    if w == 0 {
        0
    } else if w == -1 {
        1
    } else if w == 1 {
        2
    } else {
        3
    }
}

/// The values of a candidate, its rank aside.
pub open spec fn vals_meta(c: WireCand) -> Seq<int> {
    let packed = c.e.len() * 8 + wind_code(c.w) * 2 + flag(c.h.len() > 0);
    let escape = if wind_code(c.w) == 3 {
        seq![zigzagged(c.w)]
    } else {
        Seq::empty()
    };
    let holes = if c.h.len() > 0 {
        seq![c.h.len() as int] + vals_holes(c.h, 0)
    } else {
        Seq::empty()
    };
    seq![packed] + (escape + (vals_arcs(c.e, 0) + holes))
}

/// The values of the candidates from the `k`-th on.
pub open spec fn vals_cands(cands: Seq<WireCand>, k: int) -> Seq<int>
    decreases cands.len() - k,
{
    if k < 0 || k >= cands.len() {
        Seq::empty()
    } else {
        let prev = if k == 0 {
            0
        } else {
            cands[k - 1].z
        };
        seq![cands[k].z - prev] + (vals_meta(cands[k]) + vals_cands(cands, k + 1))
    }
}

/// The values of the ranks from the `k`-th on.
pub open spec fn vals_ranks(ranks: Seq<int>, k: int) -> Seq<int>
    decreases ranks.len() - k,
{
    if k < 0 || k >= ranks.len() {
        Seq::empty()
    } else {
        let prev = if k == 0 {
            0
        } else {
            ranks[k - 1]
        };
        seq![ranks[k] - prev] + vals_ranks(ranks, k + 1)
    }
}

/// The header value and the ranks of the settled zones.
pub open spec fn vals_head(header: int, eref: Seq<int>) -> Seq<int> {
    if eref.len() > 0 {
        seq![header] + (seq![eref.len() as int] + vals_ranks(eref, 0))
    } else {
        seq![header]
    }
}

/// `n` zero bytes.
pub open spec fn zeros(n: int) -> Seq<u8> {
    Seq::new(n as nat, |i: int| 0u8)
}

/// A body with its length before it, padded to a length that has a code.
pub open spec fn framed_body(body: Seq<u8>) -> Seq<u8> {
    let len = q_at_least(body.len() as int);
    q_bytes(len) + (body + zeros(len - body.len()))
}

/// The body of a node.
pub open spec fn node_body(node: WireNode) -> Seq<u8>
    decreases node, 0nat,
{
    match node {
        WireNode::Inner(eref, a, b, c, d) => {
            qs_bytes(vals_head(2 * flag(eref.len() > 0) + 1, eref)) + (node_bytes(*a) + (node_bytes(
                *b,
            ) + (node_bytes(*c) + node_bytes(*d))))
        },
        WireNode::Leaf(eref, cands) => {
            qs_bytes(
                vals_head(4 * cands.len() + 2 * flag(eref.len() > 0), eref) + vals_cands(cands, 0),
            )
        },
    }
}

/// A node.
pub open spec fn node_bytes(node: WireNode) -> Seq<u8>
    decreases node, 1nat,
{
    framed_body(node_body(node))
}

/// The first body, in the order in which they are completed, that is too long
/// to be framed.
pub open spec fn overlong(node: WireNode) -> Option<int>
    decreases node,
{
    let own = if q_at_least(node_body(node).len() as int) > Q_MAX {
        Some(node_body(node).len() as int)
    } else {
        None
    };
    match node {
        WireNode::Inner(_, a, b, c, d) => match overlong(*a) {
            Some(n) => Some(n),
            None => match overlong(*b) {
                Some(n) => Some(n),
                None => match overlong(*c) {
                    Some(n) => Some(n),
                    None => match overlong(*d) {
                        Some(n) => Some(n),
                        None => own,
                    },
                },
            },
        },
        WireNode::Leaf(_, _) => own,
    }
}

/// Every value of the tree has an exact code.
pub open spec fn tree_exact(node: WireNode) -> bool
    decreases node,
{
    match node {
        WireNode::Inner(eref, a, b, c, d) => {
            &&& all_q(vals_head(2 * flag(eref.len() > 0) + 1, eref))
            &&& tree_exact(*a) && tree_exact(*b) && tree_exact(*c) && tree_exact(*d)
        },
        WireNode::Leaf(eref, cands) => {
            all_q(
                vals_head(4 * cands.len() + 2 * flag(eref.len() > 0), eref) + vals_cands(cands, 0),
            )
        },
    }
}

// --- reading ---

/// What was read before something else.
pub open spec fn prepend<T>(first: Seq<T>, rest: Option<(Seq<T>, int)>) -> Option<(Seq<T>, int)> {
    match rest {
        Some((items, pos)) => Some((first + items, pos)),
        None => None,
    }
}

/// `n` further runs.
pub open spec fn get_more(bytes: Seq<u8>, pos: int, n: int, from: int) -> Option<
    (Seq<(int, int)>, int),
>
    decreases n,
{
    if n <= 0 {
        Some((Seq::empty(), pos))
    } else {
        match get_q(bytes, pos) {
            None => None,
            Some((gap, p1)) => match get_q(bytes, p1) {
                None => None,
                Some((len, p2)) => {
                    let first = from + gap;
                    let last = first + len;
                    if last >= u64::MAX {
                        None
                    } else {
                        prepend(seq![(first, last)], get_more(bytes, p2, n - 1, last + 1))
                    }
                },
            },
        }
    }
}

/// One arc's runs.
pub open spec fn get_arc(bytes: Seq<u8>, pos: int, prev: int) -> Option<
    ((int, Seq<(int, int)>), int),
> {
    match get_q(bytes, pos) {
        None => None,
        Some((v, p1)) => match get_q(bytes, p1) {
            None => None,
            Some((first, p2)) => match get_q(bytes, p2) {
                None => None,
                Some((len, p3)) => {
                    let a = prev + v / 2;
                    let last = first + len;
                    if a > u64::MAX || last >= u64::MAX {
                        None
                    } else if v % 2 == 1 {
                        match get_q(bytes, p3) {
                            None => None,
                            Some((extra, p4)) => match get_more(bytes, p4, extra, last + 1) {
                                None => None,
                                Some((runs, p5)) => Some(((a, seq![(first, last)] + runs), p5)),
                            },
                        }
                    } else {
                        Some(((a, seq![(first, last)]), p3))
                    }
                },
            },
        },
    }
}

/// The runs of `n` arcs.
pub open spec fn get_arcs(bytes: Seq<u8>, pos: int, n: int, prev: int) -> Option<(WireRuns, int)>
    decreases n,
{
    if n <= 0 {
        Some((Seq::empty(), pos))
    } else {
        match get_arc(bytes, pos, prev) {
            None => None,
            Some((arc, p)) => prepend(seq![arc], get_arcs(bytes, p, n - 1, arc.0)),
        }
    }
}

/// `n` holes.
pub open spec fn get_holes(bytes: Seq<u8>, pos: int, n: int) -> Option<(Seq<WireHole>, int)>
    decreases n,
{
    if n <= 0 {
        Some((Seq::empty(), pos))
    } else {
        match get_q(bytes, pos) {
            None => None,
            Some((i, p1)) => match get_q(bytes, p1) {
                None => None,
                Some((z, p2)) => match get_q(bytes, p2) {
                    None => None,
                    Some((count, p3)) => match get_arcs(bytes, p3, count, 0) {
                        None => None,
                        Some((e, p4)) => prepend(
                            seq![WireHole { i, w: unzigzagged(z), e }],
                            get_holes(bytes, p4, n - 1),
                        ),
                    },
                },
            },
        }
    }
}

/// The winding that a code stands for, where the escape is not needed.
pub open spec fn code_wind(code: int) -> int {
    if code == 0 {
        0
    } else if code == 1 {
        -1
    } else {
        1
    }
}

/// The winding that follows a packed value.
pub open spec fn get_wind(bytes: Seq<u8>, pos: int, code: int) -> Option<(int, int)> {
    if code == 3 {
        match get_q(bytes, pos) {
            None => None,
            Some((z, p)) => Some((unzigzagged(z), p)),
        }
    } else {
        Some((code_wind(code), pos))
    }
}

/// A counted list of holes, if there is one.
pub open spec fn get_hole_list(bytes: Seq<u8>, pos: int, there: bool) -> Option<
    (Seq<WireHole>, int),
> {
    if there {
        match get_q(bytes, pos) {
            None => None,
            Some((n, p)) => get_holes(bytes, p, n),
        }
    } else {
        Some((Seq::empty(), pos))
    }
}

/// A candidate, its rank given.
pub open spec fn get_meta(bytes: Seq<u8>, pos: int, rank: int) -> Option<(WireCand, int)> {
    match get_q(bytes, pos) {
        None => None,
        Some((packed, p1)) => match get_wind(bytes, p1, packed / 2 % 4) {
            None => None,
            Some((w, p2)) => match get_arcs(bytes, p2, packed / 8, 0) {
                None => None,
                Some((e, p3)) => match get_hole_list(bytes, p3, packed % 2 == 1) {
                    None => None,
                    Some((h, p4)) => Some((WireCand { z: rank, w, e, h }, p4)),
                },
            },
        },
    }
}

/// `n` candidates.
pub open spec fn get_cands(bytes: Seq<u8>, pos: int, n: int, prev: int) -> Option<
    (Seq<WireCand>, int),
>
    decreases n,
{
    if n <= 0 {
        Some((Seq::empty(), pos))
    } else {
        match get_q(bytes, pos) {
            None => None,
            Some((delta, p1)) => if prev + delta > u64::MAX {
                None
            } else {
                match get_meta(bytes, p1, prev + delta) {
                    None => None,
                    Some((cand, p2)) => prepend(
                        seq![cand],
                        get_cands(bytes, p2, n - 1, prev + delta),
                    ),
                }
            },
        }
    }
}

/// `n` ranks.
pub open spec fn get_ranks(bytes: Seq<u8>, pos: int, n: int, prev: int) -> Option<(Seq<int>, int)>
    decreases n,
{
    if n <= 0 {
        Some((Seq::empty(), pos))
    } else {
        match get_q(bytes, pos) {
            None => None,
            Some((delta, p)) => if prev + delta > u64::MAX {
                None
            } else {
                prepend(seq![prev + delta], get_ranks(bytes, p, n - 1, prev + delta))
            },
        }
    }
}

/// A counted list of ranks, if there is one.
pub open spec fn get_rank_list(bytes: Seq<u8>, pos: int, there: bool) -> Option<(Seq<int>, int)> {
    if there {
        match get_q(bytes, pos) {
            None => None,
            Some((n, p)) => get_ranks(bytes, p, n, 0),
        }
    } else {
        Some((Seq::empty(), pos))
    }
}

/// Four nodes in a row, behind position `pos`.
pub open spec fn get_quadrants(bytes: Seq<u8>, pos: int, p: int) -> Option<
    (WireNode, WireNode, WireNode, WireNode),
>
    decreases bytes.len() - pos, 0nat,
{
    if !(pos < p <= bytes.len()) {
        None
    } else {
        match get_node(bytes, p) {
            None => None,
            Some((a, p1)) => if !(pos < p1 <= bytes.len()) {
                None
            } else {
                match get_node(bytes, p1) {
                    None => None,
                    Some((b, p2)) => if !(pos < p2 <= bytes.len()) {
                        None
                    } else {
                        match get_node(bytes, p2) {
                            None => None,
                            Some((c, p3)) => if !(pos < p3 <= bytes.len()) {
                                None
                            } else {
                                match get_node(bytes, p3) {
                                    None => None,
                                    Some((d, _)) => Some((a, b, c, d)),
                                }
                            },
                        }
                    },
                }
            },
        }
    }
}

/// A node: `None` if its contents are cut short, or if it would end beyond every
/// position.  It ends where its length says, whatever its contents take.
pub open spec fn get_node(bytes: Seq<u8>, pos: int) -> Option<(WireNode, int)>
    decreases bytes.len() - pos, 1nat,
{
    match get_q(bytes, pos) {
        None => None,
        Some((len, p1)) => match get_q(bytes, p1) {
            None => None,
            Some((header, p2)) => match get_rank_list(bytes, p2, header / 2 % 2 == 1) {
                None => None,
                Some((eref, p3)) => {
                    let end = p1 + len;
                    if end > bytes.len() && end > usize::MAX {
                        None
                    } else if header % 2 == 1 {
                        match get_quadrants(bytes, pos, p3) {
                            None => None,
                            Some((a, b, c, d)) => Some(
                                (
                                    WireNode::Inner(
                                        eref,
                                        Box::new(a),
                                        Box::new(b),
                                        Box::new(c),
                                        Box::new(d),
                                    ),
                                    end,
                                ),
                            ),
                        }
                    } else {
                        match get_cands(bytes, p3, header / 4, 0) {
                            None => None,
                            Some((cands, _)) => Some((WireNode::Leaf(eref, cands), end)),
                        }
                    }
                },
            },
        },
    }
}

} // verus!
