//! Reading the quadtree section of the binary format.
use vstd::prelude::*;

use crate::artifact::NodeView;
use crate::serialize::qvarint::{try_read_q, unzigzag};
use crate::serialize::tree::{
    get_arc, get_arcs, get_cands, get_holes, get_meta, get_more, get_node, get_quadrants,
    get_rank_list, get_ranks, prepend, WireCand, WireHole, WireNode, WireRuns,
};
use crate::serialize::tree_laws::{
    arcs_readable, cand_readable, ranks_readable, runs_readable, tree_readable,
};
use crate::serialize::tree_writer::{
    cand_ascends, cand_zones, node_writable, pairs_ascend, ranks_of, runs_ascend, tree_writable,
    wire_cand, wire_cands, wire_eref, wire_node, wire_runs,
};
use crate::serialize::order::{by_key, in_order, lemma_in_order};

verus! {

/// The edge runs of one arc as read.
pub struct DecArcRuns {
    pub a: u64,
    pub runs: Vec<(u64, u64)>,
}

/// A hole of a candidate as read.
pub struct DecHole {
    pub i: u64,
    pub w: i64,
    pub e: Vec<DecArcRuns>,
}

/// A candidate as read; `z` is a rank.
pub struct DecCand {
    pub z: u64,
    pub w: i64,
    pub e: Vec<DecArcRuns>,
    pub h: Vec<DecHole>,
}

/// What a node holds below its settled zones.
pub enum DecKind {
    Internal(Box<DecNode>, Box<DecNode>, Box<DecNode>, Box<DecNode>),
    Leaf(Vec<DecCand>),
}

/// A node as read.
pub struct DecNode {
    pub eref: Vec<u64>,
    pub kind: DecKind,
}

pub open spec fn dec_pairs(runs: Seq<(u64, u64)>) -> Seq<(int, int)> {
    Seq::new(runs.len(), |j: int| (runs[j].0 as int, runs[j].1 as int))
}

pub open spec fn dec_runs(e: Seq<DecArcRuns>) -> WireRuns {
    Seq::new(e.len(), |k: int| (e[k].a as int, dec_pairs(e[k].runs@)))
}

pub open spec fn dec_holes(h: Seq<DecHole>) -> Seq<WireHole> {
    Seq::new(
        h.len(),
        |k: int| WireHole { i: h[k].i as int, w: h[k].w as int, e: dec_runs(h[k].e@) },
    )
}

pub open spec fn dec_cand(c: DecCand) -> WireCand {
    WireCand { z: c.z as int, w: c.w as int, e: dec_runs(c.e@), h: dec_holes(c.h@) }
}

pub open spec fn dec_cands(cands: Seq<DecCand>) -> Seq<WireCand> {
    Seq::new(cands.len(), |k: int| dec_cand(cands[k]))
}

pub open spec fn dec_ranks(ranks: Seq<u64>) -> Seq<int> {
    Seq::new(ranks.len(), |k: int| ranks[k] as int)
}

/// The tree that was read.
pub open spec fn dec_node(node: DecNode) -> WireNode
    decreases node,
{
    match node.kind {
        DecKind::Internal(a, b, c, d) => WireNode::Inner(
            dec_ranks(node.eref@),
            Box::new(dec_node(*a)),
            Box::new(dec_node(*b)),
            Box::new(dec_node(*c)),
            Box::new(dec_node(*d)),
        ),
        DecKind::Leaf(cands) => WireNode::Leaf(dec_ranks(node.eref@), dec_cands(cands@)),
    }
}

fn decode_more(bytes: &[u8], pos: &mut usize, n: u64, start: u64) -> (r: Option<Vec<(u64, u64)>>)
    requires
        *old(pos) <= bytes@.len(),
    ensures
        match get_more(bytes@, *old(pos) as int, n as int, start as int) {
            Some((runs, next)) => r matches Some(v) && dec_pairs(v@) == runs && *final(pos)
                == next,
            None => r is None,
        },
        *old(pos) <= *final(pos) <= bytes@.len(),
{
    let mut out: Vec<(u64, u64)> = Vec::new();
    let mut from = start;
    let mut left = n;
    let ghost whole = get_more(bytes@, *pos as int, n as int, from as int);
    proof {
        assert(prepend(dec_pairs(out@), whole) == whole) by {
            if let Some((runs, next)) = whole {
                assert(dec_pairs(out@) + runs =~= runs);
            }
        }
    }
    while left > 0
        invariant
            0 <= left <= n,
            *old(pos) <= *pos <= bytes@.len(),
            whole == get_more(bytes@, *old(pos) as int, n as int, start as int),
            whole == prepend(
                dec_pairs(out@),
                get_more(bytes@, *pos as int, left as int, from as int),
            ),
        decreases left,
    {
        let gap = match try_read_q(bytes, pos) {
            None => {
                return None;
            },
            Some(v) => v,
        };
        let len = match try_read_q(bytes, pos) {
            None => {
                return None;
            },
            Some(v) => v,
        };
        if gap + len >= u64::MAX - from {
            return None;
        }
        let first = from + gap;
        let last = first + len;
        let ghost before = out@;
        out.push((first, last));
        from = last + 1;
        left -= 1;
        proof {
            let rest = get_more(bytes@, *pos as int, left as int, from as int);
            if let Some((runs, next)) = rest {
                assert(dec_pairs(before) + (seq![(first as int, last as int)] + runs)
                    =~= dec_pairs(out@) + runs);
            }
        }
    }
    proof {
        assert(dec_pairs(out@) + Seq::<(int, int)>::empty() =~= dec_pairs(out@));
    }
    Some(out)
}

fn decode_arc(bytes: &[u8], pos: &mut usize, prev: u64) -> (r: Option<DecArcRuns>)
    requires
        *old(pos) <= bytes@.len(),
    ensures
        match get_arc(bytes@, *old(pos) as int, prev as int) {
            Some((arc, next)) => r matches Some(v) && (v.a as int, dec_pairs(v.runs@)) == arc
                && *final(pos) == next,
            None => r is None,
        },
        *old(pos) <= *final(pos) <= bytes@.len(),
{
    let v = match try_read_q(bytes, pos) {
        None => {
            return None;
        },
        Some(v) => v,
    };
    let first = match try_read_q(bytes, pos) {
        None => {
            return None;
        },
        Some(v) => v,
    };
    let len = match try_read_q(bytes, pos) {
        None => {
            return None;
        },
        Some(v) => v,
    };
    if v / 2 > u64::MAX - prev {
        return None;
    }
    let a = prev + v / 2;
    let last = first + len;
    let mut runs: Vec<(u64, u64)> = Vec::new();
    runs.push((first, last));
    proof {
        assert(dec_pairs(runs@) =~= seq![(first as int, last as int)]);
    }
    if v % 2 == 1 {
        let extra = match try_read_q(bytes, pos) {
            None => {
                return None;
            },
            Some(v) => v,
        };
        let mut more = match decode_more(bytes, pos, extra, last + 1) {
            None => {
                return None;
            },
            Some(v) => v,
        };
        let ghost (x, y) = (runs@, more@);
        runs.append(&mut more);
        proof {
            assert(dec_pairs(runs@) =~= seq![(first as int, last as int)] + dec_pairs(y));
        }
    }
    Some(DecArcRuns { a, runs })
}

/// The runs of `n` arcs.
pub fn decode_arc_runs(bytes: &[u8], pos: &mut usize, n: u64) -> (r: Option<Vec<DecArcRuns>>)
    requires
        *old(pos) <= bytes@.len(),
    ensures
        match get_arcs(bytes@, *old(pos) as int, n as int, 0) {
            Some((e, next)) => r matches Some(v) && dec_runs(v@) == e && *final(pos) == next,
            None => r is None,
        },
        *old(pos) <= *final(pos) <= bytes@.len(),
{
    let mut out: Vec<DecArcRuns> = Vec::new();
    let mut prev: u64 = 0;
    let mut left = n;
    let ghost whole = get_arcs(bytes@, *pos as int, n as int, 0);
    proof {
        assert(prepend(dec_runs(out@), whole) == whole) by {
            if let Some((e, next)) = whole {
                assert(dec_runs(out@) + e =~= e);
            }
        }
    }
    while left > 0
        invariant
            0 <= left <= n,
            *old(pos) <= *pos <= bytes@.len(),
            whole == get_arcs(bytes@, *old(pos) as int, n as int, 0),
            whole == prepend(
                dec_runs(out@),
                get_arcs(bytes@, *pos as int, left as int, prev as int),
            ),
        decreases left,
    {
        let arc = match decode_arc(bytes, pos, prev) {
            None => {
                return None;
            },
            Some(v) => v,
        };
        let ghost before = out@;
        let ghost one = (arc.a as int, dec_pairs(arc.runs@));
        prev = arc.a;
        out.push(arc);
        left -= 1;
        proof {
            let rest = get_arcs(bytes@, *pos as int, left as int, prev as int);
            if let Some((e, next)) = rest {
                assert(dec_runs(before) + (seq![one] + e) =~= dec_runs(out@) + e);
            }
        }
    }
    proof {
        assert(dec_runs(out@) + Seq::<(int, Seq<(int, int)>)>::empty() =~= dec_runs(out@));
    }
    Some(out)
}

fn decode_holes(bytes: &[u8], pos: &mut usize, n: u64) -> (r: Option<Vec<DecHole>>)
    requires
        *old(pos) <= bytes@.len(),
    ensures
        match get_holes(bytes@, *old(pos) as int, n as int) {
            Some((h, next)) => r matches Some(v) && dec_holes(v@) == h && *final(pos) == next,
            None => r is None,
        },
        *old(pos) <= *final(pos) <= bytes@.len(),
{
    let mut out: Vec<DecHole> = Vec::new();
    let mut left = n;
    let ghost whole = get_holes(bytes@, *pos as int, n as int);
    proof {
        assert(prepend(dec_holes(out@), whole) == whole) by {
            if let Some((h, next)) = whole {
                assert(dec_holes(out@) + h =~= h);
            }
        }
    }
    while left > 0
        invariant
            0 <= left <= n,
            *old(pos) <= *pos <= bytes@.len(),
            whole == get_holes(bytes@, *old(pos) as int, n as int),
            whole == prepend(dec_holes(out@), get_holes(bytes@, *pos as int, left as int)),
        decreases left,
    {
        let i = match try_read_q(bytes, pos) {
            None => {
                return None;
            },
            Some(v) => v,
        };
        let z = match try_read_q(bytes, pos) {
            None => {
                return None;
            },
            Some(v) => v,
        };
        let count = match try_read_q(bytes, pos) {
            None => {
                return None;
            },
            Some(v) => v,
        };
        let e = match decode_arc_runs(bytes, pos, count) {
            None => {
                return None;
            },
            Some(v) => v,
        };
        let w = unzigzag(z);
        let ghost before = out@;
        let ghost one = WireHole { i: i as int, w: w as int, e: dec_runs(e@) };
        out.push(DecHole { i, w, e });
        left -= 1;
        proof {
            let rest = get_holes(bytes@, *pos as int, left as int);
            if let Some((h, next)) = rest {
                assert(dec_holes(before) + (seq![one] + h) =~= dec_holes(out@) + h);
            }
        }
    }
    proof {
        assert(dec_holes(out@) + Seq::<WireHole>::empty() =~= dec_holes(out@));
    }
    Some(out)
}

/// A candidate, its rank given.
pub fn decode_candidate_meta(bytes: &[u8], pos: &mut usize, rank: u64) -> (r: Option<DecCand>)
    requires
        *old(pos) <= bytes@.len(),
    ensures
        match get_meta(bytes@, *old(pos) as int, rank as int) {
            Some((c, next)) => r matches Some(v) && dec_cand(v) == c && *final(pos) == next,
            None => r is None,
        },
        *old(pos) <= *final(pos) <= bytes@.len(),
{
    let packed = match try_read_q(bytes, pos) {
        None => {
            return None;
        },
        Some(v) => v,
    };
    let code = packed / 2 % 4;
    let w: i64 = if code == 0 {
        0
    } else if code == 1 {
        -1
    } else if code == 2 {
        1
    } else {
        match try_read_q(bytes, pos) {
            None => {
                return None;
            },
            Some(z) => unzigzag(z),
        }
    };
    let e = match decode_arc_runs(bytes, pos, packed / 8) {
        None => {
            return None;
        },
        Some(v) => v,
    };
    let mut h: Vec<DecHole> = Vec::new();
    proof {
        assert(dec_holes(h@) =~= Seq::empty());
    }
    if packed % 2 == 1 {
        let n = match try_read_q(bytes, pos) {
            None => {
                return None;
            },
            Some(v) => v,
        };
        h = match decode_holes(bytes, pos, n) {
            None => {
                return None;
            },
            Some(v) => v,
        };
    }
    Some(DecCand { z: rank, w, e, h })
}

fn decode_cands(bytes: &[u8], pos: &mut usize, n: u64) -> (r: Option<Vec<DecCand>>)
    requires
        *old(pos) <= bytes@.len(),
    ensures
        match get_cands(bytes@, *old(pos) as int, n as int, 0) {
            Some((c, next)) => r matches Some(v) && dec_cands(v@) == c && *final(pos) == next,
            None => r is None,
        },
        *old(pos) <= *final(pos) <= bytes@.len(),
{
    let mut out: Vec<DecCand> = Vec::new();
    let mut prev: u64 = 0;
    let mut left = n;
    let ghost whole = get_cands(bytes@, *pos as int, n as int, 0);
    proof {
        assert(prepend(dec_cands(out@), whole) == whole) by {
            if let Some((c, next)) = whole {
                assert(dec_cands(out@) + c =~= c);
            }
        }
    }
    while left > 0
        invariant
            0 <= left <= n,
            *old(pos) <= *pos <= bytes@.len(),
            whole == get_cands(bytes@, *old(pos) as int, n as int, 0),
            whole == prepend(
                dec_cands(out@),
                get_cands(bytes@, *pos as int, left as int, prev as int),
            ),
        decreases left,
    {
        let delta = match try_read_q(bytes, pos) {
            None => {
                return None;
            },
            Some(v) => v,
        };
        if delta > u64::MAX - prev {
            return None;
        }
        let rank = prev + delta;
        let cand = match decode_candidate_meta(bytes, pos, rank) {
            None => {
                return None;
            },
            Some(v) => v,
        };
        let ghost before = out@;
        let ghost one = dec_cand(cand);
        out.push(cand);
        prev = rank;
        left -= 1;
        proof {
            let rest = get_cands(bytes@, *pos as int, left as int, prev as int);
            if let Some((c, next)) = rest {
                assert(dec_cands(before) + (seq![one] + c) =~= dec_cands(out@) + c);
            }
        }
    }
    proof {
        assert(dec_cands(out@) + Seq::<WireCand>::empty() =~= dec_cands(out@));
    }
    Some(out)
}

fn decode_ranks(bytes: &[u8], pos: &mut usize, n: u64) -> (r: Option<Vec<u64>>)
    requires
        *old(pos) <= bytes@.len(),
    ensures
        match get_ranks(bytes@, *old(pos) as int, n as int, 0) {
            Some((c, next)) => r matches Some(v) && dec_ranks(v@) == c && *final(pos) == next,
            None => r is None,
        },
        *old(pos) <= *final(pos) <= bytes@.len(),
{
    let mut out: Vec<u64> = Vec::new();
    let mut prev: u64 = 0;
    let mut left = n;
    let ghost whole = get_ranks(bytes@, *pos as int, n as int, 0);
    proof {
        assert(prepend(dec_ranks(out@), whole) == whole) by {
            if let Some((c, next)) = whole {
                assert(dec_ranks(out@) + c =~= c);
            }
        }
    }
    while left > 0
        invariant
            0 <= left <= n,
            *old(pos) <= *pos <= bytes@.len(),
            whole == get_ranks(bytes@, *old(pos) as int, n as int, 0),
            whole == prepend(
                dec_ranks(out@),
                get_ranks(bytes@, *pos as int, left as int, prev as int),
            ),
        decreases left,
    {
        let delta = match try_read_q(bytes, pos) {
            None => {
                return None;
            },
            Some(v) => v,
        };
        if delta > u64::MAX - prev {
            return None;
        }
        let rank = prev + delta;
        let ghost before = out@;
        out.push(rank);
        prev = rank;
        left -= 1;
        proof {
            let rest = get_ranks(bytes@, *pos as int, left as int, prev as int);
            if let Some((c, next)) = rest {
                assert(dec_ranks(before) + (seq![rank as int] + c) =~= dec_ranks(out@) + c);
            }
        }
    }
    proof {
        assert(dec_ranks(out@) + Seq::<int>::empty() =~= dec_ranks(out@));
    }
    Some(out)
}

fn decode_rank_list(bytes: &[u8], pos: &mut usize, there: bool) -> (r: Option<Vec<u64>>)
    requires
        *old(pos) <= bytes@.len(),
    ensures
        match get_rank_list(bytes@, *old(pos) as int, there) {
            Some((c, next)) => r matches Some(v) && dec_ranks(v@) == c && *final(pos) == next,
            None => r is None,
        },
        *old(pos) <= *final(pos) <= bytes@.len(),
{
    if there {
        match try_read_q(bytes, pos) {
            None => None,
            Some(n) => decode_ranks(bytes, pos, n),
        }
    } else {
        let out: Vec<u64> = Vec::new();
        proof {
            assert(dec_ranks(out@) =~= Seq::empty());
        }
        Some(out)
    }
}

/// Read the node at a position, if the position is not beyond the end.
fn decode_next(bytes: &[u8], pos: &mut usize) -> (r: Option<DecNode>)
    ensures
        *old(pos) <= bytes@.len() ==> match get_node(bytes@, *old(pos) as int) {
            Some((node, next)) => r matches Some(v) && dec_node(v) == node && *final(pos) == next
                && next > *old(pos),
            None => r is None,
        },
        *old(pos) > bytes@.len() ==> r is None,
        *old(pos) <= *final(pos),
    decreases
            if *old(pos) <= bytes@.len() {
                bytes@.len() - *old(pos)
            } else {
                0
            },
            1nat,
{
    if *pos > bytes.len() {
        return None;
    }
    decode_node(bytes, pos)
}

/// Read four nodes in a row.
fn decode_quadrants(bytes: &[u8], pos: &mut usize, Ghost(start): Ghost<int>) -> (r: Option<
    (DecNode, DecNode, DecNode, DecNode),
>)
    requires
        start < *old(pos) <= bytes@.len(),
    ensures
        match get_quadrants(bytes@, start, *old(pos) as int) {
            Some((a, b, c, d)) => {
                &&& r matches Some((w, x, y, z))
                &&& dec_node(w) == a && dec_node(x) == b && dec_node(y) == c && dec_node(z) == d
            },
            None => r is None,
        },
        *old(pos) <= *final(pos),
    decreases bytes@.len() - *old(pos), 2nat,
{
    let a = match decode_next(bytes, pos) {
        None => {
            return None;
        },
        Some(v) => v,
    };
    let b = match decode_next(bytes, pos) {
        None => {
            return None;
        },
        Some(v) => v,
    };
    let c = match decode_next(bytes, pos) {
        None => {
            return None;
        },
        Some(v) => v,
    };
    match decode_next(bytes, pos) {
        None => None,
        Some(d) => Some((a, b, c, d)),
    }
}

/// Read the node at a position and step over it, to where its length says.
pub fn decode_node(bytes: &[u8], pos: &mut usize) -> (r: Option<DecNode>)
    requires
        *old(pos) <= bytes@.len(),
    ensures
        match get_node(bytes@, *old(pos) as int) {
            Some((node, next)) => r matches Some(v) && dec_node(v) == node && *final(pos) == next
                && next > *old(pos),
            None => r is None,
        },
        *old(pos) <= *final(pos),
    decreases bytes@.len() - *old(pos), 0nat,
{
    let ghost start = *pos as int;
    let len = match try_read_q(bytes, pos) {
        None => {
            return None;
        },
        Some(v) => v,
    };
    let p1 = *pos;
    let header = match try_read_q(bytes, pos) {
        None => {
            return None;
        },
        Some(v) => v,
    };
    let eref = match decode_rank_list(bytes, pos, header / 2 % 2 == 1) {
        None => {
            return None;
        },
        Some(v) => v,
    };
    proof {
        assert(bytes.len() == bytes@.len());
    }
    if len > (usize::MAX - p1) as u64 {
        return None;
    }
    let end = p1 + len as usize;
    if header % 2 == 1 {
        match decode_quadrants(bytes, pos, Ghost(start)) {
            None => None,
            Some((a, b, c, d)) => {
                *pos = end;
                let kind = DecKind::Internal(Box::new(a), Box::new(b), Box::new(c), Box::new(d));
                Some(DecNode { eref, kind })
            },
        }
    } else {
        match decode_cands(bytes, pos, header / 4) {
            None => None,
            Some(cands) => {
                *pos = end;
                Some(DecNode { eref, kind: DecKind::Leaf(cands) })
            },
        }
    }
}

proof fn lemma_runs_readable(e: crate::artifact::RunsView)
    requires
        runs_ascend(e),
    ensures
        arcs_readable(wire_runs(e)),
{
    let w = wire_runs(e);
    assert forall|k: int| 0 <= k < w.len() implies (#[trigger] w[k]).0 <= u64::MAX && w[k].1.len()
        > 0 && runs_readable(w[k].1) by {
        assert(pairs_ascend(e[k].1));
        assert forall|j: int| 0 <= j < w[k].1.len() implies (#[trigger] w[k].1[j]).1 < u64::MAX by {
            assert(e[k].1[j].1 < u32::MAX);
        }
    }
}

/// What can be written can be read.
pub proof fn lemma_writable_readable(arena: Seq<NodeView>, ranks: Seq<u64>, idx: int)
    requires
        tree_writable(arena, ranks.len() as int),
        0 <= idx < arena.len(),
    ensures
        tree_readable(wire_node(arena, ranks, idx)),
    decreases arena.len() - idx,
{
    let node = arena[idx];
    assert(node_writable(arena, ranks.len() as int, idx));
    assert(ranks_readable(wire_eref(node.eref, ranks)));
    match node.q {
        Some(ch) => {
            lemma_writable_readable(arena, ranks, ch[0] as int);
            lemma_writable_readable(arena, ranks, ch[1] as int);
            lemma_writable_readable(arena, ranks, ch[2] as int);
            lemma_writable_readable(arena, ranks, ch[3] as int);
        },
        None => {
            let cands = node.cands;
            let keys = ranks_of(cand_zones(cands), ranks);
            let order = in_order(by_key(keys), keys.len() as int);
            lemma_in_order(by_key(keys), keys.len() as int);
            let w = wire_cands(cands, ranks);
            assert forall|k: int| 0 <= k < w.len() implies cand_readable(#[trigger] w[k]) by {
                let at = order[k];
                assert(0 <= at < cands.len());
                assert(cand_ascends(cands[at]));
                assert(w[k] == wire_cand(cands[at], keys[at] as int));
                lemma_runs_readable(cands[at].e);
                assert forall|j: int| 0 <= j < w[k].h.len() implies arcs_readable(
                    (#[trigger] w[k].h[j]).e,
                ) by {
                    assert(runs_ascend(cands[at].h[j].e));
                    lemma_runs_readable(cands[at].h[j].e);
                }
            }
        },
    }
}

} // verus!
