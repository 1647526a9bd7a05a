//! Reading a written quadtree section gives the tree back.
use vstd::prelude::*;

use crate::serialize::qvarint::{
    get_q, is_q, law_q_round_trip, law_zigzag_round_trip, q_at_least, q_bytes, zigzagged, Q_MAX,
};
use crate::serialize::stream::{holds_at, lemma_holds_two};
use crate::serialize::tree::{
    all_q, arc_before, flag, framed_body, get_arc, get_arcs, get_cands, get_holes, get_meta,
    get_more, get_node, get_quadrants, get_rank_list, get_ranks, get_wind, node_body, node_bytes,
    overlong, qs_bytes, tree_exact, vals_arc, vals_arcs, vals_cands, vals_head, vals_holes, vals_meta,
    vals_more, vals_ranks, wind_code, zeros, WireCand, WireHole, WireNode, WireRuns,
};

verus! {

/// The codes of the values stand at the position, and all are exact.
pub open spec fn coded_at(bytes: Seq<u8>, pos: int, vals: Seq<int>) -> bool {
    holds_at(bytes, pos, qs_bytes(vals)) && all_q(vals)
}

/// Where the codes of the values end.
pub open spec fn behind(pos: int, vals: Seq<int>) -> int {
    pos + qs_bytes(vals).len()
}

pub proof fn lemma_qs_concat(a: Seq<int>, b: Seq<int>)
    ensures
        qs_bytes(a + b) == qs_bytes(a) + qs_bytes(b),
    decreases b.len(),
{
    if b.len() == 0 {
        assert(a + b =~= a);
        assert(qs_bytes(a) + qs_bytes(b) =~= qs_bytes(a));
    } else {
        lemma_qs_concat(a, b.drop_last());
        assert((a + b).drop_last() =~= a + b.drop_last());
        assert((a + b).last() == b.last());
        assert(qs_bytes(a + b) =~= qs_bytes(a) + qs_bytes(b));
    }
}

pub proof fn lemma_qs_one(v: int)
    ensures
        qs_bytes(seq![v]) == q_bytes(v),
{
    assert(seq![v].drop_last() =~= Seq::<int>::empty());
    assert(qs_bytes(seq![v].drop_last()) =~= Seq::<u8>::empty());
    assert(qs_bytes(seq![v]) =~= q_bytes(v));
}

/// Two stretches of values.
pub proof fn lemma_coded_two(bytes: Seq<u8>, pos: int, a: Seq<int>, b: Seq<int>)
    requires
        coded_at(bytes, pos, a + b),
    ensures
        coded_at(bytes, pos, a),
        coded_at(bytes, behind(pos, a), b),
        behind(behind(pos, a), b) == behind(pos, a + b),
{
    lemma_qs_concat(a, b);
    lemma_holds_two(bytes, pos, qs_bytes(a), qs_bytes(b));
    assert forall|i: int| 0 <= i < a.len() implies is_q(#[trigger] a[i]) by {
        assert((a + b)[i] == a[i]);
    }
    assert forall|i: int| 0 <= i < b.len() implies is_q(#[trigger] b[i]) by {
        assert((a + b)[a.len() + i] == b[i]);
    }
}

/// The next value.
pub proof fn lemma_coded_next(bytes: Seq<u8>, pos: int, v: int, rest: Seq<int>) -> (p: int)
    requires
        coded_at(bytes, pos, seq![v] + rest),
    ensures
        get_q(bytes, pos) == Some((v, p)),
        is_q(v),
        v <= Q_MAX,
        pos < p <= bytes.len(),
        coded_at(bytes, p, rest),
        behind(p, rest) == behind(pos, seq![v] + rest),
{
    lemma_coded_two(bytes, pos, seq![v], rest);
    lemma_qs_one(v);
    assert(is_q(seq![v][0]));
    law_q_round_trip(bytes, pos, v);
    pos + q_bytes(v).len()
}

/// The ends of the runs can be read.
pub open spec fn runs_readable(runs: Seq<(int, int)>) -> bool {
    forall|j: int| 0 <= j < runs.len() ==> (#[trigger] runs[j]).1 < u64::MAX
}

/// Every listed arc has runs, and its index and runs can be read.
pub open spec fn arcs_readable(e: WireRuns) -> bool {
    forall|k: int|
        0 <= k < e.len() ==> (#[trigger] e[k]).0 <= u64::MAX && e[k].1.len() > 0 && runs_readable(
            e[k].1,
        )
}

pub open spec fn cand_readable(c: WireCand) -> bool {
    &&& c.z <= u64::MAX
    &&& arcs_readable(c.e)
    &&& forall|k: int| 0 <= k < c.h.len() ==> arcs_readable((#[trigger] c.h[k]).e)
}

pub open spec fn ranks_readable(ranks: Seq<int>) -> bool {
    forall|k: int| 0 <= k < ranks.len() ==> (#[trigger] ranks[k]) <= u64::MAX
}

/// Every part of the tree can be read.
pub open spec fn tree_readable(node: WireNode) -> bool
    decreases node,
{
    match node {
        WireNode::Inner(eref, a, b, c, d) => {
            &&& ranks_readable(eref)
            &&& tree_readable(*a) && tree_readable(*b) && tree_readable(*c) && tree_readable(*d)
        },
        WireNode::Leaf(eref, cands) => {
            &&& ranks_readable(eref)
            &&& forall|k: int| 0 <= k < cands.len() ==> cand_readable(#[trigger] cands[k])
        },
    }
}

proof fn lemma_more(bytes: Seq<u8>, pos: int, runs: Seq<(int, int)>, k: int)
    requires
        1 <= k <= runs.len(),
        runs_readable(runs),
        coded_at(bytes, pos, vals_more(runs, k)),
    ensures
        get_more(bytes, pos, runs.len() - k, runs[k - 1].1 + 1) == Some(
            (runs.skip(k), behind(pos, vals_more(runs, k))),
        ),
    decreases runs.len() - k,
{
    if k == runs.len() {
        assert(runs.skip(k) =~= Seq::empty());
    } else {
        let gap = runs[k].0 - (runs[k - 1].1 + 1);
        let len = runs[k].1 - runs[k].0;
        let rest = vals_more(runs, k + 1);
        assert(vals_more(runs, k) =~= seq![gap] + (seq![len] + rest));
        let p1 = lemma_coded_next(bytes, pos, gap, seq![len] + rest);
        let p2 = lemma_coded_next(bytes, p1, len, rest);
        lemma_more(bytes, p2, runs, k + 1);
        assert(runs[k].1 < u64::MAX);
        assert(seq![(runs[k].0, runs[k].1)] + runs.skip(k + 1) =~= runs.skip(k));
    }
}

proof fn lemma_arc(bytes: Seq<u8>, pos: int, prev: int, arc: (int, Seq<(int, int)>))
    requires
        arc.0 <= u64::MAX,
        arc.1.len() > 0,
        runs_readable(arc.1),
        coded_at(bytes, pos, vals_arc(prev, arc)),
    ensures
        get_arc(bytes, pos, prev) == Some((arc, behind(pos, vals_arc(prev, arc)))),
{
    let runs = arc.1;
    let more = runs.len() > 1;
    let v = 2 * (arc.0 - prev) + flag(more);
    let first = runs[0].0;
    let len = runs[0].1 - runs[0].0;
    let tail = if more {
        seq![runs.len() - 1] + vals_more(runs, 1)
    } else {
        Seq::empty()
    };
    assert(vals_arc(prev, arc) =~= seq![v] + (seq![first] + (seq![len] + tail)));
    let p1 = lemma_coded_next(bytes, pos, v, seq![first] + (seq![len] + tail));
    let p2 = lemma_coded_next(bytes, p1, first, seq![len] + tail);
    let p3 = lemma_coded_next(bytes, p2, len, tail);
    assert(runs[0].1 < u64::MAX);
    if more {
        let p4 = lemma_coded_next(bytes, p3, runs.len() - 1, vals_more(runs, 1));
        lemma_more(bytes, p4, runs, 1);
        assert(seq![(first, first + len)] + runs.skip(1) =~= runs);
    } else {
        assert(seq![(first, first + len)] =~= runs);
    }
}

proof fn lemma_arcs(bytes: Seq<u8>, pos: int, e: WireRuns, k: int)
    requires
        0 <= k <= e.len(),
        arcs_readable(e),
        coded_at(bytes, pos, vals_arcs(e, k)),
    ensures
        get_arcs(bytes, pos, e.len() - k, arc_before(e, k)) == Some(
            (e.skip(k), behind(pos, vals_arcs(e, k))),
        ),
    decreases e.len() - k,
{
    if k == e.len() {
        assert(e.skip(k) =~= Seq::empty());
    } else {
        let head = vals_arc(arc_before(e, k), e[k]);
        let rest = vals_arcs(e, k + 1);
        lemma_coded_two(bytes, pos, head, rest);
        assert(e[k].0 <= u64::MAX);
        lemma_arc(bytes, pos, arc_before(e, k), e[k]);
        lemma_arcs(bytes, behind(pos, head), e, k + 1);
        assert(seq![e[k]] + e.skip(k + 1) =~= e.skip(k));
    }
}

proof fn lemma_holes(bytes: Seq<u8>, pos: int, h: Seq<WireHole>, k: int)
    requires
        0 <= k <= h.len(),
        forall|j: int| 0 <= j < h.len() ==> arcs_readable((#[trigger] h[j]).e),
        coded_at(bytes, pos, vals_holes(h, k)),
    ensures
        get_holes(bytes, pos, h.len() - k) == Some(
            (h.skip(k), behind(pos, vals_holes(h, k))),
        ),
    decreases h.len() - k,
{
    if k == h.len() {
        assert(h.skip(k) =~= Seq::empty());
    } else {
        let x = h[k];
        let n = x.e.len() as int;
        let arcs = vals_arcs(x.e, 0);
        let rest = vals_holes(h, k + 1);
        assert(vals_holes(h, k) =~= seq![x.i] + (seq![zigzagged(x.w)] + (seq![n] + (arcs
            + rest))));
        let p1 = lemma_coded_next(bytes, pos, x.i, seq![zigzagged(x.w)] + (seq![n] + (arcs + rest)));
        let p2 = lemma_coded_next(bytes, p1, zigzagged(x.w), seq![n] + (arcs + rest));
        let p3 = lemma_coded_next(bytes, p2, n, arcs + rest);
        lemma_coded_two(bytes, p3, arcs, rest);
        assert(arcs_readable(h[k].e));
        lemma_arcs(bytes, p3, x.e, 0);
        assert(x.e.skip(0) =~= x.e);
        law_zigzag_round_trip(x.w, 0);
        lemma_holes(bytes, behind(p3, arcs), h, k + 1);
        assert(WireHole { i: x.i, w: x.w, e: x.e } == x);
        assert(seq![x] + h.skip(k + 1) =~= h.skip(k));
    }
}

proof fn lemma_meta(bytes: Seq<u8>, pos: int, c: WireCand)
    requires
        cand_readable(c),
        coded_at(bytes, pos, vals_meta(c)),
    ensures
        get_meta(bytes, pos, c.z) == Some((c, behind(pos, vals_meta(c)))),
{
    let code = wind_code(c.w);
    let packed = c.e.len() * 8 + code * 2 + flag(c.h.len() > 0);
    let escape = if code == 3 {
        seq![zigzagged(c.w)]
    } else {
        Seq::empty()
    };
    let arcs = vals_arcs(c.e, 0);
    let holes = if c.h.len() > 0 {
        seq![c.h.len() as int] + vals_holes(c.h, 0)
    } else {
        Seq::empty()
    };
    let p1 = lemma_coded_next(bytes, pos, packed, escape + (arcs + holes));
    lemma_packed(c.e.len() as int, code, flag(c.h.len() > 0));
    lemma_coded_two(bytes, p1, escape, arcs + holes);
    let p2 = behind(p1, escape);
    if code == 3 {
        assert(escape =~= seq![zigzagged(c.w)] + Seq::<int>::empty());
        lemma_coded_next(bytes, p1, zigzagged(c.w), Seq::empty());
        law_zigzag_round_trip(c.w, 0);
        assert(qs_bytes(Seq::<int>::empty()) =~= Seq::<u8>::empty());
    } else {
        assert(qs_bytes(escape) =~= Seq::<u8>::empty());
    }
    assert(get_wind(bytes, p1, code) == Some((c.w, p2)));
    lemma_coded_two(bytes, p2, arcs, holes);
    lemma_arcs(bytes, p2, c.e, 0);
    assert(c.e.skip(0) =~= c.e);
    let p3 = behind(p2, arcs);
    if c.h.len() > 0 {
        let p = lemma_coded_next(bytes, p3, c.h.len() as int, vals_holes(c.h, 0));
        lemma_holes(bytes, p, c.h, 0);
        assert(c.h.skip(0) =~= c.h);
    } else {
        assert(qs_bytes(holes) =~= Seq::<u8>::empty());
        assert(c.h =~= Seq::empty());
    }
    assert(WireCand { z: c.z, w: c.w, e: c.e, h: c.h } == c);
}

proof fn lemma_packed(n: int, code: int, f: int)
    requires
        0 <= n,
        0 <= code < 4,
        0 <= f < 2,
    ensures
        (n * 8 + code * 2 + f) / 8 == n,
        (n * 8 + code * 2 + f) / 2 % 4 == code,
        (n * 8 + code * 2 + f) % 2 == f,
{
}

#[verifier::spinoff_prover]
#[verifier::rlimit(40)]
proof fn lemma_cands(bytes: Seq<u8>, pos: int, cands: Seq<WireCand>, k: int)
    requires
        0 <= k <= cands.len(),
        forall|j: int| 0 <= j < cands.len() ==> cand_readable(#[trigger] cands[j]),
        coded_at(bytes, pos, vals_cands(cands, k)),
    ensures
        get_cands(
            bytes,
            pos,
            cands.len() - k,
            if k == 0 {
                0
            } else {
                cands[k - 1].z
            },
        ) == Some((cands.skip(k), behind(pos, vals_cands(cands, k)))),
    decreases cands.len() - k,
{
    if k == cands.len() {
        assert(cands.skip(k) =~= Seq::empty());
    } else {
        let c = cands[k];
        let prev = if k == 0 {
            0
        } else {
            cands[k - 1].z
        };
        let rest = vals_cands(cands, k + 1);
        let p1 = lemma_coded_next(bytes, pos, c.z - prev, vals_meta(c) + rest);
        lemma_coded_two(bytes, p1, vals_meta(c), rest);
        assert(cand_readable(cands[k]));
        lemma_meta(bytes, p1, c);
        lemma_cands(bytes, behind(p1, vals_meta(c)), cands, k + 1);
        assert(seq![c] + cands.skip(k + 1) =~= cands.skip(k));
    }
}

proof fn lemma_ranks(bytes: Seq<u8>, pos: int, ranks: Seq<int>, k: int)
    requires
        0 <= k <= ranks.len(),
        ranks_readable(ranks),
        coded_at(bytes, pos, vals_ranks(ranks, k)),
    ensures
        get_ranks(
            bytes,
            pos,
            ranks.len() - k,
            if k == 0 {
                0
            } else {
                ranks[k - 1]
            },
        ) == Some((ranks.skip(k), behind(pos, vals_ranks(ranks, k)))),
    decreases ranks.len() - k,
{
    if k == ranks.len() {
        assert(ranks.skip(k) =~= Seq::empty());
    } else {
        let prev = if k == 0 {
            0
        } else {
            ranks[k - 1]
        };
        let p = lemma_coded_next(bytes, pos, ranks[k] - prev, vals_ranks(ranks, k + 1));
        assert(ranks[k] <= u64::MAX);
        lemma_ranks(bytes, p, ranks, k + 1);
        assert(seq![ranks[k]] + ranks.skip(k + 1) =~= ranks.skip(k));
    }
}

/// The header and the ranks of the settled zones.
proof fn lemma_head(bytes: Seq<u8>, pos: int, header: int, eref: Seq<int>) -> (p: int)
    requires
        ranks_readable(eref),
        coded_at(bytes, pos, vals_head(header, eref)),
    ensures
        get_q(bytes, pos) == Some((header, p)),
        pos < p <= bytes.len(),
        get_rank_list(bytes, p, eref.len() > 0) == Some(
            (eref, behind(pos, vals_head(header, eref))),
        ),
        p <= behind(pos, vals_head(header, eref)),
{
    if eref.len() > 0 {
        let n = eref.len() as int;
        let p = lemma_coded_next(bytes, pos, header, seq![n] + vals_ranks(eref, 0));
        let p2 = lemma_coded_next(bytes, p, n, vals_ranks(eref, 0));
        lemma_ranks(bytes, p2, eref, 0);
        assert(eref.skip(0) =~= eref);
        p
    } else {
        assert(vals_head(header, eref) =~= seq![header] + Seq::<int>::empty());
        let p = lemma_coded_next(bytes, pos, header, Seq::empty());
        assert(qs_bytes(Seq::<int>::empty()) =~= Seq::<u8>::empty());
        assert(eref =~= Seq::empty());
        p
    }
}

/// Opening a framed body.
proof fn lemma_framed(bytes: Seq<u8>, pos: int, body: Seq<u8>) -> (p: int)
    requires
        holds_at(bytes, pos, framed_body(body)),
        q_at_least(body.len() as int) <= Q_MAX,
    ensures
        get_q(bytes, pos) == Some((q_at_least(body.len() as int), p)),
        pos < p,
        holds_at(bytes, p, body),
        p + q_at_least(body.len() as int) == pos + framed_body(body).len(),
        p + body.len() <= p + q_at_least(body.len() as int) <= bytes.len(),
{
    let len = q_at_least(body.len() as int);
    let rest = body + zeros(len - body.len());
    lemma_holds_two(bytes, pos, q_bytes(len), rest);
    law_q_round_trip(bytes, pos, len);
    let p = pos + q_bytes(len).len();
    lemma_holds_two(bytes, p, body, zeros(len - body.len()));
    p
}

/// Putting an inner node together out of what is read of it.
#[verifier::spinoff_prover]
#[verifier::rlimit(40)]
proof fn lemma_inner_read(
    bytes: Seq<u8>,
    pos: int,
    len: int,
    p1: int,
    p2: int,
    eref: Seq<int>,
    p3: int,
    a: WireNode,
    p4: int,
    b: WireNode,
    p5: int,
    c: WireNode,
    p6: int,
    d: WireNode,
    p7: int,
)
    requires
        get_q(bytes, pos) == Some((len, p1)),
        get_q(bytes, p1) == Some((2 * flag(eref.len() > 0) + 1, p2)),
        get_rank_list(bytes, p2, eref.len() > 0) == Some((eref, p3)),
        get_node(bytes, p3) == Some((a, p4)),
        get_node(bytes, p4) == Some((b, p5)),
        get_node(bytes, p5) == Some((c, p6)),
        get_node(bytes, p6) == Some((d, p7)),
        pos < p3 <= p4 <= p5 <= p6 <= p7 <= p1 + len <= bytes.len(),
    ensures
        get_node(bytes, pos) == Some(
            (
                WireNode::Inner(eref, Box::new(a), Box::new(b), Box::new(c), Box::new(d)),
                p1 + len,
            ),
        ),
{
    let header = 2 * flag(eref.len() > 0) + 1;
    assert(header % 2 == 1);
    assert((header / 2 % 2 == 1) == (eref.len() > 0));
    assert(get_quadrants(bytes, pos, p3) == Some((a, b, c, d)));
}

/// Putting a leaf together out of what is read of it.
#[verifier::spinoff_prover]
#[verifier::rlimit(40)]
proof fn lemma_leaf_read(
    bytes: Seq<u8>,
    pos: int,
    len: int,
    p1: int,
    p2: int,
    eref: Seq<int>,
    p3: int,
    cands: Seq<WireCand>,
    p4: int,
)
    requires
        get_q(bytes, pos) == Some((len, p1)),
        get_q(bytes, p1) == Some((4 * cands.len() + 2 * flag(eref.len() > 0), p2)),
        get_rank_list(bytes, p2, eref.len() > 0) == Some((eref, p3)),
        get_cands(bytes, p3, cands.len() as int, 0) == Some((cands, p4)),
        p4 <= p1 + len <= bytes.len(),
    ensures
        get_node(bytes, pos) == Some((WireNode::Leaf(eref, cands), p1 + len)),
{
    lemma_leaf_header(cands.len() as int, flag(eref.len() > 0));
}

/// Reading a written tree gives it back, wherever it stands.
pub proof fn law_tree_round_trip(bytes: Seq<u8>, pos: int, node: WireNode)
    requires
        tree_readable(node),
        tree_exact(node),
        overlong(node) is None,
        holds_at(bytes, pos, node_bytes(node)),
    ensures
        get_node(bytes, pos) == Some((node, pos + node_bytes(node).len())),
    decreases node, 1nat,
{
    match node {
        WireNode::Inner(eref, a, b, c, d) => {
            lemma_inner_round_trip(bytes, pos, eref, *a, *b, *c, *d);
        },
        WireNode::Leaf(eref, cands) => {
            lemma_leaf_round_trip(bytes, pos, eref, cands);
        },
    }
}

proof fn lemma_leaf_round_trip(bytes: Seq<u8>, pos: int, eref: Seq<int>, cands: Seq<WireCand>)
    requires
        tree_readable(WireNode::Leaf(eref, cands)),
        tree_exact(WireNode::Leaf(eref, cands)),
        overlong(WireNode::Leaf(eref, cands)) is None,
        holds_at(bytes, pos, node_bytes(WireNode::Leaf(eref, cands))),
    ensures
        get_node(bytes, pos) == Some(
            (
                WireNode::Leaf(eref, cands),
                pos + node_bytes(WireNode::Leaf(eref, cands)).len(),
            ),
        ),
{
    let node = WireNode::Leaf(eref, cands);
    let body = node_body(node);
    let len = q_at_least(body.len() as int);
    let header = 4 * cands.len() + 2 * flag(eref.len() > 0);
    let head = vals_head(header, eref);
    let p1 = lemma_framed(bytes, pos, body);
    assert(coded_at(bytes, p1, head + vals_cands(cands, 0)));
    lemma_coded_two(bytes, p1, head, vals_cands(cands, 0));
    let p2 = lemma_head(bytes, p1, header, eref);
    let p3 = behind(p1, head);
    lemma_cands(bytes, p3, cands, 0);
    assert(cands.skip(0) =~= cands);
    lemma_leaf_read(
        bytes,
        pos,
        len,
        p1,
        p2,
        eref,
        p3,
        cands,
        behind(p3, vals_cands(cands, 0)),
    );
}

proof fn lemma_inner_round_trip(
    bytes: Seq<u8>,
    pos: int,
    eref: Seq<int>,
    a: WireNode,
    b: WireNode,
    c: WireNode,
    d: WireNode,
)
    requires
        ({
            let node = WireNode::Inner(eref, Box::new(a), Box::new(b), Box::new(c), Box::new(d));
            &&& tree_readable(node)
            &&& tree_exact(node)
            &&& overlong(node) is None
            &&& holds_at(bytes, pos, node_bytes(node))
        }),
    ensures
        ({
            let node = WireNode::Inner(eref, Box::new(a), Box::new(b), Box::new(c), Box::new(d));
            get_node(bytes, pos) == Some((node, pos + node_bytes(node).len()))
        }),
    decreases WireNode::Inner(eref, Box::new(a), Box::new(b), Box::new(c), Box::new(d)), 0nat,
{
    let node = WireNode::Inner(eref, Box::new(a), Box::new(b), Box::new(c), Box::new(d));
    let body = node_body(node);
    let len = q_at_least(body.len() as int);
    let header = 2 * flag(eref.len() > 0) + 1;
    let head = vals_head(header, eref);
    let (na, nb, nc, nd) = (node_bytes(a), node_bytes(b), node_bytes(c), node_bytes(d));
    assert(body == qs_bytes(head) + (na + (nb + (nc + nd))));
    let p1 = lemma_framed(bytes, pos, body);
    lemma_holds_two(bytes, p1, qs_bytes(head), na + (nb + (nc + nd)));
    let p2 = lemma_head(bytes, p1, header, eref);
    let p3 = behind(p1, head);
    lemma_holds_two(bytes, p3, na, nb + (nc + nd));
    let p4 = p3 + na.len();
    lemma_holds_two(bytes, p4, nb, nc + nd);
    let p5 = p4 + nb.len();
    lemma_holds_two(bytes, p5, nc, nd);
    let p6 = p5 + nc.len();
    let p7 = p6 + nd.len();
    law_tree_round_trip(bytes, p3, a);
    law_tree_round_trip(bytes, p4, b);
    law_tree_round_trip(bytes, p5, c);
    law_tree_round_trip(bytes, p6, d);
    lemma_inner_read(bytes, pos, len, p1, p2, eref, p3, a, p4, b, p5, c, p6, d, p7);
}

proof fn lemma_leaf_header(n: int, f: int)
    requires
        0 <= n,
        0 <= f < 2,
    ensures
        (4 * n + 2 * f) / 4 == n,
        (4 * n + 2 * f) / 2 % 2 == f,
        (4 * n + 2 * f) % 2 == 0,
{
}

/// Some node of the tree has a body of that many bytes.
pub open spec fn has_body(node: WireNode, n: int) -> bool
    decreases node,
{
    ||| n == node_body(node).len()
    ||| match node {
        WireNode::Leaf(_, _) => false,
        WireNode::Inner(_, a, b, c, d) => {
            ||| has_body(*a, n)
            ||| has_body(*b, n)
            ||| has_body(*c, n)
            ||| has_body(*d, n)
        },
    }
}

/// A tree is refused exactly where a body has no length code, and the length that
/// is reported is that of such a body.
pub proof fn law_refused_body_has_no_code(node: WireNode, n: int)
    ensures
        overlong(node) matches Some(m) ==> has_body(node, m) && q_at_least(m) > Q_MAX,
        overlong(node) is None && has_body(node, n) ==> q_at_least(n) <= Q_MAX,
    decreases node,
{
    match node {
        WireNode::Leaf(_, _) => {},
        WireNode::Inner(_, a, b, c, d) => {
            law_refused_body_has_no_code(*a, n);
            law_refused_body_has_no_code(*b, n);
            law_refused_body_has_no_code(*c, n);
            law_refused_body_has_no_code(*d, n);
        },
    }
}

/// A winding number of at most one is coded as its zigzag, any other by the escape
/// behind which its zigzag follows.
pub proof fn law_small_windings_are_zigzagged(w: int)
    ensures
        -1 <= w <= 1 ==> wind_code(w) == zigzagged(w),
        w < -1 || w > 1 ==> wind_code(w) == 3,
{
}

/// The sum of the first `k` values.
pub open spec fn sum_of(vals: Seq<int>, k: int) -> int
    decreases k,
{
    if k <= 0 {
        0
    } else {
        sum_of(vals, k - 1) + vals[k - 1]
    }
}

proof fn lemma_rank_steps(ranks: Seq<int>, k: int)
    requires
        0 <= k <= ranks.len(),
    ensures
        vals_ranks(ranks, k).len() == ranks.len() - k,
        forall|i: int|
            0 <= i < ranks.len() - k ==> (#[trigger] vals_ranks(ranks, k)[i]) == ranks[k + i] - (
            if k + i == 0 {
                0
            } else {
                ranks[k + i - 1]
            }),
    decreases ranks.len() - k,
{
    if k < ranks.len() {
        lemma_rank_steps(ranks, k + 1);
        let (vals, rest) = (vals_ranks(ranks, k), vals_ranks(ranks, k + 1));
        assert forall|i: int| 0 <= i < ranks.len() - k implies (#[trigger] vals[i]) == ranks[k + i]
            - (if k + i == 0 {
            0
        } else {
            ranks[k + i - 1]
        }) by {
            if i > 0 {
                assert(vals[i] == rest[i - 1]);
            }
        }
    }
}

/// Ranks are written as steps: the values written so far add up to the rank.
pub proof fn law_ranks_are_written_as_steps(ranks: Seq<int>, k: int)
    requires
        0 < k <= ranks.len(),
    ensures
        vals_ranks(ranks, 0).len() == ranks.len(),
        sum_of(vals_ranks(ranks, 0), k) == ranks[k - 1],
    decreases k,
{
    lemma_rank_steps(ranks, 0);
    let vals = vals_ranks(ranks, 0);
    assert(vals[k - 1] == ranks[k - 1] - (if k == 1 {
        0
    } else {
        ranks[k - 2]
    }));
    if k > 1 {
        law_ranks_are_written_as_steps(ranks, k - 1);
    } else {
        assert(sum_of(vals, 0) == 0);
    }
}

} // verus!
