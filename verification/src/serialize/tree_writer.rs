//! Writing the quadtree section of the binary format.
use vstd::prelude::*;

use crate::artifact::{
    arena_view, cands_view, runs_view, ArcRun, Cand, CandView, HoleCand, HoleView, Node, NodeView,
    RunsView,
};
use crate::serialize::order::{by_key, in_order, is_sorted, lists_all, positions, sort_by_key};
use crate::serialize::qvarint::{
    is_q, put_q, q_at_least, representable, zigzag, zigzagged, Q_MAX, write_q,
};
use crate::serialize::stream::push_bytes;
use crate::serialize::tree::{
    all_q, arc_before, flag, framed_body, node_body, node_bytes, overlong, qs_bytes, tree_exact,
    vals_arc, vals_arcs, vals_cands, vals_head, vals_holes, vals_meta, vals_more, vals_ranks,
    wind_code, zeros, WireCand, WireHole, WireNode, WireRuns,
};
use crate::serialize::tree_laws::{lemma_qs_concat, lemma_qs_one};

verus! {

pub open spec fn wire_pairs(runs: Seq<(u32, u32)>) -> Seq<(int, int)> {
    Seq::new(runs.len(), |j: int| (runs[j].0 as int, runs[j].1 as int))
}

/// Runs as they go on the wire.
pub open spec fn wire_runs(e: RunsView) -> WireRuns {
    Seq::new(e.len(), |k: int| (e[k].0 as int, wire_pairs(e[k].1)))
}

/// Holes as they go on the wire.
pub open spec fn wire_holes(h: Seq<HoleView>) -> Seq<WireHole> {
    Seq::new(
        h.len(),
        |k: int| WireHole { i: h[k].i as int, w: h[k].w as int, e: wire_runs(h[k].e) },
    )
}

/// A candidate as it goes on the wire, under its zone's rank.
pub open spec fn wire_cand(c: CandView, rank: int) -> WireCand {
    WireCand { z: rank, w: c.w as int, e: wire_runs(c.e), h: wire_holes(c.h) }
}

/// The ranks of zones.
pub open spec fn ranks_of(ids: Seq<usize>, ranks: Seq<u64>) -> Seq<u64> {
    Seq::new(ids.len(), |i: int| ranks[ids[i] as int])
}

/// The ranks of settled zones in ascending order.
pub open spec fn wire_eref(eref: Seq<usize>, ranks: Seq<u64>) -> Seq<int> {
    let keys = ranks_of(eref, ranks);
    let order = in_order(by_key(keys), keys.len() as int);
    Seq::new(keys.len(), |i: int| keys[order[i]] as int)
}

/// The zones of candidates.
pub open spec fn cand_zones(cands: Seq<CandView>) -> Seq<usize> {
    Seq::new(cands.len(), |i: int| cands[i].z)
}

/// The candidates in ascending order of rank.
pub open spec fn wire_cands(cands: Seq<CandView>, ranks: Seq<u64>) -> Seq<WireCand> {
    let keys = ranks_of(cand_zones(cands), ranks);
    let order = in_order(by_key(keys), keys.len() as int);
    Seq::new(keys.len(), |i: int| wire_cand(cands[order[i]], keys[order[i]] as int))
}

/// The tree below a node as it goes on the wire.
pub open spec fn wire_node(arena: Seq<NodeView>, ranks: Seq<u64>, idx: int) -> WireNode
    decreases arena.len() - idx,
{
    let node = arena[idx];
    let eref = wire_eref(node.eref, ranks);
    match node.q {
        Some(ch) if idx < ch[0] < arena.len() && idx < ch[1] < arena.len() && idx < ch[2]
            < arena.len() && idx < ch[3] < arena.len() => {
            WireNode::Inner(
                eref,
                Box::new(wire_node(arena, ranks, ch[0] as int)),
                Box::new(wire_node(arena, ranks, ch[1] as int)),
                Box::new(wire_node(arena, ranks, ch[2] as int)),
                Box::new(wire_node(arena, ranks, ch[3] as int)),
            )
        },
        _ => WireNode::Leaf(eref, wire_cands(node.cands, ranks)),
    }
}

/// Runs that follow each other.
pub open spec fn pairs_ascend(runs: Seq<(u32, u32)>) -> bool {
    &&& runs.len() > 0
    &&& forall|j: int| 0 <= j < runs.len() ==> (#[trigger] runs[j]).0 <= runs[j].1 < u32::MAX
    &&& forall|j: int| 1 <= j < runs.len() ==> runs[j - 1].1 < (#[trigger] runs[j]).0
}

/// Arcs in ascending order, each with runs that follow each other.
pub open spec fn runs_ascend(e: RunsView) -> bool {
    &&& forall|k: int| 0 <= k < e.len() ==> pairs_ascend((#[trigger] e[k]).1)
    &&& forall|k: int| 1 <= k < e.len() ==> e[k - 1].0 <= (#[trigger] e[k]).0
}

/// All runs of a candidate ascend.
pub open spec fn cand_ascends(c: CandView) -> bool {
    &&& runs_ascend(c.e)
    &&& forall|k: int| 0 <= k < c.h.len() ==> runs_ascend((#[trigger] c.h[k]).e)
}

/// A node that can be written.
pub open spec fn node_writable(arena: Seq<NodeView>, n: int, idx: int) -> bool {
    let node = arena[idx];
    &&& forall|i: int| 0 <= i < node.eref.len() ==> (#[trigger] node.eref[i]) < n
    &&& forall|i: int|
        0 <= i < node.cands.len() ==> (#[trigger] node.cands[i]).z < n && cand_ascends(
            node.cands[i],
        )
    &&& node.q matches Some(ch) ==> idx < ch[0] < arena.len() && idx < ch[1] < arena.len() && idx
        < ch[2] < arena.len() && idx < ch[3] < arena.len()
}

/// A tree over `n` zones that can be written.
pub open spec fn tree_writable(arena: Seq<NodeView>, n: int) -> bool {
    forall|idx: int| 0 <= idx < arena.len() ==> #[trigger] node_writable(arena, n, idx)
}

/// Bytes written so far, and whether every value had an exact code.
pub struct QBuf {
    pub bytes: Vec<u8>,
    pub exact: bool,
}

/// The values have been written.
pub open spec fn emitted(before: QBuf, after: QBuf, vals: Seq<int>) -> bool {
    &&& after.bytes@ == before.bytes@ + qs_bytes(vals)
    &&& after.exact == (before.exact && all_q(vals))
}

proof fn lemma_emitted_none(b: QBuf)
    ensures
        emitted(b, b, Seq::empty()),
{
    assert(b.bytes@ + qs_bytes(Seq::<int>::empty()) =~= b.bytes@);
}

proof fn lemma_all_q_concat(a: Seq<int>, b: Seq<int>)
    ensures
        all_q(a + b) <==> all_q(a) && all_q(b),
{
    if all_q(a + b) {
        assert forall|i: int| 0 <= i < a.len() implies is_q(#[trigger] a[i]) by {
            assert((a + b)[i] == a[i]);
        }
        assert forall|i: int| 0 <= i < b.len() implies is_q(#[trigger] b[i]) by {
            assert((a + b)[a.len() + i] == b[i]);
        }
    }
}

proof fn lemma_emitted_two(x: QBuf, y: QBuf, z: QBuf, a: Seq<int>, b: Seq<int>)
    requires
        emitted(x, y, a),
        emitted(y, z, b),
    ensures
        emitted(x, z, a + b),
{
    lemma_qs_concat(a, b);
    lemma_all_q_concat(a, b);
    assert(z.bytes@ =~= x.bytes@ + qs_bytes(a + b));
}

impl QBuf {
    pub fn new() -> (r: QBuf)
        ensures
            r.bytes@.len() == 0,
            r.exact,
    {
        QBuf { bytes: Vec::new(), exact: true }
    }

    /// Write one value.
    pub fn put(&mut self, q: u64)
        ensures
            emitted(*old(self), *final(self), seq![q as int]),
    {
        let ok = put_q(&mut self.bytes, q);
        self.exact = self.exact && ok;
        proof {
            lemma_qs_one(q as int);
            let vals = seq![q as int];
            assert(all_q(vals) == is_q(q as int)) by {
                if all_q(vals) {
                    assert(is_q(vals[0]));
                }
            }
        }
    }
}

impl QBuf {
    /// Write a count times a scale, plus what is left below the scale.
    fn put_scaled(&mut self, count: usize, scale: u64, low: u64)
        requires
            1 <= scale <= 8,
            low < 8,
        ensures
            emitted(*old(self), *final(self), seq![count * scale + low]),
    {
        if count as u64 > Q_MAX {
            // no code is that large
            self.put(u64::MAX);
            proof {
                let v = count * scale + low;
                assert(v > Q_MAX) by (nonlinear_arith)
                    requires
                        v == count * scale + low,
                        count > Q_MAX,
                        scale >= 1,
                        low >= 0,
                ;
                lemma_qs_one(v);
                lemma_qs_one(u64::MAX as int);
                assert(!is_q(seq![v][0]));
                assert(!is_q(seq![u64::MAX as int][0]));
            }
        } else {
            proof {
                assert(0 <= count * scale <= 8 * Q_MAX) by (nonlinear_arith)
                    requires
                        0 <= count <= Q_MAX,
                        1 <= scale <= 8,
                ;
            }
            self.put(count as u64 * scale + low);
        }
    }
}

fn bit(b: bool) -> (r: u64)
    ensures
        r == flag(b),
{
    if b {
        1
    } else {
        0
    }
}

/// The runs after the first one.
#[verifier::spinoff_prover]
fn encode_more(runs: &[(u32, u32)], buf: &mut QBuf)
    requires
        pairs_ascend(runs@),
    ensures
        emitted(*old(buf), *final(buf), vals_more(wire_pairs(runs@), 1)),
{
    let ghost w = wire_pairs(runs@);
    let ghost start = *buf;
    let ghost mut done = Seq::<int>::empty();
    let mut k: usize = 1;
    proof {
        lemma_emitted_none(start);
        assert(done + vals_more(w, 1) =~= vals_more(w, 1));
    }
    while k < runs.len()
        invariant
            1 <= k <= runs@.len(),
            pairs_ascend(runs@),
            w == wire_pairs(runs@),
            start == *old(buf),
            emitted(start, *buf, done),
            done + vals_more(w, k as int) == vals_more(w, 1),
        decreases runs.len() - k,
    {
        let (f, l) = runs[k];
        proof {
            assert(runs@[k as int].0 <= runs@[k as int].1);
            assert(runs@[k - 1].1 < runs@[k as int].0);
        }
        let from = runs[k - 1].1 as u64 + 1;
        let ghost b0 = *buf;
        buf.put(f as u64 - from);
        let ghost b1 = *buf;
        buf.put(l as u64 - f as u64);
        proof {
            let two = seq![(f - from) as int] + seq![(l - f) as int];
            lemma_emitted_two(b0, b1, *buf, seq![(f - from) as int], seq![(l - f) as int]);
            lemma_emitted_two(start, b0, *buf, done, two);
            assert(w[k as int].0 == f && w[k as int].1 == l && w[k - 1].1 + 1 == from);
            assert(two =~= seq![w[k as int].0 - (w[k - 1].1 + 1), w[k as int].1 - w[k as int].0]);
            assert(done + vals_more(w, k as int) =~= (done + two) + vals_more(w, k + 1));
            done = done + two;
        }
        k += 1;
    }
    proof {
        assert(done + vals_more(w, k as int) =~= done);
    }
}

/// One arc's runs.
fn encode_arc_run(prev: u32, ar: &ArcRun, buf: &mut QBuf)
    requires
        prev <= ar.a,
        pairs_ascend(ar.runs@),
    ensures
        emitted(
            *old(buf),
            *final(buf),
            vals_arc(prev as int, (ar.a as int, wire_pairs(ar.runs@))),
        ),
{
    let ghost w = wire_pairs(ar.runs@);
    let more = ar.runs.len() > 1;
    let (f, l) = ar.runs[0];
    proof {
        assert(ar.runs@[0].0 <= ar.runs@[0].1);
        assert(w[0] == (f as int, l as int));
    }
    let ghost b0 = *buf;
    let v = (ar.a - prev) as u64 * 2 + bit(more);
    buf.put(v);
    let ghost b1 = *buf;
    buf.put(f as u64);
    let ghost b2 = *buf;
    buf.put(l as u64 - f as u64);
    let ghost b3 = *buf;
    let ghost head = seq![v as int] + seq![f as int] + seq![(l - f) as int];
    proof {
        lemma_emitted_two(b0, b1, b2, seq![v as int], seq![f as int]);
        lemma_emitted_two(b0, b2, b3, seq![v as int] + seq![f as int], seq![(l - f) as int]);
        assert(head =~= seq![
            2 * (ar.a - prev) + flag(w.len() > 1),
            w[0].0,
            w[0].1 - w[0].0,
        ]);
    }
    if more {
        buf.put((ar.runs.len() - 1) as u64);
        let ghost b4 = *buf;
        encode_more(ar.runs.as_slice(), buf);
        proof {
            let n = seq![w.len() - 1];
            lemma_emitted_two(b3, b4, *buf, n, vals_more(w, 1));
            lemma_emitted_two(b0, b3, *buf, head, n + vals_more(w, 1));
        }
    }
}

/// Each crossing arc: (arcIdxDelta << 1 | hasMoreRuns), then the first edge run
/// inline (gap, len); only when hasMoreRuns is the remaining run count + runs
/// stored.
pub fn encode_arc_runs(e: &[ArcRun], buf: &mut QBuf)
    requires
        runs_ascend(runs_view(e@)),
    ensures
        emitted(*old(buf), *final(buf), vals_arcs(wire_runs(runs_view(e@)), 0)),
{
    let ghost view = runs_view(e@);
    let ghost w = wire_runs(view);
    let ghost start = *buf;
    let ghost mut done = Seq::<int>::empty();
    let mut prev: u32 = 0;
    let mut k: usize = 0;
    proof {
        lemma_emitted_none(start);
        assert(done + vals_arcs(w, 0) =~= vals_arcs(w, 0));
    }
    while k < e.len()
        invariant
            0 <= k <= e@.len(),
            view == runs_view(e@),
            runs_ascend(view),
            w == wire_runs(view),
            start == *old(buf),
            prev == arc_before(w, k as int),
            emitted(start, *buf, done),
            done + vals_arcs(w, k as int) == vals_arcs(w, 0),
        decreases e.len() - k,
    {
        proof {
            assert(view[k as int] == (e@[k as int].a, e@[k as int].runs@));
            assert(pairs_ascend(view[k as int].1));
            if k > 0 {
                assert(view[k - 1].0 <= view[k as int].0);
            }
        }
        let ghost b0 = *buf;
        encode_arc_run(prev, &e[k], buf);
        proof {
            let one = vals_arc(arc_before(w, k as int), w[k as int]);
            lemma_emitted_two(start, b0, *buf, done, one);
            assert(done + vals_arcs(w, k as int) =~= (done + one) + vals_arcs(w, k + 1));
            done = done + one;
        }
        prev = e[k].a;
        k += 1;
    }
    proof {
        assert(done + vals_arcs(w, k as int) =~= done);
    }
}

/// The holes of a candidate.
fn encode_holes(h: &[HoleCand], buf: &mut QBuf)
    requires
        forall|k: int| 0 <= k < h@.len() ==> runs_ascend((#[trigger] h@[k])@.e),
    ensures
        emitted(
            *old(buf),
            *final(buf),
            vals_holes(wire_holes(Seq::new(h@.len(), |i: int| h@[i]@)), 0),
        ),
{
    let ghost view = Seq::new(h@.len(), |i: int| h@[i]@);
    let ghost w = wire_holes(view);
    let ghost start = *buf;
    let ghost mut done = Seq::<int>::empty();
    let mut k: usize = 0;
    proof {
        lemma_emitted_none(start);
        assert(done + vals_holes(w, 0) =~= vals_holes(w, 0));
    }
    while k < h.len()
        invariant
            0 <= k <= h@.len(),
            forall|k: int| 0 <= k < h@.len() ==> runs_ascend((#[trigger] h@[k])@.e),
            view == Seq::new(h@.len(), |i: int| h@[i]@),
            w == wire_holes(view),
            start == *old(buf),
            emitted(start, *buf, done),
            done + vals_holes(w, k as int) == vals_holes(w, 0),
        decreases h.len() - k,
    {
        proof {
            assert(view[k as int] == h@[k as int]@);
            assert(runs_ascend(h@[k as int]@.e));
        }
        let z = zigzag(h[k].w);
        let ghost b0 = *buf;
        buf.put(h[k].i as u64);
        let ghost b1 = *buf;
        buf.put(z);
        let ghost b2 = *buf;
        buf.put(h[k].e.len() as u64);
        let ghost b3 = *buf;
        encode_arc_runs(h[k].e.as_slice(), buf);
        proof {
            let x = w[k as int];
            let (i, n) = (seq![x.i], seq![x.e.len() as int]);
            let zz = seq![zigzagged(x.w)];
            let arcs = vals_arcs(x.e, 0);
            lemma_emitted_two(b0, b1, b2, i, zz);
            lemma_emitted_two(b0, b2, b3, i + zz, n);
            lemma_emitted_two(b0, b3, *buf, i + zz + n, arcs);
            let one = i + zz + n + arcs;
            lemma_emitted_two(start, b0, *buf, done, one);
            assert(done + vals_holes(w, k as int) =~= (done + one) + vals_holes(w, k + 1));
            done = done + one;
        }
        k += 1;
    }
    proof {
        assert(done + vals_holes(w, k as int) =~= done);
    }
}

/// Winding, outer arc count and hole presence share one value.
fn encode_candidate_meta(cand: &Cand, buf: &mut QBuf, Ghost(rank): Ghost<int>)
    requires
        cand_ascends(cand@),
    ensures
        emitted(*old(buf), *final(buf), vals_meta(wire_cand(cand@, rank))),
{
    let ghost c = wire_cand(cand@, rank);
    let code: u64 = if cand.w == 0 {
        0
    } else if cand.w == -1 {
        1
    } else if cand.w == 1 {
        2
    } else {
        3
    };
    let has_holes = cand.h.len() > 0;
    let low = code * 2 + bit(has_holes);
    let ghost packed = cand.e@.len() * 8 + low;
    let ghost b0 = *buf;
    buf.put_scaled(cand.e.len(), 8, low);
    let ghost b1 = *buf;
    let ghost escape = if wind_code(c.w) == 3 {
        seq![zigzagged(c.w)]
    } else {
        Seq::empty()
    };
    if code == 3 {
        buf.put(zigzag(cand.w));
    } else {
        proof {
            lemma_emitted_none(b1);
        }
    }
    let ghost b2 = *buf;
    encode_arc_runs(cand.e.as_slice(), buf);
    let ghost b3 = *buf;
    let ghost holes = if c.h.len() > 0 {
        seq![c.h.len() as int] + vals_holes(c.h, 0)
    } else {
        Seq::empty()
    };
    if has_holes {
        buf.put(cand.h.len() as u64);
        let ghost b4 = *buf;
        proof {
            assert forall|k: int| 0 <= k < cand.h@.len() implies runs_ascend(
                (#[trigger] cand.h@[k])@.e,
            ) by {
                assert(cand@.h[k] == cand.h@[k]@);
            }
        }
        encode_holes(cand.h.as_slice(), buf);
        proof {
            lemma_emitted_two(b3, b4, *buf, seq![c.h.len() as int], vals_holes(c.h, 0));
        }
    } else {
        proof {
            lemma_emitted_none(b3);
        }
    }
    proof {
        let arcs = vals_arcs(c.e, 0);
        lemma_emitted_two(b2, b3, *buf, arcs, holes);
        lemma_emitted_two(b1, b2, *buf, escape, arcs + holes);
        lemma_emitted_two(b0, b1, *buf, seq![packed as int], escape + (arcs + holes));
    }
}

/// The ranks of the listed zones in ascending order, delta-coded.
fn encode_ranks(eref: &[usize], ranks: &[u64], buf: &mut QBuf)
    requires
        forall|i: int| 0 <= i < eref@.len() ==> (#[trigger] eref@[i]) < ranks@.len(),
    ensures
        emitted(*old(buf), *final(buf), vals_ranks(wire_eref(eref@, ranks@), 0)),
{
    let ghost w = wire_eref(eref@, ranks@);
    let keys = rank_keys(eref, ranks);
    let order = sort_by_key(keys.as_slice());
    let ghost start = *buf;
    let ghost mut done = Seq::<int>::empty();
    let mut prev: u64 = 0;
    let mut k: usize = 0;
    proof {
        lemma_emitted_none(start);
        assert(done + vals_ranks(w, 0) =~= vals_ranks(w, 0));
    }
    while k < order.len()
        invariant
            0 <= k <= order@.len(),
            order@.len() == keys@.len(),
            keys@ == ranks_of(eref@, ranks@),
            w == wire_eref(eref@, ranks@),
            positions(order@) == in_order(by_key(keys@), keys@.len() as int),
            lists_all(positions(order@), keys@.len() as int),
            is_sorted(positions(order@), by_key(keys@)),
            start == *old(buf),
            prev == if k == 0 {
                0
            } else {
                w[k - 1]
            },
            emitted(start, *buf, done),
            done + vals_ranks(w, k as int) == vals_ranks(w, 0),
        decreases order.len() - k,
    {
        proof {
            let all = positions(order@);
            assert(0 <= all[k as int] < keys@.len());
            assert(all[k as int] == order@[k as int]);
            assert(w[k as int] == keys@[all[k as int]]);
            if k > 0 {
                assert(by_key(keys@)(all[k - 1], all[k as int]));
                assert(w[k - 1] == keys@[all[k - 1]]);
            }
        }
        let r = keys[order[k]];
        let ghost b0 = *buf;
        buf.put(r - prev);
        proof {
            let one = seq![(r - prev) as int];
            lemma_emitted_two(start, b0, *buf, done, one);
            assert(done + vals_ranks(w, k as int) =~= (done + one) + vals_ranks(w, k + 1));
            done = done + one;
        }
        prev = r;
        k += 1;
    }
    proof {
        assert(done + vals_ranks(w, k as int) =~= done);
    }
}

fn rank_keys(ids: &[usize], ranks: &[u64]) -> (r: Vec<u64>)
    requires
        forall|i: int| 0 <= i < ids@.len() ==> (#[trigger] ids@[i]) < ranks@.len(),
    ensures
        r@ == ranks_of(ids@, ranks@),
{
    let mut keys: Vec<u64> = Vec::with_capacity(ids.len());
    let mut i: usize = 0;
    while i < ids.len()
        invariant
            0 <= i <= ids@.len(),
            forall|i: int| 0 <= i < ids@.len() ==> (#[trigger] ids@[i]) < ranks@.len(),
            keys@.len() == i,
            forall|j: int| 0 <= j < i ==> #[trigger] keys@[j] == ranks@[ids@[j] as int],
        decreases ids.len() - i,
    {
        keys.push(ranks[ids[i]]);
        i += 1;
    }
    proof {
        assert(keys@ =~= ranks_of(ids@, ranks@));
    }
    keys
}

fn cand_keys(cands: &[Cand], ranks: &[u64]) -> (r: Vec<u64>)
    requires
        forall|i: int| 0 <= i < cands@.len() ==> (#[trigger] cands@[i]).z < ranks@.len(),
    ensures
        r@ == ranks_of(cand_zones(cands_view(cands@)), ranks@),
{
    let mut keys: Vec<u64> = Vec::with_capacity(cands.len());
    let mut i: usize = 0;
    while i < cands.len()
        invariant
            0 <= i <= cands@.len(),
            forall|i: int| 0 <= i < cands@.len() ==> (#[trigger] cands@[i]).z < ranks@.len(),
            keys@.len() == i,
            forall|j: int| 0 <= j < i ==> #[trigger] keys@[j] == ranks@[cands@[j].z as int],
        decreases cands.len() - i,
    {
        keys.push(ranks[cands[i].z]);
        i += 1;
    }
    proof {
        assert(keys@ =~= ranks_of(cand_zones(cands_view(cands@)), ranks@));
    }
    keys
}

/// The candidates of a leaf in ascending order of rank.
fn encode_cands(cands: &[Cand], ranks: &[u64], buf: &mut QBuf)
    requires
        forall|i: int|
            0 <= i < cands@.len() ==> (#[trigger] cands@[i]).z < ranks@.len() && cand_ascends(
                cands@[i]@,
            ),
    ensures
        emitted(*old(buf), *final(buf), vals_cands(wire_cands(cands_view(cands@), ranks@), 0)),
{
    let ghost view = cands_view(cands@);
    let ghost w = wire_cands(view, ranks@);
    let keys = cand_keys(cands, ranks);
    let order = sort_by_key(keys.as_slice());
    let ghost start = *buf;
    let ghost mut done = Seq::<int>::empty();
    let mut prev: u64 = 0;
    let mut k: usize = 0;
    proof {
        lemma_emitted_none(start);
        assert(done + vals_cands(w, 0) =~= vals_cands(w, 0));
    }
    while k < order.len()
        invariant
            0 <= k <= order@.len(),
            order@.len() == keys@.len(),
            keys@.len() == cands@.len(),
            forall|i: int|
                0 <= i < cands@.len() ==> (#[trigger] cands@[i]).z < ranks@.len() && cand_ascends(
                    cands@[i]@,
                ),
            view == cands_view(cands@),
            keys@ == ranks_of(cand_zones(view), ranks@),
            w == wire_cands(view, ranks@),
            positions(order@) == in_order(by_key(keys@), keys@.len() as int),
            lists_all(positions(order@), keys@.len() as int),
            is_sorted(positions(order@), by_key(keys@)),
            start == *old(buf),
            prev == if k == 0 {
                0
            } else {
                w[k - 1].z
            },
            emitted(start, *buf, done),
            done + vals_cands(w, k as int) == vals_cands(w, 0),
        decreases order.len() - k,
    {
        let ghost at = positions(order@)[k as int];
        proof {
            let all = positions(order@);
            assert(0 <= all[k as int] < keys@.len());
            assert(all[k as int] == order@[k as int]);
            assert(w[k as int] == wire_cand(view[at], keys@[at] as int));
            assert(view[at] == cands@[at]@);
            if k > 0 {
                assert(by_key(keys@)(all[k - 1], all[k as int]));
                assert(w[k - 1].z == keys@[all[k - 1]]);
            }
        }
        let r = keys[order[k]];
        let ghost b0 = *buf;
        buf.put(r - prev);
        let ghost b1 = *buf;
        encode_candidate_meta(&cands[order[k]], buf, Ghost(r as int));
        proof {
            let one = seq![(r - prev) as int];
            let meta = vals_meta(w[k as int]);
            lemma_emitted_two(b0, b1, *buf, one, meta);
            lemma_emitted_two(start, b0, *buf, done, one + meta);
            assert(done + vals_cands(w, k as int) =~= (done + (one + meta)) + vals_cands(w, k + 1));
            done = done + (one + meta);
        }
        prev = r;
        k += 1;
    }
    proof {
        assert(done + vals_cands(w, k as int) =~= done);
    }
}

/// Append a body with its length before it, padded to a length that has a code.
pub fn push_body(buf: &mut Vec<u8>, body: &[u8])
    requires
        body@.len() <= Q_MAX,
    ensures
        final(buf)@ == old(buf)@ + framed_body(body@),
{
    let n = body.len();
    let len = representable(n as u64);
    let ghost start = buf@;
    write_q(buf, len);
    push_bytes(buf, body);
    let ghost mid = buf@;
    let pad = (len - n as u64) as usize;
    let mut i: usize = 0;
    proof {
        assert(mid + zeros(0) =~= mid);
    }
    while i < pad
        invariant
            0 <= i <= pad,
            buf@ == mid + zeros(i as int),
        decreases pad - i,
    {
        buf.push(0);
        proof {
            assert(buf@ =~= mid + zeros(i + 1));
        }
        i += 1;
    }
    proof {
        assert(buf@ =~= start + framed_body(body@));
    }
}

/// Append a body that has been written apart.
fn push_framed(buf: &mut QBuf, body: &QBuf)
    requires
        body.bytes@.len() <= Q_MAX,
    ensures
        final(buf).bytes@ == old(buf).bytes@ + framed_body(body.bytes@),
        final(buf).exact == (old(buf).exact && body.exact),
{
    push_body(&mut buf.bytes, body.bytes.as_slice());
    buf.exact = buf.exact && body.exact;
}

/// The header value and the ranks of the settled zones.
fn encode_head(eref: &[usize], ranks: &[u64], count: usize, internal: bool, buf: &mut QBuf)
    requires
        forall|i: int| 0 <= i < eref@.len() ==> (#[trigger] eref@[i]) < ranks@.len(),
    ensures
        emitted(
            *old(buf),
            *final(buf),
            vals_head(
                if internal {
                    2 * flag(eref@.len() > 0) + 1
                } else {
                    4 * count + 2 * flag(eref@.len() > 0)
                },
                wire_eref(eref@, ranks@),
            ),
        ),
{
    let has_eref = eref.len() > 0;
    let ghost b0 = *buf;
    let ghost header = if internal {
        2 * flag(eref@.len() > 0) + 1
    } else {
        4 * count + 2 * flag(eref@.len() > 0)
    };
    if internal {
        buf.put(2 * bit(has_eref) + 1);
    } else {
        buf.put_scaled(count, 4, 2 * bit(has_eref));
    }
    let ghost b1 = *buf;
    if has_eref {
        buf.put(eref.len() as u64);
        let ghost b2 = *buf;
        encode_ranks(eref, ranks, buf);
        proof {
            let w = wire_eref(eref@, ranks@);
            let n = seq![w.len() as int];
            lemma_emitted_two(b1, b2, *buf, n, vals_ranks(w, 0));
            lemma_emitted_two(b0, b1, *buf, seq![header], n + vals_ranks(w, 0));
        }
    }
}

/// What writing a node comes to.
pub open spec fn node_written(
    before: QBuf,
    after: QBuf,
    node: WireNode,
    r: Result<(), usize>,
) -> bool {
    match r {
        Ok(_) => {
            &&& overlong(node) is None
            &&& after.bytes@ == before.bytes@ + node_bytes(node)
            &&& after.exact == (before.exact && tree_exact(node))
        },
        Err(n) => {
            &&& overlong(node) == Some(n as int)
            &&& after.bytes@ == before.bytes@
            &&& after.exact == before.exact
        },
    }
}

/// The body of a leaf.
fn encode_leaf(node: &Node, ranks: &[u64]) -> (r: QBuf)
    requires
        forall|i: int| 0 <= i < node@.eref.len() ==> (#[trigger] node@.eref[i]) < ranks@.len(),
        forall|i: int|
            0 <= i < node@.cands.len() ==> (#[trigger] node@.cands[i]).z < ranks@.len()
                && cand_ascends(node@.cands[i]),
    ensures
        ({
            let leaf = WireNode::Leaf(
                wire_eref(node@.eref, ranks@),
                wire_cands(node@.cands, ranks@),
            );
            r.bytes@ == node_body(leaf) && r.exact == tree_exact(leaf)
        }),
{
    let mut body = QBuf::new();
    let ghost empty = body;
    proof {
        assert forall|i: int| 0 <= i < node.eref@.len() implies (#[trigger] node.eref@[i])
            < ranks@.len() by {
            assert(node@.eref[i] < ranks@.len());
        }
        assert forall|i: int| 0 <= i < node.cands@.len() implies (#[trigger] node.cands@[i]).z
            < ranks@.len() && cand_ascends(node.cands@[i]@) by {
            assert(node@.cands[i] == node.cands@[i]@);
        }
    }
    encode_head(node.eref.as_slice(), ranks, node.cands.len(), false, &mut body);
    let ghost head = body;
    encode_cands(node.cands.as_slice(), ranks, &mut body);
    proof {
        let eref = wire_eref(node@.eref, ranks@);
        let cands = wire_cands(node@.cands, ranks@);
        let h = vals_head(4 * cands.len() + 2 * flag(eref.len() > 0), eref);
        lemma_emitted_two(empty, head, body, h, vals_cands(cands, 0));
        assert(body.bytes@ =~= node_body(WireNode::Leaf(eref, cands)));
    }
    body
}

/// The body of an inner node out of its parts.
proof fn lemma_inner_body(
    empty: QBuf,
    head: QBuf,
    b0: QBuf,
    b1: QBuf,
    b2: QBuf,
    b3: QBuf,
    eref: Seq<int>,
    a: WireNode,
    b: WireNode,
    c: WireNode,
    d: WireNode,
)
    requires
        empty.bytes@.len() == 0,
        empty.exact,
        emitted(empty, head, vals_head(2 * flag(eref.len() > 0) + 1, eref)),
        node_written(head, b0, a, Ok(())),
        node_written(b0, b1, b, Ok(())),
        node_written(b1, b2, c, Ok(())),
        node_written(b2, b3, d, Ok(())),
    ensures
        ({
            let node = WireNode::Inner(eref, Box::new(a), Box::new(b), Box::new(c), Box::new(d));
            b3.bytes@ == node_body(node) && b3.exact == tree_exact(node)
        }),
{
    let head_bytes = qs_bytes(vals_head(2 * flag(eref.len() > 0) + 1, eref));
    assert(head.bytes@ =~= head_bytes);
    assert(b3.bytes@ =~= head_bytes + (node_bytes(a) + (node_bytes(b) + (node_bytes(c)
        + node_bytes(d)))));
}

/// The body of an inner node.  Fails with the length of the first body that is
/// too long.
fn encode_inner(
    arena: &[Node],
    idx: usize,
    ch: [usize; 4],
    ranks: &[u64],
) -> (r: Result<QBuf, usize>)
    requires
        tree_writable(arena_view(arena@), ranks@.len() as int),
        idx < arena@.len(),
        arena@[idx as int].q == Some(ch),
    ensures
        ({
            let node = wire_node(arena_view(arena@), ranks@, idx as int);
            match r {
                Ok(body) => {
                    &&& body.bytes@ == node_body(node)
                    &&& body.exact == tree_exact(node)
                    &&& overlong(node) == if q_at_least(node_body(node).len() as int) > Q_MAX {
                        Some(node_body(node).len() as int)
                    } else {
                        None
                    }
                },
                Err(n) => overlong(node) == Some(n as int),
            }
        }),
    decreases arena@.len() - idx, 0nat,
{
    let ghost view = arena_view(arena@);
    let ghost node = wire_node(view, ranks@, idx as int);
    let ghost eref = wire_eref(view[idx as int].eref, ranks@);
    proof {
        assert(node_writable(view, ranks@.len() as int, idx as int));
        assert(view[idx as int] == arena@[idx as int]@);
        assert forall|i: int| 0 <= i < arena@[idx as int].eref@.len() implies (
        #[trigger] arena@[idx as int].eref@[i]) < ranks@.len() by {
            assert(view[idx as int].eref[i] < ranks@.len());
        }
    }
    let ghost (wa, wb, wc, wd) = (
        wire_node(view, ranks@, ch[0] as int),
        wire_node(view, ranks@, ch[1] as int),
        wire_node(view, ranks@, ch[2] as int),
        wire_node(view, ranks@, ch[3] as int),
    );
    proof {
        assert(node == WireNode::Inner(
            eref,
            Box::new(wa),
            Box::new(wb),
            Box::new(wc),
            Box::new(wd),
        ));
    }
    let mut body = QBuf::new();
    let ghost empty = body;
    encode_head(arena[idx].eref.as_slice(), ranks, 0, true, &mut body);
    let ghost head = body;
    if let Err(n) = encode_node(arena, ch[0], ranks, &mut body) {
        return Err(n);
    }
    let ghost b0 = body;
    if let Err(n) = encode_node(arena, ch[1], ranks, &mut body) {
        return Err(n);
    }
    let ghost b1 = body;
    if let Err(n) = encode_node(arena, ch[2], ranks, &mut body) {
        return Err(n);
    }
    let ghost b2 = body;
    if let Err(n) = encode_node(arena, ch[3], ranks, &mut body) {
        return Err(n);
    }
    proof {
        lemma_inner_body(empty, head, b0, b1, b2, body, eref, wa, wb, wc, wd);
    }
    Ok(body)
}

/// Write the tree below a node.  Fails with the length of the first body that
/// is too long.
pub fn encode_node(arena: &[Node], idx: usize, ranks: &[u64], buf: &mut QBuf) -> (r: Result<
    (),
    usize,
>)
    requires
        tree_writable(arena_view(arena@), ranks@.len() as int),
        idx < arena@.len(),
    ensures
        node_written(
            *old(buf),
            *final(buf),
            wire_node(arena_view(arena@), ranks@, idx as int),
            r,
        ),
    decreases arena@.len() - idx, 1nat,
{
    let ghost view = arena_view(arena@);
    proof {
        assert(node_writable(view, ranks@.len() as int, idx as int));
        assert(view[idx as int] == arena@[idx as int]@);
    }
    let body = match arena[idx].q {
        Some(ch) => match encode_inner(arena, idx, ch, ranks) {
            Ok(body) => body,
            Err(n) => {
                return Err(n);
            },
        },
        None => encode_leaf(&arena[idx], ranks),
    };
    if body.bytes.len() as u64 > Q_MAX {
        return Err(body.bytes.len());
    }
    push_framed(buf, &body);
    Ok(())
}

} // verus!
