//! The JSON format: compact, no whitespace, object keys in a fixed order, empty
//! members left out.
use vstd::prelude::*;

use crate::annotate::{localized, ring_indexable, zone_indexable};
use crate::arcs::deep;
use crate::artifact::{
    arena_view, cands_view, runs_view, ArcRun, Cand, CandView, HoleCand, HoleView, Node, NodeView,
    Output, RunsView, Tz, Zone,
};
use crate::geom::{Aabb, Pt};
use crate::polycodec::{b64_text, base64_encode, round_up3};
use crate::quant::{MAX_DEPTH, X_MAX, X_MIN, Y_MAX, Y_MIN};
use crate::resolve::zone_rebuilt;
use crate::serialize::json_text::{
    commas, joined, json_str, lemma_joined, lemma_list, lemma_onto, lemma_onto5, lemma_onto7, list,
    num, put, put_comma, put_count, put_ids, put_num, quoted, utf8,
};
use crate::serialize::{Outcome, Serializer};
use crate::subdivide::{framed, node_framed, Frame};
use crate::topology::ArcRef;

verus! {

// --- edge runs ---

/// A run: its first and last edge.
pub open spec fn run_json(run: (u32, u32)) -> Seq<u8> {
    utf8("["@) + num(run.0 as int) + utf8(","@) + num(run.1 as int) + utf8("]"@)
}

pub open spec fn runs_json(runs: Seq<(u32, u32)>) -> Seq<u8> {
    list(Seq::new(runs.len(), |i: int| run_json(runs[i])))
}

/// A crossing arc: its position in the ring's list of arcs, and its runs.
pub open spec fn arc_json(arc: (u32, Seq<(u32, u32)>)) -> Seq<u8> {
    utf8("["@) + num(arc.0 as int) + utf8(","@) + runs_json(arc.1) + utf8("]"@)
}

pub open spec fn arc_runs_json(e: RunsView) -> Seq<u8> {
    list(Seq::new(e.len(), |i: int| arc_json(e[i])))
}

/// Write runs.
pub fn write_runs(s: &mut Vec<u8>, runs: &[(u32, u32)])
    ensures
        final(s)@ == old(s)@ + runs_json(runs@),
{
    let ghost items = Seq::new(runs@.len(), |i: int| run_json(runs@[i]));
    let ghost before = s@;
    put(s, "[");
    let ghost start = s@;
    let mut i: usize = 0;
    proof {
        assert(start + joined(items, 0) =~= start);
    }
    while i < runs.len()
        invariant
            0 <= i <= runs@.len(),
            items == Seq::new(runs@.len(), |i: int| run_json(runs@[i])),
            s@ == start + joined(items, i as int),
        decreases runs.len() - i,
    {
        put_comma(s, i);
        let ghost mid = s@;
        put(s, "[");
        put_count(s, runs[i].0 as u64);
        put(s, ",");
        put_count(s, runs[i].1 as u64);
        put(s, "]");
        proof {
            let r = runs@[i as int];
            lemma_onto5(
                mid,
                utf8("["@),
                num(r.0 as int),
                utf8(","@),
                num(r.1 as int),
                utf8("]"@),
            );
            lemma_joined(start, items, i as int);
        }
        i += 1;
    }
    put(s, "]");
    proof {
        lemma_list(before, items);
    }
}

/// Write crossing arcs.
pub fn write_arc_runs(s: &mut Vec<u8>, e: &[ArcRun])
    ensures
        final(s)@ == old(s)@ + arc_runs_json(runs_view(e@)),
{
    let ghost view = runs_view(e@);
    let ghost items = Seq::new(view.len(), |i: int| arc_json(view[i]));
    let ghost before = s@;
    put(s, "[");
    let ghost start = s@;
    let mut i: usize = 0;
    proof {
        assert(start + joined(items, 0) =~= start);
    }
    while i < e.len()
        invariant
            0 <= i <= e@.len(),
            view == runs_view(e@),
            items == Seq::new(view.len(), |i: int| arc_json(view[i])),
            s@ == start + joined(items, i as int),
        decreases e.len() - i,
    {
        put_comma(s, i);
        let ghost mid = s@;
        put(s, "[");
        put_count(s, e[i].a as u64);
        put(s, ",");
        write_runs(s, e[i].runs.as_slice());
        put(s, "]");
        proof {
            assert(view[i as int] == (e@[i as int].a, e@[i as int].runs@));
            let (a, runs) = view[i as int];
            lemma_onto5(
                mid,
                utf8("["@),
                num(a as int),
                utf8(","@),
                runs_json(runs),
                utf8("]"@),
            );
            lemma_joined(start, items, i as int);
        }
        i += 1;
    }
    put(s, "]");
    proof {
        lemma_list(before, items);
    }
}

// --- candidates ---

/// A crossing hole of a candidate.
pub open spec fn hole_json(h: HoleView) -> Seq<u8> {
    utf8("{\"i\":"@) + num(h.i as int) + utf8(",\"w\":"@) + num(h.w as int) + utf8(",\"e\":"@)
        + arc_runs_json(h.e) + utf8("}"@)
}

pub open spec fn holes_json(h: Seq<HoleView>) -> Seq<u8> {
    list(Seq::new(h.len(), |i: int| hole_json(h[i])))
}

/// A candidate: zone, winding, crossing arcs, crossing holes.
pub open spec fn cand_json(c: CandView) -> Seq<u8> {
    utf8("{\"z\":"@) + num(c.z as int) + utf8(",\"w\":"@) + num(c.w as int) + utf8(",\"e\":"@)
        + arc_runs_json(c.e) + (if c.h.len() > 0 {
        utf8(",\"h\":"@) + holes_json(c.h)
    } else {
        Seq::empty()
    }) + utf8("}"@)
}

pub open spec fn cands_json(cands: Seq<CandView>) -> Seq<u8> {
    list(Seq::new(cands.len(), |i: int| cand_json(cands[i])))
}

fn write_holes(s: &mut Vec<u8>, h: &[HoleCand])
    ensures
        final(s)@ == old(s)@ + holes_json(Seq::new(h@.len(), |i: int| h@[i]@)),
{
    let ghost view = Seq::new(h@.len(), |i: int| h@[i]@);
    let ghost items = Seq::new(view.len(), |i: int| hole_json(view[i]));
    let ghost before = s@;
    put(s, "[");
    let ghost start = s@;
    let mut i: usize = 0;
    proof {
        assert(start + joined(items, 0) =~= start);
    }
    while i < h.len()
        invariant
            0 <= i <= h@.len(),
            view == Seq::new(h@.len(), |i: int| h@[i]@),
            items == Seq::new(view.len(), |i: int| hole_json(view[i])),
            s@ == start + joined(items, i as int),
        decreases h.len() - i,
    {
        put_comma(s, i);
        let ghost mid = s@;
        put(s, "{\"i\":");
        put_count(s, h[i].i as u64);
        put(s, ",\"w\":");
        put_num(s, h[i].w);
        put(s, ",\"e\":");
        write_arc_runs(s, h[i].e.as_slice());
        put(s, "}");
        proof {
            assert(view[i as int] == h@[i as int]@);
            let h = view[i as int];
            lemma_onto7(
                mid,
                utf8("{\"i\":"@),
                num(h.i as int),
                utf8(",\"w\":"@),
                num(h.w as int),
                utf8(",\"e\":"@),
                arc_runs_json(h.e),
                utf8("}"@),
            );
            lemma_joined(start, items, i as int);
        }
        i += 1;
    }
    put(s, "]");
    proof {
        lemma_list(before, items);
    }
}

/// Write a candidate.  Key order: z, w, e, h.  `e` is a list of crossing arcs,
/// each `[arcIndex, [[first,last],...]]` where arcIndex indexes the ring's
/// arc-ref list.
pub fn write_cand(s: &mut Vec<u8>, c: &Cand)
    ensures
        final(s)@ == old(s)@ + cand_json(c@),
{
    let ghost before = s@;
    put(s, "{\"z\":");
    put_count(s, c.z as u64);
    put(s, ",\"w\":");
    put_num(s, c.w);
    put(s, ",\"e\":");
    write_arc_runs(s, c.e.as_slice());
    let ghost mid = s@;
    if c.h.len() > 0 {
        put(s, ",\"h\":");
        write_holes(s, c.h.as_slice());
        proof {
            assert(s@ =~= mid + (utf8(",\"h\":"@) + holes_json(c@.h)));
        }
    } else {
        proof {
            assert(s@ =~= mid + Seq::<u8>::empty());
        }
    }
    put(s, "}");
    proof {
        let rest = if c@.h.len() > 0 {
            utf8(",\"h\":"@) + holes_json(c@.h)
        } else {
            Seq::empty()
        };
        lemma_onto7(
            before,
            utf8("{\"z\":"@),
            num(c.z as int),
            utf8(",\"w\":"@),
            num(c.w as int),
            utf8(",\"e\":"@),
            arc_runs_json(c@.e),
            rest,
        );
        lemma_onto(
            before,
            utf8("{\"z\":"@) + num(c.z as int) + utf8(",\"w\":"@) + num(c.w as int) + utf8(
                ",\"e\":"@,
            ) + arc_runs_json(c@.e) + rest,
            utf8("}"@),
        );
    }
}

fn write_cands(s: &mut Vec<u8>, cands: &[Cand])
    ensures
        final(s)@ == old(s)@ + cands_json(cands_view(cands@)),
{
    let ghost view = cands_view(cands@);
    let ghost items = Seq::new(view.len(), |i: int| cand_json(view[i]));
    let ghost before = s@;
    put(s, "[");
    let ghost start = s@;
    let mut i: usize = 0;
    proof {
        assert(start + joined(items, 0) =~= start);
    }
    while i < cands.len()
        invariant
            0 <= i <= cands@.len(),
            view == cands_view(cands@),
            items == Seq::new(view.len(), |i: int| cand_json(view[i])),
            s@ == start + joined(items, i as int),
        decreases cands.len() - i,
    {
        put_comma(s, i);
        write_cand(s, &cands[i]);
        proof {
            assert(view[i as int] == cands@[i as int]@);
            lemma_joined(start, items, i as int);
        }
        i += 1;
    }
    put(s, "]");
    proof {
        lemma_list(before, items);
    }
}

// --- the tree ---

/// The child stands behind its parent, in the arena.
pub open spec fn is_below(arena: Seq<NodeView>, idx: int, ch: [usize; 4]) -> bool {
    &&& idx < ch[0] < arena.len()
    &&& idx < ch[1] < arena.len()
    &&& idx < ch[2] < arena.len()
    &&& idx < ch[3] < arena.len()
}

/// Children stand behind their parents.
pub open spec fn is_downward(arena: Seq<NodeView>) -> bool {
    forall|idx: int|
        0 <= idx < arena.len() ==> ((#[trigger] arena[idx]).q matches Some(ch) ==> is_below(
            arena,
            idx,
            ch,
        ))
}

pub open spec fn ids_json(ids: Seq<usize>) -> Seq<u8> {
    list(Seq::new(ids.len(), |i: int| num(ids[i] as int)))
}

/// The settled zones, if there are any.
pub open spec fn settled_of(node: NodeView) -> Seq<Seq<u8>> {
    if node.eref.len() > 0 {
        seq![utf8("\"eref\":"@) + ids_json(node.eref)]
    } else {
        Seq::empty()
    }
}

/// The candidates, if there are any.
pub open spec fn tested_of(node: NodeView) -> Seq<Seq<u8>> {
    if node.cands.len() > 0 {
        seq![utf8("\"ref\":"@) + cands_json(node.cands)]
    } else {
        Seq::empty()
    }
}

/// The text of four children.
pub type Kids = (Seq<u8>, Seq<u8>, Seq<u8>, Seq<u8>);

/// The children, given their text, if there are any.
pub open spec fn quadrants_of(kids: Option<Kids>) -> Seq<Seq<u8>> {
    match kids {
        Some(kids) => seq![utf8("\"q\":"@) + list(seq![kids.0, kids.1, kids.2, kids.3])],
        None => Seq::empty(),
    }
}

/// The members of a node, given the text of its children.
pub open spec fn members_of(node: NodeView, kids: Option<Kids>) -> Seq<Seq<u8>> {
    quadrants_of(kids) + settled_of(node) + tested_of(node)
}

/// A node: children, settled zones, candidates.  Empty members are omitted.
pub open spec fn node_json(arena: Seq<NodeView>, idx: int) -> Seq<u8>
    decreases arena.len() - idx,
{
    let kids = match arena[idx].q {
        Some(ch) => if is_below(arena, idx, ch) {
            Some(
                (
                    node_json(arena, ch[0] as int),
                    node_json(arena, ch[1] as int),
                    node_json(arena, ch[2] as int),
                    node_json(arena, ch[3] as int),
                ),
            )
        } else {
            None
        },
        None => None,
    };
    utf8("{"@) + commas(members_of(arena[idx], kids)) + utf8("}"@)
}

proof fn lemma_list4(pre: Seq<u8>, a: Seq<u8>, b: Seq<u8>, c: Seq<u8>, d: Seq<u8>)
    ensures
        pre + utf8("["@) + a + utf8(","@) + b + utf8(","@) + c + utf8(","@) + d + utf8("]"@) == pre
            + list(seq![a, b, c, d]),
{
    let items = seq![a, b, c, d];
    let start = pre + utf8("["@);
    assert(start + joined(items, 0) =~= start);
    assert(start + Seq::<u8>::empty() =~= start);
    lemma_joined(start, items, 0);
    lemma_joined(start, items, 1);
    lemma_joined(start, items, 2);
    lemma_joined(start, items, 3);
    lemma_list(pre, items);
}

spec fn kids_of(arena: Seq<NodeView>, ch: [usize; 4]) -> Kids {
    (
        node_json(arena, ch[0] as int),
        node_json(arena, ch[1] as int),
        node_json(arena, ch[2] as int),
        node_json(arena, ch[3] as int),
    )
}

/// The children's member.
spec fn quadrants_member(kids: Kids) -> Seq<u8> {
    utf8("\"q\":"@) + list(seq![kids.0, kids.1, kids.2, kids.3])
}

#[verifier::spinoff_prover]
fn write_quadrants(s: &mut Vec<u8>, arena: &[Node], idx: usize, ch: [usize; 4])
    requires
        is_downward(arena_view(arena@)),
        idx < arena@.len(),
        is_below(arena_view(arena@), idx as int, ch),
    ensures
        final(s)@ == old(s)@ + quadrants_member(kids_of(arena_view(arena@), ch)),
    decreases arena@.len() - idx, 0nat,
{
    let ghost view = arena_view(arena@);
    let ghost before = s@;
    put(s, "\"q\":");
    put(s, "[");
    write_node(s, arena, ch[0]);
    put(s, ",");
    write_node(s, arena, ch[1]);
    put(s, ",");
    write_node(s, arena, ch[2]);
    put(s, ",");
    write_node(s, arena, ch[3]);
    put(s, "]");
    proof {
        let kids = kids_of(view, ch);
        let head = utf8("\"q\":"@);
        lemma_list4(before + head, kids.0, kids.1, kids.2, kids.3);
        lemma_onto(before, head, list(seq![kids.0, kids.1, kids.2, kids.3]));
    }
}

fn write_settled(s: &mut Vec<u8>, ids: &[usize])
    ensures
        final(s)@ == old(s)@ + (utf8("\"eref\":"@) + ids_json(ids@)),
{
    let ghost before = s@;
    put(s, "\"eref\":");
    put_ids(s, ids);
    proof {
        lemma_onto(before, utf8("\"eref\":"@), ids_json(ids@));
    }
}

fn write_tested(s: &mut Vec<u8>, cands: &[Cand])
    ensures
        final(s)@ == old(s)@ + (utf8("\"ref\":"@) + cands_json(cands_view(cands@))),
{
    let ghost before = s@;
    put(s, "\"ref\":");
    write_cands(s, cands);
    proof {
        lemma_onto(before, utf8("\"ref\":"@), cands_json(cands_view(cands@)));
    }
}

/// The member at a position has been written.
proof fn lemma_member(start: Seq<u8>, s: Seq<u8>, members: Seq<Seq<u8>>, n: int, member: Seq<u8>)
    requires
        0 <= n < members.len(),
        members[n] == member,
        s == start + joined(members, n) + (if n > 0 {
            utf8(","@)
        } else {
            Seq::empty()
        }) + member,
    ensures
        s == start + joined(members, n + 1),
{
    lemma_joined(start, members, n);
}

proof fn lemma_no_member(start: Seq<u8>, members: Seq<Seq<u8>>)
    ensures
        start == start + joined(members, 0),
{
    assert(start =~= start + joined(members, 0));
}

/// Write the tree below a node.  Key order: q, eref, ref.  Empty members are
/// omitted.
#[verifier::spinoff_prover]
pub fn write_node(s: &mut Vec<u8>, arena: &[Node], idx: usize)
    requires
        is_downward(arena_view(arena@)),
        idx < arena@.len(),
    ensures
        final(s)@ == old(s)@ + node_json(arena_view(arena@), idx as int),
    decreases arena@.len() - idx, 1nat,
{
    let ghost view = arena_view(arena@);
    let ghost node = view[idx as int];
    let ghost before = s@;
    proof {
        assert(node == arena@[idx as int]@);
    }
    let ghost kids = match node.q {
        Some(ch) => Some(kids_of(view, ch)),
        None => None,
    };
    let ghost members = members_of(node, kids);
    put(s, "{");
    let ghost start = s@;
    let mut n: usize = 0;
    proof {
        lemma_no_member(start, members);
    }
    if let Some(ch) = arena[idx].q {
        put_comma(s, n);
        write_quadrants(s, arena, idx, ch);
        proof {
            lemma_member(start, s@, members, 0, quadrants_member(kids->0));
        }
        n = 1;
    }
    if arena[idx].eref.len() > 0 {
        put_comma(s, n);
        write_settled(s, arena[idx].eref.as_slice());
        proof {
            lemma_member(
                start,
                s@,
                members,
                n as int,
                utf8("\"eref\":"@) + ids_json(node.eref),
            );
        }
        n += 1;
    }
    if arena[idx].cands.len() > 0 {
        put_comma(s, n);
        write_tested(s, arena[idx].cands.as_slice());
        proof {
            lemma_member(
                start,
                s@,
                members,
                n as int,
                utf8("\"ref\":"@) + cands_json(node.cands),
            );
        }
        n += 1;
    }
    proof {
        assert(n == members.len());
    }
    put(s, "}");
    proof {
        lemma_onto(before, utf8("{"@), commas(members));
        lemma_onto(before, utf8("{"@) + commas(members), utf8("}"@));
        assert(node_json(view, idx as int) == utf8("{"@) + commas(members) + utf8("}"@));
    }
}

// --- zones ---

/// An arc reference is a signed integer: i for arc i forward, -i-1 reversed.
pub open spec fn ref_value(r: ArcRef) -> int {
    if r.rev {
        -(r.arc as int) - 1
    } else {
        r.arc as int
    }
}

pub open spec fn refs_json(refs: Seq<ArcRef>) -> Seq<u8> {
    list(Seq::new(refs.len(), |i: int| num(ref_value(refs[i]))))
}

pub open spec fn ref_lists_json(lists: Seq<Vec<ArcRef>>) -> Seq<u8> {
    list(Seq::new(lists.len(), |i: int| refs_json(lists[i]@)))
}

/// A point.
pub open spec fn point_json(p: Pt) -> Seq<u8> {
    utf8("["@) + num(p[0] as int) + utf8(","@) + num(p[1] as int) + utf8("]"@)
}

/// A box: its two corners.
pub open spec fn box_json(a: Aabb) -> Seq<u8> {
    utf8("["@) + point_json(a[0]) + utf8(","@) + point_json(a[1]) + utf8("]"@)
}

/// What stands before a zone's outer ring.
pub open spec fn zone_head(zone: Zone) -> Seq<u8> {
    utf8("{\"id\":"@) + num(zone.id as int) + utf8(",\"aabb\":"@) + box_json(zone.aabb) + utf8(
        ",\"a\":"@,
    ) + num(zone.a as int) + utf8(",\"tzid\":"@)
}

/// A zone: id, box, size, timezone, outer ring, holes.
pub open spec fn zone_json(zone: Zone) -> Seq<u8> {
    zone_head(zone) + num(zone.tzid as int) + utf8(",\"outer\":"@) + refs_json(zone.outer_refs@) + (
    if zone.hole_refs@.len() > 0 {
        utf8(",\"h\":"@) + ref_lists_json(zone.hole_refs@)
    } else {
        Seq::empty()
    }) + utf8("}"@)
}

/// The references fit signed integers.
pub open spec fn refs_signed(refs: Seq<ArcRef>) -> bool {
    forall|i: int| 0 <= i < refs.len() ==> (#[trigger] refs[i]).arc <= i64::MAX
}

/// All references of a zone fit signed integers.
pub open spec fn zone_signed(zone: Zone) -> bool {
    &&& refs_signed(zone.outer_refs@)
    &&& forall|k: int|
        0 <= k < zone.hole_refs@.len() ==> refs_signed((#[trigger] zone.hole_refs@[k])@)
}

/// Write arc references.
pub fn write_arc_refs(s: &mut Vec<u8>, refs: &[ArcRef])
    requires
        refs_signed(refs@),
    ensures
        final(s)@ == old(s)@ + refs_json(refs@),
{
    let ghost items = Seq::new(refs@.len(), |i: int| num(ref_value(refs@[i])));
    let ghost before = s@;
    put(s, "[");
    let ghost start = s@;
    let mut i: usize = 0;
    proof {
        assert(start + joined(items, 0) =~= start);
    }
    while i < refs.len()
        invariant
            0 <= i <= refs@.len(),
            refs_signed(refs@),
            items == Seq::new(refs@.len(), |i: int| num(ref_value(refs@[i]))),
            s@ == start + joined(items, i as int),
        decreases refs.len() - i,
    {
        put_comma(s, i);
        let r = refs[i];
        proof {
            assert(refs@[i as int].arc <= i64::MAX);
        }
        let v: i64 = if r.rev {
            -(r.arc as i64) - 1
        } else {
            r.arc as i64
        };
        put_num(s, v);
        proof {
            lemma_joined(start, items, i as int);
        }
        i += 1;
    }
    put(s, "]");
    proof {
        lemma_list(before, items);
    }
}

fn write_ref_lists(s: &mut Vec<u8>, lists: &[Vec<ArcRef>])
    requires
        forall|k: int| 0 <= k < lists@.len() ==> refs_signed((#[trigger] lists@[k])@),
    ensures
        final(s)@ == old(s)@ + ref_lists_json(lists@),
{
    let ghost items = Seq::new(lists@.len(), |i: int| refs_json(lists@[i]@));
    let ghost before = s@;
    put(s, "[");
    let ghost start = s@;
    let mut i: usize = 0;
    proof {
        assert(start + joined(items, 0) =~= start);
    }
    while i < lists.len()
        invariant
            0 <= i <= lists@.len(),
            forall|k: int| 0 <= k < lists@.len() ==> refs_signed((#[trigger] lists@[k])@),
            items == Seq::new(lists@.len(), |i: int| refs_json(lists@[i]@)),
            s@ == start + joined(items, i as int),
        decreases lists.len() - i,
    {
        put_comma(s, i);
        write_arc_refs(s, lists[i].as_slice());
        proof {
            lemma_joined(start, items, i as int);
        }
        i += 1;
    }
    put(s, "]");
    proof {
        lemma_list(before, items);
    }
}

fn write_point(s: &mut Vec<u8>, p: Pt)
    ensures
        final(s)@ == old(s)@ + point_json(p),
{
    let ghost before = s@;
    put(s, "[");
    put_num(s, p[0]);
    put(s, ",");
    put_num(s, p[1]);
    put(s, "]");
    proof {
        lemma_onto5(
            before,
            utf8("["@),
            num(p[0] as int),
            utf8(","@),
            num(p[1] as int),
            utf8("]"@),
        );
    }
}

fn write_box(s: &mut Vec<u8>, a: &Aabb)
    ensures
        final(s)@ == old(s)@ + box_json(*a),
{
    let ghost before = s@;
    put(s, "[");
    write_point(s, a[0]);
    put(s, ",");
    write_point(s, a[1]);
    put(s, "]");
    proof {
        lemma_onto5(
            before,
            utf8("["@),
            point_json(a[0]),
            utf8(","@),
            point_json(a[1]),
            utf8("]"@),
        );
    }
}

/// Write a zone.  Key order: id, aabb, a, tzid, outer (arc refs), h (hole arc
/// refs).
pub fn write_zone(s: &mut Vec<u8>, z: &Zone)
    requires
        zone_signed(*z),
    ensures
        final(s)@ == old(s)@ + zone_json(*z),
{
    let ghost before = s@;
    put(s, "{\"id\":");
    put_count(s, z.id as u64);
    put(s, ",\"aabb\":");
    write_box(s, &z.aabb);
    put(s, ",\"a\":");
    put_num(s, z.a);
    put(s, ",\"tzid\":");
    proof {
        lemma_onto7(
            before,
            utf8("{\"id\":"@),
            num(z.id as int),
            utf8(",\"aabb\":"@),
            box_json(z.aabb),
            utf8(",\"a\":"@),
            num(z.a as int),
            utf8(",\"tzid\":"@),
        );
        assert(s@ == before + zone_head(*z));
    }
    put_count(s, z.tzid as u64);
    put(s, ",\"outer\":");
    write_arc_refs(s, z.outer_refs.as_slice());
    let ghost mid = s@;
    if z.hole_refs.len() > 0 {
        put(s, ",\"h\":");
        write_ref_lists(s, z.hole_refs.as_slice());
        proof {
            lemma_onto(mid, utf8(",\"h\":"@), ref_lists_json(z.hole_refs@));
        }
    } else {
        proof {
            assert(s@ =~= mid + Seq::<u8>::empty());
        }
    }
    put(s, "}");
    proof {
        let rest = if z.hole_refs@.len() > 0 {
            utf8(",\"h\":"@) + ref_lists_json(z.hole_refs@)
        } else {
            Seq::empty()
        };
        let (a, b, c, d) = (
            zone_head(*z),
            num(z.tzid as int),
            utf8(",\"outer\":"@),
            refs_json(z.outer_refs@),
        );
        lemma_onto5(before, a, b, c, d, rest);
        lemma_onto(before, a + b + c + d + rest, utf8("}"@));
    }
}

// --- sections ---

/// An arc: its origin, and its packed deltas in base64.
pub open spec fn packed_json(entry: (Pt, Vec<u8>)) -> Seq<u8> {
    utf8("{\"o\":"@) + point_json(entry.0) + utf8(",\"p\":"@) + quoted(
        utf8(b64_text(entry.1@, round_up3(entry.1@.len() as int))),
    ) + utf8("}"@)
}

pub open spec fn packings_json(arcs: Seq<(Pt, Vec<u8>)>) -> Seq<u8> {
    list(Seq::new(arcs.len(), |i: int| packed_json(arcs[i])))
}

pub open spec fn zones_json(zones: Seq<Zone>) -> Seq<u8> {
    list(Seq::new(zones.len(), |i: int| zone_json(zones[i])))
}

/// A timezone, keyed by its name.
pub open spec fn tz_json(tz: Tz) -> Seq<u8> {
    quoted(utf8(tz.n@)) + utf8(":{\"id\":"@) + num(tz.id as int) + utf8(",\"n\":"@) + quoted(
        utf8(tz.n@),
    ) + utf8(",\"ref\":"@) + ids_json(tz.refs@) + utf8("}"@)
}

pub open spec fn table_json(tz: Seq<Tz>) -> Seq<u8> {
    utf8("{"@) + commas(Seq::new(tz.len(), |i: int| tz_json(tz[i]))) + utf8("}"@)
}

/// What the coordinates mean; both axes have `2^19 / 180` units per degree.
pub open spec fn quant_json() -> Seq<u8> {
    utf8("{\"xMin\":"@) + num(X_MIN as int) + utf8(",\"xMax\":"@) + num(X_MAX as int) + utf8(
        ",\"yMin\":"@,
    ) + num(Y_MIN as int) + utf8(",\"yMax\":"@) + num(Y_MAX as int) + utf8(
        ",\"xScale\":2912.711111111111,\"yScale\":2912.711111111111,\"maxDepth\":"@,
    ) + num(MAX_DEPTH as int) + utf8("}"@)
}

/// The artifact in the JSON format.
pub open spec fn json_bytes(out: Output) -> Seq<u8> {
    utf8("{\"quant\":"@) + quant_json() + utf8(",\"rootCell\":"@) + box_json(
        [[X_MIN, Y_MIN], [X_MAX, Y_MAX]],
    ) + utf8(",\"quadtree\":"@) + node_json(arena_view(out.arena@), out.root as int) + utf8(
        ",\"arcs\":"@,
    ) + packings_json(out.arc_packed@) + utf8(",\"zones\":"@) + zones_json(out.zones@) + utf8(
        ",\"tz\":"@,
    ) + table_json(out.tz@) + utf8("}"@)
}

fn write_packed(s: &mut Vec<u8>, entry: &(Pt, Vec<u8>))
    ensures
        final(s)@ == old(s)@ + packed_json(*entry),
{
    let ghost before = s@;
    let text = base64_encode(entry.1.as_slice());
    put(s, "{\"o\":");
    write_point(s, entry.0);
    put(s, ",\"p\":");
    proof {
        reveal(utf8);
    }
    json_str(s, text.as_str().as_bytes());
    put(s, "}");
    proof {
        lemma_onto5(
            before,
            utf8("{\"o\":"@),
            point_json(entry.0),
            utf8(",\"p\":"@),
            quoted(utf8(text@)),
            utf8("}"@),
        );
    }
}

fn write_packings(s: &mut Vec<u8>, arcs: &[(Pt, Vec<u8>)])
    ensures
        final(s)@ == old(s)@ + packings_json(arcs@),
{
    let ghost items = Seq::new(arcs@.len(), |i: int| packed_json(arcs@[i]));
    let ghost before = s@;
    put(s, "[");
    let ghost start = s@;
    let mut i: usize = 0;
    proof {
        assert(start + joined(items, 0) =~= start);
    }
    while i < arcs.len()
        invariant
            0 <= i <= arcs@.len(),
            items == Seq::new(arcs@.len(), |i: int| packed_json(arcs@[i])),
            s@ == start + joined(items, i as int),
        decreases arcs.len() - i,
    {
        put_comma(s, i);
        write_packed(s, &arcs[i]);
        proof {
            lemma_joined(start, items, i as int);
        }
        i += 1;
    }
    put(s, "]");
    proof {
        lemma_list(before, items);
    }
}

fn write_zones(s: &mut Vec<u8>, zones: &[Zone])
    requires
        forall|k: int| 0 <= k < zones@.len() ==> zone_signed(#[trigger] zones@[k]),
    ensures
        final(s)@ == old(s)@ + zones_json(zones@),
{
    let ghost items = Seq::new(zones@.len(), |i: int| zone_json(zones@[i]));
    let ghost before = s@;
    put(s, "[");
    let ghost start = s@;
    let mut i: usize = 0;
    proof {
        assert(start + joined(items, 0) =~= start);
    }
    while i < zones.len()
        invariant
            0 <= i <= zones@.len(),
            forall|k: int| 0 <= k < zones@.len() ==> zone_signed(#[trigger] zones@[k]),
            items == Seq::new(zones@.len(), |i: int| zone_json(zones@[i])),
            s@ == start + joined(items, i as int),
        decreases zones.len() - i,
    {
        put_comma(s, i);
        write_zone(s, &zones[i]);
        proof {
            lemma_joined(start, items, i as int);
        }
        i += 1;
    }
    put(s, "]");
    proof {
        lemma_list(before, items);
    }
}

#[verifier::spinoff_prover]
fn write_tz(s: &mut Vec<u8>, tz: &Tz)
    ensures
        final(s)@ == old(s)@ + tz_json(*tz),
{
    let ghost before = s@;
    let ghost name = quoted(utf8(tz.n@));
    let bytes = tz.n.as_str().as_bytes();
    proof {
        reveal(utf8);
    }
    json_str(s, bytes);
    put(s, ":{\"id\":");
    put_count(s, tz.id as u64);
    put(s, ",\"n\":");
    json_str(s, bytes);
    put(s, ",\"ref\":");
    put_ids(s, tz.refs.as_slice());
    put(s, "}");
    proof {
        let (a, b, c, d, e) = (
            utf8(":{\"id\":"@),
            num(tz.id as int),
            utf8(",\"n\":"@),
            utf8(",\"ref\":"@),
            ids_json(tz.refs@),
        );
        lemma_onto7(before, name, a, b, c, name, d, e);
        lemma_onto(before, name + a + b + c + name + d + e, utf8("}"@));
    }
}

fn write_table(s: &mut Vec<u8>, tz: &[Tz])
    ensures
        final(s)@ == old(s)@ + table_json(tz@),
{
    let ghost items = Seq::new(tz@.len(), |i: int| tz_json(tz@[i]));
    let ghost before = s@;
    put(s, "{");
    let ghost start = s@;
    let mut i: usize = 0;
    proof {
        assert(start + joined(items, 0) =~= start);
    }
    while i < tz.len()
        invariant
            0 <= i <= tz@.len(),
            items == Seq::new(tz@.len(), |i: int| tz_json(tz@[i])),
            s@ == start + joined(items, i as int),
        decreases tz.len() - i,
    {
        put_comma(s, i);
        write_tz(s, &tz[i]);
        proof {
            lemma_joined(start, items, i as int);
        }
        i += 1;
    }
    put(s, "}");
    proof {
        lemma_onto(before, utf8("{"@), commas(items));
        lemma_onto(before, utf8("{"@) + commas(items), utf8("}"@));
    }
}

#[verifier::spinoff_prover]
fn write_quant(s: &mut Vec<u8>)
    ensures
        final(s)@ == old(s)@ + quant_json(),
{
    let ghost before = s@;
    put(s, "{\"xMin\":");
    put_num(s, X_MIN);
    put(s, ",\"xMax\":");
    put_num(s, X_MAX);
    put(s, ",\"yMin\":");
    put_num(s, Y_MIN);
    put(s, ",\"yMax\":");
    put_num(s, Y_MAX);
    put(s, ",\"xScale\":2912.711111111111,\"yScale\":2912.711111111111,\"maxDepth\":");
    put_count(s, MAX_DEPTH as u64);
    put(s, "}");
    proof {
        let (a, b, c, d) = (
            utf8("{\"xMin\":"@),
            utf8(",\"xMax\":"@),
            utf8(",\"yMin\":"@),
            utf8(",\"yMax\":"@),
        );
        let (x, y, z) = (num(X_MIN as int), num(X_MAX as int), num(Y_MIN as int));
        lemma_onto7(before, a, x, b, y, c, z, d);
        let head = a + x + b + y + c + z + d;
        lemma_onto5(
            before,
            head,
            num(Y_MAX as int),
            utf8(
                ",\"xScale\":2912.711111111111,\"yScale\":2912.711111111111,\"maxDepth\":"@,
            ),
            num(MAX_DEPTH as int),
            utf8("}"@),
        );
    }
}

/// Writes the whole artifact in the JSON format.
pub struct JsonSerializer;

impl Serializer for JsonSerializer {
    open spec fn takes(&self, out: Output) -> bool {
        &&& out.root < out.arena@.len()
        &&& is_downward(arena_view(out.arena@))
        &&& forall|k: int| 0 <= k < out.zones@.len() ==> zone_signed(#[trigger] out.zones@[k])
    }

    open spec fn outcome(&self, out: Output) -> Outcome {
        Ok(json_bytes(out))
    }

    open spec fn name(&self) -> Seq<char> {
        "json"@
    }

    open spec fn stores_cost_tree(&self) -> bool {
        true
    }

    #[verifier::spinoff_prover]
    fn serialize(&self, out: &Output) -> (r: Result<Vec<u8>, String>) {
        let mut s: Vec<u8> = Vec::new();
        put(&mut s, "{\"quant\":");
        write_quant(&mut s);
        put(&mut s, ",\"rootCell\":");
        write_box(&mut s, &[[X_MIN, Y_MIN], [X_MAX, Y_MAX]]);
        put(&mut s, ",\"quadtree\":");
        write_node(&mut s, out.arena.as_slice(), out.root);
        put(&mut s, ",\"arcs\":");
        write_packings(&mut s, out.arc_packed.as_slice());
        put(&mut s, ",\"zones\":");
        write_zones(&mut s, out.zones.as_slice());
        put(&mut s, ",\"tz\":");
        write_table(&mut s, out.tz.as_slice());
        put(&mut s, "}");
        proof {
            assert(Seq::<u8>::empty() + utf8("{\"quant\":"@) =~= utf8("{\"quant\":"@));
        }
        Ok(s)
    }

    fn format_name(&self) -> (r: &'static str) {
        "json"
    }

    fn uses_cost_tree(&self) -> (r: bool) {
        true
    }
}

/// Every artifact that answers lookups can be written, provided its arcs can
/// be numbered by signed integers.
pub proof fn law_readable_artifact_has_json(out: Output)
    requires
        out.is_readable(),
        out.arcs@.len() <= i64::MAX,
    ensures
        JsonSerializer.takes(out),
{
    let arena = arena_view(out.arena@);
    let arcs = deep(out.arcs@);
    let f = choose|f: Frame|
        #![trigger framed(arena, out.zones@, f)]
        framed(arena, out.zones@, f) && localized(arena, out.zones@, arcs, f);
    assert forall|idx: int| 0 <= idx < arena.len() implies ((#[trigger] arena[idx]).q matches Some(
        ch,
    ) ==> is_below(arena, idx, ch)) by {
        assert(node_framed(arena, out.zones@, f, idx));
    }
    assert forall|k: int| 0 <= k < out.zones@.len() implies zone_signed(#[trigger] out.zones@[k]) by {
        let zone = out.zones@[k];
        assert(zone_rebuilt(zone, arcs) && zone_indexable(zone, arcs));
        assert(ring_indexable(zone.outer_refs@, arcs));
        assert forall|j: int| 0 <= j < zone.hole_refs@.len() implies refs_signed(
            (#[trigger] zone.hole_refs@[j])@,
        ) by {
            assert(ring_indexable(zone.hole_refs@[j]@, arcs));
        }
    }
}

} // verus!
