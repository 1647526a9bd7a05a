//! What a reader of the JSON format gets back: the tree that it descends, and
//! the records that it looks things up in.
use vstd::prelude::*;

use crate::arcs::deep;
use crate::artifact::{arena_view, CandView, HoleView, NodeView, Output, RunsView, Tz, Zone};
use crate::geom::{Aabb, Pt};
use crate::lookup::{center_of, child_cell, quadrant_of};
use crate::polycodec::{b64_text, law_base64_round_trip, octets, round_up3, sextets};
use crate::quant::{MAX_DEPTH, ROOT_CELL, X_MAX, X_MIN, Y_MAX, Y_MIN};
use crate::resolve::{descent, passing, resolved, smallest};
use crate::serialize::json::{
    arc_json, arc_runs_json, box_json, cand_json, cands_json, hole_json, holes_json, ids_json,
    is_below, is_downward, members_of, node_json, packed_json, packings_json,
    point_json, quant_json, ref_lists_json, ref_value, refs_json, run_json, runs_json, table_json,
    tz_json, zone_head, zone_json, zones_json, JsonSerializer, Kids,
};
use crate::serialize::json_text::{commas, joined, lemma_onto5, list, num, quoted, utf8};
use crate::serialize::json_value::{
    as_int, first_named, is_number_byte, lemma_ascii, lemma_first_named, lemma_list_reads, lemma_literal,
    lemma_none_named, lemma_number, lemma_number_reads, lemma_object_reads, lemma_pair_reads,
    lemma_parsed, lemma_read_list, lemma_text_reads, member, named, number, parsed, read_list,
    reads_as, JsonValue,
};
use crate::serialize::{Outcome, Serializer};
use crate::topology::ArcRef;

verus! {

// --- numbers ---

/// A number that fits.
pub open spec fn read_u32(v: JsonValue) -> Option<u32> {
    match as_int(v) {
        Some(n) => if 0 <= n <= u32::MAX {
            Some(n as u32)
        } else {
            None
        },
        None => None,
    }
}

/// A number that fits.
pub open spec fn read_usize(v: JsonValue) -> Option<usize> {
    match as_int(v) {
        Some(n) => if 0 <= n <= usize::MAX {
            Some(n as usize)
        } else {
            None
        },
        None => None,
    }
}

/// A number that fits.
pub open spec fn read_i64(v: JsonValue) -> Option<i64> {
    match as_int(v) {
        Some(n) => if i64::MIN <= n <= i64::MAX {
            Some(n as i64)
        } else {
            None
        },
        None => None,
    }
}

/// A list of two.
pub open spec fn read_pair(v: JsonValue) -> Option<(JsonValue, JsonValue)> {
    match v {
        JsonValue::List(items) => if items.len() == 2 {
            Some((items[0], items[1]))
        } else {
            None
        },
        _ => None,
    }
}

// --- candidates ---

/// A run of edges: the first and the last.
pub open spec fn read_run(v: JsonValue) -> Option<(u32, u32)> {
    match read_pair(v) {
        Some((a, b)) => match (read_u32(a), read_u32(b)) {
            (Some(first), Some(last)) => Some((first, last)),
            _ => None,
        },
        None => None,
    }
}

/// An arc of a ring and its runs.
pub open spec fn read_arc_runs(v: JsonValue) -> Option<(u32, Seq<(u32, u32)>)> {
    match read_pair(v) {
        Some((a, b)) => match (read_u32(a), read_list(b, |x: JsonValue| read_run(x))) {
            (Some(arc), Some(runs)) => Some((arc, runs)),
            _ => None,
        },
        None => None,
    }
}

/// The runs of a ring.
pub open spec fn read_runs(v: JsonValue) -> Option<RunsView> {
    read_list(v, |x: JsonValue| read_arc_runs(x))
}

/// A hole of a candidate.
pub open spec fn read_hole(v: JsonValue) -> Option<HoleView> {
    match (member(v, "i"@), member(v, "w"@), member(v, "e"@)) {
        (Some(i), Some(w), Some(e)) => match (read_usize(i), read_i64(w), read_runs(e)) {
            (Some(i), Some(w), Some(e)) => Some(HoleView { i, w, e }),
            _ => None,
        },
        _ => None,
    }
}

/// The holes of a candidate; none where the member is left out.
pub open spec fn read_holes(v: Option<JsonValue>) -> Option<Seq<HoleView>> {
    match v {
        Some(h) => read_list(h, |x: JsonValue| read_hole(x)),
        None => Some(Seq::empty()),
    }
}

/// A candidate.
pub open spec fn read_cand(v: JsonValue) -> Option<CandView> {
    match (member(v, "z"@), member(v, "w"@), member(v, "e"@)) {
        (Some(z), Some(w), Some(e)) => match (
            read_usize(z),
            read_i64(w),
            read_runs(e),
            read_holes(member(v, "h"@)),
        ) {
            (Some(z), Some(w), Some(e), Some(h)) => Some(CandView { z, w, e, h }),
            _ => None,
        },
        _ => None,
    }
}

// --- the tree ---

/// The zones that a node settles; none where the member is left out.
pub open spec fn read_settled(v: JsonValue) -> Option<Seq<usize>> {
    match member(v, "eref"@) {
        Some(ids) => read_list(ids, |x: JsonValue| read_usize(x)),
        None => Some(Seq::empty()),
    }
}

/// The candidates of a node; none where the member is left out.
pub open spec fn read_tested(v: JsonValue) -> Option<Seq<CandView>> {
    match member(v, "ref"@) {
        Some(cands) => read_list(cands, |x: JsonValue| read_cand(x)),
        None => Some(Seq::empty()),
    }
}

/// A descent for a point through the nodes of the text: the zones settled on
/// the way, the cell of the leaf, and the candidates of the leaf.
pub open spec fn walked(
    v: JsonValue,
    cell: Aabb,
    settled: Seq<usize>,
    p: Pt,
    steps: nat,
) -> Option<(Seq<usize>, Aabb, Seq<CandView>)>
    decreases steps,
{
    match read_settled(v) {
        None => None,
        Some(ids) => match member(v, "q"@) {
            None => match read_tested(v) {
                Some(cands) => Some((settled + ids, cell, cands)),
                None => None,
            },
            Some(JsonValue::List(kids)) => if kids.len() == 4 && steps > 0 {
                let qi = quadrant_of(cell, p);
                walked(kids[qi], child_cell(cell, qi), settled + ids, p, (steps - 1) as nat)
            } else {
                None
            },
            Some(_) => None,
        },
    }
}

// --- putting an object together ---

proof fn lemma_first_piece(
    lit: Seq<char>,
    name: Seq<u8>,
    inner: Seq<u8>,
    texts: Seq<Seq<u8>>,
)
    requires
        utf8(lit) == utf8("{"@) + named(name),
        texts.len() > 0,
        texts[0] == named(name) + inner,
    ensures
        utf8(lit) + inner == utf8("{"@) + joined(texts, 1),
{
    assert(utf8(lit) + inner =~= utf8("{"@) + (named(name) + inner));
}

proof fn lemma_next_piece(
    pre: Seq<u8>,
    lit: Seq<char>,
    name: Seq<u8>,
    inner: Seq<u8>,
    texts: Seq<Seq<u8>>,
    k: int,
)
    requires
        utf8(lit) == utf8(","@) + named(name),
        0 < k < texts.len(),
        texts[k] == named(name) + inner,
        pre == utf8("{"@) + joined(texts, k),
    ensures
        pre + utf8(lit) + inner == utf8("{"@) + joined(texts, k + 1),
{
    assert(pre + utf8(lit) + inner =~= utf8("{"@) + (joined(texts, k) + utf8(","@) + texts[k]));
}

/// The first `k` literals, each with a text behind it.
spec fn pieces(lits: Seq<Seq<u8>>, inner: Seq<Seq<u8>>, k: int) -> Seq<u8>
    decreases k,
{
    if k <= 1 {
        lits[0] + inner[0]
    } else {
        pieces(lits, inner, k - 1) + lits[k - 1] + inner[k - 1]
    }
}

/// The literals name the members: an opening brace before the first, commas
/// before the others.
spec fn name_members(lits: Seq<Seq<u8>>, names: Seq<Seq<u8>>) -> bool {
    &&& lits.len() == names.len()
    &&& forall|k: int|
        0 <= k < lits.len() ==> #[trigger] lits[k] == (if k == 0 {
            utf8("{"@)
        } else {
            utf8(","@)
        }) + named(names[k])
}

proof fn lemma_pieces(
    lits: Seq<Seq<u8>>,
    names: Seq<Seq<u8>>,
    inner: Seq<Seq<u8>>,
    texts: Seq<Seq<u8>>,
    k: int,
)
    requires
        name_members(lits, names),
        inner.len() == lits.len(),
        texts.len() == lits.len(),
        forall|i: int| 0 <= i < lits.len() ==> #[trigger] texts[i] == named(names[i]) + inner[i],
        1 <= k <= lits.len(),
    ensures
        pieces(lits, inner, k) == utf8("{"@) + joined(texts, k),
    decreases k,
{
    assert(texts[k - 1] == named(names[k - 1]) + inner[k - 1]);
    if k == 1 {
        assert(lits[0] == utf8("{"@) + named(names[0]));
        assert(lits[0] + inner[0] =~= utf8("{"@) + texts[0]);
    } else {
        lemma_pieces(lits, names, inner, texts, k - 1);
        assert(lits[k - 1] == utf8(","@) + named(names[k - 1]));
        assert(pieces(lits, inner, k) =~= utf8("{"@) + (joined(texts, k - 1) + utf8(","@)
            + texts[k - 1]));
    }
}

/// Literals with texts behind them, and a closing brace, read as the object of
/// the named values.
proof fn lemma_fields(
    lits: Seq<Seq<u8>>,
    names: Seq<Seq<u8>>,
    inner: Seq<Seq<u8>>,
    vals: Seq<JsonValue>,
    members: Seq<(Seq<u8>, JsonValue)>,
)
    requires
        name_members(lits, names),
        lits.len() > 0,
        inner.len() == lits.len(),
        vals.len() == lits.len(),
        forall|k: int| 0 <= k < lits.len() ==> reads_as(#[trigger] inner[k], vals[k]),
        members == Seq::new(lits.len(), |k: int| (names[k], vals[k])),
    ensures
        reads_as(
            pieces(lits, inner, lits.len() as int) + utf8("}"@),
            JsonValue::Object(members),
        ),
{
    let texts = Seq::new(lits.len(), |k: int| named(names[k]) + inner[k]);
    lemma_pieces(lits, names, inner, texts, lits.len() as int);
    assert forall|k: int| 0 <= k < texts.len() implies {
        &&& #[trigger] texts[k] == named(members[k].0) + inner[k]
        &&& reads_as(inner[k], members[k].1)
    } by {
        assert(reads_as(inner[k], vals[k]));
    }
    lemma_object_reads(texts, members, inner);
}

proof fn lemma_small_names()
    ensures
        utf8("i"@) == seq![105u8],
        utf8("w"@) == seq![119u8],
        utf8("e"@) == seq![101u8],
        utf8("z"@) == seq![122u8],
        utf8("h"@) == seq![104u8],
{
    reveal_strlit("i");
    reveal_strlit("w");
    reveal_strlit("e");
    reveal_strlit("z");
    reveal_strlit("h");
    lemma_ascii("i"@);
    lemma_ascii("w"@);
    lemma_ascii("e"@);
    lemma_ascii("z"@);
    lemma_ascii("h"@);
    assert(utf8("i"@) =~= seq![105u8]);
    assert(utf8("w"@) =~= seq![119u8]);
    assert(utf8("e"@) =~= seq![101u8]);
    assert(utf8("z"@) =~= seq![122u8]);
    assert(utf8("h"@) =~= seq![104u8]);
}

proof fn lemma_small_literals()
    ensures
        utf8("{\"i\":"@) == utf8("{"@) + named(utf8("i"@)),
        utf8("{\"z\":"@) == utf8("{"@) + named(utf8("z"@)),
        utf8(",\"w\":"@) == utf8(","@) + named(utf8("w"@)),
        utf8(",\"e\":"@) == utf8(","@) + named(utf8("e"@)),
        utf8(",\"h\":"@) == utf8(","@) + named(utf8("h"@)),
{
    reveal_strlit("{");
    reveal_strlit(",");
    reveal_strlit("i");
    reveal_strlit("w");
    reveal_strlit("e");
    reveal_strlit("z");
    reveal_strlit("h");
    reveal_strlit("{\"i\":");
    reveal_strlit("{\"z\":");
    reveal_strlit(",\"w\":");
    reveal_strlit(",\"e\":");
    reveal_strlit(",\"h\":");
    assert("{\"i\":"@ =~= "{"@ + seq!['"'] + "i"@ + seq!['"', ':']);
    assert("{\"z\":"@ =~= "{"@ + seq!['"'] + "z"@ + seq!['"', ':']);
    assert(",\"w\":"@ =~= ","@ + seq!['"'] + "w"@ + seq!['"', ':']);
    assert(",\"e\":"@ =~= ","@ + seq!['"'] + "e"@ + seq!['"', ':']);
    assert(",\"h\":"@ =~= ","@ + seq!['"'] + "h"@ + seq!['"', ':']);
    lemma_literal("{\"i\":"@, "{"@, "i"@);
    lemma_literal("{\"z\":"@, "{"@, "z"@);
    lemma_literal(",\"w\":"@, ","@, "w"@);
    lemma_literal(",\"e\":"@, ","@, "e"@);
    lemma_literal(",\"h\":"@, ","@, "h"@);
}

// --- the pieces of a node read back ---

/// The text reads as some value that gives the thing back.
spec fn gives<T>(text: Seq<u8>, read: spec_fn(JsonValue) -> Option<T>, x: T) -> bool {
    exists|v: JsonValue| #[trigger] reads_as(text, v) && read(v) == Some(x)
}

spec fn given<T>(text: Seq<u8>, read: spec_fn(JsonValue) -> Option<T>, x: T) -> JsonValue {
    choose|v: JsonValue| #[trigger] reads_as(text, v) && read(v) == Some(x)
}

/// A list of texts that give things back gives the list of the things back.
proof fn lemma_gives_list<T>(
    texts: Seq<Seq<u8>>,
    read: spec_fn(JsonValue) -> Option<T>,
    xs: Seq<T>,
) -> (v: JsonValue)
    requires
        texts.len() == xs.len(),
        forall|i: int| 0 <= i < texts.len() ==> gives(#[trigger] texts[i], read, xs[i]),
    ensures
        reads_as(list(texts), v),
        read_list(v, read) == Some(xs),
{
    let vals = Seq::new(texts.len(), |i: int| given(texts[i], read, xs[i]));
    assert forall|i: int| 0 <= i < texts.len() implies reads_as(#[trigger] texts[i], vals[i]) by {
        assert(gives(texts[i], read, xs[i]));
    }
    assert forall|i: int| 0 <= i < vals.len() implies read(#[trigger] vals[i]) == Some(xs[i]) by {
        assert(gives(texts[i], read, xs[i]));
    }
    lemma_list_reads(texts, vals);
    lemma_read_list(vals, read, xs);
    JsonValue::List(vals)
}

proof fn lemma_run(run: (u32, u32))
    ensures
        gives(run_json(run), |x: JsonValue| read_run(x), run),
{
    lemma_number(run.0 as int);
    lemma_number(run.1 as int);
    let (a, b) = (number(run.0 as int), number(run.1 as int));
    lemma_pair_reads(num(run.0 as int), a, num(run.1 as int), b);
    let v = JsonValue::List(seq![a, b]);
    assert(reads_as(run_json(run), v) && read_run(v) == Some(run));
}

proof fn lemma_arc_runs(arc: (u32, Seq<(u32, u32)>))
    ensures
        gives(arc_json(arc), |x: JsonValue| read_arc_runs(x), arc),
{
    let runs = arc.1;
    let texts = Seq::new(runs.len(), |i: int| run_json(runs[i]));
    assert forall|i: int| 0 <= i < texts.len() implies gives(
        #[trigger] texts[i],
        |x: JsonValue| read_run(x),
        runs[i],
    ) by {
        lemma_run(runs[i]);
    }
    let b = lemma_gives_list(texts, |x: JsonValue| read_run(x), runs);
    lemma_number(arc.0 as int);
    let a = number(arc.0 as int);
    lemma_pair_reads(num(arc.0 as int), a, runs_json(runs), b);
    let v = JsonValue::List(seq![a, b]);
    assert(reads_as(arc_json(arc), v) && read_arc_runs(v) == Some(arc));
}

proof fn lemma_runs(e: RunsView) -> (v: JsonValue)
    ensures
        reads_as(arc_runs_json(e), v),
        read_runs(v) == Some(e),
{
    let texts = Seq::new(e.len(), |i: int| arc_json(e[i]));
    assert forall|i: int| 0 <= i < texts.len() implies gives(
        #[trigger] texts[i],
        |x: JsonValue| read_arc_runs(x),
        e[i],
    ) by {
        lemma_arc_runs(e[i]);
    }
    lemma_gives_list(texts, |x: JsonValue| read_arc_runs(x), e)
}

proof fn lemma_hole(h: HoleView)
    ensures
        gives(hole_json(h), |x: JsonValue| read_hole(x), h),
{
    let e = lemma_runs(h.e);
    lemma_number(h.i as int);
    lemma_number(h.w as int);
    lemma_small_names();
    lemma_small_literals();
    let (ki, kw, ke) = (utf8("i"@), utf8("w"@), utf8("e"@));
    let inner = seq![num(h.i as int), num(h.w as int), arc_runs_json(h.e)];
    let texts = seq![named(ki) + inner[0], named(kw) + inner[1], named(ke) + inner[2]];
    let members = seq![(ki, number(h.i as int)), (kw, number(h.w as int)), (ke, e)];
    lemma_first_piece("{\"i\":"@, ki, inner[0], texts);
    let one = utf8("{\"i\":"@) + inner[0];
    lemma_next_piece(one, ",\"w\":"@, kw, inner[1], texts, 1);
    let two = one + utf8(",\"w\":"@) + inner[1];
    lemma_next_piece(two, ",\"e\":"@, ke, inner[2], texts, 2);
    lemma_object_reads(texts, members, inner);
    lemma_first_named(members, ki, 0);
    lemma_first_named(members, kw, 1);
    lemma_first_named(members, ke, 2);
    let v = JsonValue::Object(members);
    assert(reads_as(hole_json(h), v) && read_hole(v) == Some(h));
}

proof fn lemma_holes(h: Seq<HoleView>) -> (v: JsonValue)
    ensures
        reads_as(holes_json(h), v),
        read_holes(Some(v)) == Some(h),
{
    let texts = Seq::new(h.len(), |i: int| hole_json(h[i]));
    assert forall|i: int| 0 <= i < texts.len() implies gives(
        #[trigger] texts[i],
        |x: JsonValue| read_hole(x),
        h[i],
    ) by {
        lemma_hole(h[i]);
    }
    lemma_gives_list(texts, |x: JsonValue| read_hole(x), h)
}

#[verifier::spinoff_prover]
proof fn lemma_cand(c: CandView)
    ensures
        gives(cand_json(c), |x: JsonValue| read_cand(x), c),
{
    let e = lemma_runs(c.e);
    lemma_number(c.z as int);
    lemma_number(c.w as int);
    lemma_small_names();
    lemma_small_literals();
    let (kz, kw, ke, kh) = (utf8("z"@), utf8("w"@), utf8("e"@), utf8("h"@));
    let inner3 = seq![num(c.z as int), num(c.w as int), arc_runs_json(c.e)];
    let texts3 = seq![named(kz) + inner3[0], named(kw) + inner3[1], named(ke) + inner3[2]];
    let members3 = seq![(kz, number(c.z as int)), (kw, number(c.w as int)), (ke, e)];
    let one = utf8("{\"z\":"@) + inner3[0];
    let two = one + utf8(",\"w\":"@) + inner3[1];
    let three = two + utf8(",\"e\":"@) + inner3[2];
    if c.h.len() > 0 {
        let h = lemma_holes(c.h);
        let inner = inner3.push(holes_json(c.h));
        let texts = texts3.push(named(kh) + inner[3]);
        let members = members3.push((kh, h));
        lemma_first_piece("{\"z\":"@, kz, inner[0], texts);
        lemma_next_piece(one, ",\"w\":"@, kw, inner[1], texts, 1);
        lemma_next_piece(two, ",\"e\":"@, ke, inner[2], texts, 2);
        lemma_next_piece(three, ",\"h\":"@, kh, inner[3], texts, 3);
        lemma_object_reads(texts, members, inner);
        lemma_first_named(members, kz, 0);
        lemma_first_named(members, kw, 1);
        lemma_first_named(members, ke, 2);
        lemma_first_named(members, kh, 3);
        let v = JsonValue::Object(members);
        assert(three + (utf8(",\"h\":"@) + inner[3]) =~= three + utf8(",\"h\":"@) + inner[3]);
        assert(reads_as(cand_json(c), v) && read_cand(v) == Some(c));
    } else {
        lemma_first_piece("{\"z\":"@, kz, inner3[0], texts3);
        lemma_next_piece(one, ",\"w\":"@, kw, inner3[1], texts3, 1);
        lemma_next_piece(two, ",\"e\":"@, ke, inner3[2], texts3, 2);
        lemma_object_reads(texts3, members3, inner3);
        lemma_first_named(members3, kz, 0);
        lemma_first_named(members3, kw, 1);
        lemma_first_named(members3, ke, 2);
        lemma_none_named(members3, kh);
        let v = JsonValue::Object(members3);
        assert(three + Seq::<u8>::empty() =~= three);
        assert(c.h =~= Seq::empty());
        assert(reads_as(cand_json(c), v) && read_cand(v) == Some(c));
    }
}

proof fn lemma_cands(cands: Seq<CandView>) -> (v: JsonValue)
    ensures
        reads_as(cands_json(cands), v),
        read_list(v, |x: JsonValue| read_cand(x)) == Some(cands),
{
    let texts = Seq::new(cands.len(), |i: int| cand_json(cands[i]));
    assert forall|i: int| 0 <= i < texts.len() implies gives(
        #[trigger] texts[i],
        |x: JsonValue| read_cand(x),
        cands[i],
    ) by {
        lemma_cand(cands[i]);
    }
    lemma_gives_list(texts, |x: JsonValue| read_cand(x), cands)
}

proof fn lemma_ids(ids: Seq<usize>) -> (v: JsonValue)
    ensures
        reads_as(ids_json(ids), v),
        read_list(v, |x: JsonValue| read_usize(x)) == Some(ids),
{
    let texts = Seq::new(ids.len(), |i: int| num(ids[i] as int));
    assert forall|i: int| 0 <= i < texts.len() implies gives(
        #[trigger] texts[i],
        |x: JsonValue| read_usize(x),
        ids[i],
    ) by {
        lemma_number(ids[i] as int);
        let v = number(ids[i] as int);
        assert(reads_as(texts[i], v) && read_usize(v) == Some(ids[i]));
    }
    lemma_gives_list(texts, |x: JsonValue| read_usize(x), ids)
}

// --- a node, and the descent through the nodes ---

proof fn lemma_node_names()
    ensures
        utf8("q"@).len() == 1,
        utf8("eref"@).len() == 4,
        utf8("ref"@).len() == 3,
        utf8("\"q\":"@) == named(utf8("q"@)),
        utf8("\"eref\":"@) == named(utf8("eref"@)),
        utf8("\"ref\":"@) == named(utf8("ref"@)),
{
    reveal_strlit("q");
    reveal_strlit("eref");
    reveal_strlit("ref");
    reveal_strlit("\"q\":");
    reveal_strlit("\"eref\":");
    reveal_strlit("\"ref\":");
    lemma_ascii("q"@);
    lemma_ascii("eref"@);
    lemma_ascii("ref"@);
    let none = Seq::<char>::empty();
    lemma_ascii(none);
    assert("\"q\":"@ =~= none + seq!['"'] + "q"@ + seq!['"', ':']);
    assert("\"eref\":"@ =~= none + seq!['"'] + "eref"@ + seq!['"', ':']);
    assert("\"ref\":"@ =~= none + seq!['"'] + "ref"@ + seq!['"', ':']);
    lemma_literal("\"q\":"@, none, "q"@);
    lemma_literal("\"eref\":"@, none, "eref"@);
    lemma_literal("\"ref\":"@, none, "ref"@);
    assert(utf8(none) + named(utf8("q"@)) =~= named(utf8("q"@)));
    assert(utf8(none) + named(utf8("eref"@)) =~= named(utf8("eref"@)));
    assert(utf8(none) + named(utf8("ref"@)) =~= named(utf8("ref"@)));
}

/// The texts of four children read as the four values.
spec fn kids_read(kids: Kids, vals: Seq<JsonValue>) -> bool {
    &&& vals.len() == 4
    &&& reads_as(kids.0, vals[0])
    &&& reads_as(kids.1, vals[1])
    &&& reads_as(kids.2, vals[2])
    &&& reads_as(kids.3, vals[3])
}

/// Up to three members, each there or not, read as an object in which each is
/// found where it is there.
#[verifier::spinoff_prover]
proof fn lemma_some_members(
    q: Option<(Seq<u8>, JsonValue)>,
    s: Option<(Seq<u8>, JsonValue)>,
    t: Option<(Seq<u8>, JsonValue)>,
    texts: Seq<Seq<u8>>,
) -> (v: JsonValue)
    requires
        q matches Some(m) ==> reads_as(m.0, m.1),
        s matches Some(m) ==> reads_as(m.0, m.1),
        t matches Some(m) ==> reads_as(m.0, m.1),
        texts == (match q {
            Some(m) => seq![utf8("\"q\":"@) + m.0],
            None => Seq::empty(),
        }) + (match s {
            Some(m) => seq![utf8("\"eref\":"@) + m.0],
            None => Seq::empty(),
        }) + (match t {
            Some(m) => seq![utf8("\"ref\":"@) + m.0],
            None => Seq::empty(),
        }),
    ensures
        reads_as(utf8("{"@) + commas(texts) + utf8("}"@), v),
        member(v, "q"@) == (match q {
            Some(m) => Some(m.1),
            None => None,
        }),
        member(v, "eref"@) == (match s {
            Some(m) => Some(m.1),
            None => None,
        }),
        member(v, "ref"@) == (match t {
            Some(m) => Some(m.1),
            None => None,
        }),
{
    lemma_node_names();
    let (kq, ks, kt) = (utf8("q"@), utf8("eref"@), utf8("ref"@));
    let (mq, iq) = match q {
        Some(m) => (seq![(kq, m.1)], seq![m.0]),
        None => (Seq::empty(), Seq::empty()),
    };
    let (ms, is) = match s {
        Some(m) => (seq![(ks, m.1)], seq![m.0]),
        None => (Seq::empty(), Seq::empty()),
    };
    let (mt, it) = match t {
        Some(m) => (seq![(kt, m.1)], seq![m.0]),
        None => (Seq::empty(), Seq::empty()),
    };
    let members = mq + ms + mt;
    let inner = iq + is + it;
    lemma_object_reads(texts, members, inner);
    if q is Some {
        lemma_first_named(members, kq, 0);
    } else {
        lemma_none_named(members, kq);
    }
    if s is Some {
        lemma_first_named(members, ks, mq.len() as int);
    } else {
        lemma_none_named(members, ks);
    }
    if t is Some {
        lemma_first_named(members, kt, (mq.len() + ms.len()) as int);
    } else {
        lemma_none_named(members, kt);
    }
    JsonValue::Object(members)
}

proof fn lemma_node_object(node: NodeView, kids: Option<Kids>, vals: Seq<JsonValue>) -> (v:
    JsonValue)
    requires
        kids matches Some(k) ==> kids_read(k, vals),
    ensures
        reads_as(utf8("{"@) + commas(members_of(node, kids)) + utf8("}"@), v),
        member(v, "q"@) == (if kids is Some {
            Some(JsonValue::List(vals))
        } else {
            None
        }),
        read_settled(v) == Some(node.eref),
        read_tested(v) == Some(node.cands),
{
    let q = match kids {
        Some(k) => {
            let texts = seq![k.0, k.1, k.2, k.3];
            lemma_list_reads(texts, vals);
            Some((list(texts), JsonValue::List(vals)))
        },
        None => None,
    };
    let s = if node.eref.len() > 0 {
        let ids = lemma_ids(node.eref);
        Some((ids_json(node.eref), ids))
    } else {
        assert(node.eref =~= Seq::empty());
        None
    };
    let t = if node.cands.len() > 0 {
        let cands = lemma_cands(node.cands);
        Some((cands_json(node.cands), cands))
    } else {
        assert(node.cands =~= Seq::empty());
        None
    };
    lemma_some_members(q, s, t, members_of(node, kids))
}

/// What the descent through the arena comes to, as the descent through the text
/// gives it.
pub open spec fn arrival(
    arena: Seq<NodeView>,
    idx: int,
    cell: Aabb,
    settled: Seq<usize>,
    p: Pt,
) -> (Seq<usize>, Aabb, Seq<CandView>) {
    let (leaf, last, now) = descent(arena, idx, cell, settled, p);
    (now, last, arena[leaf].cands)
}

/// The value stands for the subtree: every descent through it arrives where the
/// descent through the arena does.
pub open spec fn stands_for(v: JsonValue, arena: Seq<NodeView>, idx: int) -> bool {
    forall|cell: Aabb, settled: Seq<usize>, p: Pt, steps: nat|
        steps >= arena.len() - idx ==> #[trigger] walked(v, cell, settled, p, steps) == Some(
            arrival(arena, idx, cell, settled, p),
        )
}

/// The text of a node reads back as the subtree: its list of children holds, in
/// the order of the quadrants, the children of the node in the arena, and the
/// node's settled zones and candidates are the node's.
pub proof fn law_node_text_is_the_subtree(arena: Seq<NodeView>, idx: int) -> (v: JsonValue)
    requires
        is_downward(arena),
        0 <= idx < arena.len(),
    ensures
        reads_as(node_json(arena, idx), v),
        read_settled(v) == Some(arena[idx].eref),
        read_tested(v) == Some(arena[idx].cands),
        match arena[idx].q {
            None => member(v, "q"@) is None,
            Some(ch) => {
                &&& member(v, "q"@) matches Some(JsonValue::List(kids))
                &&& kids.len() == 4
                &&& forall|i: int|
                    0 <= i < 4 ==> stands_for(#[trigger] kids[i], arena, ch[i] as int) && reads_as(
                        node_json(arena, ch[i] as int),
                        kids[i],
                    )
            },
        },
        stands_for(v, arena, idx),
    decreases arena.len() - idx,
{
    let node = arena[idx];
    match node.q {
        None => {
            let v = lemma_node_object(node, None, Seq::empty());
            assert(stands_for(v, arena, idx));
            v
        },
        Some(ch) => {
            assert(is_below(arena, idx, ch));
            let v0 = law_node_text_is_the_subtree(arena, ch[0] as int);
            let v1 = law_node_text_is_the_subtree(arena, ch[1] as int);
            let v2 = law_node_text_is_the_subtree(arena, ch[2] as int);
            let v3 = law_node_text_is_the_subtree(arena, ch[3] as int);
            let kids = (
                node_json(arena, ch[0] as int),
                node_json(arena, ch[1] as int),
                node_json(arena, ch[2] as int),
                node_json(arena, ch[3] as int),
            );
            let vals = seq![v0, v1, v2, v3];
            let v = lemma_node_object(node, Some(kids), vals);
            assert forall|cell: Aabb, settled: Seq<usize>, p: Pt, steps: nat|
                steps >= arena.len() - idx implies #[trigger] walked(v, cell, settled, p, steps)
                == Some(arrival(arena, idx, cell, settled, p)) by {
                let qi = quadrant_of(cell, p);
                let now = settled + node.eref;
                let below = child_cell(cell, qi);
                assert(stands_for(vals[qi], arena, ch[qi] as int));
                assert(walked(vals[qi], below, now, p, (steps - 1) as nat) == Some(
                    arrival(arena, ch[qi] as int, below, now, p),
                ));
            }
            v
        },
    }
}

// --- zones, arcs and timezones ---

/// A point.
pub open spec fn read_point(v: JsonValue) -> Option<Pt> {
    match read_pair(v) {
        Some((x, y)) => match (read_i64(x), read_i64(y)) {
            (Some(x), Some(y)) => Some([x, y]),
            _ => None,
        },
        None => None,
    }
}

/// A box: its low and its high corner.
pub open spec fn read_box(v: JsonValue) -> Option<Aabb> {
    match read_pair(v) {
        Some((a, b)) => match (read_point(a), read_point(b)) {
            (Some(lo), Some(hi)) => Some([lo, hi]),
            _ => None,
        },
        None => None,
    }
}

/// A reference to an arc: the arc's index, or, of an arc taken backwards, the
/// index with all its bits turned over.
pub open spec fn read_ref(v: JsonValue) -> Option<ArcRef> {
    match as_int(v) {
        Some(n) => if 0 <= n <= usize::MAX {
            Some(ArcRef { arc: n as usize, rev: false })
        } else if 0 <= -1 - n <= usize::MAX {
            Some(ArcRef { arc: (-1 - n) as usize, rev: true })
        } else {
            None
        },
        None => None,
    }
}

/// The references of a ring.
pub open spec fn read_refs(v: JsonValue) -> Option<Seq<ArcRef>> {
    read_list(v, |x: JsonValue| read_ref(x))
}

/// The references of the holes; none where the member is left out.
pub open spec fn read_hole_refs(v: Option<JsonValue>) -> Option<Seq<Seq<ArcRef>>> {
    match v {
        Some(h) => read_list(h, |x: JsonValue| read_refs(x)),
        None => Some(Seq::empty()),
    }
}

/// The value shows the zone.
pub open spec fn shows_zone(v: JsonValue, zone: Zone) -> bool {
    &&& member(v, "id"@) matches Some(id) && read_usize(id) == Some(zone.id)
    &&& member(v, "aabb"@) matches Some(b) && read_box(b) == Some(zone.aabb)
    &&& member(v, "a"@) matches Some(a) && read_i64(a) == Some(zone.a)
    &&& member(v, "tzid"@) matches Some(t) && read_usize(t) == Some(zone.tzid)
    &&& member(v, "outer"@) matches Some(o) && read_refs(o) == Some(zone.outer_refs@)
    &&& read_hole_refs(member(v, "h"@)) == Some(
        Seq::new(zone.hole_refs@.len(), |k: int| zone.hole_refs@[k]@),
    )
}

/// The value shows the packed arc: its origin, and its bytes in base64.
pub open spec fn shows_packing(v: JsonValue, entry: (Pt, Vec<u8>)) -> bool {
    &&& member(v, "o"@) matches Some(o) && read_point(o) == Some(entry.0)
    &&& member(v, "p"@) matches Some(JsonValue::Text(text)) && octets(sextets(text)) == entry.1@
}

/// The member shows the timezone, under its name.
pub open spec fn shows_tz(entry: (Seq<u8>, JsonValue), tz: Tz) -> bool {
    &&& entry.0 == utf8(tz.n@)
    &&& member(entry.1, "id"@) matches Some(id) && read_usize(id) == Some(tz.id)
    &&& member(entry.1, "n"@) == Some(JsonValue::Text(utf8(tz.n@)))
    &&& member(entry.1, "ref"@) matches Some(r) && read_list(r, |x: JsonValue| read_usize(x))
        == Some(tz.refs@)
}

proof fn lemma_point(p: Pt) -> (v: JsonValue)
    ensures
        reads_as(point_json(p), v),
        read_point(v) == Some(p),
{
    lemma_number(p[0] as int);
    lemma_number(p[1] as int);
    let (a, b) = (number(p[0] as int), number(p[1] as int));
    lemma_pair_reads(num(p[0] as int), a, num(p[1] as int), b);
    assert([p[0], p[1]] =~= p);
    JsonValue::List(seq![a, b])
}

proof fn lemma_box(b: Aabb) -> (v: JsonValue)
    ensures
        reads_as(box_json(b), v),
        read_box(v) == Some(b),
{
    let lo = lemma_point(b[0]);
    let hi = lemma_point(b[1]);
    lemma_pair_reads(point_json(b[0]), lo, point_json(b[1]), hi);
    assert([b[0], b[1]] =~= b);
    JsonValue::List(seq![lo, hi])
}

proof fn lemma_refs(refs: Seq<ArcRef>) -> (v: JsonValue)
    ensures
        reads_as(refs_json(refs), v),
        read_refs(v) == Some(refs),
{
    let texts = Seq::new(refs.len(), |i: int| num(ref_value(refs[i])));
    assert forall|i: int| 0 <= i < texts.len() implies gives(
        #[trigger] texts[i],
        |x: JsonValue| read_ref(x),
        refs[i],
    ) by {
        lemma_number(ref_value(refs[i]));
        let v = number(ref_value(refs[i]));
        assert(reads_as(texts[i], v) && read_ref(v) == Some(refs[i]));
    }
    lemma_gives_list(texts, |x: JsonValue| read_ref(x), refs)
}

proof fn lemma_hole_refs(lists: Seq<Vec<ArcRef>>) -> (v: JsonValue)
    ensures
        reads_as(ref_lists_json(lists), v),
        read_hole_refs(Some(v)) == Some(Seq::new(lists.len(), |k: int| lists[k]@)),
{
    let texts = Seq::new(lists.len(), |i: int| refs_json(lists[i]@));
    let xs = Seq::new(lists.len(), |k: int| lists[k]@);
    assert forall|i: int| 0 <= i < texts.len() implies gives(
        #[trigger] texts[i],
        |x: JsonValue| read_refs(x),
        xs[i],
    ) by {
        let v = lemma_refs(lists[i]@);
        assert(reads_as(texts[i], v) && read_refs(v) == Some(xs[i]));
    }
    lemma_gives_list(texts, |x: JsonValue| read_refs(x), xs)
}

/// Names of different lengths, or with a different letter somewhere, differ.
proof fn lemma_zone_names()
    ensures
        utf8("id"@) == seq![105u8, 100u8],
        utf8("aabb"@) == seq![97u8, 97u8, 98u8, 98u8],
        utf8("a"@) == seq![97u8],
        utf8("tzid"@) == seq![116u8, 122u8, 105u8, 100u8],
        utf8("outer"@).len() == 5,
        utf8("h"@) == seq![104u8],
        utf8("{\"id\":"@) == utf8("{"@) + named(utf8("id"@)),
        utf8(",\"aabb\":"@) == utf8(","@) + named(utf8("aabb"@)),
        utf8(",\"a\":"@) == utf8(","@) + named(utf8("a"@)),
        utf8(",\"tzid\":"@) == utf8(","@) + named(utf8("tzid"@)),
        utf8(",\"outer\":"@) == utf8(","@) + named(utf8("outer"@)),
{
    reveal_strlit("{");
    reveal_strlit(",");
    reveal_strlit("id");
    reveal_strlit("aabb");
    reveal_strlit("a");
    reveal_strlit("tzid");
    reveal_strlit("outer");
    reveal_strlit("{\"id\":");
    reveal_strlit(",\"aabb\":");
    reveal_strlit(",\"a\":");
    reveal_strlit(",\"tzid\":");
    reveal_strlit(",\"outer\":");
    lemma_ascii("id"@);
    lemma_ascii("aabb"@);
    lemma_ascii("a"@);
    lemma_ascii("tzid"@);
    lemma_ascii("outer"@);
    lemma_small_names();
    assert(utf8("id"@) =~= seq![105u8, 100u8]);
    assert(utf8("aabb"@) =~= seq![97u8, 97u8, 98u8, 98u8]);
    assert(utf8("a"@) =~= seq![97u8]);
    assert(utf8("tzid"@) =~= seq![116u8, 122u8, 105u8, 100u8]);
    assert("{\"id\":"@ =~= "{"@ + seq!['"'] + "id"@ + seq!['"', ':']);
    assert(",\"aabb\":"@ =~= ","@ + seq!['"'] + "aabb"@ + seq!['"', ':']);
    assert(",\"a\":"@ =~= ","@ + seq!['"'] + "a"@ + seq!['"', ':']);
    assert(",\"tzid\":"@ =~= ","@ + seq!['"'] + "tzid"@ + seq!['"', ':']);
    assert(",\"outer\":"@ =~= ","@ + seq!['"'] + "outer"@ + seq!['"', ':']);
    lemma_literal("{\"id\":"@, "{"@, "id"@);
    lemma_literal(",\"aabb\":"@, ","@, "aabb"@);
    lemma_literal(",\"a\":"@, ","@, "a"@);
    lemma_literal(",\"tzid\":"@, ","@, "tzid"@);
    lemma_literal(",\"outer\":"@, ","@, "outer"@);
}

/// The pieces of a zone up to its outer ring.
proof fn lemma_zone_pieces(zone: Zone, texts: Seq<Seq<u8>>)
    requires
        texts.len() >= 5,
        texts[0] == named(utf8("id"@)) + num(zone.id as int),
        texts[1] == named(utf8("aabb"@)) + box_json(zone.aabb),
        texts[2] == named(utf8("a"@)) + num(zone.a as int),
        texts[3] == named(utf8("tzid"@)) + num(zone.tzid as int),
        texts[4] == named(utf8("outer"@)) + refs_json(zone.outer_refs@),
    ensures
        zone_head(zone) + num(zone.tzid as int) + utf8(",\"outer\":"@) + refs_json(
            zone.outer_refs@,
        ) == utf8("{"@) + joined(texts, 5),
{
    lemma_zone_names();
    let one = utf8("{\"id\":"@) + num(zone.id as int);
    lemma_first_piece("{\"id\":"@, utf8("id"@), num(zone.id as int), texts);
    lemma_next_piece(one, ",\"aabb\":"@, utf8("aabb"@), box_json(zone.aabb), texts, 1);
    let two = one + utf8(",\"aabb\":"@) + box_json(zone.aabb);
    lemma_next_piece(two, ",\"a\":"@, utf8("a"@), num(zone.a as int), texts, 2);
    let three = two + utf8(",\"a\":"@) + num(zone.a as int);
    lemma_next_piece(three, ",\"tzid\":"@, utf8("tzid"@), num(zone.tzid as int), texts, 3);
    let four = three + utf8(",\"tzid\":"@) + num(zone.tzid as int);
    lemma_next_piece(
        four,
        ",\"outer\":"@,
        utf8("outer"@),
        refs_json(zone.outer_refs@),
        texts,
        4,
    );
}

/// The text of a zone shows the zone.
#[verifier::spinoff_prover]
pub proof fn law_zone_text_shows_the_zone(zone: Zone) -> (v: JsonValue)
    ensures
        reads_as(zone_json(zone), v),
        shows_zone(v, zone),
{
    let b = lemma_box(zone.aabb);
    let o = lemma_refs(zone.outer_refs@);
    lemma_number(zone.id as int);
    lemma_number(zone.a as int);
    lemma_number(zone.tzid as int);
    lemma_zone_names();
    lemma_small_literals();
    let (ki, kb, ka, kt, ko, kh) = (
        utf8("id"@),
        utf8("aabb"@),
        utf8("a"@),
        utf8("tzid"@),
        utf8("outer"@),
        utf8("h"@),
    );
    let inner5 = seq![
        num(zone.id as int),
        box_json(zone.aabb),
        num(zone.a as int),
        num(zone.tzid as int),
        refs_json(zone.outer_refs@),
    ];
    let members5 = seq![
        (ki, number(zone.id as int)),
        (kb, b),
        (ka, number(zone.a as int)),
        (kt, number(zone.tzid as int)),
        (ko, o),
    ];
    let texts5 = Seq::new(5, |k: int| named(members5[k].0) + inner5[k]);
    let five = zone_head(zone) + num(zone.tzid as int) + utf8(",\"outer\":"@) + inner5[4];
    if zone.hole_refs@.len() > 0 {
        let h = lemma_hole_refs(zone.hole_refs@);
        let inner = inner5.push(ref_lists_json(zone.hole_refs@));
        let members = members5.push((kh, h));
        let texts = texts5.push(named(kh) + inner[5]);
        lemma_zone_pieces(zone, texts);
        lemma_next_piece(five, ",\"h\":"@, kh, inner[5], texts, 5);
        lemma_object_reads(texts, members, inner);
        lemma_first_named(members, ki, 0);
        lemma_first_named(members, kb, 1);
        lemma_first_named(members, ka, 2);
        lemma_first_named(members, kt, 3);
        lemma_first_named(members, ko, 4);
        lemma_first_named(members, kh, 5);
        assert(five + (utf8(",\"h\":"@) + inner[5]) =~= five + utf8(",\"h\":"@) + inner[5]);
        JsonValue::Object(members)
    } else {
        lemma_zone_pieces(zone, texts5);
        lemma_object_reads(texts5, members5, inner5);
        lemma_first_named(members5, ki, 0);
        lemma_first_named(members5, kb, 1);
        lemma_first_named(members5, ka, 2);
        lemma_first_named(members5, kt, 3);
        lemma_first_named(members5, ko, 4);
        lemma_none_named(members5, kh);
        assert(five + Seq::<u8>::empty() =~= five);
        assert(Seq::<Seq<ArcRef>>::empty() =~= Seq::new(
            zone.hole_refs@.len(),
            |k: int| zone.hole_refs@[k]@,
        ));
        JsonValue::Object(members5)
    }
}

proof fn lemma_packing_names()
    ensures
        utf8("o"@) == seq![111u8],
        utf8("p"@) == seq![112u8],
        utf8("{\"o\":"@) == utf8("{"@) + named(utf8("o"@)),
        utf8(",\"p\":"@) == utf8(","@) + named(utf8("p"@)),
{
    reveal_strlit("{");
    reveal_strlit(",");
    reveal_strlit("o");
    reveal_strlit("p");
    reveal_strlit("{\"o\":");
    reveal_strlit(",\"p\":");
    lemma_ascii("o"@);
    lemma_ascii("p"@);
    assert(utf8("o"@) =~= seq![111u8]);
    assert(utf8("p"@) =~= seq![112u8]);
    assert("{\"o\":"@ =~= "{"@ + seq!['"'] + "o"@ + seq!['"', ':']);
    assert(",\"p\":"@ =~= ","@ + seq!['"'] + "p"@ + seq!['"', ':']);
    lemma_literal("{\"o\":"@, "{"@, "o"@);
    lemma_literal(",\"p\":"@, ","@, "p"@);
}

/// The text of a packed arc shows its origin and its bytes.
pub proof fn law_packing_text_shows_the_arc(entry: (Pt, Vec<u8>)) -> (v: JsonValue)
    ensures
        reads_as(packed_json(entry), v),
        shows_packing(v, entry),
{
    let o = lemma_point(entry.0);
    let text = utf8(b64_text(entry.1@, round_up3(entry.1@.len() as int)));
    lemma_text_reads(text);
    lemma_packing_names();
    assert(octets(sextets(text)) == entry.1@) by {
        reveal(utf8);
        law_base64_round_trip(entry.1@);
    }
    let (ko, kp) = (utf8("o"@), utf8("p"@));
    let inner = seq![point_json(entry.0), quoted(text)];
    let members = seq![(ko, o), (kp, JsonValue::Text(text))];
    let texts = seq![named(ko) + inner[0], named(kp) + inner[1]];
    lemma_first_piece("{\"o\":"@, ko, inner[0], texts);
    lemma_next_piece(utf8("{\"o\":"@) + inner[0], ",\"p\":"@, kp, inner[1], texts, 1);
    lemma_object_reads(texts, members, inner);
    lemma_first_named(members, ko, 0);
    lemma_first_named(members, kp, 1);
    JsonValue::Object(members)
}

proof fn lemma_tz_names()
    ensures
        utf8("id"@).len() == 2,
        utf8("n"@).len() == 1,
        utf8("ref"@).len() == 3,
        utf8(":{\"id\":"@) == seq![58u8] + utf8("{\"id\":"@),
        utf8(",\"n\":"@) == utf8(","@) + named(utf8("n"@)),
        utf8(",\"ref\":"@) == utf8(","@) + named(utf8("ref"@)),
{
    reveal_strlit(",");
    reveal_strlit("id");
    reveal_strlit("n");
    reveal_strlit("ref");
    reveal_strlit("{\"id\":");
    reveal_strlit(":{\"id\":");
    reveal_strlit(",\"n\":");
    reveal_strlit(",\"ref\":");
    lemma_ascii("id"@);
    lemma_ascii("n"@);
    lemma_ascii("ref"@);
    lemma_ascii("{\"id\":"@);
    lemma_ascii(":{\"id\":"@);
    assert(utf8(":{\"id\":"@) =~= seq![58u8] + utf8("{\"id\":"@));
    assert(",\"n\":"@ =~= ","@ + seq!['"'] + "n"@ + seq!['"', ':']);
    assert(",\"ref\":"@ =~= ","@ + seq!['"'] + "ref"@ + seq!['"', ':']);
    lemma_literal(",\"n\":"@, ","@, "n"@);
    lemma_literal(",\"ref\":"@, ","@, "ref"@);
}

/// The object of a timezone, without its name before it.
spec fn tz_object(tz: Tz) -> Seq<u8> {
    utf8("{\"id\":"@) + num(tz.id as int) + utf8(",\"n\":"@) + quoted(utf8(tz.n@)) + utf8(
        ",\"ref\":"@,
    ) + ids_json(tz.refs@) + utf8("}"@)
}

/// The text of a timezone shows the timezone.
#[verifier::spinoff_prover]
pub proof fn law_tz_text_shows_the_timezone(tz: Tz) -> (r: (Seq<u8>, JsonValue))
    ensures
        tz_json(tz) == named(utf8(tz.n@)) + r.0,
        reads_as(r.0, r.1),
        shows_tz((utf8(tz.n@), r.1), tz),
{
    lemma_number(tz.id as int);
    let name = utf8(tz.n@);
    lemma_text_reads(name);
    let refs = lemma_ids(tz.refs@);
    lemma_tz_names();
    lemma_zone_names();
    let (ki, kn, kr) = (utf8("id"@), utf8("n"@), utf8("ref"@));
    let inner = seq![num(tz.id as int), quoted(name), ids_json(tz.refs@)];
    let members = seq![(ki, number(tz.id as int)), (kn, JsonValue::Text(name)), (kr, refs)];
    let texts = seq![named(ki) + inner[0], named(kn) + inner[1], named(kr) + inner[2]];
    let one = utf8("{\"id\":"@) + inner[0];
    let two = one + utf8(",\"n\":"@) + inner[1];
    lemma_first_piece("{\"id\":"@, ki, inner[0], texts);
    lemma_next_piece(one, ",\"n\":"@, kn, inner[1], texts, 1);
    lemma_next_piece(two, ",\"ref\":"@, kr, inner[2], texts, 2);
    lemma_object_reads(texts, members, inner);
    lemma_first_named(members, ki, 0);
    lemma_first_named(members, kn, 1);
    lemma_first_named(members, kr, 2);
    let v = JsonValue::Object(members);
    assert(reads_as(tz_object(tz), v));
    let start = quoted(name) + seq![58u8];
    assert(quoted(name) + utf8(":{\"id\":"@) =~= start + utf8("{\"id\":"@));
    assert(tz_json(tz) =~= named(name) + tz_object(tz));
    (tz_object(tz), v)
}

// --- the whole text ---

/// The value is a list that shows the zones in order.
pub open spec fn shows_zones(v: JsonValue, zones: Seq<Zone>) -> bool {
    &&& v matches JsonValue::List(items)
    &&& items.len() == zones.len()
    &&& forall|i: int| 0 <= i < zones.len() ==> shows_zone(#[trigger] items[i], zones[i])
}

/// The value is a list that shows the packed arcs in order.
pub open spec fn shows_packings(v: JsonValue, arcs: Seq<(Pt, Vec<u8>)>) -> bool {
    &&& v matches JsonValue::List(items)
    &&& items.len() == arcs.len()
    &&& forall|i: int| 0 <= i < arcs.len() ==> shows_packing(#[trigger] items[i], arcs[i])
}

/// The value is an object that shows the timezones in order.
pub open spec fn shows_table(v: JsonValue, tz: Seq<Tz>) -> bool {
    &&& v matches JsonValue::Object(members)
    &&& members.len() == tz.len()
    &&& forall|i: int| 0 <= i < tz.len() ==> shows_tz(#[trigger] members[i], tz[i])
}

/// The value shows the bounds of the domain and the greatest depth.
pub open spec fn shows_quant(v: JsonValue) -> bool {
    &&& member(v, "xMin"@) matches Some(n) && read_i64(n) == Some(X_MIN)
    &&& member(v, "xMax"@) matches Some(n) && read_i64(n) == Some(X_MAX)
    &&& member(v, "yMin"@) matches Some(n) && read_i64(n) == Some(Y_MIN)
    &&& member(v, "yMax"@) matches Some(n) && read_i64(n) == Some(Y_MAX)
    &&& member(v, "maxDepth"@) matches Some(n) && as_int(n) == Some(MAX_DEPTH as int)
}

/// The document shows the artifact: its root cell, its tree, its arcs, its zones
/// and its timezones.
pub open spec fn shows_artifact(doc: JsonValue, out: Output) -> bool {
    &&& member(doc, "quant"@) matches Some(v) && shows_quant(v)
    &&& member(doc, "rootCell"@) matches Some(v) && read_box(v) == Some(
        [[X_MIN, Y_MIN], [X_MAX, Y_MAX]],
    )
    &&& member(doc, "quadtree"@) matches Some(v) && stands_for(
        v,
        arena_view(out.arena@),
        out.root as int,
    )
    &&& member(doc, "arcs"@) matches Some(v) && shows_packings(v, out.arc_packed@)
    &&& member(doc, "zones"@) matches Some(v) && shows_zones(v, out.zones@)
    &&& member(doc, "tz"@) matches Some(v) && shows_table(v, out.tz@)
}

spec fn zone_value(zone: Zone) -> JsonValue {
    choose|v: JsonValue| #[trigger] reads_as(zone_json(zone), v) && shows_zone(v, zone)
}

proof fn lemma_zones(zones: Seq<Zone>) -> (v: JsonValue)
    ensures
        reads_as(zones_json(zones), v),
        shows_zones(v, zones),
{
    let texts = Seq::new(zones.len(), |i: int| zone_json(zones[i]));
    let vals = Seq::new(zones.len(), |i: int| zone_value(zones[i]));
    assert forall|i: int| 0 <= i < texts.len() implies reads_as(#[trigger] texts[i], vals[i]) by {
        let v = law_zone_text_shows_the_zone(zones[i]);
    }
    assert forall|i: int| 0 <= i < zones.len() implies shows_zone(#[trigger] vals[i], zones[i]) by {
        let v = law_zone_text_shows_the_zone(zones[i]);
    }
    lemma_list_reads(texts, vals);
    JsonValue::List(vals)
}

spec fn packing_value(entry: (Pt, Vec<u8>)) -> JsonValue {
    choose|v: JsonValue| #[trigger] reads_as(packed_json(entry), v) && shows_packing(v, entry)
}

proof fn lemma_packings(arcs: Seq<(Pt, Vec<u8>)>) -> (v: JsonValue)
    ensures
        reads_as(packings_json(arcs), v),
        shows_packings(v, arcs),
{
    let texts = Seq::new(arcs.len(), |i: int| packed_json(arcs[i]));
    let vals = Seq::new(arcs.len(), |i: int| packing_value(arcs[i]));
    assert forall|i: int| 0 <= i < texts.len() implies reads_as(#[trigger] texts[i], vals[i]) by {
        let v = law_packing_text_shows_the_arc(arcs[i]);
    }
    assert forall|i: int| 0 <= i < arcs.len() implies shows_packing(#[trigger] vals[i], arcs[i]) by {
        let v = law_packing_text_shows_the_arc(arcs[i]);
    }
    lemma_list_reads(texts, vals);
    JsonValue::List(vals)
}

/// The text behind the name of a timezone, and its value.
spec fn is_tz_part(r: (Seq<u8>, JsonValue), tz: Tz) -> bool {
    &&& tz_json(tz) == named(utf8(tz.n@)) + r.0
    &&& reads_as(r.0, r.1)
    &&& shows_tz((utf8(tz.n@), r.1), tz)
}

spec fn tz_part(tz: Tz) -> (Seq<u8>, JsonValue) {
    choose|r: (Seq<u8>, JsonValue)| #[trigger] is_tz_part(r, tz)
}

proof fn lemma_table(tz: Seq<Tz>) -> (v: JsonValue)
    ensures
        reads_as(table_json(tz), v),
        shows_table(v, tz),
{
    let texts = Seq::new(tz.len(), |i: int| tz_json(tz[i]));
    let inner = Seq::new(tz.len(), |i: int| tz_part(tz[i]).0);
    let members = Seq::new(tz.len(), |i: int| (utf8(tz[i].n@), tz_part(tz[i]).1));
    assert forall|i: int| 0 <= i < tz.len() implies is_tz_part(#[trigger] tz_part(tz[i]), tz[i]) by {
        let r = law_tz_text_shows_the_timezone(tz[i]);
        assert(is_tz_part(r, tz[i]));
    }
    assert forall|k: int| 0 <= k < texts.len() implies {
        &&& #[trigger] texts[k] == named(members[k].0) + inner[k]
        &&& reads_as(inner[k], members[k].1)
    } by {
        assert(is_tz_part(tz_part(tz[k]), tz[k]));
    }
    assert forall|i: int| 0 <= i < tz.len() implies shows_tz(#[trigger] members[i], tz[i]) by {
        assert(is_tz_part(tz_part(tz[i]), tz[i]));
    }
    lemma_object_reads(texts, members, inner);
    JsonValue::Object(members)
}

proof fn lemma_quant_names()
    ensures
        utf8("xMin"@) == seq![120u8, 77u8, 105u8, 110u8],
        utf8("xMax"@) == seq![120u8, 77u8, 97u8, 120u8],
        utf8("yMin"@) == seq![121u8, 77u8, 105u8, 110u8],
        utf8("yMax"@) == seq![121u8, 77u8, 97u8, 120u8],
        utf8("xScale"@).len() == 6,
        utf8("yScale"@).len() == 6,
        utf8("maxDepth"@).len() == 8,
        utf8("{\"xMin\":"@) == utf8("{"@) + named(utf8("xMin"@)),
        utf8(",\"xMax\":"@) == utf8(","@) + named(utf8("xMax"@)),
        utf8(",\"yMin\":"@) == utf8(","@) + named(utf8("yMin"@)),
        utf8(",\"yMax\":"@) == utf8(","@) + named(utf8("yMax"@)),
        utf8(",\"xScale\":"@) == utf8(","@) + named(utf8("xScale"@)),
        utf8(",\"yScale\":"@) == utf8(","@) + named(utf8("yScale"@)),
        utf8(",\"maxDepth\":"@) == utf8(","@) + named(utf8("maxDepth"@)),
{
    reveal_strlit("{");
    reveal_strlit(",");
    reveal_strlit("xMin");
    reveal_strlit("xMax");
    reveal_strlit("yMin");
    reveal_strlit("yMax");
    reveal_strlit("xScale");
    reveal_strlit("yScale");
    reveal_strlit("maxDepth");
    reveal_strlit("{\"xMin\":");
    reveal_strlit(",\"xMax\":");
    reveal_strlit(",\"yMin\":");
    reveal_strlit(",\"yMax\":");
    reveal_strlit(",\"xScale\":");
    reveal_strlit(",\"yScale\":");
    reveal_strlit(",\"maxDepth\":");
    lemma_ascii("xMin"@);
    lemma_ascii("xMax"@);
    lemma_ascii("yMin"@);
    lemma_ascii("yMax"@);
    lemma_ascii("xScale"@);
    lemma_ascii("yScale"@);
    lemma_ascii("maxDepth"@);
    assert(utf8("xMin"@) =~= seq![120u8, 77u8, 105u8, 110u8]);
    assert(utf8("xMax"@) =~= seq![120u8, 77u8, 97u8, 120u8]);
    assert(utf8("yMin"@) =~= seq![121u8, 77u8, 105u8, 110u8]);
    assert(utf8("yMax"@) =~= seq![121u8, 77u8, 97u8, 120u8]);
    assert("{\"xMin\":"@ =~= "{"@ + seq!['"'] + "xMin"@ + seq!['"', ':']);
    assert(",\"xMax\":"@ =~= ","@ + seq!['"'] + "xMax"@ + seq!['"', ':']);
    assert(",\"yMin\":"@ =~= ","@ + seq!['"'] + "yMin"@ + seq!['"', ':']);
    assert(",\"yMax\":"@ =~= ","@ + seq!['"'] + "yMax"@ + seq!['"', ':']);
    assert(",\"xScale\":"@ =~= ","@ + seq!['"'] + "xScale"@ + seq!['"', ':']);
    assert(",\"yScale\":"@ =~= ","@ + seq!['"'] + "yScale"@ + seq!['"', ':']);
    assert(",\"maxDepth\":"@ =~= ","@ + seq!['"'] + "maxDepth"@ + seq!['"', ':']);
    lemma_literal("{\"xMin\":"@, "{"@, "xMin"@);
    lemma_literal(",\"xMax\":"@, ","@, "xMax"@);
    lemma_literal(",\"yMin\":"@, ","@, "yMin"@);
    lemma_literal(",\"yMax\":"@, ","@, "yMax"@);
    lemma_literal(",\"xScale\":"@, ","@, "xScale"@);
    lemma_literal(",\"yScale\":"@, ","@, "yScale"@);
    lemma_literal(",\"maxDepth\":"@, ","@, "maxDepth"@);
}

spec fn scale_text() -> Seq<u8> {
    utf8("2912.711111111111"@)
}

proof fn lemma_scales()
    ensures
        reads_as(scale_text(), JsonValue::Number(scale_text())),
        utf8(",\"xScale\":2912.711111111111,\"yScale\":2912.711111111111,\"maxDepth\":"@) == utf8(
            ",\"xScale\":"@,
        ) + scale_text() + utf8(",\"yScale\":"@) + scale_text() + utf8(",\"maxDepth\":"@),
{
    reveal_strlit("2912.711111111111");
    reveal_strlit(",\"xScale\":");
    reveal_strlit(",\"yScale\":");
    reveal_strlit(",\"maxDepth\":");
    reveal_strlit(",\"xScale\":2912.711111111111,\"yScale\":2912.711111111111,\"maxDepth\":");
    lemma_ascii("2912.711111111111"@);
    lemma_ascii(",\"xScale\":"@);
    lemma_ascii(",\"yScale\":"@);
    lemma_ascii(",\"maxDepth\":"@);
    lemma_ascii(",\"xScale\":2912.711111111111,\"yScale\":2912.711111111111,\"maxDepth\":"@);
    assert(utf8(",\"xScale\":2912.711111111111,\"yScale\":2912.711111111111,\"maxDepth\":"@)
        =~= utf8(",\"xScale\":"@) + scale_text() + utf8(",\"yScale\":"@) + scale_text() + utf8(
        ",\"maxDepth\":"@,
    ));
    assert forall|k: int| 0 <= k < scale_text().len() implies is_number_byte(
        #[trigger] scale_text()[k],
    ) by {}
    lemma_number_reads(scale_text());
}

/// The members of the quantization record are found under their names.
proof fn lemma_quant_members(members: Seq<(Seq<u8>, JsonValue)>)
    requires
        members.len() == 7,
        members[0].0 == utf8("xMin"@),
        members[1].0 == utf8("xMax"@),
        members[2].0 == utf8("yMin"@),
        members[3].0 == utf8("yMax"@),
        members[4].0 == utf8("xScale"@),
        members[5].0 == utf8("yScale"@),
        members[6].0 == utf8("maxDepth"@),
    ensures
        first_named(members, utf8("xMin"@)) == Some(members[0].1),
        first_named(members, utf8("xMax"@)) == Some(members[1].1),
        first_named(members, utf8("yMin"@)) == Some(members[2].1),
        first_named(members, utf8("yMax"@)) == Some(members[3].1),
        first_named(members, utf8("maxDepth"@)) == Some(members[6].1),
{
    lemma_quant_names();
    let (a, b, c, d) = (utf8("xMin"@), utf8("xMax"@), utf8("yMin"@), utf8("yMax"@));
    assert(a[2] != b[2]);
    assert(a[0] != c[0]);
    assert(a[0] != d[0]);
    assert(b[0] != c[0]);
    assert(b[0] != d[0]);
    assert(c[2] != d[2]);
    lemma_first_named(members, utf8("xMin"@), 0);
    lemma_first_named(members, utf8("xMax"@), 1);
    lemma_first_named(members, utf8("yMin"@), 2);
    lemma_first_named(members, utf8("yMax"@), 3);
    lemma_first_named(members, utf8("maxDepth"@), 6);
}

/// The literal with the scales, taken apart.
proof fn lemma_scale_pieces(four: Seq<u8>, last: Seq<u8>)
    ensures
        four + utf8(",\"xScale\":2912.711111111111,\"yScale\":2912.711111111111,\"maxDepth\":"@)
            + last == four + utf8(",\"xScale\":"@) + scale_text() + utf8(",\"yScale\":"@)
            + scale_text() + utf8(",\"maxDepth\":"@) + last,
{
    lemma_scales();
    let (a, b, c, d, e) = (
        utf8(",\"xScale\":"@),
        scale_text(),
        utf8(",\"yScale\":"@),
        scale_text(),
        utf8(",\"maxDepth\":"@),
    );
    lemma_onto5(four, a, b, c, d, e);
}

/// The quantization record reads back.
#[verifier::spinoff_prover]
proof fn lemma_quant() -> (v: JsonValue)
    ensures
        reads_as(quant_json(), v),
        shows_quant(v),
{
    lemma_quant_names();
    lemma_scales();
    lemma_number(X_MIN as int);
    lemma_number(X_MAX as int);
    lemma_number(Y_MIN as int);
    lemma_number(Y_MAX as int);
    lemma_number(MAX_DEPTH as int);
    let lits = seq![
        utf8("{\"xMin\":"@),
        utf8(",\"xMax\":"@),
        utf8(",\"yMin\":"@),
        utf8(",\"yMax\":"@),
        utf8(",\"xScale\":"@),
        utf8(",\"yScale\":"@),
        utf8(",\"maxDepth\":"@),
    ];
    let names = seq![
        utf8("xMin"@),
        utf8("xMax"@),
        utf8("yMin"@),
        utf8("yMax"@),
        utf8("xScale"@),
        utf8("yScale"@),
        utf8("maxDepth"@),
    ];
    let inner = seq![
        num(X_MIN as int),
        num(X_MAX as int),
        num(Y_MIN as int),
        num(Y_MAX as int),
        scale_text(),
        scale_text(),
        num(MAX_DEPTH as int),
    ];
    let vals = seq![
        number(X_MIN as int),
        number(X_MAX as int),
        number(Y_MIN as int),
        number(Y_MAX as int),
        JsonValue::Number(scale_text()),
        JsonValue::Number(scale_text()),
        number(MAX_DEPTH as int),
    ];
    let members = Seq::new(7, |k: int| (names[k], vals[k]));
    lemma_fields(lits, names, inner, vals, members);
    lemma_quant_members(members);
    assert(pieces(lits, inner, 1) == lits[0] + inner[0]);
    assert(pieces(lits, inner, 2) == pieces(lits, inner, 1) + lits[1] + inner[1]);
    assert(pieces(lits, inner, 3) == pieces(lits, inner, 2) + lits[2] + inner[2]);
    assert(pieces(lits, inner, 4) == pieces(lits, inner, 3) + lits[3] + inner[3]);
    assert(pieces(lits, inner, 5) == pieces(lits, inner, 4) + lits[4] + inner[4]);
    assert(pieces(lits, inner, 6) == pieces(lits, inner, 5) + lits[5] + inner[5]);
    lemma_scale_pieces(pieces(lits, inner, 4), inner[6]);
    assert(quant_json() == pieces(lits, inner, 7) + utf8("}"@));
    JsonValue::Object(members)
}

proof fn lemma_document_names()
    ensures
        utf8("quant"@).len() == 5,
        utf8("quant"@)[0] == 113,
        utf8("rootCell"@).len() == 8,
        utf8("rootCell"@)[0] == 114,
        utf8("quadtree"@).len() == 8,
        utf8("quadtree"@)[0] == 113,
        utf8("arcs"@).len() == 4,
        utf8("zones"@).len() == 5,
        utf8("zones"@)[0] == 122,
        utf8("tz"@).len() == 2,
        utf8("{\"quant\":"@) == utf8("{"@) + named(utf8("quant"@)),
        utf8(",\"rootCell\":"@) == utf8(","@) + named(utf8("rootCell"@)),
        utf8(",\"quadtree\":"@) == utf8(","@) + named(utf8("quadtree"@)),
        utf8(",\"arcs\":"@) == utf8(","@) + named(utf8("arcs"@)),
        utf8(",\"zones\":"@) == utf8(","@) + named(utf8("zones"@)),
        utf8(",\"tz\":"@) == utf8(","@) + named(utf8("tz"@)),
{
    reveal_strlit("{");
    reveal_strlit(",");
    reveal_strlit("quant");
    reveal_strlit("rootCell");
    reveal_strlit("quadtree");
    reveal_strlit("arcs");
    reveal_strlit("zones");
    reveal_strlit("tz");
    reveal_strlit("{\"quant\":");
    reveal_strlit(",\"rootCell\":");
    reveal_strlit(",\"quadtree\":");
    reveal_strlit(",\"arcs\":");
    reveal_strlit(",\"zones\":");
    reveal_strlit(",\"tz\":");
    lemma_ascii("quant"@);
    lemma_ascii("rootCell"@);
    lemma_ascii("quadtree"@);
    lemma_ascii("arcs"@);
    lemma_ascii("zones"@);
    lemma_ascii("tz"@);
    assert("{\"quant\":"@ =~= "{"@ + seq!['"'] + "quant"@ + seq!['"', ':']);
    assert(",\"rootCell\":"@ =~= ","@ + seq!['"'] + "rootCell"@ + seq!['"', ':']);
    assert(",\"quadtree\":"@ =~= ","@ + seq!['"'] + "quadtree"@ + seq!['"', ':']);
    assert(",\"arcs\":"@ =~= ","@ + seq!['"'] + "arcs"@ + seq!['"', ':']);
    assert(",\"zones\":"@ =~= ","@ + seq!['"'] + "zones"@ + seq!['"', ':']);
    assert(",\"tz\":"@ =~= ","@ + seq!['"'] + "tz"@ + seq!['"', ':']);
    lemma_literal("{\"quant\":"@, "{"@, "quant"@);
    lemma_literal(",\"rootCell\":"@, ","@, "rootCell"@);
    lemma_literal(",\"quadtree\":"@, ","@, "quadtree"@);
    lemma_literal(",\"arcs\":"@, ","@, "arcs"@);
    lemma_literal(",\"zones\":"@, ","@, "zones"@);
    lemma_literal(",\"tz\":"@, ","@, "tz"@);
}

/// The members of the document are found under their names.
proof fn lemma_document_members(members: Seq<(Seq<u8>, JsonValue)>)
    requires
        members.len() == 6,
        members[0].0 == utf8("quant"@),
        members[1].0 == utf8("rootCell"@),
        members[2].0 == utf8("quadtree"@),
        members[3].0 == utf8("arcs"@),
        members[4].0 == utf8("zones"@),
        members[5].0 == utf8("tz"@),
    ensures
        first_named(members, utf8("quant"@)) == Some(members[0].1),
        first_named(members, utf8("rootCell"@)) == Some(members[1].1),
        first_named(members, utf8("quadtree"@)) == Some(members[2].1),
        first_named(members, utf8("arcs"@)) == Some(members[3].1),
        first_named(members, utf8("zones"@)) == Some(members[4].1),
        first_named(members, utf8("tz"@)) == Some(members[5].1),
{
    lemma_document_names();
    lemma_first_named(members, utf8("quant"@), 0);
    lemma_first_named(members, utf8("rootCell"@), 1);
    lemma_first_named(members, utf8("quadtree"@), 2);
    lemma_first_named(members, utf8("arcs"@), 3);
    lemma_first_named(members, utf8("zones"@), 4);
    lemma_first_named(members, utf8("tz"@), 5);
}

/// The document around six texts.
spec fn document(
    quant: Seq<u8>,
    cell: Seq<u8>,
    tree: Seq<u8>,
    arcs: Seq<u8>,
    zones: Seq<u8>,
    tz: Seq<u8>,
) -> Seq<u8> {
    utf8("{\"quant\":"@) + quant + utf8(",\"rootCell\":"@) + cell + utf8(",\"quadtree\":"@) + tree
        + utf8(",\"arcs\":"@) + arcs + utf8(",\"zones\":"@) + zones + utf8(",\"tz\":"@) + tz
        + utf8("}"@)
}

/// The six members of the text, put together.
#[verifier::spinoff_prover]
proof fn lemma_document(inner: Seq<Seq<u8>>, vals: Seq<JsonValue>) -> (doc: JsonValue)
    requires
        inner.len() == 6,
        vals.len() == 6,
        forall|k: int| 0 <= k < 6 ==> reads_as(#[trigger] inner[k], vals[k]),
    ensures
        reads_as(document(inner[0], inner[1], inner[2], inner[3], inner[4], inner[5]), doc),
        member(doc, "quant"@) == Some(vals[0]),
        member(doc, "rootCell"@) == Some(vals[1]),
        member(doc, "quadtree"@) == Some(vals[2]),
        member(doc, "arcs"@) == Some(vals[3]),
        member(doc, "zones"@) == Some(vals[4]),
        member(doc, "tz"@) == Some(vals[5]),
{
    lemma_document_names();
    let lits = seq![
        utf8("{\"quant\":"@),
        utf8(",\"rootCell\":"@),
        utf8(",\"quadtree\":"@),
        utf8(",\"arcs\":"@),
        utf8(",\"zones\":"@),
        utf8(",\"tz\":"@),
    ];
    let names = seq![
        utf8("quant"@),
        utf8("rootCell"@),
        utf8("quadtree"@),
        utf8("arcs"@),
        utf8("zones"@),
        utf8("tz"@),
    ];
    let members = Seq::new(6, |k: int| (names[k], vals[k]));
    lemma_fields(lits, names, inner, vals, members);
    lemma_document_members(members);
    assert(pieces(lits, inner, 1) == lits[0] + inner[0]);
    assert(pieces(lits, inner, 2) == pieces(lits, inner, 1) + lits[1] + inner[1]);
    assert(pieces(lits, inner, 3) == pieces(lits, inner, 2) + lits[2] + inner[2]);
    assert(pieces(lits, inner, 4) == pieces(lits, inner, 3) + lits[3] + inner[3]);
    assert(pieces(lits, inner, 5) == pieces(lits, inner, 4) + lits[4] + inner[4]);
    assert(pieces(lits, inner, 6) == pieces(lits, inner, 5) + lits[5] + inner[5]);
    JsonValue::Object(members)
}

/// The text of the tree stands for the tree.
proof fn lemma_tree(arena: Seq<NodeView>, root: int) -> (v: JsonValue)
    requires
        is_downward(arena),
        0 <= root < arena.len(),
    ensures
        reads_as(node_json(arena, root), v),
        stands_for(v, arena, root),
{
    law_node_text_is_the_subtree(arena, root)
}

/// The six values that show the artifact, read from the six texts.
spec fn are_read(inner: Seq<Seq<u8>>, vals: Seq<JsonValue>) -> bool {
    &&& inner.len() == 6
    &&& vals.len() == 6
    &&& forall|k: int| 0 <= k < 6 ==> reads_as(#[trigger] inner[k], vals[k])
}

proof fn lemma_are_read(
    a: Seq<u8>,
    b: Seq<u8>,
    c: Seq<u8>,
    d: Seq<u8>,
    e: Seq<u8>,
    f: Seq<u8>,
    vals: Seq<JsonValue>,
)
    requires
        vals.len() == 6,
        reads_as(a, vals[0]),
        reads_as(b, vals[1]),
        reads_as(c, vals[2]),
        reads_as(d, vals[3]),
        reads_as(e, vals[4]),
        reads_as(f, vals[5]),
    ensures
        are_read(seq![a, b, c, d, e, f], vals),
{
}

proof fn lemma_parts(out: Output) -> (vals: Seq<JsonValue>)
    requires
        JsonSerializer.takes(out),
    ensures
        vals.len() == 6,
        shows_quant(vals[0]),
        read_box(vals[1]) == Some([[X_MIN, Y_MIN], [X_MAX, Y_MAX]]),
        stands_for(vals[2], arena_view(out.arena@), out.root as int),
        shows_packings(vals[3], out.arc_packed@),
        shows_zones(vals[4], out.zones@),
        shows_table(vals[5], out.tz@),
        are_read(
            seq![
                quant_json(),
                box_json([[X_MIN, Y_MIN], [X_MAX, Y_MAX]]),
                node_json(arena_view(out.arena@), out.root as int),
                packings_json(out.arc_packed@),
                zones_json(out.zones@),
                table_json(out.tz@),
            ],
            vals,
        ),
{
    let quant = lemma_quant();
    let cell = lemma_box([[X_MIN, Y_MIN], [X_MAX, Y_MAX]]);
    let tree = lemma_tree(arena_view(out.arena@), out.root as int);
    let arcs = lemma_packings(out.arc_packed@);
    let zones = lemma_zones(out.zones@);
    let table = lemma_table(out.tz@);
    let vals = seq![quant, cell, tree, arcs, zones, table];
    lemma_are_read(
        quant_json(),
        box_json([[X_MIN, Y_MIN], [X_MAX, Y_MAX]]),
        node_json(arena_view(out.arena@), out.root as int),
        packings_json(out.arc_packed@),
        zones_json(out.zones@),
        table_json(out.tz@),
        vals,
    );
    vals
}

/// The members of the document are the values.
spec fn holds_values(doc: JsonValue, vals: Seq<JsonValue>) -> bool {
    &&& member(doc, "quant"@) == Some(vals[0])
    &&& member(doc, "rootCell"@) == Some(vals[1])
    &&& member(doc, "quadtree"@) == Some(vals[2])
    &&& member(doc, "arcs"@) == Some(vals[3])
    &&& member(doc, "zones"@) == Some(vals[4])
    &&& member(doc, "tz"@) == Some(vals[5])
}

proof fn lemma_text_parsed(
    a: Seq<u8>,
    b: Seq<u8>,
    c: Seq<u8>,
    d: Seq<u8>,
    e: Seq<u8>,
    f: Seq<u8>,
    vals: Seq<JsonValue>,
) -> (doc: JsonValue)
    requires
        are_read(seq![a, b, c, d, e, f], vals),
    ensures
        parsed(document(a, b, c, d, e, f)) == Some(doc),
        holds_values(doc, vals),
{
    let inner = seq![a, b, c, d, e, f];
    let doc = lemma_document(inner, vals);
    lemma_parsed(document(a, b, c, d, e, f), doc);
    doc
}

/// What a reader gets from the JSON text is the artifact: the text parses, its
/// members show the root cell, the arcs, the zones and the timezones, and a
/// descent through its nodes by quadrant arrives, for every point, where the
/// descent through the arena does, with the same zones settled on the way and the
/// same candidates in the leaf.
pub proof fn law_json_text_is_the_artifact(out: Output, bytes: Seq<u8>)
    requires
        JsonSerializer.takes(out),
        JsonSerializer.outcome(out) == Outcome::Ok(bytes),
    ensures
        parsed(bytes) matches Some(doc) && shows_artifact(doc, out),
{
    let vals = lemma_parts(out);
    let doc = lemma_text_parsed(
        quant_json(),
        box_json([[X_MIN, Y_MIN], [X_MAX, Y_MAX]]),
        node_json(arena_view(out.arena@), out.root as int),
        packings_json(out.arc_packed@),
        zones_json(out.zones@),
        table_json(out.tz@),
        vals,
    );
    lemma_shown(doc, vals, out);
}

/// A document whose members are such values shows the artifact.
proof fn lemma_shown(doc: JsonValue, vals: Seq<JsonValue>, out: Output)
    requires
        holds_values(doc, vals),
        shows_quant(vals[0]),
        read_box(vals[1]) == Some([[X_MIN, Y_MIN], [X_MAX, Y_MAX]]),
        stands_for(vals[2], arena_view(out.arena@), out.root as int),
        shows_packings(vals[3], out.arc_packed@),
        shows_zones(vals[4], out.zones@),
        shows_table(vals[5], out.tz@),
    ensures
        shows_artifact(doc, out),
{
}

/// What a reader of the text answers for a point, from the tree of the document,
/// its root cell, and the zones and arcs: the smallest of the zones that the
/// descent settles and of those candidates of the leaf that hold the point.
pub open spec fn answered(
    doc: JsonValue,
    zones: Seq<Zone>,
    arcs: Seq<Seq<Pt>>,
    p: Pt,
    steps: nat,
) -> Option<Option<usize>> {
    match (member(doc, "quadtree"@), member(doc, "rootCell"@)) {
        (Some(tree), Some(root)) => match read_box(root) {
            Some(cell) => match walked(tree, cell, Seq::empty(), p, steps) {
                Some((settled, last, cands)) => Some(
                    smallest(
                        zones,
                        settled + passing(
                            cands,
                            zones,
                            arcs,
                            center_of(last),
                            p,
                            cands.len() as int,
                        ),
                    ),
                ),
                None => None,
            },
            None => None,
        },
        _ => None,
    }
}

/// A lookup in the JSON text answers what a lookup in the arena answers.
pub proof fn law_json_lookup(out: Output, bytes: Seq<u8>, p: Pt, steps: nat)
    requires
        JsonSerializer.takes(out),
        JsonSerializer.outcome(out) == Outcome::Ok(bytes),
        out.root == 0,
        steps >= out.arena@.len(),
    ensures
        parsed(bytes) matches Some(doc) && answered(doc, out.zones@, deep(out.arcs@), p, steps)
            == Some(resolved(arena_view(out.arena@), out.zones@, deep(out.arcs@), p)),
{
    law_json_text_is_the_artifact(out, bytes);
    let doc = parsed(bytes)->0;
    let tree = member(doc, "quadtree"@)->0;
    let arena = arena_view(out.arena@);
    let none = Seq::<usize>::empty();
    assert(stands_for(tree, arena, 0));
    assert([[X_MIN, Y_MIN], [X_MAX, Y_MAX]] =~= ROOT_CELL);
    assert(walked(tree, ROOT_CELL, none, p, steps) == Some(
        arrival(arena, 0, ROOT_CELL, none, p),
    ));
}

} // verus!
