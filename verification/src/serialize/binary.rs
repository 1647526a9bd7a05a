//! The full-artifact binary format.
//!
//! ```text
//!   header:
//!     magic "TZQT", version:u16
//!     quant: xMin,xMax,yMin,yMax : i32 ; xScale,yScale : f64 ; maxDepth : u16
//!     counts: zones:u32, tz:u32, nodes:u32, arcs:u32
//!   section 1: the quadtree
//!   section 2: the arcs
//!   section 3: the zones, in rank order
//!   section 4: the timezone names, in alphabetical order
//! ```
//!
//! Zones are referenced by rank: they are renumbered by descending reference
//! count, so the busiest zones get the shortest ids.  Timezones are renumbered
//! alphabetically, so that neighbouring names share long prefixes.
use vstd::prelude::*;
use vstd::utf8::encode_utf8;
use vstd::string::{StringExecFns, StrSliceExecFns};

use crate::artifact::{arena_view, cands_view, Cand, Node, NodeView, Output, Tz};
use crate::quant::{MAX_DEPTH, X_MAX, X_MIN, Y_MAX, Y_MIN};
use crate::serialize::names::{
    encode_tz_names, get_names, law_names_round_trip, names_bytes, names_in, names_writable,
};
use crate::serialize::order::{
    by_key, by_name, in_order, lemma_in_order, lemma_in_order_stable, lemma_lower_key_ranks_lower,
    lemma_names_sorted, lemma_ranks_in, lex_le, lists_all, name_list, positions, rank_table,
    ranks_in, sort_by_key, sort_by_name,
};
use crate::serialize::qvarint::Q_MAX;
use crate::serialize::ready::{lemma_zone_codable, zone_writable, zones_named};
use crate::serialize::sections::{
    arcs_bytes, encode_arcs, encode_zones, get_arc_section, get_zones, law_arcs_round_trip,
    law_zones_round_trip, wire_arcs, wire_zone, wire_zones, WireZone, zone_codable, zones_bytes,
};
use crate::serialize::stream::lemma_holds_in_middle;
use crate::serialize::{Outcome, Serializer};
use crate::serialize::text::{decimal, decimal_text};
use crate::serialize::tree::{get_node, node_bytes, overlong, tree_exact, WireNode};
use crate::serialize::tree_laws::law_tree_round_trip;
use crate::serialize::tree_reader::lemma_writable_readable;
use crate::serialize::tree_writer::{cand_zones, encode_node, node_writable, wire_node, QBuf};

verus! {

/// The format's version; zero until its first release.
pub const VERSION: u16 = 0;

/// The bits of the double `2^19 / 180`, the units per degree of both axes.
pub const SCALE_BITS: u64 = 0x40a6_c16c_16c1_6c17;

/// The low `n` bytes of a number, the lowest first.
pub open spec fn le_bytes(v: int, n: int) -> Seq<u8>
    decreases n,
{
    if n <= 0 {
        Seq::empty()
    } else {
        seq![(v % 256) as u8] + le_bytes(v / 256, n - 1)
    }
}

/// Append the low `n` bytes of a number.
fn push_le(buf: &mut Vec<u8>, v: u64, n: usize)
    ensures
        final(buf)@ == old(buf)@ + le_bytes(v as int, n as int),
{
    let mut rest = v;
    let mut left = n;
    let ghost start = buf@;
    while left > 0
        invariant
            start == old(buf)@,
            buf@ + le_bytes(rest as int, left as int) == start + le_bytes(v as int, n as int),
        decreases left,
    {
        let ghost before = buf@;
        let byte = (rest % 256) as u8;
        buf.push(byte);
        proof {
            assert(before + (seq![byte] + le_bytes(rest as int / 256, left - 1)) =~= buf@
                + le_bytes(rest as int / 256, left - 1));
        }
        rest = rest / 256;
        left -= 1;
    }
    proof {
        assert(buf@ + le_bytes(rest as int, 0) =~= buf@);
    }
}

/// Four bytes do not see a multiple of `2^32`.
proof fn lemma_le_wrap(v: int)
    ensures
        le_bytes(v + 0x1_0000_0000, 4) == le_bytes(v, 4),
{
    let w = v + 0x1_0000_0000;
    assert(w % 256 == v % 256 && w / 256 == v / 256 + 0x100_0000);
    let (w1, v1) = (w / 256, v / 256);
    assert(w1 % 256 == v1 % 256 && w1 / 256 == v1 / 256 + 0x1_0000);
    let (w2, v2) = (w1 / 256, v1 / 256);
    assert(w2 % 256 == v2 % 256 && w2 / 256 == v2 / 256 + 0x100);
    let (w3, v3) = (w2 / 256, v2 / 256);
    assert(w3 % 256 == v3 % 256);
    assert(le_bytes(w3 / 256, 0) == le_bytes(v3 / 256, 0));
    assert(le_bytes(w3, 1) == le_bytes(v3, 1));
    assert(le_bytes(w2, 2) == le_bytes(v2, 2));
    assert(le_bytes(w1, 3) == le_bytes(v1, 3));
}

/// Append a signed number as four bytes.
fn push_i32(buf: &mut Vec<u8>, v: i64)
    requires
        -0x8000_0000 <= v < 0x8000_0000,
    ensures
        final(buf)@ == old(buf)@ + le_bytes(v as int, 4),
{
    if v < 0 {
        proof {
            lemma_le_wrap(v as int);
        }
        push_le(buf, (v + 0x1_0000_0000) as u64, 4);
    } else {
        push_le(buf, v as u64, 4);
    }
}

/// The header: what the coordinates mean, and how many of everything there are.
pub open spec fn header_bytes(zones: int, tz: int, nodes: int, arcs: int) -> Seq<u8> {
    seq![84u8, 90, 81, 84] + le_bytes(VERSION as int, 2) + le_bytes(X_MIN as int, 4) + le_bytes(
        X_MAX as int,
        4,
    ) + le_bytes(Y_MIN as int, 4) + le_bytes(Y_MAX as int, 4) + le_bytes(SCALE_BITS as int, 8)
        + le_bytes(SCALE_BITS as int, 8) + le_bytes(MAX_DEPTH as int, 2) + le_bytes(zones, 4)
        + le_bytes(tz, 4) + le_bytes(nodes, 4) + le_bytes(arcs, 4)
}

/// Write the header.
fn encode_header(zones: usize, tz: usize, nodes: usize, arcs: usize) -> (r: Vec<u8>)
    ensures
        r@ == header_bytes(zones as int, tz as int, nodes as int, arcs as int),
{
    let mut buf: Vec<u8> = Vec::new();
    buf.push(84);
    buf.push(90);
    buf.push(81);
    buf.push(84);
    proof {
        assert(buf@ =~= seq![84u8, 90, 81, 84]);
    }
    push_le(&mut buf, VERSION as u64, 2);
    push_i32(&mut buf, X_MIN);
    push_i32(&mut buf, X_MAX);
    push_i32(&mut buf, Y_MIN);
    push_i32(&mut buf, Y_MAX);
    push_le(&mut buf, SCALE_BITS, 8);
    push_le(&mut buf, SCALE_BITS, 8);
    push_le(&mut buf, MAX_DEPTH as u64, 2);
    push_le(&mut buf, zones as u64, 4);
    push_le(&mut buf, tz as u64, 4);
    push_le(&mut buf, nodes as u64, 4);
    push_le(&mut buf, arcs as u64, 4);
    buf
}

/// How often a list names the zone.
pub open spec fn times_listed(ids: Seq<usize>, z: int) -> int
    decreases ids.len(),
{
    if ids.len() == 0 {
        0
    } else {
        times_listed(ids.drop_last(), z) + if ids.last() == z {
            1int
        } else {
            0
        }
    }
}

/// How often the settled and candidate lists of the first `k` nodes name the
/// zone.
pub open spec fn times_named(arena: Seq<NodeView>, z: int, k: int) -> int
    decreases k,
{
    if k <= 0 {
        0
    } else {
        times_named(arena, z, k - 1) + times_listed(arena[k - 1].eref, z) + times_listed(
            cand_zones(arena[k - 1].cands),
            z,
        )
    }
}

/// Ordering by these keys puts the zone named most often first.
pub open spec fn zone_keys(arena: Seq<NodeView>, n: int) -> Seq<u64> {
    Seq::new(n as nat, |z: int| (u64::MAX - times_named(arena, z, arena.len() as int)) as u64)
}

/// Every zone that the settled and candidate lists name is one of the first `n`.
pub open spec fn names_below(arena: Seq<NodeView>, n: int) -> bool {
    &&& forall|k: int, i: int|
        #![trigger arena[k].eref[i]]
        0 <= k < arena.len() && 0 <= i < arena[k].eref.len() ==> arena[k].eref[i] < n
    &&& forall|k: int, i: int|
        #![trigger arena[k].cands[i]]
        0 <= k < arena.len() && 0 <= i < arena[k].cands.len() ==> arena[k].cands[i].z < n
}

/// The zones by descending reference count; of equal counts the lower id first.
pub open spec fn zone_order(arena: Seq<NodeView>, n: int) -> Seq<int> {
    in_order(by_key(zone_keys(arena, n)), n)
}

proof fn lemma_times_listed(ids: Seq<usize>, z: int)
    ensures
        0 <= times_listed(ids, z) <= ids.len(),
    decreases ids.len(),
{
    if ids.len() > 0 {
        lemma_times_listed(ids.drop_last(), z);
    }
}

proof fn lemma_times_named(arena: Seq<NodeView>, z: int, k: int)
    ensures
        0 <= times_named(arena, z, k) <= zones_named(arena, k),
    decreases k,
{
    if k > 0 {
        lemma_times_named(arena, z, k - 1);
        lemma_times_listed(arena[k - 1].eref, z);
        lemma_times_listed(cand_zones(arena[k - 1].cands), z);
    }
}

proof fn lemma_zones_named(arena: Seq<NodeView>, j: int, k: int)
    requires
        j <= k,
    ensures
        zones_named(arena, j) <= zones_named(arena, k),
    decreases k,
{
    if k > 0 && j < k {
        lemma_zones_named(arena, j, k - 1);
    }
}

/// Count one listing of a zone.
fn tick(refs: &mut Vec<u64>, z: usize)
    requires
        z < old(refs)@.len(),
        old(refs)@[z as int] < u64::MAX,
    ensures
        final(refs)@ == old(refs)@.update(z as int, (old(refs)@[z as int] + 1) as u64),
{
    let c = refs[z];
    refs.set(z, c + 1);
}

/// Count the settled zones of a node.
fn count_settled(refs: &mut Vec<u64>, ids: &[usize])
    requires
        forall|i: int| 0 <= i < ids@.len() ==> (#[trigger] ids@[i]) < old(refs)@.len(),
        forall|z: int|
            0 <= z < old(refs)@.len() ==> (#[trigger] old(refs)@[z]) + ids@.len() <= u64::MAX,
    ensures
        final(refs)@.len() == old(refs)@.len(),
        forall|z: int|
            0 <= z < old(refs)@.len() ==> (#[trigger] final(refs)@[z]) == old(refs)@[z]
                + times_listed(ids@, z),
{
    let ghost start = refs@;
    let mut i: usize = 0;
    while i < ids.len()
        invariant
            0 <= i <= ids@.len(),
            start == old(refs)@,
            refs@.len() == start.len(),
            forall|i: int| 0 <= i < ids@.len() ==> (#[trigger] ids@[i]) < start.len(),
            forall|z: int| 0 <= z < start.len() ==> (#[trigger] start[z]) + ids@.len() <= u64::MAX,
            forall|z: int|
                0 <= z < start.len() ==> (#[trigger] refs@[z]) == start[z] + times_listed(
                    ids@.take(i as int),
                    z,
                ),
        decreases ids.len() - i,
    {
        let z = ids[i];
        proof {
            let longer = ids@.take(i + 1);
            assert(longer.drop_last() =~= ids@.take(i as int));
            assert(longer.last() == z);
            lemma_times_listed(ids@.take(i as int), z as int);
            assert(start[z as int] + ids@.len() <= u64::MAX);
            assert(refs@[z as int] < u64::MAX);
        }
        tick(refs, z);
        i += 1;
    }
    proof {
        assert(ids@.take(i as int) =~= ids@);
    }
}

/// Count the candidates of a node.
fn count_candidates(refs: &mut Vec<u64>, cands: &[Cand])
    requires
        forall|i: int| 0 <= i < cands@.len() ==> (#[trigger] cands@[i]).z < old(refs)@.len(),
        forall|z: int|
            0 <= z < old(refs)@.len() ==> (#[trigger] old(refs)@[z]) + cands@.len() <= u64::MAX,
    ensures
        final(refs)@.len() == old(refs)@.len(),
        forall|z: int|
            0 <= z < old(refs)@.len() ==> (#[trigger] final(refs)@[z]) == old(refs)@[z]
                + times_listed(cand_zones(cands_view(cands@)), z),
{
    let mut ids: Vec<usize> = Vec::with_capacity(cands.len());
    let mut i: usize = 0;
    while i < cands.len()
        invariant
            0 <= i <= cands@.len(),
            ids@.len() == i,
            forall|j: int| 0 <= j < i ==> (#[trigger] ids@[j]) == cands@[j].z,
        decreases cands.len() - i,
    {
        ids.push(cands[i].z);
        i += 1;
    }
    proof {
        assert(ids@ =~= cand_zones(cands_view(cands@)));
    }
    count_settled(refs, ids.as_slice());
}

/// The zones by descending reference count, a reference being an appearance
/// in a settled or candidate list.
pub fn compute_order(arena: &[Node], zones: usize) -> (r: Vec<usize>)
    requires
        names_below(arena_view(arena@), zones as int),
        zones_named(arena_view(arena@), arena@.len() as int) <= u64::MAX,
    ensures
        positions(r@) == zone_order(arena_view(arena@), zones as int),
        lists_all(positions(r@), zones as int),
        forall|i: int, j: int|
            #![trigger r@[i], r@[j]]
            0 <= i < j < r@.len() ==> {
                let x = times_named(arena_view(arena@), r@[i] as int, arena@.len() as int);
                let y = times_named(arena_view(arena@), r@[j] as int, arena@.len() as int);
                x > y || (x == y && r@[i] < r@[j])
            },
{
    let ghost view = arena_view(arena@);
    let mut refs: Vec<u64> = Vec::with_capacity(zones);
    let mut z: usize = 0;
    while z < zones
        invariant
            0 <= z <= zones,
            refs@.len() == z,
            forall|i: int| 0 <= i < z ==> refs@[i] == 0,
        decreases zones - z,
    {
        refs.push(0);
        z += 1;
    }
    let mut k: usize = 0;
    while k < arena.len()
        invariant
            0 <= k <= arena@.len(),
            view == arena_view(arena@),
            names_below(view, zones as int),
            zones_named(view, arena@.len() as int) <= u64::MAX,
            refs@.len() == zones,
            forall|z: int|
                0 <= z < zones ==> (#[trigger] refs@[z]) == times_named(view, z, k as int),
        decreases arena.len() - k,
    {
        proof {
            let node = view[k as int];
            lemma_zones_named(view, k + 1, arena@.len() as int);
            assert forall|z: int| 0 <= z < zones implies (#[trigger] refs@[z]) + node.eref.len()
                + node.cands.len() <= u64::MAX && 0 <= times_listed(node.eref, z)
                <= node.eref.len() by {
                lemma_times_named(view, z, k as int);
                lemma_times_listed(node.eref, z);
            }
            assert(arena@[k as int]@ == node);
            assert forall|i: int| 0 <= i < arena@[k as int].cands@.len() implies (
            #[trigger] arena@[k as int].cands@[i]).z < zones by {
                assert(node.cands[i].z < zones);
            }
        }
        count_settled(&mut refs, arena[k].eref.as_slice());
        count_candidates(&mut refs, arena[k].cands.as_slice());
        k += 1;
    }
    let mut keys: Vec<u64> = Vec::with_capacity(zones);
    let mut j: usize = 0;
    while j < zones
        invariant
            0 <= j <= zones,
            refs@.len() == zones,
            keys@.len() == j,
            forall|i: int| 0 <= i < j ==> (#[trigger] keys@[i]) == u64::MAX - refs@[i],
        decreases zones - j,
    {
        keys.push(u64::MAX - refs[j]);
        j += 1;
    }
    proof {
        assert forall|i: int| 0 <= i < zones implies (#[trigger] keys@[i]) == zone_keys(
            view,
            zones as int,
        )[i] by {
            assert(refs@[i] == times_named(view, i, arena@.len() as int));
        }
        assert(keys@ =~= zone_keys(view, zones as int));
    }
    let order = sort_by_key(keys.as_slice());
    proof {
        let ranked = positions(order@);
        lemma_in_order_stable(by_key(keys@), zones as int);
        assert forall|i: int, j: int|
            #![trigger order@[i], order@[j]]
            0 <= i < j < order@.len() implies {
            let x = times_named(view, order@[i] as int, arena@.len() as int);
            let y = times_named(view, order@[j] as int, arena@.len() as int);
            x > y || (x == y && order@[i] < order@[j])
        } by {
            assert(ranked[i] == order@[i] && ranked[j] == order@[j]);
            assert(by_key(keys@)(ranked[i], ranked[j]));
            assert(ranked[i] > ranked[j] ==> !by_key(keys@)(ranked[j], ranked[i]));
            assert(ranked[i] != ranked[j]);
            assert(keys@[ranked[i]] == u64::MAX - refs@[ranked[i]]);
            assert(keys@[ranked[j]] == u64::MAX - refs@[ranked[j]]);
        }
    }
    order
}

/// The timezone names as bytes.
pub open spec fn tz_names(tz: Seq<Tz>) -> Seq<Seq<u8>> {
    Seq::new(tz.len(), |t: int| encode_utf8(tz[t].n@))
}

/// The timezones in alphabetical order.
pub open spec fn tz_order(tz: Seq<Tz>) -> Seq<int> {
    in_order(by_name(tz_names(tz)), tz.len() as int)
}

fn name_bytes(tz: &[Tz]) -> (r: Vec<Vec<u8>>)
    ensures
        name_list(r@) == tz_names(tz@),
{
    let mut names: Vec<Vec<u8>> = Vec::with_capacity(tz.len());
    let mut t: usize = 0;
    while t < tz.len()
        invariant
            0 <= t <= tz@.len(),
            names@.len() == t,
            forall|i: int| 0 <= i < t ==> (#[trigger] names@[i])@ == encode_utf8(tz@[i].n@),
        decreases tz.len() - t,
    {
        names.push(tz[t].n.as_str().as_bytes_vec());
        t += 1;
    }
    proof {
        assert(name_list(names@) =~= tz_names(tz@));
    }
    names
}

/// The quadtree over zone ranks, as it goes on the wire.
pub open spec fn wire_tree(out: Output) -> WireNode {
    wire_node(
        arena_view(out.arena@),
        ranks_in(zone_order(arena_view(out.arena@), out.zones@.len() as int)),
        out.root as int,
    )
}

/// The zones in rank order, as they go on the wire.
pub open spec fn ranked_zones(out: Output) -> Seq<WireZone> {
    wire_zones(
        out.zones@,
        zone_order(arena_view(out.arena@), out.zones@.len() as int),
        ranks_in(tz_order(out.tz@)),
    )
}

/// The timezone names in alphabetical order.
pub open spec fn ranked_names(out: Output) -> Seq<Seq<u8>> {
    names_in(tz_names(out.tz@), tz_order(out.tz@))
}

/// The header of an artifact.
pub open spec fn artifact_header(out: Output) -> Seq<u8> {
    header_bytes(
        out.zones@.len() as int,
        out.tz@.len() as int,
        out.arena@.len() as int,
        out.arc_packed@.len() as int,
    )
}

/// The artifact in the binary format.
pub open spec fn binary_bytes(out: Output) -> Seq<u8> {
    artifact_header(out) + node_bytes(wire_tree(out)) + arcs_bytes(wire_arcs(out.arc_packed@), 0)
        + zones_bytes(ranked_zones(out), 0) + names_bytes(ranked_names(out))
}

/// The error for a node body that is too long.
pub open spec fn overlong_text(n: int) -> Seq<char> {
    "binary: node body "@ + decimal(n) + " bytes exceeds the "@ + decimal(Q_MAX as int)
        + "-byte limit"@
}

fn overlong_error(n: usize) -> (r: String)
    ensures
        r@ == overlong_text(n as int),
{
    let mut s = "binary: node body ".to_owned();
    s.append(decimal_text(n as u64).as_str());
    s.append(" bytes exceeds the ");
    s.append(decimal_text(Q_MAX).as_str());
    s.append("-byte limit");
    s
}

/// The artifact is written unless a node body is too long for its length to be
/// coded, or some value of the tree has no exact code, so that the tree would
/// not read back.
pub open spec fn binary_outcome(out: Output) -> Outcome {
    match overlong(wire_tree(out)) {
        Some(n) => Err(overlong_text(n)),
        None => if tree_exact(wire_tree(out)) {
            Ok(binary_bytes(out))
        } else {
            Err("binary quadtree round-trip mismatch"@)
        },
    }
}

/// Writes the whole artifact in the binary format.
pub struct BinarySerializer;

impl Serializer for BinarySerializer {
    open spec fn takes(&self, out: Output) -> bool {
        out.is_writable()
    }

    open spec fn outcome(&self, out: Output) -> Outcome {
        binary_outcome(out)
    }

    open spec fn name(&self) -> Seq<char> {
        "binary"@
    }

    open spec fn stores_cost_tree(&self) -> bool {
        true
    }

    fn serialize(&self, out: &Output) -> (r: Result<Vec<u8>, String>) {
        let ghost arena = arena_view(out.arena@);
        proof {
            assert forall|k: int, i: int|
                #![trigger arena[k].eref[i]]
                0 <= k < arena.len() && 0 <= i < arena[k].eref.len() implies arena[k].eref[i]
                < out.zones@.len() by {
                assert(node_writable(arena, out.zones@.len() as int, k));
            }
            assert forall|k: int, i: int|
                #![trigger arena[k].cands[i]]
                0 <= k < arena.len() && 0 <= i < arena[k].cands.len() implies arena[k].cands[i].z
                < out.zones@.len() by {
                assert(node_writable(arena, out.zones@.len() as int, k));
            }
        }
        let order = compute_order(out.arena.as_slice(), out.zones.len());
        let ranks = rank_table(order.as_slice());
        let names = name_bytes(out.tz.as_slice());
        let by_alphabet = sort_by_name(names.as_slice());
        let tz_ranks = rank_table(by_alphabet.as_slice());
        proof {
            lemma_ranks_in(ranks@, positions(order@));
            lemma_ranks_in(tz_ranks@, positions(by_alphabet@));
            assert(name_list(names@).len() == out.tz@.len());
            assert(ranks@.len() == out.zones@.len());
        }
        let mut buf = QBuf {
            bytes: encode_header(
                out.zones.len(),
                out.tz.len(),
                out.arena.len(),
                out.arc_packed.len(),
            ),
            exact: true,
        };
        if let Err(n) = encode_node(out.arena.as_slice(), out.root, ranks.as_slice(), &mut buf) {
            return Err(overlong_error(n));
        }
        if !buf.exact {
            return Err("binary quadtree round-trip mismatch".to_owned());
        }
        let mut bytes = buf.bytes;
        encode_arcs(out.arc_packed.as_slice(), &mut bytes);
        proof {
            assert forall|k: int| 0 <= k < order@.len() implies {
                &&& (#[trigger] order@[k]) < out.zones@.len()
                &&& out.zones@[order@[k] as int].tzid < tz_ranks@.len()
                &&& zone_codable(wire_zone(out.zones@[order@[k] as int], tz_ranks@))
            } by {
                assert(positions(order@)[k] == order@[k]);
                lemma_zone_codable(out.zones@[order@[k] as int], tz_ranks@);
            }
            assert forall|k: int| 0 <= k < by_alphabet@.len() implies (#[trigger] by_alphabet@[k])
                < names@.len() by {
                assert(positions(by_alphabet@)[k] == by_alphabet@[k]);
            }
        }
        encode_zones(out.zones.as_slice(), order.as_slice(), tz_ranks.as_slice(), &mut bytes);
        encode_tz_names(names.as_slice(), by_alphabet.as_slice(), &mut bytes);
        Ok(bytes)
    }

    fn format_name(&self) -> (r: &'static str) {
        "binary"
    }

    fn uses_cost_tree(&self) -> (r: bool) {
        true
    }
}

/// What is written reads back: the sections follow each other behind the
/// header, each is read as what was written, and the last one ends the file.
#[verifier::spinoff_prover]
#[verifier::rlimit(40)]
pub proof fn law_binary_round_trip(out: Output)
    requires
        out.is_writable(),
        binary_outcome(out) is Ok,
        names_writable(ranked_names(out)),
    ensures
        binary_outcome(out) == Outcome::Ok(binary_bytes(out)),
        ({
            let bytes = binary_bytes(out);
            let p0 = artifact_header(out).len() as int;
            let p1 = p0 + node_bytes(wire_tree(out)).len();
            let p2 = p1 + arcs_bytes(wire_arcs(out.arc_packed@), 0).len();
            let p3 = p2 + zones_bytes(ranked_zones(out), 0).len();
            &&& get_node(bytes, p0) == Some((wire_tree(out), p1))
            &&& get_arc_section(bytes, p1, out.arc_packed@.len() as int, [0, 0]) == Some(
                (wire_arcs(out.arc_packed@), p2),
            )
            &&& get_zones(bytes, p2, out.zones@.len() as int) == Some((ranked_zones(out), p3))
            &&& get_names(bytes, p3) == Some((ranked_names(out), bytes.len() as int))
        }),
{
    let arena = arena_view(out.arena@);
    let n = out.zones@.len() as int;
    let order = zone_order(arena, n);
    let ranks = ranks_in(order);
    lemma_in_order(by_key(zone_keys(arena, n)), n);
    lemma_writable_readable(arena, ranks, out.root as int);
    let (a, b, c, d, e) = (
        artifact_header(out),
        node_bytes(wire_tree(out)),
        arcs_bytes(wire_arcs(out.arc_packed@), 0),
        zones_bytes(ranked_zones(out), 0),
        names_bytes(ranked_names(out)),
    );
    let bytes = binary_bytes(out);
    let p0 = a.len() as int;
    let p1 = p0 + b.len();
    let p2 = p1 + c.len();
    let p3 = p2 + d.len();
    lemma_holds_in_middle(a, b, c + d + e);
    assert(bytes =~= a + b + (c + d + e));
    lemma_holds_in_middle(a + b, c, d + e);
    assert(bytes =~= a + b + c + (d + e));
    lemma_holds_in_middle(a + b + c, d, e);
    lemma_holds_in_middle(a + b + c + d, e, Seq::empty());
    assert(bytes =~= a + b + c + d + e + Seq::<u8>::empty());
    law_tree_round_trip(bytes, p0, wire_tree(out));
    let arcs = wire_arcs(out.arc_packed@);
    law_arcs_round_trip(bytes, p1, arcs, 0);
    assert(arcs.skip(0) =~= arcs);
    let zones = ranked_zones(out);
    assert forall|j: int| 0 <= j < zones.len() implies zone_codable(#[trigger] zones[j]) by {
        let z = order[j];
        assert(0 <= z < n);
        assert(zone_writable(out.zones@[z]));
        lemma_zone_codable(out.zones@[z], ranks_in(tz_order(out.tz@)));
    }
    law_zones_round_trip(bytes, p2, zones, 0);
    assert(zones.skip(0) =~= zones);
    law_names_round_trip(bytes, p3, ranked_names(out));
}

/// Zones are ranked by descending reference count: of two zones the one that
/// is named more often gets the lower rank, and of two that are named equally
/// often the one with the lower id.
pub proof fn law_busier_zones_rank_lower(arena: Seq<NodeView>, n: int, x: int, y: int)
    requires
        0 <= x < n,
        0 <= y < n <= u64::MAX,
        zones_named(arena, arena.len() as int) <= u64::MAX,
        times_named(arena, x, arena.len() as int) > times_named(arena, y, arena.len() as int) || (
        times_named(arena, x, arena.len() as int) == times_named(arena, y, arena.len() as int) && x
            < y),
    ensures
        ranks_in(zone_order(arena, n))[x] < ranks_in(zone_order(arena, n))[y],
{
    lemma_times_named(arena, x, arena.len() as int);
    lemma_times_named(arena, y, arena.len() as int);
    lemma_lower_key_ranks_lower(zone_keys(arena, n), x, y);
}

/// The name table is in alphabetical order.
pub proof fn law_names_are_alphabetical(out: Output, i: int, j: int)
    requires
        0 <= i < j < out.tz@.len(),
    ensures
        lex_le(ranked_names(out)[i], ranked_names(out)[j], 0),
{
    let names = tz_names(out.tz@);
    let n = out.tz@.len() as int;
    lemma_names_sorted(names, n);
    lemma_in_order(by_name(names), n);
    let order = tz_order(out.tz@);
    assert(by_name(names)(order[i], order[j]));
}

} // verus!
