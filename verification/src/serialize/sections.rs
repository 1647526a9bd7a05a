//! The arcs, zones and timezone-name sections of the binary format.
//!
//! ```text
//!   arc := ox:svar, oy:svar, pLen:uvar, p:bytes
//!       Origins are delta-coded against the previous arc.
//!   zone := tzid:uvar, area:uvar
//!           aabb:  xLo:svar, yLo:svar, (xHi-xLo):uvar, (yHi-yLo):uvar
//!           outer: refCount:uvar, refCount x arcRef
//!           holeCount:uvar, holeCount x ( refCount:uvar, refCount x arcRef )
//!   arcRef := uvar( zigzag(arcIndex - prevArcIndex) << 1 | reversed )
//!       `prev` runs across the zone's rings.
//!   names := tzCount:uvar, tzCount x ( sharedPrefixLen:uvar, suffixLen:uvar, suffix:bytes )
//! ```
use vstd::prelude::*;

use crate::artifact::Zone;
use crate::geom::{fits_i64, Pt};
use crate::serialize::leb::{
    all_u, get_svar, get_uvar, lemma_uvars_concat, lemma_uvars_one, lemma_written_next,
    lemma_written_two, past, read_svar, read_uvar, uvar_bytes, uvars_bytes, write_svar, write_uvar,
    written_at,
};
use crate::serialize::order::positions;
use crate::serialize::qvarint::{law_zigzag_round_trip, unzigzagged, zigzag, zigzagged};
use crate::serialize::stream::{copy_bytes, holds_at, lemma_holds_two, push_bytes};
use crate::serialize::tree::prepend;
use crate::topology::ArcRef;

verus! {

/// Arcs as origin and packed deltas.
pub type WireArcs = Seq<(Pt, Seq<u8>)>;

pub open spec fn wire_arcs(arcs: Seq<(Pt, Vec<u8>)>) -> WireArcs {
    Seq::new(arcs.len(), |k: int| (arcs[k].0, arcs[k].1@))
}

/// The origin before the `k`-th arc's.
pub open spec fn origin_before(arcs: WireArcs, k: int) -> Pt {
    if k <= 0 {
        [0, 0]
    } else {
        arcs[k - 1].0
    }
}

/// The values before an arc's packed bytes.
pub open spec fn arc_vals(prev: Pt, arc: (Pt, Seq<u8>)) -> Seq<int> {
    seq![
        zigzagged(arc.0[0] - prev[0]),
        zigzagged(arc.0[1] - prev[1]),
        arc.1.len() as int,
    ]
}

/// The arcs from the `k`-th on.
pub open spec fn arcs_bytes(arcs: WireArcs, k: int) -> Seq<u8>
    decreases arcs.len() - k,
{
    if k < 0 || k >= arcs.len() {
        Seq::empty()
    } else {
        uvars_bytes(arc_vals(origin_before(arcs, k), arcs[k])) + (arcs[k].1 + arcs_bytes(
            arcs,
            k + 1,
        ))
    }
}

/// The origins differ by no more than can be computed.
pub open spec fn arcs_writable(arcs: WireArcs) -> bool {
    forall|k: int|
        0 <= k < arcs.len() ==> fits_i64((#[trigger] arcs[k]).0[0] - origin_before(arcs, k)[0])
            && fits_i64(arcs[k].0[1] - origin_before(arcs, k)[1]) && arcs[k].1.len() <= u64::MAX
}

/// `n` arcs.
pub open spec fn get_arc_section(bytes: Seq<u8>, pos: int, n: int, prev: Pt) -> Option<
    (WireArcs, int),
>
    decreases n,
{
    if n <= 0 {
        Some((Seq::empty(), pos))
    } else {
        match get_svar(bytes, pos) {
            None => None,
            Some((dx, p1)) => match get_svar(bytes, p1) {
                None => None,
                Some((dy, p2)) => match get_uvar(bytes, p2) {
                    None => None,
                    Some((len, p3)) => {
                        if !fits_i64(prev[0] + dx) || !fits_i64(prev[1] + dy) || p3 + len
                            > bytes.len() {
                            None
                        } else {
                            let o = [(prev[0] + dx) as i64, (prev[1] + dy) as i64];
                            prepend(
                                seq![(o, bytes.subrange(p3, p3 + len))],
                                get_arc_section(bytes, p3 + len, n - 1, o),
                            )
                        }
                    },
                },
            },
        }
    }
}

/// Each arc as origin + packed delta stream.  Origins are delta-coded against
/// the previous arc.
pub fn encode_arcs(arcs: &[(Pt, Vec<u8>)], buf: &mut Vec<u8>)
    requires
        arcs_writable(wire_arcs(arcs@)),
    ensures
        final(buf)@ == old(buf)@ + arcs_bytes(wire_arcs(arcs@), 0),
{
    let ghost w = wire_arcs(arcs@);
    let ghost start = buf@;
    let mut prev: Pt = [0, 0];
    let mut k: usize = 0;
    while k < arcs.len()
        invariant
            0 <= k <= arcs@.len(),
            w == wire_arcs(arcs@),
            arcs_writable(w),
            start == old(buf)@,
            prev == origin_before(w, k as int),
            start + arcs_bytes(w, 0) == buf@ + arcs_bytes(w, k as int),
        decreases arcs.len() - k,
    {
        let o = arcs[k].0;
        proof {
            assert(w[k as int].0 == o);
            assert(fits_i64(o[0] - prev[0]) && fits_i64(o[1] - prev[1]));
        }
        let ghost b0 = buf@;
        write_svar(buf, o[0] - prev[0]);
        write_svar(buf, o[1] - prev[1]);
        write_uvar(buf, arcs[k].1.len() as u64);
        let ghost b1 = buf@;
        push_bytes(buf, arcs[k].1.as_slice());
        proof {
            let vals = arc_vals(prev, w[k as int]);
            let (a, b, c) = (seq![vals[0]], seq![vals[1]], seq![vals[2]]);
            lemma_uvars_one(vals[0]);
            lemma_uvars_one(vals[1]);
            lemma_uvars_one(vals[2]);
            lemma_uvars_concat(a, b);
            lemma_uvars_concat(a + b, c);
            assert(a + b + c =~= vals);
            assert(b1 =~= b0 + uvars_bytes(vals));
            assert(b0 + (uvars_bytes(vals) + (w[k as int].1 + arcs_bytes(w, k + 1))) =~= buf@
                + arcs_bytes(w, k + 1));
        }
        prev = o;
        k += 1;
    }
    proof {
        assert(buf@ + arcs_bytes(w, k as int) =~= buf@);
    }
}

/// Read `n` arcs.
pub fn decode_arcs(bytes: &[u8], pos: &mut usize, n: usize) -> (r: Option<Vec<(Pt, Vec<u8>)>>)
    requires
        *old(pos) <= bytes@.len(),
    ensures
        match get_arc_section(bytes@, *old(pos) as int, n as int, [0, 0]) {
            Some((arcs, next)) => r matches Some(v) && wire_arcs(v@) == arcs && *final(pos)
                == next,
            None => r is None,
        },
        *old(pos) <= *final(pos) <= bytes@.len(),
{
    let mut out: Vec<(Pt, Vec<u8>)> = Vec::new();
    let mut prev: Pt = [0, 0];
    let mut left = n;
    let ghost whole = get_arc_section(bytes@, *pos as int, n as int, [0, 0]);
    proof {
        assert(prepend(wire_arcs(out@), whole) == whole) by {
            if let Some((arcs, next)) = whole {
                assert(wire_arcs(out@) + arcs =~= arcs);
            }
        }
    }
    while left > 0
        invariant
            0 <= left <= n,
            *old(pos) <= *pos <= bytes@.len(),
            whole == get_arc_section(bytes@, *old(pos) as int, n as int, [0, 0]),
            whole == prepend(
                wire_arcs(out@),
                get_arc_section(bytes@, *pos as int, left as int, prev),
            ),
        decreases left,
    {
        let dx = match read_svar(bytes, pos) {
            None => {
                return None;
            },
            Some(v) => v,
        };
        let dy = match read_svar(bytes, pos) {
            None => {
                return None;
            },
            Some(v) => v,
        };
        let len = match read_uvar(bytes, pos) {
            None => {
                return None;
            },
            Some(v) => v,
        };
        let (x, y) = match (prev[0].checked_add(dx), prev[1].checked_add(dy)) {
            (Some(x), Some(y)) => (x, y),
            _ => {
                return None;
            },
        };
        if len > (bytes.len() - *pos) as u64 {
            return None;
        }
        let end = *pos + len as usize;
        let p = copy_bytes(bytes, *pos, end);
        *pos = end;
        let ghost before = out@;
        let ghost one = ([x, y], p@);
        out.push(([x, y], p));
        proof {
            assert([x, y] =~= [(prev[0] + dx) as i64, (prev[1] + dy) as i64]);
        }
        prev = [x, y];
        left -= 1;
        proof {
            let rest = get_arc_section(bytes@, *pos as int, left as int, prev);
            if let Some((arcs, next)) = rest {
                assert(wire_arcs(before) + (seq![one] + arcs) =~= wire_arcs(out@) + arcs);
            }
        }
    }
    proof {
        assert(wire_arcs(out@) + Seq::<(Pt, Seq<u8>)>::empty() =~= wire_arcs(out@));
    }
    Some(out)
}

/// Reading written arcs gives them back, wherever they stand.
#[verifier::spinoff_prover]
#[verifier::rlimit(40)]
pub proof fn law_arcs_round_trip(bytes: Seq<u8>, pos: int, arcs: WireArcs, k: int)
    requires
        arcs_writable(arcs),
        0 <= k <= arcs.len(),
        holds_at(bytes, pos, arcs_bytes(arcs, k)),
    ensures
        get_arc_section(bytes, pos, arcs.len() - k, origin_before(arcs, k)) == Some(
            (arcs.skip(k), pos + arcs_bytes(arcs, k).len()),
        ),
    decreases arcs.len() - k,
{
    if k == arcs.len() {
        assert(arcs.skip(k) =~= Seq::empty());
    } else {
        let prev = origin_before(arcs, k);
        let arc = arcs[k];
        let vals = arc_vals(prev, arc);
        let rest = arcs_bytes(arcs, k + 1);
        assert(fits_i64(arcs[k].0[0] - prev[0]) && fits_i64(arcs[k].0[1] - prev[1]));
        lemma_holds_two(bytes, pos, uvars_bytes(vals), arc.1 + rest);
        assert(written_at(bytes, pos, vals));
        let (b, c) = (vals[1], vals[2]);
        assert(vals =~= seq![vals[0]] + (seq![b] + (seq![c] + Seq::<int>::empty())));
        let p1 = lemma_written_next(bytes, pos, vals[0], seq![b] + (seq![c] + Seq::empty()));
        let p2 = lemma_written_next(bytes, p1, b, seq![c] + Seq::empty());
        let p3 = lemma_written_next(bytes, p2, c, Seq::empty());
        assert(uvars_bytes(Seq::<int>::empty()) =~= Seq::<u8>::empty());
        law_zigzag_round_trip(arc.0[0] - prev[0], 0);
        law_zigzag_round_trip(arc.0[1] - prev[1], 0);
        lemma_holds_two(bytes, p3, arc.1, rest);
        law_arcs_round_trip(bytes, p3 + arc.1.len(), arcs, k + 1);
        let o = [
            (prev[0] + (arc.0[0] - prev[0])) as i64,
            (prev[1] + (arc.0[1] - prev[1])) as i64,
        ];
        assert(o =~= arc.0);
        assert(origin_before(arcs, k + 1) == arc.0);
        assert(seq![(o, bytes.subrange(p3, p3 + c))] + arcs.skip(k + 1) =~= arcs.skip(k));
    }
}

// --- zones ---

/// A reference on the wire: the arc and whether it is reversed.
pub type WireRefs = Seq<(int, bool)>;

pub open spec fn wire_refs(refs: Seq<ArcRef>) -> WireRefs {
    Seq::new(refs.len(), |k: int| (refs[k].arc as int, refs[k].rev))
}

pub open spec fn wire_ref_lists(lists: Seq<Vec<ArcRef>>) -> Seq<WireRefs> {
    Seq::new(lists.len(), |k: int| wire_refs(lists[k]@))
}

/// A zone on the wire; the timezone is a rank.
#[verifier::ext_equal]
pub struct WireZone {
    pub tzid: int,
    pub area: int,
    pub lo: (int, int),
    pub hi: (int, int),
    pub outer: WireRefs,
    pub holes: Seq<WireRefs>,
}

pub open spec fn wire_zone(zone: Zone, tz_ranks: Seq<u64>) -> WireZone {
    WireZone {
        tzid: tz_ranks[zone.tzid as int] as int,
        area: (zone.a as u64) as int,
        lo: (zone.aabb[0][0] as int, zone.aabb[0][1] as int),
        hi: (zone.aabb[1][0] as int, zone.aabb[1][1] as int),
        outer: wire_refs(zone.outer_refs@),
        holes: wire_ref_lists(zone.hole_refs@),
    }
}

/// The arc index after the first `k` references.
pub open spec fn arc_after(refs: WireRefs, prev: int, k: int) -> int {
    if k <= 0 {
        prev
    } else {
        refs[k - 1].0
    }
}

/// The values of the references from the `k`-th on.
pub open spec fn ref_vals(refs: WireRefs, prev: int, k: int) -> Seq<int>
    decreases refs.len() - k,
{
    if k < 0 || k >= refs.len() {
        Seq::empty()
    } else {
        seq![
            zigzagged(refs[k].0 - arc_after(refs, prev, k)) * 2 + if refs[k].1 {
                1int
            } else {
                0
            },
        ] + ref_vals(refs, prev, k + 1)
    }
}

/// The values of a counted list of references.
pub open spec fn list_vals(refs: WireRefs, prev: int) -> Seq<int> {
    seq![refs.len() as int] + ref_vals(refs, prev, 0)
}

/// The arc index that the `k`-th hole is coded against.
pub open spec fn hole_prev(holes: Seq<WireRefs>, prev: int, k: int) -> int
    decreases k,
{
    if k <= 0 {
        prev
    } else {
        arc_after(
            holes[k - 1],
            hole_prev(holes, prev, k - 1),
            holes[k - 1].len() as int,
        )
    }
}

/// The values of the holes from the `k`-th on.
pub open spec fn hole_vals(holes: Seq<WireRefs>, prev: int, k: int) -> Seq<int>
    decreases holes.len() - k,
{
    if k < 0 || k >= holes.len() {
        Seq::empty()
    } else {
        list_vals(holes[k], hole_prev(holes, prev, k)) + hole_vals(holes, prev, k + 1)
    }
}

/// The values of a zone.
pub open spec fn zone_vals(z: WireZone) -> Seq<int> {
    seq![
        z.tzid,
        z.area,
        zigzagged(z.lo.0),
        zigzagged(z.lo.1),
        z.hi.0 - z.lo.0,
        z.hi.1 - z.lo.1,
    ] + (list_vals(z.outer, 0) + (seq![z.holes.len() as int] + hole_vals(
        z.holes,
        arc_after(z.outer, 0, z.outer.len() as int),
        0,
    )))
}

/// The zones from the `k`-th on.
pub open spec fn zones_bytes(zones: Seq<WireZone>, k: int) -> Seq<u8>
    decreases zones.len() - k,
{
    if k < 0 || k >= zones.len() {
        Seq::empty()
    } else {
        uvars_bytes(zone_vals(zones[k])) + zones_bytes(zones, k + 1)
    }
}

/// The unsigned 64-bit number with the bits of a signed one.
pub open spec fn unsigned64(x: int) -> int {
    if x < 0 {
        x + 0x1_0000_0000_0000_0000
    } else {
        x
    }
}

/// The signed 64-bit number with the bits of an unsigned one.
pub open spec fn signed64(x: int) -> int {
    if x > i64::MAX {
        x - 0x1_0000_0000_0000_0000
    } else {
        x
    }
}

/// Where the references that were read leave the running index.
pub open spec fn index_after(refs: WireRefs, prev: int) -> int {
    if refs.len() == 0 {
        prev
    } else {
        signed64(refs.last().0)
    }
}

/// `n` references.  The running index is a signed number, and `None` where it
/// overflows; what is read of it is the unsigned one.
pub open spec fn get_refs(bytes: Seq<u8>, pos: int, n: int, prev: int) -> Option<(WireRefs, int)>
    decreases n,
{
    if n <= 0 {
        Some((Seq::empty(), pos))
    } else {
        match get_uvar(bytes, pos) {
            None => None,
            Some((v, p)) => {
                let arc = prev + unzigzagged(v / 2);
                if !fits_i64(arc) {
                    None
                } else {
                    prepend(
                        seq![(unsigned64(arc), v % 2 == 1)],
                        get_refs(bytes, p, n - 1, arc),
                    )
                }
            },
        }
    }
}

/// A counted list of references.
pub open spec fn get_ref_list(bytes: Seq<u8>, pos: int, prev: int) -> Option<(WireRefs, int)> {
    match get_uvar(bytes, pos) {
        None => None,
        Some((n, p)) => get_refs(bytes, p, n, prev),
    }
}

/// `n` counted lists.
pub open spec fn get_ref_lists(bytes: Seq<u8>, pos: int, n: int, prev: int) -> Option<
    (Seq<WireRefs>, int),
>
    decreases n,
{
    if n <= 0 {
        Some((Seq::empty(), pos))
    } else {
        match get_ref_list(bytes, pos, prev) {
            None => None,
            Some((refs, p)) => prepend(
                seq![refs],
                get_ref_lists(bytes, p, n - 1, index_after(refs, prev)),
            ),
        }
    }
}

/// The fixed fields of a zone: timezone, area, low corner, and the high corner
/// from the extent, which counts as a signed number.
pub open spec fn get_zone_head(bytes: Seq<u8>, pos: int) -> Option<
    ((int, int, int, int, int, int), int),
> {
    match get_uvar(bytes, pos) {
        None => None,
        Some((tzid, p1)) => match get_uvar(bytes, p1) {
            None => None,
            Some((area, p2)) => match get_svar(bytes, p2) {
                None => None,
                Some((xl, p3)) => match get_svar(bytes, p3) {
                    None => None,
                    Some((yl, p4)) => match get_uvar(bytes, p4) {
                        None => None,
                        Some((dx, p5)) => match get_uvar(bytes, p5) {
                            None => None,
                            Some((dy, p6)) => {
                                let xh = xl + signed64(dx);
                                let yh = yl + signed64(dy);
                                if !fits_i64(xh) || !fits_i64(yh) {
                                    None
                                } else {
                                    Some(((tzid, area, xl, yl, xh, yh), p6))
                                }
                            },
                        },
                    },
                },
            },
        },
    }
}

/// A zone.
pub open spec fn get_zone(bytes: Seq<u8>, pos: int) -> Option<(WireZone, int)> {
    match get_zone_head(bytes, pos) {
        None => None,
        Some(((tzid, area, xl, yl, xh, yh), p1)) => match get_ref_list(bytes, p1, 0) {
            None => None,
            Some((outer, p2)) => match get_uvar(bytes, p2) {
                None => None,
                Some((n, p3)) => match get_ref_lists(
                    bytes,
                    p3,
                    n,
                    index_after(outer, 0),
                ) {
                    None => None,
                    Some((holes, p4)) => Some(
                        (
                            WireZone { tzid, area, lo: (xl, yl), hi: (xh, yh), outer, holes },
                            p4,
                        ),
                    ),
                },
            },
        },
    }
}

/// `n` zones.
pub open spec fn get_zones(bytes: Seq<u8>, pos: int, n: int) -> Option<(Seq<WireZone>, int)>
    decreases n,
{
    if n <= 0 {
        Some((Seq::empty(), pos))
    } else {
        match get_zone(bytes, pos) {
            None => None,
            Some((z, p)) => prepend(seq![z], get_zones(bytes, p, n - 1)),
        }
    }
}

/// References whose indices can be coded.
pub open spec fn refs_codable(refs: WireRefs) -> bool {
    forall|k: int| 0 <= k < refs.len() ==> 0 <= (#[trigger] refs[k]).0 <= 0x1000_0000_0000_0000
}

/// A zone whose fields can be coded.
pub open spec fn zone_codable(z: WireZone) -> bool {
    &&& 0 <= z.tzid <= u64::MAX
    &&& 0 <= z.area <= u64::MAX
    &&& fits_i64(z.lo.0) && fits_i64(z.lo.1) && fits_i64(z.hi.0) && fits_i64(z.hi.1)
    &&& 0 <= z.hi.0 - z.lo.0 <= i64::MAX && 0 <= z.hi.1 - z.lo.1 <= i64::MAX
    &&& refs_codable(z.outer) && z.outer.len() <= u64::MAX
    &&& z.holes.len() <= u64::MAX
    &&& forall|k: int|
        0 <= k < z.holes.len() ==> refs_codable(#[trigger] z.holes[k]) && z.holes[k].len()
            <= u64::MAX
}

/// The values have been written.
spec fn appended(before: Seq<u8>, after: Seq<u8>, vals: Seq<int>) -> bool {
    after == before + uvars_bytes(vals)
}

proof fn lemma_appended_none(b: Seq<u8>)
    ensures
        appended(b, b, Seq::empty()),
{
    assert(b + uvars_bytes(Seq::<int>::empty()) =~= b);
}

proof fn lemma_appended_two(x: Seq<u8>, y: Seq<u8>, z: Seq<u8>, a: Seq<int>, b: Seq<int>)
    requires
        appended(x, y, a),
        appended(y, z, b),
    ensures
        appended(x, z, a + b),
{
    lemma_uvars_concat(a, b);
    assert(z =~= x + uvars_bytes(a + b));
}

proof fn lemma_appended_one(x: Seq<u8>, v: int)
    ensures
        appended(x, x + uvar_bytes(v), seq![v]),
{
    lemma_uvars_one(v);
}

/// A ring's arc references: count, then each as (zigzag(arcIdx - prevArcIdx) << 1
/// | reversed).  `prev` runs across the zone's rings (outer then holes).
pub fn encode_arc_refs(refs: &[ArcRef], prev: &mut i64, buf: &mut Vec<u8>)
    requires
        refs_codable(wire_refs(refs@)),
        0 <= *old(prev) <= 0x1000_0000_0000_0000,
    ensures
        final(buf)@ == old(buf)@ + uvars_bytes(list_vals(wire_refs(refs@), *old(prev) as int)),
        *final(prev) == arc_after(wire_refs(refs@), *old(prev) as int, refs@.len() as int),
        0 <= *final(prev) <= 0x1000_0000_0000_0000,
{
    let ghost w = wire_refs(refs@);
    let ghost start = buf@;
    let ghost first = *prev as int;
    let ghost mut done = seq![w.len() as int];
    write_uvar(buf, refs.len() as u64);
    let mut k: usize = 0;
    proof {
        lemma_appended_one(start, w.len() as int);
    }
    while k < refs.len()
        invariant
            0 <= k <= refs@.len(),
            w == wire_refs(refs@),
            refs_codable(w),
            start == old(buf)@,
            first == *old(prev),
            *prev == arc_after(w, first, k as int),
            0 <= *prev <= 0x1000_0000_0000_0000,
            appended(start, buf@, done),
            done + ref_vals(w, first, k as int) == list_vals(w, first),
        decreases refs.len() - k,
    {
        let r = refs[k];
        proof {
            assert(0 <= w[k as int].0 <= 0x1000_0000_0000_0000);
        }
        let idx = r.arc as i64;
        let flag: u64 = if r.rev {
            1
        } else {
            0
        };
        let v = zigzag(idx - *prev) * 2 + flag;
        let ghost b0 = buf@;
        write_uvar(buf, v);
        proof {
            lemma_appended_one(b0, v as int);
            lemma_appended_two(start, b0, buf@, done, seq![v as int]);
            assert(done + ref_vals(w, first, k as int) =~= (done + seq![v as int]) + ref_vals(
                w,
                first,
                k + 1,
            ));
            done = done + seq![v as int];
        }
        *prev = idx;
        k += 1;
    }
    proof {
        assert(done + ref_vals(w, first, k as int) =~= done);
    }
}

/// One zone.
fn encode_zone(zone: &Zone, tz_ranks: &[u64], buf: &mut Vec<u8>)
    requires
        zone.tzid < tz_ranks@.len(),
        zone_codable(wire_zone(*zone, tz_ranks@)),
    ensures
        final(buf)@ == old(buf)@ + uvars_bytes(zone_vals(wire_zone(*zone, tz_ranks@))),
{
    let ghost w = wire_zone(*zone, tz_ranks@);
    let ghost b0 = buf@;
    write_uvar(buf, tz_ranks[zone.tzid]);
    let ghost b1 = buf@;
    write_uvar(buf, zone.a as u64);
    let ghost b2 = buf@;
    write_svar(buf, zone.aabb[0][0]);
    let ghost b3 = buf@;
    write_svar(buf, zone.aabb[0][1]);
    let ghost b4 = buf@;
    write_uvar(buf, (zone.aabb[1][0] - zone.aabb[0][0]) as u64);
    let ghost b5 = buf@;
    write_uvar(buf, (zone.aabb[1][1] - zone.aabb[0][1]) as u64);
    let ghost b6 = buf@;
    let ghost head = seq![
        w.tzid,
        w.area,
        zigzagged(w.lo.0),
        zigzagged(w.lo.1),
        w.hi.0 - w.lo.0,
        w.hi.1 - w.lo.1,
    ];
    proof {
        lemma_appended_one(b0, head[0]);
        lemma_appended_one(b1, head[1]);
        lemma_appended_one(b2, head[2]);
        lemma_appended_one(b3, head[3]);
        lemma_appended_one(b4, head[4]);
        lemma_appended_one(b5, head[5]);
        let (x0, x1, x2) = (seq![head[0]], seq![head[1]], seq![head[2]]);
        let (x3, x4, x5) = (seq![head[3]], seq![head[4]], seq![head[5]]);
        lemma_appended_two(b0, b1, b2, x0, x1);
        lemma_appended_two(b0, b2, b3, x0 + x1, x2);
        lemma_appended_two(b0, b3, b4, x0 + x1 + x2, x3);
        lemma_appended_two(b0, b4, b5, x0 + x1 + x2 + x3, x4);
        lemma_appended_two(b0, b5, b6, x0 + x1 + x2 + x3 + x4, x5);
        assert(x0 + x1 + x2 + x3 + x4 + x5 =~= head);
    }
    let mut prev: i64 = 0;
    encode_arc_refs(zone.outer_refs.as_slice(), &mut prev, buf);
    let ghost b7 = buf@;
    let ghost after = prev as int;
    write_uvar(buf, zone.hole_refs.len() as u64);
    let ghost b8 = buf@;
    let ghost n = seq![w.holes.len() as int];
    proof {
        lemma_appended_one(b7, w.holes.len() as int);
    }
    encode_hole_refs(zone.hole_refs.as_slice(), prev, buf);
    proof {
        let holes = hole_vals(w.holes, after, 0);
        lemma_appended_two(b7, b8, buf@, n, holes);
        lemma_appended_two(b6, b7, buf@, list_vals(w.outer, 0), n + holes);
        lemma_appended_two(b0, b6, buf@, head, list_vals(w.outer, 0) + (n + holes));
    }
}

fn encode_hole_refs(lists: &[Vec<ArcRef>], prev: i64, buf: &mut Vec<u8>)
    requires
        0 <= prev <= 0x1000_0000_0000_0000,
        forall|k: int|
            0 <= k < lists@.len() ==> refs_codable(#[trigger] wire_ref_lists(lists@)[k]),
    ensures
        final(buf)@ == old(buf)@ + uvars_bytes(hole_vals(wire_ref_lists(lists@), prev as int, 0)),
{
    let ghost w = wire_ref_lists(lists@);
    let ghost start = buf@;
    let ghost first = prev as int;
    let ghost mut done = Seq::<int>::empty();
    let mut last = prev;
    let mut k: usize = 0;
    proof {
        lemma_appended_none(start);
        assert(done + hole_vals(w, first, 0) =~= hole_vals(w, first, 0));
    }
    while k < lists.len()
        invariant
            0 <= k <= lists@.len(),
            w == wire_ref_lists(lists@),
            forall|k: int| 0 <= k < lists@.len() ==> refs_codable(#[trigger] w[k]),
            start == old(buf)@,
            first == prev,
            last == hole_prev(w, first, k as int),
            0 <= last <= 0x1000_0000_0000_0000,
            appended(start, buf@, done),
            done + hole_vals(w, first, k as int) == hole_vals(w, first, 0),
        decreases lists.len() - k,
    {
        let ghost b0 = buf@;
        let ghost p = last as int;
        proof {
            assert(w[k as int] == wire_refs(lists@[k as int]@));
        }
        encode_arc_refs(lists[k].as_slice(), &mut last, buf);
        proof {
            let one = list_vals(w[k as int], p);
            lemma_appended_two(start, b0, buf@, done, one);
            assert(done + hole_vals(w, first, k as int) =~= (done + one) + hole_vals(
                w,
                first,
                k + 1,
            ));
            done = done + one;
        }
        k += 1;
    }
    proof {
        assert(done + hole_vals(w, first, k as int) =~= done);
    }
}

/// The zones in an order, as they go on the wire.
pub open spec fn wire_zones(zones: Seq<Zone>, order: Seq<int>, tz_ranks: Seq<u64>) -> Seq<WireZone> {
    Seq::new(order.len(), |k: int| wire_zone(zones[order[k]], tz_ranks))
}

/// The zones in the order given.
pub fn encode_zones(zones: &[Zone], order: &[usize], tz_ranks: &[u64], buf: &mut Vec<u8>)
    requires
        forall|k: int|
            0 <= k < order@.len() ==> {
                &&& (#[trigger] order@[k]) < zones@.len()
                &&& zones@[order@[k] as int].tzid < tz_ranks@.len()
                &&& zone_codable(wire_zone(zones@[order@[k] as int], tz_ranks@))
            },
    ensures
        final(buf)@ == old(buf)@ + zones_bytes(
            wire_zones(zones@, positions(order@), tz_ranks@),
            0,
        ),
{
    let ghost w = wire_zones(zones@, positions(order@), tz_ranks@);
    let ghost start = buf@;
    let mut k: usize = 0;
    while k < order.len()
        invariant
            0 <= k <= order@.len(),
            w == wire_zones(zones@, positions(order@), tz_ranks@),
            forall|k: int|
                0 <= k < order@.len() ==> {
                    &&& (#[trigger] order@[k]) < zones@.len()
                    &&& zones@[order@[k] as int].tzid < tz_ranks@.len()
                    &&& zone_codable(wire_zone(zones@[order@[k] as int], tz_ranks@))
                },
            start == old(buf)@,
            start + zones_bytes(w, 0) == buf@ + zones_bytes(w, k as int),
        decreases order.len() - k,
    {
        let at = order[k];
        let ghost b0 = buf@;
        encode_zone(&zones[at], tz_ranks, buf);
        proof {
            assert(w[k as int] == wire_zone(zones@[at as int], tz_ranks@));
            assert(b0 + (uvars_bytes(zone_vals(w[k as int])) + zones_bytes(w, k + 1)) =~= buf@
                + zones_bytes(w, k + 1));
        }
        k += 1;
    }
    proof {
        assert(buf@ + zones_bytes(w, k as int) =~= buf@);
    }
}

proof fn lemma_refs(bytes: Seq<u8>, pos: int, refs: WireRefs, prev: int, k: int)
    requires
        0 <= k <= refs.len(),
        refs_codable(refs),
        written_at(bytes, pos, ref_vals(refs, prev, k)),
    ensures
        get_refs(bytes, pos, refs.len() - k, arc_after(refs, prev, k)) == Some(
            (refs.skip(k), past(pos, ref_vals(refs, prev, k))),
        ),
    decreases refs.len() - k,
{
    if k == refs.len() {
        assert(refs.skip(k) =~= Seq::empty());
        assert(uvars_bytes(Seq::<int>::empty()) =~= Seq::<u8>::empty());
    } else {
        let before = arc_after(refs, prev, k);
        let z = zigzagged(refs[k].0 - before);
        let f = if refs[k].1 {
            1int
        } else {
            0
        };
        let v = z * 2 + f;
        let p = lemma_written_next(bytes, pos, v, ref_vals(refs, prev, k + 1));
        law_zigzag_round_trip(refs[k].0 - before, 0);
        assert(v / 2 == z && v % 2 == f);
        assert(0 <= refs[k].0 <= 0x1000_0000_0000_0000);
        lemma_refs(bytes, p, refs, prev, k + 1);
        assert(seq![refs[k]] + refs.skip(k + 1) =~= refs.skip(k));
    }
}

proof fn lemma_ref_list(bytes: Seq<u8>, pos: int, refs: WireRefs, prev: int)
    requires
        refs_codable(refs),
        written_at(bytes, pos, list_vals(refs, prev)),
    ensures
        get_ref_list(bytes, pos, prev) == Some((refs, past(pos, list_vals(refs, prev)))),
{
    let p = lemma_written_next(bytes, pos, refs.len() as int, ref_vals(refs, prev, 0));
    lemma_refs(bytes, p, refs, prev, 0);
    assert(refs.skip(0) =~= refs);
}

proof fn lemma_ref_lists(bytes: Seq<u8>, pos: int, holes: Seq<WireRefs>, prev: int, k: int)
    requires
        0 <= k <= holes.len(),
        forall|j: int| 0 <= j < holes.len() ==> refs_codable(#[trigger] holes[j]),
        written_at(bytes, pos, hole_vals(holes, prev, k)),
    ensures
        get_ref_lists(bytes, pos, holes.len() - k, hole_prev(holes, prev, k)) == Some(
            (holes.skip(k), past(pos, hole_vals(holes, prev, k))),
        ),
    decreases holes.len() - k,
{
    if k == holes.len() {
        assert(holes.skip(k) =~= Seq::empty());
        assert(uvars_bytes(Seq::<int>::empty()) =~= Seq::<u8>::empty());
    } else {
        let head = list_vals(holes[k], hole_prev(holes, prev, k));
        lemma_written_two(bytes, pos, head, hole_vals(holes, prev, k + 1));
        assert(refs_codable(holes[k]));
        lemma_ref_list(bytes, pos, holes[k], hole_prev(holes, prev, k));
        lemma_ref_lists(bytes, past(pos, head), holes, prev, k + 1);
        assert(seq![holes[k]] + holes.skip(k + 1) =~= holes.skip(k));
    }
}

proof fn lemma_zone_head(bytes: Seq<u8>, pos: int, z: WireZone, rest: Seq<int>) -> (p: int)
    requires
        zone_codable(z),
        written_at(
            bytes,
            pos,
            seq![
                z.tzid,
                z.area,
                zigzagged(z.lo.0),
                zigzagged(z.lo.1),
                z.hi.0 - z.lo.0,
                z.hi.1 - z.lo.1,
            ] + rest,
        ),
    ensures
        get_zone_head(bytes, pos) == Some(
            ((z.tzid, z.area, z.lo.0, z.lo.1, z.hi.0, z.hi.1), p),
        ),
        written_at(bytes, p, rest),
        past(p, rest) == past(
            pos,
            seq![
                z.tzid,
                z.area,
                zigzagged(z.lo.0),
                zigzagged(z.lo.1),
                z.hi.0 - z.lo.0,
                z.hi.1 - z.lo.1,
            ] + rest,
        ),
{
    let (a, b) = (zigzagged(z.lo.0), zigzagged(z.lo.1));
    let (dx, dy) = (z.hi.0 - z.lo.0, z.hi.1 - z.lo.1);
    let r5 = seq![dy] + rest;
    let r4 = seq![dx] + r5;
    let r3 = seq![b] + r4;
    let r2 = seq![a] + r3;
    let r1 = seq![z.area] + r2;
    assert(seq![z.tzid, z.area, a, b, dx, dy] + rest =~= seq![z.tzid] + r1);
    let p1 = lemma_written_next(bytes, pos, z.tzid, r1);
    let p2 = lemma_written_next(bytes, p1, z.area, r2);
    let p3 = lemma_written_next(bytes, p2, a, r3);
    let p4 = lemma_written_next(bytes, p3, b, r4);
    let p5 = lemma_written_next(bytes, p4, dx, r5);
    let p6 = lemma_written_next(bytes, p5, dy, rest);
    law_zigzag_round_trip(z.lo.0, 0);
    law_zigzag_round_trip(z.lo.1, 0);
    p6
}

proof fn lemma_zone(bytes: Seq<u8>, pos: int, z: WireZone)
    requires
        zone_codable(z),
        written_at(bytes, pos, zone_vals(z)),
    ensures
        get_zone(bytes, pos) == Some((z, past(pos, zone_vals(z)))),
{
    let after = arc_after(z.outer, 0, z.outer.len() as int);
    let outer = list_vals(z.outer, 0);
    let n = z.holes.len() as int;
    let holes = hole_vals(z.holes, after, 0);
    let p1 = lemma_zone_head(bytes, pos, z, outer + (seq![n] + holes));
    lemma_written_two(bytes, p1, outer, seq![n] + holes);
    lemma_ref_list(bytes, p1, z.outer, 0);
    let p2 = past(p1, outer);
    let p3 = lemma_written_next(bytes, p2, n, holes);
    lemma_ref_lists(bytes, p3, z.holes, after, 0);
    assert(z.holes.skip(0) =~= z.holes);
    assert(WireZone {
        tzid: z.tzid,
        area: z.area,
        lo: (z.lo.0, z.lo.1),
        hi: (z.hi.0, z.hi.1),
        outer: z.outer,
        holes: z.holes,
    } == z);
}

/// All values of a zone fit 64 bits.
proof fn lemma_zone_vals(z: WireZone)
    requires
        zone_codable(z),
    ensures
        all_u(zone_vals(z)),
{
    let after = arc_after(z.outer, 0, z.outer.len() as int);
    lemma_ref_vals(z.outer, 0, 0);
    assert(0 <= after <= 0x1000_0000_0000_0000) by {
        if z.outer.len() > 0 {
            assert(0 <= z.outer[z.outer.len() - 1].0 <= 0x1000_0000_0000_0000);
        }
    }
    lemma_hole_vals(z.holes, after, 0);
    let head = seq![
        z.tzid,
        z.area,
        zigzagged(z.lo.0),
        zigzagged(z.lo.1),
        z.hi.0 - z.lo.0,
        z.hi.1 - z.lo.1,
    ];
    let outer = list_vals(z.outer, 0);
    let n = seq![z.holes.len() as int];
    let holes = hole_vals(z.holes, after, 0);
    lemma_all_u_concat(n, holes);
    lemma_all_u_concat(seq![z.outer.len() as int], ref_vals(z.outer, 0, 0));
    lemma_all_u_concat(outer, n + holes);
    lemma_all_u_concat(head, outer + (n + holes));
}

proof fn lemma_all_u_concat(a: Seq<int>, b: Seq<int>)
    requires
        all_u(a),
        all_u(b),
    ensures
        all_u(a + b),
{
    assert forall|i: int| 0 <= i < (a + b).len() implies 0 <= (#[trigger] (a + b)[i]) <= u64::MAX by {
        if i < a.len() {
            assert((a + b)[i] == a[i]);
        } else {
            assert((a + b)[i] == b[i - a.len()]);
        }
    }
}

proof fn lemma_ref_vals(refs: WireRefs, prev: int, k: int)
    requires
        refs_codable(refs),
        0 <= k,
        0 <= prev <= 0x1000_0000_0000_0000,
    ensures
        all_u(ref_vals(refs, prev, k)),
    decreases refs.len() - k,
{
    if k < refs.len() {
        lemma_ref_vals(refs, prev, k + 1);
        assert(0 <= refs[k].0 <= 0x1000_0000_0000_0000);
        if k > 0 {
            assert(0 <= refs[k - 1].0 <= 0x1000_0000_0000_0000);
        }
        let v = zigzagged(refs[k].0 - arc_after(refs, prev, k)) * 2 + if refs[k].1 {
            1int
        } else {
            0
        };
        lemma_all_u_concat(seq![v], ref_vals(refs, prev, k + 1));
    }
}

proof fn lemma_hole_prev(holes: Seq<WireRefs>, prev: int, k: int)
    requires
        forall|j: int| 0 <= j < holes.len() ==> refs_codable(#[trigger] holes[j]),
        0 <= prev <= 0x1000_0000_0000_0000,
        k <= holes.len(),
    ensures
        0 <= hole_prev(holes, prev, k) <= 0x1000_0000_0000_0000,
    decreases k,
{
    if k > 0 {
        lemma_hole_prev(holes, prev, k - 1);
        let refs = holes[k - 1];
        assert(refs_codable(refs));
        if refs.len() > 0 {
            assert(0 <= refs[refs.len() - 1].0 <= 0x1000_0000_0000_0000);
        }
    }
}

proof fn lemma_hole_vals(holes: Seq<WireRefs>, prev: int, k: int)
    requires
        forall|j: int|
            0 <= j < holes.len() ==> refs_codable(#[trigger] holes[j]) && holes[j].len()
                <= u64::MAX,
        0 <= k,
        0 <= prev <= 0x1000_0000_0000_0000,
    ensures
        all_u(hole_vals(holes, prev, k)),
    decreases holes.len() - k,
{
    if k < holes.len() {
        lemma_hole_vals(holes, prev, k + 1);
        lemma_hole_prev(holes, prev, k);
        let p = hole_prev(holes, prev, k);
        assert(refs_codable(holes[k]));
        lemma_ref_vals(holes[k], p, 0);
        lemma_all_u_concat(seq![holes[k].len() as int], ref_vals(holes[k], p, 0));
        lemma_all_u_concat(list_vals(holes[k], p), hole_vals(holes, prev, k + 1));
    }
}

/// Reading written zones gives them back, wherever they stand.
pub proof fn law_zones_round_trip(bytes: Seq<u8>, pos: int, zones: Seq<WireZone>, k: int)
    requires
        0 <= k <= zones.len(),
        forall|j: int| 0 <= j < zones.len() ==> zone_codable(#[trigger] zones[j]),
        holds_at(bytes, pos, zones_bytes(zones, k)),
    ensures
        get_zones(bytes, pos, zones.len() - k) == Some(
            (zones.skip(k), pos + zones_bytes(zones, k).len()),
        ),
    decreases zones.len() - k,
{
    if k == zones.len() {
        assert(zones.skip(k) =~= Seq::empty());
    } else {
        let z = zones[k];
        let head = uvars_bytes(zone_vals(z));
        lemma_holds_two(bytes, pos, head, zones_bytes(zones, k + 1));
        assert(zone_codable(zones[k]));
        lemma_zone_vals(z);
        lemma_zone(bytes, pos, z);
        law_zones_round_trip(bytes, pos + head.len(), zones, k + 1);
        assert(seq![z] + zones.skip(k + 1) =~= zones.skip(k));
    }
}

/// The sum of the first `k` steps that the values of references stand for.
pub open spec fn steps_before(vals: Seq<int>, k: int) -> int
    decreases k,
{
    if k <= 0 {
        0
    } else {
        steps_before(vals, k - 1) + unzigzagged(vals[k - 1] / 2)
    }
}

proof fn lemma_ref_steps(refs: WireRefs, prev: int, k: int)
    requires
        0 <= k <= refs.len(),
    ensures
        ref_vals(refs, prev, k).len() == refs.len() - k,
        forall|i: int|
            0 <= i < refs.len() - k ==> ({
                let v = #[trigger] ref_vals(refs, prev, k)[i];
                &&& unzigzagged(v / 2) == refs[k + i].0 - arc_after(refs, prev, k + i)
                &&& (v % 2 == 1) == refs[k + i].1
            }),
    decreases refs.len() - k,
{
    if k < refs.len() {
        lemma_ref_steps(refs, prev, k + 1);
        let (vals, rest) = (ref_vals(refs, prev, k), ref_vals(refs, prev, k + 1));
        law_zigzag_round_trip(refs[k].0 - arc_after(refs, prev, k), 0);
        assert forall|i: int| 0 <= i < refs.len() - k implies ({
            let v = #[trigger] vals[i];
            &&& unzigzagged(v / 2) == refs[k + i].0 - arc_after(refs, prev, k + i)
            &&& (v % 2 == 1) == refs[k + i].1
        }) by {
            if i > 0 {
                assert(vals[i] == rest[i - 1]);
            }
        }
    }
}

/// References are written as steps from arc to arc, with the direction in the
/// lowest bit: the steps written so far lead from the arc before the list to the
/// arc of the reference.
pub proof fn law_references_are_written_as_steps(refs: WireRefs, prev: int, k: int)
    requires
        0 < k <= refs.len(),
    ensures
        ref_vals(refs, prev, 0).len() == refs.len(),
        prev + steps_before(ref_vals(refs, prev, 0), k) == refs[k - 1].0,
        (ref_vals(refs, prev, 0)[k - 1] % 2 == 1) == refs[k - 1].1,
    decreases k,
{
    lemma_ref_steps(refs, prev, 0);
    let vals = ref_vals(refs, prev, 0);
    let v = vals[k - 1];
    assert(unzigzagged(v / 2) == refs[k - 1].0 - arc_after(refs, prev, k - 1));
    if k > 1 {
        law_references_are_written_as_steps(refs, prev, k - 1);
    } else {
        assert(steps_before(vals, 0) == 0);
    }
}

} // verus!
