//! Reading the zones section back.
use vstd::prelude::*;

use crate::geom::fits_i64;
use crate::serialize::leb::{read_svar, read_uvar};
use crate::serialize::qvarint::unzigzag;
use crate::serialize::sections::{
    get_ref_list, get_ref_lists, get_refs, get_zone, get_zone_head, get_zones, index_after,
    signed64, unsigned64, WireRefs, WireZone,
};
use crate::serialize::tree::prepend;

verus! {

/// A zone as read: the box is xLo, yLo, xHi, yHi, and a reference is the arc's
/// index and whether it is reversed.
pub struct DecZone {
    pub tzid: u64,
    pub area: u64,
    pub aabb: [i64; 4],
    pub outer: Vec<(u64, bool)>,
    pub holes: Vec<Vec<(u64, bool)>>,
}

pub open spec fn dec_refs(refs: Seq<(u64, bool)>) -> WireRefs {
    Seq::new(refs.len(), |k: int| (refs[k].0 as int, refs[k].1))
}

pub open spec fn dec_ref_lists(lists: Seq<Vec<(u64, bool)>>) -> Seq<WireRefs> {
    Seq::new(lists.len(), |k: int| dec_refs(lists[k]@))
}

pub open spec fn dec_zone(z: DecZone) -> WireZone {
    WireZone {
        tzid: z.tzid as int,
        area: z.area as int,
        lo: (z.aabb[0] as int, z.aabb[1] as int),
        hi: (z.aabb[2] as int, z.aabb[3] as int),
        outer: dec_refs(z.outer@),
        holes: dec_ref_lists(z.holes@),
    }
}

pub open spec fn dec_zones(zones: Seq<DecZone>) -> Seq<WireZone> {
    Seq::new(zones.len(), |k: int| dec_zone(zones[k]))
}

fn as_unsigned(x: i64) -> (r: u64)
    ensures
        r == unsigned64(x as int),
{
    if x < 0 {
        (x as i128 + 0x1_0000_0000_0000_0000) as u64
    } else {
        x as u64
    }
}

/// Read a counted list of references; `prev` is left at the last arc's index.
pub fn decode_arc_refs(bytes: &[u8], pos: &mut usize, prev: &mut i64) -> (r: Option<
    Vec<(u64, bool)>,
>)
    requires
        *old(pos) <= bytes@.len(),
    ensures
        match get_ref_list(bytes@, *old(pos) as int, *old(prev) as int) {
            Some((refs, next)) => {
                &&& r matches Some(v)
                &&& dec_refs(v@) == refs
                &&& *final(pos) == next
                &&& *final(prev) == index_after(refs, *old(prev) as int)
            },
            None => r is None,
        },
        *old(pos) <= *final(pos) <= bytes@.len(),
{
    let n = match read_uvar(bytes, pos) {
        None => {
            return None;
        },
        Some(n) => n,
    };
    let mut out: Vec<(u64, bool)> = Vec::new();
    let mut left = n;
    let ghost first = *prev as int;
    let ghost from = *pos as int;
    let ghost whole = get_refs(bytes@, from, n as int, first);
    proof {
        if let Some((refs, next)) = whole {
            assert(dec_refs(out@) + refs =~= refs);
        }
    }
    while left > 0
        invariant
            0 <= left <= n,
            *old(pos) <= *pos <= bytes@.len(),
            first == *old(prev),
            get_ref_list(bytes@, *old(pos) as int, first) == whole,
            *prev == index_after(dec_refs(out@), first),
            whole == prepend(
                dec_refs(out@),
                get_refs(bytes@, *pos as int, left as int, *prev as int),
            ),
        decreases left,
    {
        let v = match read_uvar(bytes, pos) {
            None => {
                return None;
            },
            Some(v) => v,
        };
        let step = unzigzag(v / 2);
        let arc = match prev.checked_add(step) {
            None => {
                return None;
            },
            Some(arc) => arc,
        };
        let index = as_unsigned(arc);
        let rev = v % 2 == 1;
        let ghost before = out@;
        out.push((index, rev));
        *prev = arc;
        left -= 1;
        proof {
            let rest = get_refs(bytes@, *pos as int, left as int, arc as int);
            assert(dec_refs(out@).last().0 == index);
            if let Some((refs, next)) = rest {
                assert(dec_refs(before) + (seq![(index as int, rev)] + refs) =~= dec_refs(out@)
                    + refs);
            }
        }
    }
    proof {
        assert(dec_refs(out@) + Seq::<(int, bool)>::empty() =~= dec_refs(out@));
    }
    Some(out)
}

fn decode_hole_refs(bytes: &[u8], pos: &mut usize, n: u64, prev: i64) -> (r: Option<
    Vec<Vec<(u64, bool)>>,
>)
    requires
        *old(pos) <= bytes@.len(),
    ensures
        match get_ref_lists(bytes@, *old(pos) as int, n as int, prev as int) {
            Some((lists, next)) => r matches Some(v) && dec_ref_lists(v@) == lists && *final(pos)
                == next,
            None => r is None,
        },
        *old(pos) <= *final(pos) <= bytes@.len(),
{
    let mut out: Vec<Vec<(u64, bool)>> = Vec::new();
    let mut left = n;
    let mut last = prev;
    let ghost whole = get_ref_lists(bytes@, *pos as int, n as int, prev as int);
    proof {
        if let Some((lists, next)) = whole {
            assert(dec_ref_lists(out@) + lists =~= lists);
        }
    }
    while left > 0
        invariant
            0 <= left <= n,
            *old(pos) <= *pos <= bytes@.len(),
            whole == get_ref_lists(bytes@, *old(pos) as int, n as int, prev as int),
            whole == prepend(
                dec_ref_lists(out@),
                get_ref_lists(bytes@, *pos as int, left as int, last as int),
            ),
        decreases left,
    {
        let refs = match decode_arc_refs(bytes, pos, &mut last) {
            None => {
                return None;
            },
            Some(refs) => refs,
        };
        let ghost before = out@;
        let ghost one = dec_refs(refs@);
        out.push(refs);
        left -= 1;
        proof {
            let rest = get_ref_lists(bytes@, *pos as int, left as int, last as int);
            if let Some((lists, next)) = rest {
                assert(dec_ref_lists(before) + (seq![one] + lists) =~= dec_ref_lists(out@) + lists);
            }
        }
    }
    proof {
        assert(dec_ref_lists(out@) + Seq::<WireRefs>::empty() =~= dec_ref_lists(out@));
    }
    Some(out)
}

/// The high end of an extent.
fn step_up(low: i64, by: u64) -> (r: Option<i64>)
    ensures
        r == if fits_i64(low + signed64(by as int)) {
            Some((low + signed64(by as int)) as i64)
        } else {
            None
        },
{
    let size: i64 = if by > i64::MAX as u64 {
        (by as i128 - 0x1_0000_0000_0000_0000) as i64
    } else {
        by as i64
    };
    low.checked_add(size)
}

fn decode_zone_head(bytes: &[u8], pos: &mut usize) -> (r: Option<(u64, u64, [i64; 4])>)
    requires
        *old(pos) <= bytes@.len(),
    ensures
        match get_zone_head(bytes@, *old(pos) as int) {
            Some(((tzid, area, xl, yl, xh, yh), next)) => {
                &&& r matches Some((t, a, b))
                &&& t == tzid && a == area
                &&& b[0] == xl && b[1] == yl && b[2] == xh && b[3] == yh
                &&& *final(pos) == next
            },
            None => r is None,
        },
        *old(pos) <= *final(pos) <= bytes@.len(),
{
    let tzid = match read_uvar(bytes, pos) {
        None => {
            return None;
        },
        Some(v) => v,
    };
    let area = match read_uvar(bytes, pos) {
        None => {
            return None;
        },
        Some(v) => v,
    };
    let xl = match read_svar(bytes, pos) {
        None => {
            return None;
        },
        Some(v) => v,
    };
    let yl = match read_svar(bytes, pos) {
        None => {
            return None;
        },
        Some(v) => v,
    };
    let dx = match read_uvar(bytes, pos) {
        None => {
            return None;
        },
        Some(v) => v,
    };
    let dy = match read_uvar(bytes, pos) {
        None => {
            return None;
        },
        Some(v) => v,
    };
    match (step_up(xl, dx), step_up(yl, dy)) {
        (Some(xh), Some(yh)) => Some((tzid, area, [xl, yl, xh, yh])),
        _ => None,
    }
}

fn decode_zone(bytes: &[u8], pos: &mut usize) -> (r: Option<DecZone>)
    requires
        *old(pos) <= bytes@.len(),
    ensures
        match get_zone(bytes@, *old(pos) as int) {
            Some((z, next)) => r matches Some(v) && dec_zone(v) == z && *final(pos) == next,
            None => r is None,
        },
        *old(pos) <= *final(pos) <= bytes@.len(),
{
    let (tzid, area, aabb) = match decode_zone_head(bytes, pos) {
        None => {
            return None;
        },
        Some(head) => head,
    };
    let mut prev: i64 = 0;
    let outer = match decode_arc_refs(bytes, pos, &mut prev) {
        None => {
            return None;
        },
        Some(outer) => outer,
    };
    let n = match read_uvar(bytes, pos) {
        None => {
            return None;
        },
        Some(n) => n,
    };
    match decode_hole_refs(bytes, pos, n, prev) {
        None => None,
        Some(holes) => Some(DecZone { tzid, area, aabb, outer, holes }),
    }
}

/// Read `n` zones.
pub fn decode_zones(bytes: &[u8], pos: &mut usize, n: usize) -> (r: Option<Vec<DecZone>>)
    requires
        *old(pos) <= bytes@.len(),
    ensures
        match get_zones(bytes@, *old(pos) as int, n as int) {
            Some((zones, next)) => r matches Some(v) && dec_zones(v@) == zones && *final(pos)
                == next,
            None => r is None,
        },
        *old(pos) <= *final(pos) <= bytes@.len(),
{
    let mut out: Vec<DecZone> = Vec::new();
    let mut left = n;
    let ghost whole = get_zones(bytes@, *pos as int, n as int);
    proof {
        if let Some((zones, next)) = whole {
            assert(dec_zones(out@) + zones =~= zones);
        }
    }
    while left > 0
        invariant
            0 <= left <= n,
            *old(pos) <= *pos <= bytes@.len(),
            whole == get_zones(bytes@, *old(pos) as int, n as int),
            whole == prepend(dec_zones(out@), get_zones(bytes@, *pos as int, left as int)),
        decreases left,
    {
        let z = match decode_zone(bytes, pos) {
            None => {
                return None;
            },
            Some(z) => z,
        };
        let ghost before = out@;
        let ghost one = dec_zone(z);
        out.push(z);
        left -= 1;
        proof {
            let rest = get_zones(bytes@, *pos as int, left as int);
            if let Some((zones, next)) = rest {
                assert(dec_zones(before) + (seq![one] + zones) =~= dec_zones(out@) + zones);
            }
        }
    }
    proof {
        assert(dec_zones(out@) + Seq::<WireZone>::empty() =~= dec_zones(out@));
    }
    Some(out)
}

} // verus!
