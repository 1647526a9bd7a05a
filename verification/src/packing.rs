//! Packing the shared arcs: each as its origin and a stream of deltas.
use vstd::prelude::*;

use crate::arcs::deep;
use crate::artifact::Output;
use crate::domain::{arcs_bounded, in_domain};
use crate::geom::Pt;
use crate::polycodec::{
    deltas, deltas_packable, encode_polygon, in_form, law_polygon_round_trip, packed, traced,
    traceable, unpacked, Form,
};
use crate::quant::ROOT_CELL;
use crate::segment::in_box;

verus! {

/// The entry is the arc's packing.
pub open spec fn packs(entry: (Pt, Vec<u8>), arc: Seq<Pt>) -> bool {
    if arc.len() == 0 {
        entry.0 == [0i64, 0i64] && entry.1@.len() == 0
    } else {
        entry.0 == arc[0] && entry.1@ == packed(deltas(arc))
    }
}

/// The deltas within the domain can be packed.
pub proof fn lemma_domain_packable(path: Seq<Pt>)
    requires
        in_domain(path),
    ensures
        deltas_packable(path),
{
    assert forall|i: int|
        #![trigger path[i]]
        0 <= i < path.len() - 1 implies in_form(path[i + 1][0] - path[i][0], Form::Bits23)
        && in_form(path[i + 1][1] - path[i][1], Form::Bits23) by {
        assert(in_box(path[i], ROOT_CELL));
        assert(in_box(path[i + 1], ROOT_CELL));
    }
}

impl Output {
    /// Every arc's deltas can be packed.
    pub open spec fn is_packable(&self) -> bool {
        forall|k: int| 0 <= k < self.arcs@.len() ==> deltas_packable((#[trigger] self.arcs@[k])@)
    }

    /// Every arc has its packing.
    pub open spec fn is_packed(&self) -> bool {
        &&& self.arc_packed@.len() == self.arcs@.len()
        &&& forall|k: int|
            0 <= k < self.arcs@.len() ==> packs(#[trigger] self.arc_packed@[k], self.arcs@[k]@)
    }

    /// Pack every shared arc into origin + delta stream (the serializers add
    /// base64 or store raw as needed).
    pub fn pack(&mut self)
        requires
            old(self).is_packable(),
        ensures
            final(self).is_packed(),
            final(self).arena == old(self).arena,
            final(self).root == old(self).root,
            final(self).zones == old(self).zones,
            final(self).tz == old(self).tz,
            final(self).arcs == old(self).arcs,
    {
        let mut packings: Vec<(Pt, Vec<u8>)> = Vec::with_capacity(self.arcs.len());
        let mut k: usize = 0;
        while k < self.arcs.len()
            invariant
                0 <= k <= self.arcs@.len(),
                packings@.len() == k,
                self.is_packable(),
                *self == *old(self),
                forall|j: int| 0 <= j < k ==> packs(#[trigger] packings@[j], self.arcs@[j]@),
            decreases self.arcs.len() - k,
        {
            proof {
                assert(deltas_packable(self.arcs@[k as int]@));
            }
            let entry = encode_polygon(self.arcs[k].as_slice());
            packings.push(entry);
            k += 1;
        }
        self.arc_packed = packings;
    }
}

/// Arcs in the domain can be packed.
pub proof fn law_bounded_arcs_are_packable(out: Output, limit: int)
    requires
        arcs_bounded(deep(out.arcs@), limit),
    ensures
        out.is_packable(),
{
    assert forall|k: int| 0 <= k < out.arcs@.len() implies deltas_packable(
        (#[trigger] out.arcs@[k])@,
    ) by {
        assert(deep(out.arcs@)[k] == out.arcs@[k]@);
        lemma_domain_packable(out.arcs@[k]@);
    }
}

/// Unpacking a packed arc gives its vertices back.
pub proof fn law_packed_arc_round_trip(out: Output, k: int)
    requires
        out.is_packable(),
        out.is_packed(),
        0 <= k < out.arcs@.len(),
        out.arcs@[k]@.len() > 0,
    ensures
        ({
            let (origin, bytes) = out.arc_packed@[k];
            &&& unpacked(bytes@, 0) matches Some(vectors)
            &&& traceable(origin, vectors)
            &&& traced(origin, vectors) == out.arcs@[k]@
        }),
{
    assert(deltas_packable(out.arcs@[k]@));
    assert(packs(out.arc_packed@[k], out.arcs@[k]@));
    law_polygon_round_trip(out.arcs@[k]@);
}

} // verus!
