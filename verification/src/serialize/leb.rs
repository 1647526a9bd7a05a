//! LEB128 variable-length integers: exact for any magnitude, one byte for values
//! below 128.
use vstd::prelude::*;

use crate::serialize::qvarint::{unzigzag, unzigzagged, zigzag, zigzagged};
use crate::serialize::stream::{holds_at, lemma_holds_byte, lemma_holds_two};

verus! {

/// The code of a value: groups of seven bits, the lowest first, each but the
/// last with its top bit set.
pub open spec fn uvar_bytes(v: int) -> Seq<u8>
    decreases v,
{
    if v < 128 {
        seq![v as u8]
    } else {
        seq![(128 + v % 128) as u8] + uvar_bytes(v / 128)
    }
}

/// The value of at most `groups` groups and where they end.
pub open spec fn get_groups(bytes: Seq<u8>, pos: int, groups: int) -> Option<(int, int)>
    decreases groups,
{
    if groups <= 0 || pos < 0 || pos >= bytes.len() {
        None
    } else if bytes[pos] < 128 {
        Some((bytes[pos] as int, pos + 1))
    } else {
        match get_groups(bytes, pos + 1, groups - 1) {
            None => None,
            Some((high, p)) => Some((bytes[pos] - 128 + 128 * high, p)),
        }
    }
}

/// The value at a position and where its code ends; `None` if it is cut short
/// or has more than ten groups.  Of the last of ten groups only the lowest bit
/// counts: the value has 64 bits.
pub open spec fn get_uvar(bytes: Seq<u8>, pos: int) -> Option<(int, int)> {
    match get_groups(bytes, pos, 10) {
        None => None,
        Some((v, p)) => Some((v % 0x1_0000_0000_0000_0000, p)),
    }
}

/// The signed value at a position.
pub open spec fn get_svar(bytes: Seq<u8>, pos: int) -> Option<(int, int)> {
    match get_uvar(bytes, pos) {
        None => None,
        Some((z, p)) => Some((unzigzagged(z), p)),
    }
}

/// Append a value.
pub fn write_uvar(buf: &mut Vec<u8>, v: u64)
    ensures
        final(buf)@ == old(buf)@ + uvar_bytes(v as int),
{
    let mut rest = v;
    let ghost start = buf@;
    proof {
        assert(start + uvar_bytes(v as int) == buf@ + uvar_bytes(rest as int));
    }
    while rest >= 128
        invariant
            start == old(buf)@,
            start + uvar_bytes(v as int) == buf@ + uvar_bytes(rest as int),
        decreases rest,
    {
        let ghost before = buf@;
        let group = 128 + (rest % 128) as u8;
        buf.push(group);
        proof {
            assert(before + (seq![group] + uvar_bytes(rest as int / 128)) =~= buf@ + uvar_bytes(
                rest as int / 128,
            ));
        }
        rest = rest / 128;
    }
    let ghost before = buf@;
    buf.push(rest as u8);
    proof {
        assert(buf@ =~= before + uvar_bytes(rest as int));
    }
}

/// Append a signed value.
pub fn write_svar(buf: &mut Vec<u8>, v: i64)
    ensures
        final(buf)@ == old(buf)@ + uvar_bytes(zigzagged(v as int)),
{
    write_uvar(buf, zigzag(v));
}

fn read_groups(bytes: &[u8], pos: &mut usize, groups: u32) -> (r: Option<u128>)
    requires
        *old(pos) <= bytes@.len(),
        groups <= 10,
    ensures
        match get_groups(bytes@, *old(pos) as int, groups as int) {
            Some((v, p)) => r matches Some(x) && x == v && *final(pos) == p,
            None => r is None,
        },
        *old(pos) <= *final(pos) <= bytes@.len(),
        r matches Some(x) ==> x < pow128(groups as int),
    decreases groups,
{
    if groups == 0 || *pos >= bytes.len() {
        return None;
    }
    proof {
        reveal_with_fuel(pow128, 11);
        lemma_pow128(groups as int - 1);
    }
    let b = bytes[*pos];
    *pos = *pos + 1;
    if b < 128 {
        return Some(b as u128);
    }
    match read_groups(bytes, pos, groups - 1) {
        None => None,
        Some(high) => Some((b - 128) as u128 + 128 * high),
    }
}

spec fn pow128(n: int) -> int
    decreases n,
{
    if n <= 0 {
        1
    } else {
        128 * pow128(n - 1)
    }
}

proof fn lemma_pow128(n: int)
    requires
        n <= 10,
    ensures
        1 <= pow128(n) <= 0x40_0000_0000_0000_0000,
{
    reveal_with_fuel(pow128, 11);
}

/// Read the value at a position and step over it, if it is all there.
pub fn read_uvar(bytes: &[u8], pos: &mut usize) -> (r: Option<u64>)
    requires
        *old(pos) <= bytes@.len(),
    ensures
        match get_uvar(bytes@, *old(pos) as int) {
            Some((v, p)) => r matches Some(x) && x == v && *final(pos) == p,
            None => r is None,
        },
        *old(pos) <= *final(pos) <= bytes@.len(),
{
    match read_groups(bytes, pos, 10) {
        None => None,
        Some(v) => Some((v % 0x1_0000_0000_0000_0000) as u64),
    }
}

/// Read the signed value at a position and step over it, if it is all there.
pub fn read_svar(bytes: &[u8], pos: &mut usize) -> (r: Option<i64>)
    requires
        *old(pos) <= bytes@.len(),
    ensures
        match get_svar(bytes@, *old(pos) as int) {
            Some((v, p)) => r matches Some(x) && x == v && *final(pos) == p,
            None => r is None,
        },
        *old(pos) <= *final(pos) <= bytes@.len(),
{
    match read_uvar(bytes, pos) {
        None => None,
        Some(z) => Some(unzigzag(z)),
    }
}

proof fn lemma_groups(bytes: Seq<u8>, pos: int, v: int, groups: int)
    requires
        0 <= v < pow128(groups),
        1 <= groups,
        holds_at(bytes, pos, uvar_bytes(v)),
    ensures
        get_groups(bytes, pos, groups) == Some((v, pos + uvar_bytes(v).len())),
    decreases groups,
{
    lemma_holds_byte(bytes, pos, uvar_bytes(v), 0);
    if v >= 128 {
        let head = seq![(128 + v % 128) as u8];
        lemma_holds_two(bytes, pos, head, uvar_bytes(v / 128));
        assert(groups > 1) by {
            if groups == 1 {
                assert(pow128(0) == 1);
            }
        }
        lemma_groups(bytes, pos + 1, v / 128, groups - 1);
    }
}

/// Reading a code gives the value back, wherever it stands.
pub proof fn law_uvar_round_trip(bytes: Seq<u8>, pos: int, v: int)
    requires
        0 <= v <= u64::MAX,
        holds_at(bytes, pos, uvar_bytes(v)),
    ensures
        get_uvar(bytes, pos) == Some((v, pos + uvar_bytes(v).len())),
{
    reveal_with_fuel(pow128, 11);
    assert(pow128(10) == 0x40_0000_0000_0000_0000);
    lemma_groups(bytes, pos, v, 10);
}

/// The codes of values in a row.
pub open spec fn uvars_bytes(vals: Seq<int>) -> Seq<u8>
    decreases vals.len(),
{
    if vals.len() == 0 {
        Seq::empty()
    } else {
        uvars_bytes(vals.drop_last()) + uvar_bytes(vals.last())
    }
}

/// Every value fits 64 bits.
pub open spec fn all_u(vals: Seq<int>) -> bool {
    forall|i: int| 0 <= i < vals.len() ==> 0 <= (#[trigger] vals[i]) <= u64::MAX
}

pub proof fn lemma_uvars_concat(a: Seq<int>, b: Seq<int>)
    ensures
        uvars_bytes(a + b) == uvars_bytes(a) + uvars_bytes(b),
    decreases b.len(),
{
    if b.len() == 0 {
        assert(a + b =~= a);
        assert(uvars_bytes(a) + uvars_bytes(b) =~= uvars_bytes(a));
    } else {
        lemma_uvars_concat(a, b.drop_last());
        assert((a + b).drop_last() =~= a + b.drop_last());
        assert((a + b).last() == b.last());
        assert(uvars_bytes(a + b) =~= uvars_bytes(a) + uvars_bytes(b));
    }
}

pub proof fn lemma_uvars_one(v: int)
    ensures
        uvars_bytes(seq![v]) == uvar_bytes(v),
{
    assert(uvars_bytes(seq![v].drop_last()) =~= Seq::<u8>::empty());
    assert(uvars_bytes(seq![v]) =~= uvar_bytes(v));
}

/// The codes of the values stand at the position, and all fit.
pub open spec fn written_at(bytes: Seq<u8>, pos: int, vals: Seq<int>) -> bool {
    holds_at(bytes, pos, uvars_bytes(vals)) && all_u(vals)
}

/// Where the codes of the values end.
pub open spec fn past(pos: int, vals: Seq<int>) -> int {
    pos + uvars_bytes(vals).len()
}

/// Two stretches of values.
pub proof fn lemma_written_two(bytes: Seq<u8>, pos: int, a: Seq<int>, b: Seq<int>)
    requires
        written_at(bytes, pos, a + b),
    ensures
        written_at(bytes, pos, a),
        written_at(bytes, past(pos, a), b),
        past(past(pos, a), b) == past(pos, a + b),
{
    lemma_uvars_concat(a, b);
    lemma_holds_two(bytes, pos, uvars_bytes(a), uvars_bytes(b));
    assert forall|i: int| 0 <= i < a.len() implies 0 <= (#[trigger] a[i]) <= u64::MAX by {
        assert((a + b)[i] == a[i]);
    }
    assert forall|i: int| 0 <= i < b.len() implies 0 <= (#[trigger] b[i]) <= u64::MAX by {
        assert((a + b)[a.len() + i] == b[i]);
    }
}

/// The next value.
pub proof fn lemma_written_next(bytes: Seq<u8>, pos: int, v: int, rest: Seq<int>) -> (p: int)
    requires
        written_at(bytes, pos, seq![v] + rest),
    ensures
        get_uvar(bytes, pos) == Some((v, p)),
        0 <= v <= u64::MAX,
        written_at(bytes, p, rest),
        past(p, rest) == past(pos, seq![v] + rest),
{
    lemma_written_two(bytes, pos, seq![v], rest);
    lemma_uvars_one(v);
    assert(0 <= seq![v][0] <= u64::MAX);
    law_uvar_round_trip(bytes, pos, v);
    pos + uvar_bytes(v).len()
}

/// A value takes as few bytes as seven bits each allow: a byte more than its
/// quotient by 128 does, and one below 128.
pub proof fn law_uvar_is_the_shortest(v: int)
    requires
        0 <= v,
    ensures
        uvar_bytes(v).len() == 1 <==> v < 128,
        v >= 128 ==> uvar_bytes(v).len() == uvar_bytes(v / 128).len() + 1,
        forall|i: int|
            0 <= i < uvar_bytes(v).len() ==> ((#[trigger] uvar_bytes(v)[i]) < 128 <==> i
                == uvar_bytes(v).len() - 1),
    decreases v,
{
    if v >= 128 {
        law_uvar_is_the_shortest(v / 128);
        let (bytes, rest) = (uvar_bytes(v), uvar_bytes(v / 128));
        assert forall|i: int| 0 <= i < bytes.len() implies ((#[trigger] bytes[i]) < 128 <==> i
            == bytes.len() - 1) by {
            if i > 0 {
                assert(bytes[i] == rest[i - 1]);
            }
        }
    }
}

} // verus!
