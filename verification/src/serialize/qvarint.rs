//! The `q` variable-length integer code, shared by the `quad` and `binary`
//! serializers.
//!
//! Three forms, selected by the top bits of the first byte; the encoded quantity
//! `q` relates to the raw field `a` as:
//!
//! ```text
//!   A  0aaaaaaa                            q = a           ->   0 ..   127   (1 byte)
//!   B  10aaaaaa aaaaaaaa                   q = a + 128     -> 128 .. 16511   (2 bytes)
//!   C  11aaaaaa aaaaaaaa aaaaaaaa          q = 2a + 16514  -> even, 16514..  (3 bytes)
//! ```
//!
//! `q` is exact below 16512; larger values must be even (round up with
//! `representable`).  The maximum encodable `q` is [`Q_MAX`].
use vstd::prelude::*;

use crate::serialize::stream::{holds_at, lemma_holds_byte};

verus! {

/// Largest `q` the 3-byte C form can represent.
pub const Q_MAX: u64 = 8405120;

/// The value has an exact code.
pub open spec fn is_q(q: int) -> bool {
    0 <= q <= 16511 || (16514 <= q <= Q_MAX && q % 2 == 0)
}

/// The smallest value of an exact form that is not below `n`, were the C form
/// unlimited.
pub open spec fn q_at_least(n: int) -> int {
    if n <= 16511 {
        n
    } else if n <= 16514 {
        16514
    } else {
        n + n % 2
    }
}

/// The length of a code.
pub open spec fn q_len(q: int) -> int {
    if q <= 127 {
        1
    } else if q <= 16511 {
        2
    } else {
        3
    }
}

/// The code of a value; a value without one has three bytes in its place.
pub open spec fn q_bytes(q: int) -> Seq<u8> {
    if !is_q(q) {
        if q < 0 {
            seq![0u8]
        } else {
            seq![0xC0u8, 0u8, 0u8]
        }
    } else if q <= 127 {
        seq![q as u8]
    } else if q <= 16511 {
        let a = q - 128;
        seq![(0x80 + a / 256) as u8, (a % 256) as u8]
    } else {
        let a = (q - 16514) / 2;
        seq![(0xC0 + a / 65536) as u8, (a / 256 % 256) as u8, (a % 256) as u8]
    }
}

/// The value at a position and where its code ends; `None` if it is cut short.
pub open spec fn get_q(bytes: Seq<u8>, pos: int) -> Option<(int, int)> {
    if pos < 0 || pos >= bytes.len() {
        None
    } else if bytes[pos] < 0x80 {
        Some((bytes[pos] as int, pos + 1))
    } else if bytes[pos] < 0xC0 {
        if pos + 2 > bytes.len() {
            None
        } else {
            Some(((bytes[pos] - 0x80) * 256 + bytes[pos + 1] + 128, pos + 2))
        }
    } else if pos + 3 > bytes.len() {
        None
    } else {
        Some(
            (
                2 * ((bytes[pos] - 0xC0) * 65536 + bytes[pos + 1] * 256 + bytes[pos + 2]) + 16514,
                pos + 3,
            ),
        )
    }
}

/// Signed values in a row by magnitude: 0, -1, 1, -2, 2, ...
pub open spec fn zigzagged(n: int) -> int {
    if n >= 0 {
        2 * n
    } else {
        -2 * n - 1
    }
}

/// The signed value at a place in that row.
pub open spec fn unzigzagged(z: int) -> int {
    if z % 2 == 0 {
        z / 2
    } else {
        -(z / 2) - 1
    }
}

/// Smallest representable `q` >= n (identity below 16512; rounds up to the next
/// even value in the form-C range).
pub fn representable(n: u64) -> (r: u64)
    requires
        n < u64::MAX,
    ensures
        r == q_at_least(n as int),
{
    if n <= 16511 {
        n
    } else if n <= 16514 {
        16514
    } else {
        n + n % 2
    }
}

/// Append the code of a value.
pub fn write_q(buf: &mut Vec<u8>, q: u64)
    requires
        is_q(q as int),
    ensures
        final(buf)@ == old(buf)@ + q_bytes(q as int),
{
    put_q(buf, q);
}

/// Append the code of a value, or three bytes in its place; whether it has a
/// code.
pub fn put_q(buf: &mut Vec<u8>, q: u64) -> (r: bool)
    ensures
        final(buf)@ == old(buf)@ + q_bytes(q as int),
        r == is_q(q as int),
{
    let exact = q <= 16511 || (q >= 16514 && q <= Q_MAX && q % 2 == 0);
    if !exact {
        buf.push(0xC0);
        buf.push(0);
        buf.push(0);
    } else if q <= 127 {
        buf.push(q as u8);
    } else if q <= 16511 {
        let a = q - 128;
        buf.push(0x80 + (a / 256) as u8);
        buf.push((a % 256) as u8);
    } else {
        let a = (q - 16514) / 2;
        buf.push(0xC0 + (a / 65536) as u8);
        buf.push((a / 256 % 256) as u8);
        buf.push((a % 256) as u8);
    }
    proof {
        assert(buf@ =~= old(buf)@ + q_bytes(q as int));
    }
    exact
}

/// Read the value at a position and step over it.
pub fn read_q(bytes: &[u8], pos: &mut usize) -> (r: u64)
    requires
        get_q(bytes@, *old(pos) as int) is Some,
    ensures
        get_q(bytes@, *old(pos) as int) == Some((r as int, *final(pos) as int)),
{
    let b0 = bytes[*pos] as u64;
    if b0 < 0x80 {
        *pos = *pos + 1;
        b0
    } else if b0 < 0xC0 {
        let a = (b0 - 0x80) * 256 + bytes[*pos + 1] as u64;
        *pos = *pos + 2;
        a + 128
    } else {
        let a = (b0 - 0xC0) * 65536 + bytes[*pos + 1] as u64 * 256 + bytes[*pos + 2] as u64;
        *pos = *pos + 3;
        2 * a + 16514
    }
}

/// Read the value at a position and step over it, if it is all there.
pub fn try_read_q(bytes: &[u8], pos: &mut usize) -> (r: Option<u64>)
    requires
        *old(pos) <= bytes@.len(),
    ensures
        match get_q(bytes@, *old(pos) as int) {
            Some((v, next)) => r == Some(v as u64) && v <= u64::MAX && *final(pos) == next,
            None => r is None,
        },
        *final(pos) <= bytes@.len(),
        *old(pos) <= *final(pos),
        r matches Some(v) ==> v <= Q_MAX,
{
    let left = bytes.len() - *pos;
    if left == 0 || (bytes[*pos] >= 0x80 && left < 2) || (bytes[*pos] >= 0xC0 && left < 3) {
        return None;
    }
    Some(read_q(bytes, pos))
}

/// ZigZag-map a signed value to an unsigned one (small magnitudes stay small),
/// so the varints can carry negatives (e.g. winding numbers).
pub fn zigzag(n: i64) -> (r: u64)
    ensures
        r == zigzagged(n as int),
{
    if n >= 0 {
        2 * (n as u64)
    } else {
        2 * ((-(n + 1)) as u64) + 1
    }
}

/// The signed value that was mapped.
pub fn unzigzag(z: u64) -> (r: i64)
    ensures
        r == unzigzagged(z as int),
{
    if z % 2 == 0 {
        (z / 2) as i64
    } else {
        -((z / 2) as i64) - 1
    }
}

/// Reading a code gives the value back, wherever it stands.
pub proof fn law_q_round_trip(bytes: Seq<u8>, pos: int, q: int)
    requires
        is_q(q),
        holds_at(bytes, pos, q_bytes(q)),
    ensures
        get_q(bytes, pos) == Some((q, pos + q_bytes(q).len())),
        q_bytes(q).len() == q_len(q),
{
    lemma_holds_byte(bytes, pos, q_bytes(q), 0);
    if q > 127 {
        lemma_holds_byte(bytes, pos, q_bytes(q), 1);
        if q > 16511 {
            lemma_holds_byte(bytes, pos, q_bytes(q), 2);
        }
    }
}

/// `representable` gives the smallest value of an exact form that is not below
/// its argument.
pub proof fn law_representable_is_smallest(n: int, q: int)
    requires
        0 <= n,
    ensures
        q_at_least(n) >= n,
        q_at_least(n) <= Q_MAX ==> is_q(q_at_least(n)),
        is_q(q) && q >= n ==> q_at_least(n) <= q,
{
}

/// Undoing the map gives the value back, and the other way round.
pub proof fn law_zigzag_round_trip(n: int, z: int)
    ensures
        unzigzagged(zigzagged(n)) == n,
        zigzagged(n) >= 0,
        z >= 0 ==> zigzagged(unzigzagged(z)) == z,
{
}

/// Numbers nearer to zero get lower codes; of a number and its opposite the
/// negative one does.
pub proof fn law_zigzag_order(n: int, m: int)
    requires
        n * n < m * m || (n == -m && n < 0),
    ensures
        zigzagged(n) < zigzagged(m),
{
    let a = if n < 0 {
        -n
    } else {
        n
    };
    let b = if m < 0 {
        -m
    } else {
        m
    };
    assert(n * n == a * a) by (nonlinear_arith)
        requires
            a == n || a == -n,
    ;
    assert(m * m == b * b) by (nonlinear_arith)
        requires
            b == m || b == -m,
    ;
    if a > b {
        assert(a * a > b * b) by (nonlinear_arith)
            requires
                a > b,
                b >= 0,
        ;
    }
}

/// A greater value never has a shorter code, nor one with a lower first byte, nor
/// the same one.
pub proof fn law_codes_grow_with_values(q: int, r: int)
    requires
        is_q(q),
        is_q(r),
        q < r,
    ensures
        q_bytes(q).len() == q_len(q),
        q_bytes(q).len() <= q_bytes(r).len(),
        q_bytes(q)[0] <= q_bytes(r)[0],
        q_len(q) == q_len(r) ==> q_bytes(q) != q_bytes(r),
{
    let (a, b) = (q_bytes(q), q_bytes(r));
    assert(a.subrange(0, a.len() as int) =~= a);
    assert(b.subrange(0, b.len() as int) =~= b);
    law_q_round_trip(a, 0, q);
    law_q_round_trip(b, 0, r);
}

} // verus!
