//! Packed polygon codec.
//!
//! A ring is stored as an explicit integer origin plus a stream of signed
//! `(dx, dy)` deltas between consecutive vertices, so no stream value ever holds
//! a full-range absolute coordinate.  Each delta is packed in the smallest of
//! four variable-width forms, discriminated by the top two bits of the first
//! byte:
//!
//! ```text
//!   11aaaaaa abbbbbbb                                     2 bytes,  7-bit pair
//!   10aaaaaa aaaaabbb bbbbbbbb                            3 bytes, 11-bit pair
//!   00aaaaaa aaaaaaaa aaaaabbb bbbbbbbb bbbbbbbb          5 bytes, 19-bit pair
//!   01aaaaaa aaaaaaaa aaaaaaaa aaabbbbb bbbbbbbb bbbbbbbb 6 bytes, 23-bit pair
//! ```
use vstd::prelude::*;
use vstd::string::{StrSliceExecFns, StringExecFns, StringSliceAdditionalSpecFns};

use crate::geom::{fits_i64, Pt};

verus! {

/// One of the wire forms, named after the bits of a component.
#[derive(Debug, Clone, Copy, PartialEq, Eq, Structural)]
pub enum Form {
    Bits7,
    Bits11,
    Bits19,
    Bits23,
}

impl Form {
    /// How many values a component can take: two to the power of its bits.
    pub open spec fn modulus(self) -> int {
        match self {
            Form::Bits7 => 128,
            Form::Bits11 => 2048,
            Form::Bits19 => 524288,
            Form::Bits23 => 8388608,
        }
    }

    /// How many bytes a packed delta takes.
    pub open spec fn bytes(self) -> int {
        match self {
            Form::Bits7 => 2,
            Form::Bits11 => 3,
            Form::Bits19 => 5,
            Form::Bits23 => 6,
        }
    }

    /// The top two bits of the first byte.
    pub open spec fn tag(self) -> int {
        match self {
            Form::Bits7 => 3,
            Form::Bits11 => 2,
            Form::Bits19 => 0,
            Form::Bits23 => 1,
        }
    }

    fn size(self) -> (r: usize)
        ensures
            r == self.bytes(),
    {
        match self {
            Form::Bits7 => 2,
            Form::Bits11 => 3,
            Form::Bits19 => 5,
            Form::Bits23 => 6,
        }
    }

    fn span(self) -> (r: i64)
        ensures
            r == self.modulus(),
    {
        match self {
            Form::Bits7 => 128,
            Form::Bits11 => 2048,
            Form::Bits19 => 524288,
            Form::Bits23 => 8388608,
        }
    }
}

/// The value lies in the two's complement range of a component.
pub open spec fn in_form(v: int, form: Form) -> bool {
    -(form.modulus() / 2) <= v < form.modulus() / 2
}

/// Both components of the delta lie in the form's range.
pub open spec fn pair_in_form(v: Pt, form: Form) -> bool {
    in_form(v[0] as int, form) && in_form(v[1] as int, form)
}

/// The smallest form that takes the delta.
pub open spec fn smallest_form(v: Pt) -> Form {
    if pair_in_form(v, Form::Bits7) {
        Form::Bits7
    } else if pair_in_form(v, Form::Bits11) {
        Form::Bits11
    } else if pair_in_form(v, Form::Bits19) {
        Form::Bits19
    } else {
        Form::Bits23
    }
}

/// Every delta fits some form.
pub open spec fn packable(vectors: Seq<Pt>) -> bool {
    forall|i: int| 0 <= i < vectors.len() ==> pair_in_form(#[trigger] vectors[i], Form::Bits23)
}

/// The bits of a packed delta as one number: the tag, then both components in
/// two's complement.
pub open spec fn delta_word(v: Pt, form: Form) -> int {
    pair_word(
        form.tag(),
        form.modulus(),
        v[0] as int % form.modulus(),
        v[1] as int % form.modulus(),
    )
}

/// A tag and two residues in a row.
pub open spec fn pair_word(tag: int, modulus: int, a: int, b: int) -> int {
    (tag * modulus + a) * modulus + b
}

/// The `n` bytes of a number, the highest first.
pub open spec fn big_endian(word: int, n: int) -> Seq<u8>
    decreases n,
{
    if n <= 0 {
        Seq::empty()
    } else {
        big_endian(word / 256, n - 1).push((word % 256) as u8)
    }
}

/// The number that bytes stand for, the highest first.
pub open spec fn big_endian_value(bytes: Seq<u8>) -> int
    decreases bytes.len(),
{
    if bytes.len() == 0 {
        0
    } else {
        big_endian_value(bytes.drop_last()) * 256 + bytes.last()
    }
}

/// A packed delta.
pub open spec fn packed_delta(v: Pt) -> Seq<u8> {
    big_endian(delta_word(v, smallest_form(v)), smallest_form(v).bytes())
}

/// Packed deltas.
pub open spec fn packed(vectors: Seq<Pt>) -> Seq<u8>
    decreases vectors.len(),
{
    if vectors.len() == 0 {
        Seq::empty()
    } else {
        packed(vectors.drop_last()) + packed_delta(vectors.last())
    }
}

/// The form that the first byte of a packed delta announces.
pub open spec fn announced_form(first: u8) -> Form {
    if first / 64 == 3 {
        Form::Bits7
    } else if first / 64 == 2 {
        Form::Bits11
    } else if first / 64 == 0 {
        Form::Bits19
    } else {
        Form::Bits23
    }
}

/// A residue read as a two's complement number.
pub open spec fn signed(raw: int, modulus: int) -> int {
    if raw >= modulus / 2 {
        raw - modulus
    } else {
        raw
    }
}

/// The delta that a packed word stands for.
pub open spec fn word_delta(word: int, modulus: int) -> Pt {
    [signed(word / modulus % modulus, modulus) as i64, signed(word % modulus, modulus) as i64]
}

/// The deltas packed from position `i` on; `None` if the last one is cut short.
pub open spec fn unpacked(bytes: Seq<u8>, i: int) -> Option<Seq<Pt>>
    decreases bytes.len() - i,
{
    if i < 0 || i >= bytes.len() {
        Some(Seq::empty())
    } else {
        let form = announced_form(bytes[i]);
        let next = i + form.bytes();
        if next > bytes.len() {
            None
        } else {
            let delta = word_delta(
                big_endian_value(bytes.subrange(i, next)),
                form.modulus(),
            );
            match unpacked(bytes, next) {
                None => None,
                Some(rest) => Some(seq![delta] + rest),
            }
        }
    }
}

/// The deltas between consecutive vertices.
pub open spec fn deltas(poly: Seq<Pt>) -> Seq<Pt> {
    Seq::new(
        if poly.len() == 0 {
            0
        } else {
            (poly.len() - 1) as nat
        },
        |i: int| [(poly[i + 1][0] - poly[i][0]) as i64, (poly[i + 1][1] - poly[i][1]) as i64],
    )
}

/// The deltas of the polygon can be computed and packed.
pub open spec fn deltas_packable(poly: Seq<Pt>) -> bool {
    forall|i: int|
        #![trigger poly[i]]
        0 <= i < poly.len() - 1 ==> in_form(poly[i + 1][0] - poly[i][0], Form::Bits23) && in_form(
            poly[i + 1][1] - poly[i][1],
            Form::Bits23,
        )
}

/// The sum of one coordinate's deltas up to the `k`-th.
pub open spec fn offset(vectors: Seq<Pt>, axis: int, k: int) -> int
    decreases k,
{
    if k <= 0 {
        0
    } else {
        offset(vectors, axis, k - 1) + vectors[k - 1][axis]
    }
}

/// The vertices reached from the origin along the deltas.
pub open spec fn traced(origin: Pt, vectors: Seq<Pt>) -> Seq<Pt> {
    Seq::new(
        vectors.len() + 1,
        |k: int|
            [
                (origin[0] + offset(vectors, 0, k)) as i64,
                (origin[1] + offset(vectors, 1, k)) as i64,
            ],
    )
}

/// Every vertex on the way can be computed.
pub open spec fn traceable(origin: Pt, vectors: Seq<Pt>) -> bool {
    forall|k: int|
        #![trigger offset(vectors, 0, k)]
        0 <= k <= vectors.len() ==> fits_i64(origin[0] + offset(vectors, 0, k)) && fits_i64(
            origin[1] + offset(vectors, 1, k),
        )
}

/// Does the value fit a component of the form?
pub fn fits_in_bits(v: i64, form: Form) -> (r: bool)
    ensures
        r == in_form(v as int, form),
{
    let limit = form.span() / 2;
    v >= -limit && v < limit
}

/// The smallest form that takes the pair.
pub fn select_form(a: i64, b: i64) -> (r: Form)
    requires
        pair_in_form([a, b], Form::Bits23),
    ensures
        r == smallest_form([a, b]),
{
    if fits_in_bits(a, Form::Bits7) && fits_in_bits(b, Form::Bits7) {
        Form::Bits7
    } else if fits_in_bits(a, Form::Bits11) && fits_in_bits(b, Form::Bits11) {
        Form::Bits11
    } else if fits_in_bits(a, Form::Bits19) && fits_in_bits(b, Form::Bits19) {
        Form::Bits19
    } else {
        Form::Bits23
    }
}

/// A residue read as a two's complement number.
pub fn sign_extend(raw: i64, modulus: i64) -> (r: i64)
    requires
        0 <= raw < modulus,
    ensures
        r == signed(raw as int, modulus as int),
{
    if raw >= modulus / 2 {
        raw - modulus
    } else {
        raw
    }
}

/// The residue of a component.
fn residue(v: i64, form: Form) -> (r: i64)
    requires
        in_form(v as int, form),
    ensures
        r == v as int % form.modulus(),
        0 <= r < form.modulus(),
{
    if v < 0 {
        v + form.span()
    } else {
        v
    }
}

proof fn lemma_words(a: int, b: int)
    ensures
        pair_word(3, 128, a, b) == 0xC000 + a * 128 + b,
        pair_word(2, 2048, a, b) == 0x80_0000 + a * 2048 + b,
        pair_word(0, 524288, a, b) == a * 524288 + b,
        pair_word(1, 8388608, a, b) == 0x4000_0000_0000 + a * 8388608 + b,
{
}

proof fn lemma_form(v: Pt)
    requires
        pair_in_form(v, Form::Bits23),
    ensures
        pair_in_form(v, smallest_form(v)),
        ({
            let form = smallest_form(v);
            let word = delta_word(v, form);
            &&& 0 <= word
            &&& form == Form::Bits7 ==> word < 0x1_0000
            &&& form == Form::Bits11 ==> word < 0x100_0000
            &&& form == Form::Bits19 ==> word < 0x100_0000_0000
            &&& form == Form::Bits23 ==> word < 0x1_0000_0000_0000
        }),
{
    let m = smallest_form(v).modulus();
    lemma_words(v[0] as int % m, v[1] as int % m);
}

/// A tag and two residues in a row.
fn pack_word(form: Form, a: i64, b: i64) -> (r: u64)
    requires
        0 <= a < form.modulus(),
        0 <= b < form.modulus(),
    ensures
        r == pair_word(form.tag(), form.modulus(), a as int, b as int),
{
    proof {
        lemma_words(a as int, b as int);
    }
    let (x, y) = (a as u64, b as u64);
    match form {
        Form::Bits7 => 0xC000 + x * 128 + y,
        Form::Bits11 => 0x80_0000 + x * 2048 + y,
        Form::Bits19 => x * 524288 + y,
        Form::Bits23 => 0x4000_0000_0000 + x * 8388608 + y,
    }
}

/// The delta that a packed word stands for.
fn unpack_word(form: Form, word: u64) -> (r: Pt)
    ensures
        r == word_delta(word as int, form.modulus()),
{
    let (a, b) = match form {
        Form::Bits7 => (sign_extend(((word / 128) % 128) as i64, 128), sign_extend(
            (word % 128) as i64,
            128,
        )),
        Form::Bits11 => (sign_extend(((word / 2048) % 2048) as i64, 2048), sign_extend(
            (word % 2048) as i64,
            2048,
        )),
        Form::Bits19 => (sign_extend(((word / 524288) % 524288) as i64, 524288), sign_extend(
            (word % 524288) as i64,
            524288,
        )),
        Form::Bits23 => (sign_extend(((word / 8388608) % 8388608) as i64, 8388608), sign_extend(
            (word % 8388608) as i64,
            8388608,
        )),
    };
    proof {
        assert([a, b] =~= word_delta(word as int, form.modulus()));
    }
    [a, b]
}

/// Append the low `n` bytes of a word, the highest first.
fn push_big_endian(buf: &mut Vec<u8>, word: u64, n: usize)
    requires
        n <= 8,
    ensures
        final(buf)@ == old(buf)@ + big_endian(word as int, n as int),
    decreases n,
{
    if n > 0 {
        push_big_endian(buf, word / 256, n - 1);
        buf.push((word % 256) as u8);
        proof {
            assert(buf@ =~= old(buf)@ + big_endian(word as int, n as int));
        }
    } else {
        proof {
            assert(buf@ =~= old(buf)@ + big_endian(word as int, n as int));
        }
    }
}

/// Encode `[dx, dy]` deltas into packed bytes.
pub fn encode_vectors(vectors: &[Pt]) -> (r: Vec<u8>)
    requires
        packable(vectors@),
    ensures
        r@ == packed(vectors@),
{
    let mut buf: Vec<u8> = Vec::new();
    let mut i: usize = 0;
    while i < vectors.len()
        invariant
            0 <= i <= vectors@.len(),
            packable(vectors@),
            buf@ == packed(vectors@.take(i as int)),
        decreases vectors.len() - i,
    {
        let v = vectors[i];
        proof {
            assert(pair_in_form(v, Form::Bits23));
            assert(v =~= [v[0], v[1]]);
            lemma_form(v);
        }
        let form = select_form(v[0], v[1]);
        let a = residue(v[0], form);
        let b = residue(v[1], form);
        push_big_endian(&mut buf, pack_word(form, a, b), form.size());
        proof {
            let longer = vectors@.take(i + 1);
            assert(longer.drop_last() =~= vectors@.take(i as int));
            assert(longer.last() == v);
        }
        i += 1;
    }
    proof {
        assert(vectors@.take(i as int) =~= vectors@);
    }
    buf
}

/// The number that `n` bytes stand for, the highest first.
fn read_big_endian(bytes: &[u8], start: usize, n: usize) -> (r: u64)
    requires
        start + n <= bytes@.len(),
        n <= 6,
    ensures
        r == big_endian_value(bytes@.subrange(start as int, start + n)),
        n == 2 ==> r < 0x1_0000,
        n == 3 ==> r < 0x100_0000,
        n == 5 ==> r < 0x100_0000_0000,
        n == 6 ==> r < 0x1_0000_0000_0000,
        n == 0 ==> r == 0,
        n == 1 ==> r < 0x100,
        n == 4 ==> r < 0x1_0000_0000,
    decreases n,
{
    if n == 0 {
        0
    } else {
        let high = read_big_endian(bytes, start, n - 1);
        proof {
            let all = bytes@.subrange(start as int, start + n);
            assert(all.drop_last() =~= bytes@.subrange(start as int, start + n - 1));
            assert(all.last() == bytes@[start + n - 1]);
            assert(bytes.len() == bytes@.len());
        }
        high * 256 + bytes[start + (n - 1)] as u64
    }
}

/// Decode packed bytes back into `[dx, dy]` deltas.
pub fn decode_vectors(bytes: &[u8]) -> (r: Vec<Pt>)
    requires
        unpacked(bytes@, 0) is Some,
    ensures
        r@ == unpacked(bytes@, 0)->0,
{
    let mut out: Vec<Pt> = Vec::new();
    let mut i: usize = 0;
    proof {
        assert(out@ + unpacked(bytes@, 0)->0 =~= unpacked(bytes@, 0)->0);
    }
    while i < bytes.len()
        invariant
            0 <= i <= bytes@.len(),
            unpacked(bytes@, i as int) is Some,
            out@ + unpacked(bytes@, i as int)->0 == unpacked(bytes@, 0)->0,
        decreases bytes.len() - i,
    {
        let tag = bytes[i] / 64;
        let form = if tag == 3 {
            Form::Bits7
        } else if tag == 2 {
            Form::Bits11
        } else if tag == 0 {
            Form::Bits19
        } else {
            Form::Bits23
        };
        proof {
            assert(form == announced_form(bytes@[i as int]));
            assert(i + form.bytes() <= bytes@.len());
        }
        let size = form.size();
        let word = read_big_endian(bytes, i, size);
        let delta = unpack_word(form, word);
        let ghost before = out@;
        let ghost rest = unpacked(bytes@, i + form.bytes())->0;
        out.push(delta);
        i += size;
        proof {
            assert(out@ + rest =~= before + (seq![delta] + rest));
        }
    }
    proof {
        assert(unpacked(bytes@, i as int)->0 =~= Seq::empty());
        assert(out@ =~= unpacked(bytes@, 0)->0);
    }
    out
}

/// Encode a polygon into `(origin, packed_bytes)`.
pub fn encode_polygon(poly: &[Pt]) -> (r: (Pt, Vec<u8>))
    requires
        deltas_packable(poly@),
    ensures
        poly@.len() == 0 ==> r.0 == [0i64, 0i64] && r.1@.len() == 0,
        poly@.len() > 0 ==> r.0 == poly@[0] && r.1@ == packed(deltas(poly@)),
{
    if poly.len() == 0 {
        return ([0, 0], Vec::new());
    }
    let origin = poly[0];
    let mut vectors: Vec<Pt> = Vec::with_capacity(poly.len() - 1);
    let mut i: usize = 1;
    while i < poly.len()
        invariant
            1 <= i <= poly@.len(),
            deltas_packable(poly@),
            vectors@ == deltas(poly@).take(i - 1),
        decreases poly.len() - i,
    {
        proof {
            let p = poly@[i - 1];
            assert(in_form(poly@[i as int][0] - p[0], Form::Bits23) && in_form(
                poly@[i as int][1] - p[1],
                Form::Bits23,
            ));
        }
        let v = [poly[i][0] - poly[i - 1][0], poly[i][1] - poly[i - 1][1]];
        vectors.push(v);
        proof {
            assert(v =~= deltas(poly@)[i - 1]);
            assert(deltas(poly@).take(i as int) =~= deltas(poly@).take(i - 1).push(v));
        }
        i += 1;
    }
    proof {
        assert(vectors@ =~= deltas(poly@));
        lemma_deltas_packable(poly@);
    }
    let bytes = encode_vectors(vectors.as_slice());
    (origin, bytes)
}

proof fn lemma_deltas_packable(poly: Seq<Pt>)
    requires
        deltas_packable(poly),
    ensures
        packable(deltas(poly)),
{
    let d = deltas(poly);
    assert forall|i: int| 0 <= i < d.len() implies pair_in_form(#[trigger] d[i], Form::Bits23) by {
        let p = poly[i];
        assert(in_form(poly[i + 1][0] - p[0], Form::Bits23));
    }
}

/// Rebuild absolute vertices from an origin and a packed delta stream.
pub fn decode_polygon(origin: Pt, bytes: &[u8]) -> (r: Vec<Pt>)
    requires
        unpacked(bytes@, 0) is Some,
        traceable(origin, unpacked(bytes@, 0)->0),
    ensures
        r@ == traced(origin, unpacked(bytes@, 0)->0),
{
    let vectors = decode_vectors(bytes);
    let ghost all = traced(origin, vectors@);
    let mut poly: Vec<Pt> = Vec::new();
    let mut x = origin[0];
    let mut y = origin[1];
    poly.push([x, y]);
    let mut i: usize = 0;
    proof {
        assert([x, y] =~= all[0]);
        assert(poly@ =~= all.take(1));
    }
    while i < vectors.len()
        invariant
            0 <= i <= vectors@.len(),
            traceable(origin, vectors@),
            all == traced(origin, vectors@),
            x == origin[0] + offset(vectors@, 0, i as int),
            y == origin[1] + offset(vectors@, 1, i as int),
            poly@ == all.take(i + 1),
        decreases vectors.len() - i,
    {
        let v = vectors[i];
        proof {
            let ox = offset(vectors@, 0, i + 1);
            let oy = offset(vectors@, 1, i + 1);
            assert(fits_i64(origin[0] + ox) && fits_i64(origin[1] + oy));
        }
        x = x + v[0];
        y = y + v[1];
        poly.push([x, y]);
        proof {
            assert([x, y] =~= all[i + 1]);
            assert(all.take(i + 2) =~= all.take(i + 1).push([x, y]));
        }
        i += 1;
    }
    proof {
        assert(all.take(i + 1) =~= all);
    }
    poly
}

proof fn lemma_big_endian(word: int, n: int)
    requires
        0 <= word,
        n == 2 ==> word < 0x1_0000,
        n == 3 ==> word < 0x100_0000,
        n == 5 ==> word < 0x100_0000_0000,
        n == 6 ==> word < 0x1_0000_0000_0000,
        n == 2 || n == 3 || n == 5 || n == 6,
    ensures
        big_endian(word, n).len() == n,
        big_endian_value(big_endian(word, n)) == word,
        n == 2 ==> big_endian(word, n)[0] == word / 0x100,
        n == 3 ==> big_endian(word, n)[0] == word / 0x1_0000,
        n == 5 ==> big_endian(word, n)[0] == word / 0x1_0000_0000,
        n == 6 ==> big_endian(word, n)[0] == word / 0x100_0000_0000,
{
    lemma_big_endian_value(word, n);
    let w1 = word / 256;
    let w2 = w1 / 256;
    let w3 = w2 / 256;
    let w4 = w3 / 256;
    let w5 = w4 / 256;
    reveal_with_fuel(big_endian, 7);
    if n == 2 {
        assert(w1 == word / 0x100);
    } else if n == 3 {
        assert(w2 == word / 0x1_0000);
    } else if n == 5 {
        assert(w4 == word / 0x1_0000_0000);
    } else {
        assert(w5 == word / 0x100_0000_0000);
    }
}

spec fn pow256(n: int) -> int
    decreases n,
{
    if n <= 0 {
        1
    } else {
        256 * pow256(n - 1)
    }
}

proof fn lemma_big_endian_value(word: int, n: int)
    requires
        0 <= word,
        0 <= n,
    ensures
        big_endian(word, n).len() == n,
        word < pow256(n) ==> big_endian_value(big_endian(word, n)) == word,
        n == 2 ==> pow256(n) == 0x1_0000,
        n == 3 ==> pow256(n) == 0x100_0000,
        n == 5 ==> pow256(n) == 0x100_0000_0000,
        n == 6 ==> pow256(n) == 0x1_0000_0000_0000,
    decreases n,
{
    reveal_with_fuel(pow256, 7);
    if n > 0 {
        lemma_big_endian_value(word / 256, n - 1);
        let all = big_endian(word, n);
        assert(all.drop_last() =~= big_endian(word / 256, n - 1));
    }
}

/// A packed delta announces its form and stands for the delta.
proof fn lemma_packed_delta(v: Pt)
    requires
        pair_in_form(v, Form::Bits23),
    ensures
        ({
            let form = smallest_form(v);
            let bytes = packed_delta(v);
            &&& bytes.len() == form.bytes()
            &&& announced_form(bytes[0]) == form
            &&& word_delta(big_endian_value(bytes), form.modulus()) == v
        }),
{
    let form = smallest_form(v);
    let word = delta_word(v, form);
    let bytes = packed_delta(v);
    lemma_form(v);
    lemma_big_endian(word, form.bytes());
    let m = form.modulus();
    let (a, b) = (v[0] as int % m, v[1] as int % m);
    lemma_words(a, b);
    lemma_residue(v[0] as int, form);
    lemma_residue(v[1] as int, form);
    match form {
        Form::Bits7 => lemma_word7(a, b),
        Form::Bits11 => lemma_word11(a, b),
        Form::Bits19 => lemma_word19(a, b),
        Form::Bits23 => lemma_word23(a, b),
    }
    assert(word_delta(word, m) =~= v);
}

proof fn lemma_residue(v: int, form: Form)
    requires
        in_form(v, form),
    ensures
        0 <= v % form.modulus() < form.modulus(),
        signed(v % form.modulus(), form.modulus()) == v,
{
    match form {
        Form::Bits7 => {
            assert(signed(v % 128, 128) == v);
        },
        Form::Bits11 => {
            assert(signed(v % 2048, 2048) == v);
        },
        Form::Bits19 => {
            assert(signed(v % 524288, 524288) == v);
        },
        Form::Bits23 => {
            assert(signed(v % 8388608, 8388608) == v);
        },
    }
}

proof fn lemma_word7(a: int, b: int)
    requires
        0 <= a < 128,
        0 <= b < 128,
    ensures
        ({
            let word = 0xC000 + a * 128 + b;
            &&& word / 128 % 128 == a
            &&& word % 128 == b
            &&& word / 0x100 / 64 == 3
        }),
{
}

proof fn lemma_word11(a: int, b: int)
    requires
        0 <= a < 2048,
        0 <= b < 2048,
    ensures
        ({
            let word = 0x80_0000 + a * 2048 + b;
            &&& word / 2048 % 2048 == a
            &&& word % 2048 == b
            &&& word / 0x1_0000 / 64 == 2
        }),
{
}

proof fn lemma_word19(a: int, b: int)
    requires
        0 <= a < 524288,
        0 <= b < 524288,
    ensures
        ({
            let word = a * 524288 + b;
            &&& word / 524288 % 524288 == a
            &&& word % 524288 == b
            &&& word / 0x1_0000_0000 / 64 == 0
        }),
{
}

proof fn lemma_word23(a: int, b: int)
    requires
        0 <= a < 8388608,
        0 <= b < 8388608,
    ensures
        ({
            let word = 0x4000_0000_0000 + a * 8388608 + b;
            &&& word / 8388608 % 8388608 == a
            &&& word % 8388608 == b
            &&& word / 0x100_0000_0000 / 64 == 1
        }),
{
}

/// Reading one packed delta at the front.
proof fn lemma_unpacked_front(v: Pt, rest: Seq<u8>, before: Seq<u8>)
    requires
        pair_in_form(v, Form::Bits23),
    ensures
        ({
            let bytes = before + packed_delta(v) + rest;
            let next = before.len() + smallest_form(v).bytes();
            unpacked(bytes, before.len() as int) == match unpacked(bytes, next as int) {
                None => None::<Seq<Pt>>,
                Some(tail) => Some(seq![v] + tail),
            }
        }),
{
    lemma_packed_delta(v);
    let form = smallest_form(v);
    let bytes = before + packed_delta(v) + rest;
    let i = before.len() as int;
    assert(bytes[i] == packed_delta(v)[0]);
    assert(bytes.subrange(i, i + form.bytes()) =~= packed_delta(v));
}

/// Unpacking the bytes from where the first `k` deltas end gives the others.
proof fn lemma_unpacked_rest(vectors: Seq<Pt>, k: int)
    requires
        packable(vectors),
        0 <= k <= vectors.len(),
    ensures
        unpacked(packed(vectors), packed(vectors.take(k)).len() as int) == Some(vectors.skip(k)),
    decreases vectors.len() - k,
{
    if k == vectors.len() {
        assert(vectors.take(k) =~= vectors);
        assert(vectors.skip(k) =~= Seq::empty());
    } else {
        lemma_unpacked_rest(vectors, k + 1);
        let v = vectors[k];
        assert(pair_in_form(v, Form::Bits23));
        let before = packed(vectors.take(k));
        let longer = vectors.take(k + 1);
        assert(longer.drop_last() =~= vectors.take(k));
        assert(longer.last() == v);
        lemma_packed_prefix(vectors, k + 1);
        let tail = packed(vectors).skip(packed(longer).len() as int);
        assert(packed(vectors) =~= packed(longer) + tail);
        assert(packed(vectors) =~= before + packed_delta(v) + tail);
        lemma_unpacked_front(v, tail, before);
        lemma_packed_delta(v);
        assert(seq![v] + vectors.skip(k + 1) =~= vectors.skip(k));
    }
}

proof fn lemma_packed_prefix(vectors: Seq<Pt>, k: int)
    requires
        0 <= k <= vectors.len(),
    ensures
        packed(vectors.take(k)).len() <= packed(vectors).len(),
        packed(vectors).take(packed(vectors.take(k)).len() as int) == packed(vectors.take(k)),
    decreases vectors.len() - k,
{
    if k == vectors.len() {
        assert(vectors.take(k) =~= vectors);
        assert(packed(vectors).take(packed(vectors).len() as int) =~= packed(vectors));
    } else {
        lemma_packed_prefix(vectors, k + 1);
        let longer = vectors.take(k + 1);
        assert(longer.drop_last() =~= vectors.take(k));
        let (a, b) = (packed(vectors.take(k)), packed(longer));
        assert(b.take(a.len() as int) =~= a);
        assert(packed(vectors).take(a.len() as int) =~= packed(vectors).take(
            b.len() as int,
        ).take(a.len() as int));
    }
}

/// Decoding packed deltas gives them back.
pub proof fn law_vectors_round_trip(vectors: Seq<Pt>)
    requires
        packable(vectors),
    ensures
        unpacked(packed(vectors), 0) == Some(vectors),
{
    lemma_unpacked_rest(vectors, 0);
    assert(vectors.take(0) =~= Seq::empty());
    assert(vectors.skip(0) =~= vectors);
}

proof fn lemma_offset(poly: Seq<Pt>, axis: int, k: int)
    requires
        deltas_packable(poly),
        0 <= k < poly.len(),
        axis == 0 || axis == 1,
    ensures
        poly[0][axis] + offset(deltas(poly), axis, k) == poly[k][axis],
    decreases k,
{
    if k > 0 {
        lemma_offset(poly, axis, k - 1);
        let p = poly[k - 1];
        assert(in_form(poly[k - 1 + 1][0] - p[0], Form::Bits23));
    }
}

/// Decoding an encoded polygon gives it back.
pub proof fn law_polygon_round_trip(poly: Seq<Pt>)
    requires
        poly.len() > 0,
        deltas_packable(poly),
    ensures
        unpacked(packed(deltas(poly)), 0) == Some(deltas(poly)),
        traceable(poly[0], deltas(poly)),
        traced(poly[0], deltas(poly)) == poly,
{
    lemma_deltas_packable(poly);
    law_vectors_round_trip(deltas(poly));
    let d = deltas(poly);
    assert forall|k: int|
        #![trigger offset(d, 0, k)]
        0 <= k <= d.len() implies fits_i64(poly[0][0] + offset(d, 0, k)) && fits_i64(
        poly[0][1] + offset(d, 1, k),
    ) by {
        lemma_offset(poly, 0, k);
        lemma_offset(poly, 1, k);
    }
    let t = traced(poly[0], d);
    assert forall|k: int| 0 <= k < poly.len() implies t[k] == poly[k] by {
        lemma_offset(poly, 0, k);
        lemma_offset(poly, 1, k);
        assert(t[k] =~= poly[k]);
    }
    assert(t =~= poly);
}

/// The standard alphabet.
pub open spec fn b64_char(v: int) -> char {
    if v < 26 {
        (65 + v) as char
    } else if v < 52 {
        (97 + v - 26) as char
    } else if v < 62 {
        (48 + v - 52) as char
    } else if v == 62 {
        '+'
    } else {
        '/'
    }
}

/// The byte, or zero past the end.
pub open spec fn byte_or_zero(data: Seq<u8>, i: int) -> int {
    if i < data.len() {
        data[i] as int
    } else {
        0
    }
}

/// The four characters of the group of three bytes that starts at `i`; a byte
/// that is not there leaves padding.
pub open spec fn b64_group(data: Seq<u8>, i: int) -> Seq<char> {
    let (x, y, z) = (
        byte_or_zero(data, i),
        byte_or_zero(data, i + 1),
        byte_or_zero(data, i + 2),
    );
    seq![
        b64_char(x / 4),
        b64_char(x % 4 * 16 + y / 16),
        if i + 1 < data.len() {
            b64_char(y % 16 * 4 + z / 64)
        } else {
            '='
        },
        if i + 2 < data.len() {
            b64_char(z % 64)
        } else {
            '='
        },
    ]
}

/// Standard base64 of the bytes before `i`, which is a multiple of three or
/// past the end.
pub open spec fn b64_text(data: Seq<u8>, i: int) -> Seq<char>
    decreases i,
{
    if i < 3 {
        Seq::empty()
    } else {
        b64_text(data, i - 3) + b64_group(data, i - 3)
    }
}

/// The first multiple of three that is not below `n`.
pub open spec fn round_up3(n: int) -> int {
    (n + 2) / 3 * 3
}

/// The value of a base64 byte, -1 for any other.
pub open spec fn b64_value(c: u8) -> int {
    if 65 <= c <= 90 {
        c - 65
    } else if 97 <= c <= 122 {
        c - 97 + 26
    } else if 48 <= c <= 57 {
        c - 48 + 52
    } else if c == 43 {
        62
    } else if c == 47 {
        63
    } else {
        -1
    }
}

/// The values of the base64 bytes; padding and anything else is skipped.
pub open spec fn sextets(text: Seq<u8>) -> Seq<int>
    decreases text.len(),
{
    if text.len() == 0 {
        Seq::empty()
    } else {
        let before = sextets(text.drop_last());
        if b64_value(text.last()) < 0 {
            before
        } else {
            before.push(b64_value(text.last()))
        }
    }
}

/// Eight bits out of the row of six-bit values, from bit `8 * k` on.
pub open spec fn octet(s: Seq<int>, k: int) -> u8 {
    let m = k / 3 * 4;
    if k % 3 == 0 {
        (s[m] * 4 + s[m + 1] / 16) as u8
    } else if k % 3 == 1 {
        (s[m + 1] % 16 * 16 + s[m + 2] / 4) as u8
    } else {
        (s[m + 2] % 4 * 64 + s[m + 3]) as u8
    }
}

/// The whole bytes in a row of six-bit values.
pub open spec fn octets(s: Seq<int>) -> Seq<u8> {
    Seq::new((s.len() * 6 / 8) as nat, |k: int| octet(s, k))
}

/// Append the letter of a six-bit value.
fn push_letter(s: &mut String, v: u8)
    requires
        v < 64,
    ensures
        final(s)@ == old(s)@.push(b64_char(v as int)),
{
    let alphabet = "ABCDEFGHIJKLMNOPQRSTUVWXYZabcdefghijklmnopqrstuvwxyz0123456789+/";
    proof {
        reveal_strlit("ABCDEFGHIJKLMNOPQRSTUVWXYZabcdefghijklmnopqrstuvwxyz0123456789+/");
        assert(alphabet@.len() == 64);
        assert forall|i: int| 0 <= i < 64 implies #[trigger] alphabet@[i] == b64_char(i) by {}
    }
    s.append(alphabet.substring_ascii(v as usize, v as usize + 1));
    proof {
        assert(s@ =~= old(s)@.push(b64_char(v as int)));
    }
}

/// Append a padding character.
fn push_padding(s: &mut String)
    ensures
        final(s)@ == old(s)@.push('='),
{
    proof {
        reveal_strlit("=");
    }
    s.append("=");
    proof {
        assert(s@ =~= old(s)@.push('='));
    }
}

/// Standard base64 (`+/` alphabet, `=` padding).
pub fn base64_encode(data: &[u8]) -> (r: String)
    ensures
        r@ == b64_text(data@, round_up3(data@.len() as int)),
{
    let mut s: String = String::new();
    let n = data.len();
    let mut i: usize = 0;
    while i < n
        invariant
            n == data@.len(),
            i % 3 == 0,
            i <= n || i == round_up3(n as int),
            i < n + 3,
            s@ == b64_text(data@, i as int),
        decreases n + 3 - i,
    {
        let ghost before = s@;
        let x = data[i];
        let left = n - i;
        let y: u8 = if left > 1 {
            data[i + 1]
        } else {
            0
        };
        let z: u8 = if left > 2 {
            data[i + 2]
        } else {
            0
        };
        push_letter(&mut s, x / 4);
        push_letter(&mut s, x % 4 * 16 + y / 16);
        if left > 1 {
            push_letter(&mut s, y % 16 * 4 + z / 64);
        } else {
            push_padding(&mut s);
        }
        if left > 2 {
            push_letter(&mut s, z % 64);
        } else {
            push_padding(&mut s);
        }
        proof {
            assert(s@ =~= before + b64_group(data@, i as int));
        }
        if left <= 3 {
            proof {
                assert(i + 3 == round_up3(n as int));
            }
            return s;
        }
        i += 3;
    }
    s
}

/// The value of a base64 byte, -1 for any other.
pub fn b64_val(c: u8) -> (r: i32)
    ensures
        r == b64_value(c),
{
    if 65 <= c && c <= 90 {
        c as i32 - 65
    } else if 97 <= c && c <= 122 {
        c as i32 - 97 + 26
    } else if 48 <= c && c <= 57 {
        c as i32 - 48 + 52
    } else if c == 43 {
        62
    } else if c == 47 {
        63
    } else {
        -1
    }
}

/// The bits of the first values that make no whole byte yet.
spec fn left_over(s: Seq<int>) -> int {
    let j = s.len() as int;
    if j % 4 == 0 {
        0
    } else if j % 4 == 1 {
        s[j - 1]
    } else if j % 4 == 2 {
        s[j - 1] % 16
    } else {
        s[j - 1] % 4
    }
}

proof fn lemma_octets_push(s: Seq<int>, v: int)
    requires
        0 <= v < 64,
        forall|i: int| 0 <= i < s.len() ==> 0 <= (#[trigger] s[i]) < 64,
    ensures
        s.len() % 4 == 0 ==> octets(s.push(v)) == octets(s),
        s.len() % 4 == 1 ==> octets(s.push(v)) == octets(s).push(
            (left_over(s) * 4 + v / 16) as u8,
        ),
        s.len() % 4 == 2 ==> octets(s.push(v)) == octets(s).push(
            (left_over(s) * 16 + v / 4) as u8,
        ),
        s.len() % 4 == 3 ==> octets(s.push(v)) == octets(s).push((left_over(s) * 64 + v) as u8),
{
    let t = s.push(v);
    let (a, b) = (octets(s), octets(t));
    let j = s.len() as int;
    assert forall|k: int| 0 <= k < a.len() implies a[k] == b[k] by {
        assert(a[k] == octet(s, k) && b[k] == octet(t, k));
        let m = k / 3 * 4;
        assert(0 <= m);
        assert(k % 3 == 0 ==> m + 1 < j);
        assert(k % 3 == 1 ==> m + 2 < j);
        assert(k % 3 == 2 ==> m + 3 < j);
    }
    if j % 4 == 0 {
        assert(a =~= b);
    } else {
        let k = b.len() - 1;
        assert(k == a.len());
        assert(b[k] == octet(t, k));
        assert(k / 3 * 4 == j / 4 * 4);
        assert(k % 3 == j % 4 - 1);
        assert(a.push(b[k]) =~= b);
    }
}

proof fn lemma_sextets_range(text: Seq<u8>)
    ensures
        forall|i: int| 0 <= i < sextets(text).len() ==> 0 <= (#[trigger] sextets(text)[i]) < 64,
    decreases text.len(),
{
    if text.len() > 0 {
        lemma_sextets_range(text.drop_last());
        let before = sextets(text.drop_last());
        assert forall|i: int| 0 <= i < sextets(text).len() implies 0 <= (#[trigger] sextets(
            text,
        )[i]) < 64 by {
            if i < before.len() {
                assert(sextets(text)[i] == before[i]);
            }
        }
    }
}

/// Decode standard base64.  Padding and anything outside the alphabet is
/// skipped.
pub fn base64_decode(s: &str) -> (r: Vec<u8>)
    ensures
        r@ == octets(sextets(s.spec_bytes())),
{
    let text = s.as_bytes();
    let mut out: Vec<u8> = Vec::new();
    let mut acc: u32 = 0;
    let mut phase: u8 = 0;
    let mut i: usize = 0;
    proof {
        assert(text@.take(0) =~= Seq::<u8>::empty());
        assert(octets(sextets(text@.take(0))) =~= Seq::<u8>::empty());
    }
    while i < text.len()
        invariant
            0 <= i <= text@.len(),
            out@ == octets(sextets(text@.take(i as int))),
            phase == sextets(text@.take(i as int)).len() % 4,
            acc == left_over(sextets(text@.take(i as int))),
            phase == 0 ==> acc == 0,
            phase == 1 ==> acc < 64,
            phase == 2 ==> acc < 16,
            phase == 3 ==> acc < 4,
        decreases text.len() - i,
    {
        let ghost before = sextets(text@.take(i as int));
        proof {
            let longer = text@.take(i + 1);
            assert(longer.drop_last() =~= text@.take(i as int));
            assert(longer.last() == text@[i as int]);
            lemma_sextets_range(text@.take(i as int));
        }
        let v = b64_val(text[i]);
        if v >= 0 {
            let v = v as u32;
            proof {
                lemma_octets_push(before, v as int);
            }
            if phase == 0 {
                acc = v;
                phase = 1;
            } else if phase == 1 {
                out.push((acc * 4 + v / 16) as u8);
                acc = v % 16;
                phase = 2;
            } else if phase == 2 {
                out.push((acc * 16 + v / 4) as u8);
                acc = v % 4;
                phase = 3;
            } else {
                out.push((acc * 64 + v) as u8);
                acc = 0;
                phase = 0;
            }
        }
        i += 1;
    }
    proof {
        assert(text@.take(i as int) =~= text@);
    }
    out
}

/// The characters' codes.
spec fn codes(text: Seq<char>) -> Seq<u8> {
    Seq::new(text.len(), |i: int| text[i] as u8)
}

proof fn lemma_sextets_concat(a: Seq<u8>, b: Seq<u8>)
    ensures
        sextets(a + b) == sextets(a) + sextets(b),
    decreases b.len(),
{
    if b.len() == 0 {
        assert(a + b =~= a);
        assert(sextets(a) + sextets(b) =~= sextets(a));
    } else {
        lemma_sextets_concat(a, b.drop_last());
        assert((a + b).drop_last() =~= a + b.drop_last());
        assert(sextets(a + b) =~= sextets(a) + sextets(b));
    }
}

proof fn lemma_b64_char(v: int)
    requires
        0 <= v < 64,
    ensures
        b64_value(b64_char(v) as u8) == v,
        (b64_char(v) as u32) < 128,
{
}

/// The values of one group of characters.
spec fn group_values(data: Seq<u8>, i: int) -> Seq<int> {
    let (x, y, z) = (
        byte_or_zero(data, i),
        byte_or_zero(data, i + 1),
        byte_or_zero(data, i + 2),
    );
    if i + 2 < data.len() {
        seq![x / 4, x % 4 * 16 + y / 16, y % 16 * 4 + z / 64, z % 64]
    } else if i + 1 < data.len() {
        seq![x / 4, x % 4 * 16 + y / 16, y % 16 * 4 + z / 64]
    } else {
        seq![x / 4, x % 4 * 16 + y / 16]
    }
}

proof fn lemma_group(data: Seq<u8>, i: int)
    requires
        0 <= i < data.len(),
    ensures
        sextets(codes(b64_group(data, i))) == group_values(data, i),
        vstd::utf8::is_ascii_chars(b64_group(data, i)),
{
    let g = b64_group(data, i);
    let c = codes(g);
    let (x, y, z) = (
        byte_or_zero(data, i),
        byte_or_zero(data, i + 1),
        byte_or_zero(data, i + 2),
    );
    lemma_b64_char(x / 4);
    lemma_b64_char(x % 4 * 16 + y / 16);
    lemma_b64_char(y % 16 * 4 + z / 64);
    lemma_b64_char(z % 64);
    assert(b64_value('=' as u8) == -1);
    assert(c =~= seq![g[0] as u8, g[1] as u8, g[2] as u8, g[3] as u8]);
    let c1 = seq![g[0] as u8];
    let c2 = c1.push(g[1] as u8);
    let c3 = c2.push(g[2] as u8);
    assert(c =~= c3.push(g[3] as u8));
    assert(c.drop_last() =~= c3);
    assert(c3.drop_last() =~= c2);
    assert(c2.drop_last() =~= c1);
    assert(c1.drop_last() =~= Seq::<u8>::empty());
    reveal_with_fuel(sextets, 5);
    assert(sextets(c1) =~= seq![x / 4]);
    assert(sextets(c2) =~= seq![x / 4, x % 4 * 16 + y / 16]);
    assert(sextets(c) =~= group_values(data, i));
}

/// The bytes of one more group of values.
proof fn lemma_octets_group(data: Seq<u8>, i: int, t: Seq<int>)
    requires
        0 <= i < data.len(),
        i % 3 == 0,
        t.len() == i / 3 * 4,
        octets(t) == data.take(i),
    ensures
        octets(t + group_values(data, i)) == data.take(
            if i + 3 <= data.len() {
                i + 3
            } else {
                data.len() as int
            },
        ),
{
    let v = group_values(data, i);
    let s = t + v;
    let n = if i + 3 <= data.len() {
        i + 3
    } else {
        data.len() as int
    };
    assert(octets(s).len() == n);
    assert forall|k: int| 0 <= k < n implies octets(s)[k] == data[k] by {
        assert(octets(s)[k] == octet(s, k));
        if k < i {
            assert(octets(t)[k] == octet(t, k));
            assert(data.take(i)[k] == data[k]);
            lemma_octet_prefix(t, s, k);
        } else {
            lemma_octet_group(data, i, t, k);
        }
    }
    assert(octets(s) =~= data.take(n));
}

proof fn lemma_octet_prefix(t: Seq<int>, s: Seq<int>, k: int)
    requires
        0 <= k,
        t.len() % 4 == 0,
        k < t.len() / 4 * 3,
        t.len() <= s.len(),
        forall|i: int| 0 <= i < t.len() ==> s[i] == t[i],
    ensures
        octet(t, k) == octet(s, k),
{
    let n = k / 3 * 4;
    assert(0 <= n && n + 3 < t.len());
}

proof fn lemma_octet_group(data: Seq<u8>, i: int, t: Seq<int>, k: int)
    requires
        0 <= i <= k < data.len(),
        k < i + 3,
        i % 3 == 0,
        t.len() == i / 3 * 4,
    ensures
        octet(t + group_values(data, i), k) == data[k],
{
    let v = group_values(data, i);
    let s = t + v;
    let m = t.len() as int;
    assert(k / 3 * 4 == m);
    assert(s[m] == v[0] && s[m + 1] == v[1]);
    if k == i {
        assert(k % 3 == 0);
    } else if k == i + 1 {
        assert(k % 3 == 1);
        assert(s[m + 2] == v[2]);
    } else {
        assert(k % 3 == 2);
        assert(s[m + 2] == v[2] && s[m + 3] == v[3]);
    }
}

/// The values of the text of the first groups: four for each whole group, fewer
/// for a last one that is cut short, and the bytes they stand for.
proof fn lemma_b64_text(data: Seq<u8>, i: int)
    requires
        0 <= i < data.len() + 3,
        i % 3 == 0,
    ensures
        vstd::utf8::is_ascii_chars(b64_text(data, i)),
        ({
            let s = sextets(codes(b64_text(data, i)));
            &&& i <= data.len() ==> s.len() == i / 3 * 4
            &&& i == data.len() + 1 ==> s.len() == i / 3 * 4 - 1
            &&& i == data.len() + 2 ==> s.len() == i / 3 * 4 - 2
            &&& octets(s) == data.take(
                if i <= data.len() {
                    i
                } else {
                    data.len() as int
                },
            )
        }),
    decreases i,
{
    let s = sextets(codes(b64_text(data, i)));
    if i == 0 {
        assert(codes(b64_text(data, i)) =~= Seq::<u8>::empty());
        assert(octets(s) =~= data.take(0));
    } else {
        lemma_b64_text(data, i - 3);
        lemma_group(data, i - 3);
        let before = b64_text(data, i - 3);
        let g = b64_group(data, i - 3);
        assert(codes(before + g) =~= codes(before) + codes(g));
        lemma_sextets_concat(codes(before), codes(g));
        let t = sextets(codes(before));
        let v = group_values(data, i - 3);
        assert(s == t + v);
        lemma_octets_group(data, i - 3, t);
        vstd::utf8::is_ascii_chars_concat(before + g, before, g);
    }
}

/// Decoding base64 text gives the bytes back.
pub proof fn law_base64_round_trip(data: Seq<u8>)
    ensures
        octets(
            sextets(vstd::utf8::encode_utf8(b64_text(data, round_up3(data.len() as int)))),
        ) == data,
{
    let i = round_up3(data.len() as int);
    let text = b64_text(data, i);
    lemma_b64_text(data, i);
    vstd::utf8::is_ascii_chars_encode_utf8(text);
    assert(vstd::utf8::encode_utf8(text) =~= codes(text));
    assert(data.take(data.len() as int) =~= data);
}

/// A delta takes as few bytes as any form takes that can hold it.
pub proof fn law_packed_delta_is_the_shortest(v: Pt, form: Form)
    requires
        pair_in_form(v, form),
    ensures
        packed_delta(v).len() <= form.bytes(),
        pair_in_form(v, smallest_form(v)),
{
    lemma_big_endian_len(delta_word(v, smallest_form(v)), smallest_form(v).bytes());
}

proof fn lemma_big_endian_len(word: int, n: int)
    requires
        0 <= n,
    ensures
        big_endian(word, n).len() == n,
    decreases n,
{
    if n > 0 {
        lemma_big_endian_len(word / 256, n - 1);
    }
}

/// A form of `b` bits holds exactly the whole numbers of `b` bits in two's
/// complement, and the two numbers with the two bits that tell the form fill its
/// bytes.
pub proof fn law_forms_fill_their_bytes(form: Form, v: int)
    ensures
        in_form(v, form) <==> signed(v % form.modulus(), form.modulus()) == v,
        form is Bits7 ==> 4 * form.modulus() * form.modulus() == 0x1_0000 && form.bytes() == 2,
        form is Bits11 ==> 4 * form.modulus() * form.modulus() == 0x100_0000 && form.bytes() == 3,
        form is Bits19 ==> 4 * form.modulus() * form.modulus() == 0x100_0000_0000 && form.bytes()
            == 5,
        form is Bits23 ==> 4 * form.modulus() * form.modulus() == 0x1_0000_0000_0000
            && form.bytes() == 6,
{
}

} // verus!
