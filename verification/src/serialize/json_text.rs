//! The pieces of JSON text: literals, numbers, lists and strings.
use vstd::prelude::*;
use vstd::utf8::encode_utf8;

use crate::serialize::stream::{holds_at, lemma_holds_byte, lemma_holds_two, push_bytes};
use crate::serialize::text::{decimal_text, signed_decimal, signed_text};

verus! {

/// Text as bytes.
#[verifier::opaque]
pub open spec fn utf8(s: Seq<char>) -> Seq<u8> {
    encode_utf8(s)
}

/// A number.
pub open spec fn num(n: int) -> Seq<u8> {
    utf8(signed_decimal(n))
}

/// The first `k` items with commas between them.
pub open spec fn joined(items: Seq<Seq<u8>>, k: int) -> Seq<u8>
    decreases k,
{
    if k <= 0 {
        Seq::empty()
    } else if k == 1 {
        items[0]
    } else {
        joined(items, k - 1) + utf8(","@) + items[k - 1]
    }
}

/// All items with commas between them.
pub open spec fn commas(items: Seq<Seq<u8>>) -> Seq<u8> {
    joined(items, items.len() as int)
}

/// A list.
pub open spec fn list(items: Seq<Seq<u8>>) -> Seq<u8> {
    utf8("["@) + commas(items) + utf8("]"@)
}

/// Append text.
pub fn put(buf: &mut Vec<u8>, s: &str)
    ensures
        final(buf)@ == old(buf)@ + utf8(s@),
{
    proof {
        reveal(utf8);
    }
    push_bytes(buf, s.as_bytes());
}

/// Append a number.
pub fn put_num(buf: &mut Vec<u8>, n: i64)
    ensures
        final(buf)@ == old(buf)@ + num(n as int),
{
    put(buf, signed_text(n).as_str());
}

/// Append a number that is not negative.
pub fn put_count(buf: &mut Vec<u8>, n: u64)
    ensures
        final(buf)@ == old(buf)@ + num(n as int),
{
    put(buf, decimal_text(n).as_str());
}

/// Append the comma before the item at a position, if it needs one.
pub fn put_comma(buf: &mut Vec<u8>, at: usize)
    ensures
        final(buf)@ == old(buf)@ + (if at > 0 {
            utf8(","@)
        } else {
            Seq::empty()
        }),
{
    if at > 0 {
        put(buf, ",");
    } else {
        proof {
            assert(buf@ + Seq::<u8>::empty() =~= buf@);
        }
    }
}

/// One more item.
pub proof fn lemma_joined(start: Seq<u8>, items: Seq<Seq<u8>>, k: int)
    requires
        0 <= k,
    ensures
        start + joined(items, k + 1) == start + joined(items, k) + (if k > 0 {
            utf8(","@)
        } else {
            Seq::empty()
        }) + items[k],
{
    if k > 0 {
        assert(start + joined(items, k + 1) =~= start + joined(items, k) + utf8(","@) + items[k]);
    } else {
        assert(start + joined(items, k + 1) =~= start + joined(items, k) + Seq::<u8>::empty()
            + items[k]);
    }
}

/// Appending one piece after another.
pub proof fn lemma_onto(pre: Seq<u8>, a: Seq<u8>, b: Seq<u8>)
    ensures
        pre + a + b == pre + (a + b),
{
    assert(pre + a + b =~= pre + (a + b));
}

/// Appending five pieces.
pub proof fn lemma_onto5(
    pre: Seq<u8>,
    a: Seq<u8>,
    b: Seq<u8>,
    c: Seq<u8>,
    d: Seq<u8>,
    e: Seq<u8>,
)
    ensures
        pre + a + b + c + d + e == pre + (a + b + c + d + e),
{
    lemma_onto(pre, a, b);
    lemma_onto(pre, a + b, c);
    lemma_onto(pre, a + b + c, d);
    lemma_onto(pre, a + b + c + d, e);
}

/// Appending seven pieces.
pub proof fn lemma_onto7(
    pre: Seq<u8>,
    a: Seq<u8>,
    b: Seq<u8>,
    c: Seq<u8>,
    d: Seq<u8>,
    e: Seq<u8>,
    f: Seq<u8>,
    g: Seq<u8>,
)
    ensures
        pre + a + b + c + d + e + f + g == pre + (a + b + c + d + e + f + g),
{
    lemma_onto5(pre, a, b, c, d, e);
    lemma_onto(pre, a + b + c + d + e, f);
    lemma_onto(pre, a + b + c + d + e + f, g);
}

/// A list written item by item.
pub proof fn lemma_list(pre: Seq<u8>, items: Seq<Seq<u8>>)
    ensures
        pre + utf8("["@) + joined(items, items.len() as int) + utf8("]"@) == pre + list(items),
{
    lemma_onto(pre, utf8("["@), commas(items));
    lemma_onto(pre, utf8("["@) + commas(items), utf8("]"@));
}

/// Append a list of numbers.
pub fn put_ids(buf: &mut Vec<u8>, ids: &[usize])
    ensures
        final(buf)@ == old(buf)@ + list(Seq::new(ids@.len(), |i: int| num(ids@[i] as int))),
{
    let ghost items = Seq::new(ids@.len(), |i: int| num(ids@[i] as int));
    let ghost before = buf@;
    put(buf, "[");
    let ghost start = buf@;
    let mut i: usize = 0;
    proof {
        assert(start + joined(items, 0) =~= start);
    }
    while i < ids.len()
        invariant
            0 <= i <= ids@.len(),
            items == Seq::new(ids@.len(), |i: int| num(ids@[i] as int)),
            buf@ == start + joined(items, i as int),
        decreases ids.len() - i,
    {
        put_comma(buf, i);
        put_count(buf, ids[i] as u64);
        proof {
            lemma_joined(start, items, i as int);
        }
        i += 1;
    }
    put(buf, "]");
    proof {
        lemma_list(before, items);
    }
}

// --- strings ---

/// The hexadecimal digit.
pub open spec fn hex_digit(d: int) -> u8 {
    if d < 10 {
        (48 + d) as u8
    } else {
        (87 + d) as u8
    }
}

/// A byte of a string: the quote, the backslash and control characters are
/// escaped.
pub open spec fn escaped_byte(b: u8) -> Seq<u8> {
    if b == 34 {
        seq![92u8, 34]
    } else if b == 92 {
        seq![92u8, 92]
    } else if b == 10 {
        seq![92u8, 110]
    } else if b == 13 {
        seq![92u8, 114]
    } else if b == 9 {
        seq![92u8, 116]
    } else if b < 32 {
        seq![92u8, 117, 48, 48, hex_digit(b as int / 16), hex_digit(b as int % 16)]
    } else {
        seq![b]
    }
}

/// The bytes of a string from the `i`-th on, escaped.
pub open spec fn escaped(s: Seq<u8>, i: int) -> Seq<u8>
    decreases s.len() - i,
{
    if i < 0 || i >= s.len() {
        Seq::empty()
    } else {
        escaped_byte(s[i]) + escaped(s, i + 1)
    }
}

/// A string.
pub open spec fn quoted(s: Seq<u8>) -> Seq<u8> {
    seq![34u8] + (escaped(s, 0) + seq![34u8])
}

fn put_byte(buf: &mut Vec<u8>, b: u8)
    ensures
        final(buf)@ == old(buf)@ + escaped_byte(b),
{
    if b == 34 {
        buf.push(92);
        buf.push(34);
    } else if b == 92 {
        buf.push(92);
        buf.push(92);
    } else if b == 10 {
        buf.push(92);
        buf.push(110);
    } else if b == 13 {
        buf.push(92);
        buf.push(114);
    } else if b == 9 {
        buf.push(92);
        buf.push(116);
    } else if b < 32 {
        buf.push(92);
        buf.push(117);
        buf.push(48);
        buf.push(48);
        buf.push(48 + b / 16);
        let low = b % 16;
        if low < 10 {
            buf.push(48 + low);
        } else {
            buf.push(87 + low);
        }
    } else {
        buf.push(b);
    }
    proof {
        assert(buf@ =~= old(buf)@ + escaped_byte(b));
    }
}

/// Append a string.
pub fn json_str(buf: &mut Vec<u8>, s: &[u8])
    ensures
        final(buf)@ == old(buf)@ + quoted(s@),
{
    let ghost before = buf@;
    buf.push(34);
    let ghost start = buf@;
    let mut i: usize = 0;
    while i < s.len()
        invariant
            0 <= i <= s@.len(),
            buf@ + escaped(s@, i as int) == start + escaped(s@, 0),
        decreases s.len() - i,
    {
        let ghost mid = buf@;
        put_byte(buf, s[i]);
        proof {
            assert(mid + (escaped_byte(s@[i as int]) + escaped(s@, i + 1)) =~= buf@ + escaped(
                s@,
                i + 1,
            ));
        }
        i += 1;
    }
    proof {
        assert(buf@ + escaped(s@, i as int) =~= buf@);
    }
    buf.push(34);
    proof {
        assert(buf@ =~= before + quoted(s@));
    }
}

/// The value of a hexadecimal digit.
pub open spec fn hex_value(b: u8) -> Option<int> {
    if 48 <= b <= 57 {
        Some(b - 48)
    } else if 97 <= b <= 102 {
        Some(b - 87)
    } else {
        None
    }
}

/// What stands behind a backslash, and where it ends.
pub open spec fn get_escape(bytes: Seq<u8>, pos: int) -> Option<(u8, int)> {
    if pos >= bytes.len() {
        None
    } else if bytes[pos] == 34 || bytes[pos] == 92 {
        Some((bytes[pos], pos + 1))
    } else if bytes[pos] == 110 {
        Some((10u8, pos + 1))
    } else if bytes[pos] == 114 {
        Some((13u8, pos + 1))
    } else if bytes[pos] == 116 {
        Some((9u8, pos + 1))
    } else if bytes[pos] == 117 && pos + 5 <= bytes.len() && bytes[pos + 1] == 48 && bytes[pos + 2]
        == 48 {
        match (hex_value(bytes[pos + 3]), hex_value(bytes[pos + 4])) {
            (Some(h), Some(l)) => Some(((16 * h + l) as u8, pos + 5)),
            _ => None,
        }
    } else {
        None
    }
}

/// A string's bytes up to the closing quote, and where that ends.
pub open spec fn get_rest(bytes: Seq<u8>, pos: int) -> Option<(Seq<u8>, int)>
    decreases bytes.len() - pos,
{
    if pos < 0 || pos >= bytes.len() {
        None
    } else if bytes[pos] == 34 {
        Some((Seq::empty(), pos + 1))
    } else if bytes[pos] == 92 {
        match get_escape(bytes, pos + 1) {
            None => None,
            Some((b, p)) => match get_rest(bytes, p) {
                None => None,
                Some((s, q)) => Some((seq![b] + s, q)),
            },
        }
    } else {
        match get_rest(bytes, pos + 1) {
            None => None,
            Some((s, q)) => Some((seq![bytes[pos]] + s, q)),
        }
    }
}

/// A string.
pub open spec fn get_quoted(bytes: Seq<u8>, pos: int) -> Option<(Seq<u8>, int)> {
    if 0 <= pos < bytes.len() && bytes[pos] == 34 {
        get_rest(bytes, pos + 1)
    } else {
        None
    }
}

proof fn lemma_escaped(bytes: Seq<u8>, pos: int, s: Seq<u8>, i: int)
    requires
        0 <= i <= s.len(),
        holds_at(bytes, pos, escaped(s, i) + seq![34u8]),
    ensures
        get_rest(bytes, pos) == Some((s.skip(i), pos + escaped(s, i).len() + 1)),
    decreases s.len() - i,
{
    let tail = seq![34u8];
    if i == s.len() {
        lemma_holds_byte(bytes, pos, escaped(s, i) + tail, 0);
        assert(s.skip(i) =~= Seq::empty());
    } else {
        let b = s[i];
        let head = escaped_byte(b);
        assert(escaped(s, i) + tail =~= head + (escaped(s, i + 1) + tail));
        lemma_holds_two(bytes, pos, head, escaped(s, i + 1) + tail);
        lemma_escaped(bytes, pos + head.len(), s, i + 1);
        lemma_holds_byte(bytes, pos, head, 0);
        if head.len() > 1 {
            lemma_holds_byte(bytes, pos, head, 1);
        }
        if head.len() > 2 {
            lemma_holds_byte(bytes, pos, head, 2);
            lemma_holds_byte(bytes, pos, head, 3);
            lemma_holds_byte(bytes, pos, head, 4);
            lemma_holds_byte(bytes, pos, head, 5);
            assert(b < 32);
            assert(hex_value(hex_digit(b as int / 16)) == Some(b as int / 16));
            assert(hex_value(hex_digit(b as int % 16)) == Some(b as int % 16));
            assert(get_escape(bytes, pos + 1) == Some((b, pos + 6)));
        }
        assert(seq![b] + s.skip(i + 1) =~= s.skip(i));
    }
}

/// Reading a written string gives it back, wherever it stands.
pub proof fn law_quoted_round_trip(bytes: Seq<u8>, pos: int, s: Seq<u8>)
    requires
        holds_at(bytes, pos, quoted(s)),
    ensures
        get_quoted(bytes, pos) == Some((s, pos + quoted(s).len())),
{
    let rest = escaped(s, 0) + seq![34u8];
    lemma_holds_two(bytes, pos, seq![34u8], rest);
    lemma_holds_byte(bytes, pos, seq![34u8], 0);
    lemma_escaped(bytes, pos + 1, s, 0);
    assert(s.skip(0) =~= s);
}

} // verus!
