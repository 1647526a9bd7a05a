//! Stretches of a byte stream.
use vstd::prelude::*;

verus! {

/// The stretch stands in the stream at the position.
pub open spec fn holds_at(bytes: Seq<u8>, pos: int, chunk: Seq<u8>) -> bool {
    &&& 0 <= pos
    &&& pos + chunk.len() <= bytes.len()
    &&& bytes.subrange(pos, pos + chunk.len()) == chunk
}

/// Two stretches in a row.
pub proof fn lemma_holds_two(bytes: Seq<u8>, pos: int, a: Seq<u8>, b: Seq<u8>)
    requires
        holds_at(bytes, pos, a + b),
    ensures
        holds_at(bytes, pos, a),
        holds_at(bytes, pos + a.len(), b),
{
    let whole = bytes.subrange(pos, pos + (a + b).len());
    assert(bytes.subrange(pos, pos + a.len()) =~= whole.subrange(0, a.len() as int));
    assert(whole.subrange(0, a.len() as int) =~= a);
    assert(bytes.subrange(pos + a.len(), pos + a.len() + b.len()) =~= whole.subrange(
        a.len() as int,
        (a.len() + b.len()) as int,
    ));
    assert(whole.subrange(a.len() as int, (a.len() + b.len()) as int) =~= b);
}

/// A stretch with something before and after it.
pub proof fn lemma_holds_in_middle(before: Seq<u8>, chunk: Seq<u8>, after: Seq<u8>)
    ensures
        holds_at(before + chunk + after, before.len() as int, chunk),
{
    let bytes = before + chunk + after;
    assert(bytes.subrange(before.len() as int, (before.len() + chunk.len()) as int) =~= chunk);
}

/// One byte of a stretch.
pub proof fn lemma_holds_byte(bytes: Seq<u8>, pos: int, chunk: Seq<u8>, i: int)
    requires
        holds_at(bytes, pos, chunk),
        0 <= i < chunk.len(),
    ensures
        bytes[pos + i] == chunk[i],
{
    assert(bytes.subrange(pos, pos + chunk.len())[i] == chunk[i]);
}

/// Append a copy of some bytes.
pub fn push_bytes(buf: &mut Vec<u8>, chunk: &[u8])
    ensures
        final(buf)@ == old(buf)@ + chunk@,
{
    let mut i: usize = 0;
    let ghost start = buf@;
    proof {
        assert(start + chunk@.take(0) =~= start);
    }
    while i < chunk.len()
        invariant
            0 <= i <= chunk@.len(),
            start == old(buf)@,
            buf@ == start + chunk@.take(i as int),
        decreases chunk.len() - i,
    {
        buf.push(chunk[i]);
        proof {
            assert(chunk@.take(i + 1) =~= chunk@.take(i as int).push(chunk@[i as int]));
            assert(buf@ =~= start + chunk@.take(i + 1));
        }
        i += 1;
    }
    proof {
        assert(chunk@.take(i as int) =~= chunk@);
    }
}

/// A copy of a stretch.
pub fn copy_bytes(bytes: &[u8], start: usize, end: usize) -> (r: Vec<u8>)
    requires
        start <= end <= bytes@.len(),
    ensures
        r@ == bytes@.subrange(start as int, end as int),
{
    let mut out: Vec<u8> = Vec::with_capacity(end - start);
    let mut i: usize = start;
    while i < end
        invariant
            start <= i <= end,
            end <= bytes@.len(),
            out@ == bytes@.subrange(start as int, i as int),
        decreases end - i,
    {
        out.push(bytes[i]);
        proof {
            assert(bytes@.subrange(start as int, i + 1) =~= bytes@.subrange(
                start as int,
                i as int,
            ).push(bytes@[i as int]));
        }
        i += 1;
    }
    out
}

} // verus!
