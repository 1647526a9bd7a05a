//! The front-coded table of timezone names: each name shares its longest prefix
//! with the one before it, so `America/` and the like are stored once.
use vstd::prelude::*;

use crate::serialize::leb::{
    get_uvar, lemma_uvars_concat, lemma_uvars_one, lemma_written_next, read_uvar, uvar_bytes,
    uvars_bytes, write_uvar, written_at,
};
use crate::serialize::order::{name_list, positions};
use crate::serialize::stream::{copy_bytes, holds_at, lemma_holds_two, push_bytes};
use crate::serialize::tree::prepend;

verus! {

/// The length of the longest common prefix, from the `i`-th byte on.
pub open spec fn shared_from(a: Seq<u8>, b: Seq<u8>, i: int) -> int
    decreases a.len() - i,
{
    if i < 0 || i >= a.len() || i >= b.len() || a[i] != b[i] {
        0
    } else {
        1 + shared_from(a, b, i + 1)
    }
}

/// The length of the longest common prefix.
pub open spec fn shared_prefix(a: Seq<u8>, b: Seq<u8>) -> int {
    shared_from(a, b, 0)
}

proof fn lemma_shared(a: Seq<u8>, b: Seq<u8>, i: int)
    requires
        0 <= i <= a.len(),
        i <= b.len(),
    ensures
        0 <= shared_from(a, b, i),
        i + shared_from(a, b, i) <= a.len(),
        i + shared_from(a, b, i) <= b.len(),
        forall|j: int| i <= j < i + shared_from(a, b, i) ==> a[j] == b[j],
    decreases a.len() - i,
{
    if i < a.len() && i < b.len() && a[i] == b[i] {
        lemma_shared(a, b, i + 1);
    }
}

/// The longest common prefix is a prefix of both, and nothing longer is.
pub proof fn law_shared_prefix(a: Seq<u8>, b: Seq<u8>, n: int)
    ensures
        0 <= shared_prefix(a, b) <= a.len(),
        shared_prefix(a, b) <= b.len(),
        a.take(shared_prefix(a, b)) == b.take(shared_prefix(a, b)),
        0 <= n <= a.len() && n <= b.len() && a.take(n) == b.take(n) ==> n <= shared_prefix(a, b),
{
    lemma_shared(a, b, 0);
    let s = shared_prefix(a, b);
    assert(a.take(s) =~= b.take(s));
    if 0 <= n <= a.len() && n <= b.len() && a.take(n) == b.take(n) && n > s {
        lemma_shared_stops(a, b, 0);
        assert(a.take(n)[s] == b.take(n)[s]);
    }
}

proof fn lemma_shared_stops(a: Seq<u8>, b: Seq<u8>, i: int)
    requires
        0 <= i <= a.len(),
        i <= b.len(),
    ensures
        ({
            let e = i + shared_from(a, b, i);
            e < a.len() && e < b.len() ==> a[e] != b[e]
        }),
    decreases a.len() - i,
{
    if i < a.len() && i < b.len() && a[i] == b[i] {
        lemma_shared_stops(a, b, i + 1);
    }
}

/// Longest common byte prefix of two names.
pub fn common_prefix(a: &[u8], b: &[u8]) -> (r: usize)
    ensures
        r == shared_prefix(a@, b@),
        r <= a@.len(),
        r <= b@.len(),
{
    let mut i: usize = 0;
    while i < a.len() && i < b.len() && a[i] == b[i]
        invariant
            0 <= i <= a@.len(),
            i <= b@.len(),
            i + shared_from(a@, b@, i as int) == shared_prefix(a@, b@),
        decreases a.len() - i,
    {
        i += 1;
    }
    i
}

/// The name before the `k`-th.
pub open spec fn name_before(names: Seq<Seq<u8>>, k: int) -> Seq<u8> {
    if k <= 0 {
        Seq::empty()
    } else {
        names[k - 1]
    }
}

/// The values before a name's suffix.
pub open spec fn name_vals(prev: Seq<u8>, name: Seq<u8>) -> Seq<int> {
    seq![shared_prefix(prev, name), name.len() - shared_prefix(prev, name)]
}

/// The names from the `k`-th on.
pub open spec fn entries_bytes(names: Seq<Seq<u8>>, k: int) -> Seq<u8>
    decreases names.len() - k,
{
    if k < 0 || k >= names.len() {
        Seq::empty()
    } else {
        let prev = name_before(names, k);
        uvars_bytes(name_vals(prev, names[k])) + (names[k].skip(shared_prefix(prev, names[k]))
            + entries_bytes(names, k + 1))
    }
}

/// The table.
pub open spec fn names_bytes(names: Seq<Seq<u8>>) -> Seq<u8> {
    uvar_bytes(names.len() as int) + entries_bytes(names, 0)
}

/// `n` names.
pub open spec fn get_entries(bytes: Seq<u8>, pos: int, n: int, prev: Seq<u8>) -> Option<
    (Seq<Seq<u8>>, int),
>
    decreases n,
{
    if n <= 0 {
        Some((Seq::empty(), pos))
    } else {
        match get_uvar(bytes, pos) {
            None => None,
            Some((shared, p1)) => match get_uvar(bytes, p1) {
                None => None,
                Some((len, p2)) => if shared > prev.len() || p2 + len > bytes.len() {
                    None
                } else {
                    let name = prev.take(shared) + bytes.subrange(p2, p2 + len);
                    prepend(seq![name], get_entries(bytes, p2 + len, n - 1, name))
                },
            },
        }
    }
}

/// The table at a position.
pub open spec fn get_names(bytes: Seq<u8>, pos: int) -> Option<(Seq<Seq<u8>>, int)> {
    match get_uvar(bytes, pos) {
        None => None,
        Some((n, p)) => get_entries(bytes, p, n, Seq::empty()),
    }
}

/// The names in an order.
pub open spec fn names_in(names: Seq<Seq<u8>>, order: Seq<int>) -> Seq<Seq<u8>> {
    Seq::new(order.len(), |k: int| names[order[k]])
}

/// Front-coded (prefix-compressed) name table, in the order given.
pub fn encode_tz_names(names: &[Vec<u8>], order: &[usize], buf: &mut Vec<u8>)
    requires
        forall|k: int| 0 <= k < order@.len() ==> (#[trigger] order@[k]) < names@.len(),
    ensures
        final(buf)@ == old(buf)@ + names_bytes(
            names_in(name_list(names@), positions(order@)),
        ),
{
    let ghost w = names_in(name_list(names@), positions(order@));
    let ghost start = buf@;
    write_uvar(buf, order.len() as u64);
    let nothing: Vec<u8> = Vec::new();
    let mut prev: &Vec<u8> = &nothing;
    let mut k: usize = 0;
    proof {
        assert(buf@ + entries_bytes(w, 0) =~= start + names_bytes(w));
    }
    while k < order.len()
        invariant
            0 <= k <= order@.len(),
            w == names_in(name_list(names@), positions(order@)),
            forall|k: int| 0 <= k < order@.len() ==> (#[trigger] order@[k]) < names@.len(),
            start == old(buf)@,
            prev@ == name_before(w, k as int),
            buf@ + entries_bytes(w, k as int) == start + names_bytes(w),
        decreases order.len() - k,
    {
        let name = &names[order[k]];
        proof {
            assert(w[k as int] == name@);
        }
        let shared = common_prefix(prev.as_slice(), name.as_slice());
        let ghost b0 = buf@;
        write_uvar(buf, shared as u64);
        write_uvar(buf, (name.len() - shared) as u64);
        let suffix = copy_bytes(name.as_slice(), shared, name.len());
        push_bytes(buf, suffix.as_slice());
        proof {
            let vals = name_vals(prev@, name@);
            let (a, b) = (seq![vals[0]], seq![vals[1]]);
            lemma_uvars_one(vals[0]);
            lemma_uvars_one(vals[1]);
            lemma_uvars_concat(a, b);
            assert(a + b =~= vals);
            assert(suffix@ =~= name@.skip(shared as int));
            assert(b0 + (uvars_bytes(vals) + (suffix@ + entries_bytes(w, k + 1))) =~= buf@
                + entries_bytes(w, k + 1));
        }
        prev = name;
        k += 1;
    }
    proof {
        assert(buf@ + entries_bytes(w, k as int) =~= buf@);
    }
}

/// Read the table back; the names as bytes.
pub fn decode_tz_names(bytes: &[u8], pos: &mut usize) -> (r: Option<Vec<Vec<u8>>>)
    requires
        *old(pos) <= bytes@.len(),
    ensures
        match get_names(bytes@, *old(pos) as int) {
            Some((names, next)) => r matches Some(v) && name_list(v@) == names && *final(pos)
                == next,
            None => r is None,
        },
        *old(pos) <= *final(pos) <= bytes@.len(),
{
    let n = match read_uvar(bytes, pos) {
        None => {
            return None;
        },
        Some(n) => n,
    };
    let mut out: Vec<Vec<u8>> = Vec::new();
    let mut prev: Vec<u8> = Vec::new();
    let mut left = n;
    let ghost whole = get_entries(bytes@, *pos as int, n as int, Seq::empty());
    proof {
        assert(prev@ =~= Seq::<u8>::empty());
        if let Some((names, next)) = whole {
            assert(name_list(out@) + names =~= names);
        }
    }
    while left > 0
        invariant
            0 <= left <= n,
            *old(pos) <= *pos <= bytes@.len(),
            get_names(bytes@, *old(pos) as int) == whole,
            whole == prepend(
                name_list(out@),
                get_entries(bytes@, *pos as int, left as int, prev@),
            ),
        decreases left,
    {
        let shared = match read_uvar(bytes, pos) {
            None => {
                return None;
            },
            Some(v) => v,
        };
        let len = match read_uvar(bytes, pos) {
            None => {
                return None;
            },
            Some(v) => v,
        };
        if shared > prev.len() as u64 || len > (bytes.len() - *pos) as u64 {
            return None;
        }
        let end = *pos + len as usize;
        let mut name = copy_bytes(prev.as_slice(), 0, shared as usize);
        let suffix = copy_bytes(bytes, *pos, end);
        push_bytes(&mut name, suffix.as_slice());
        let again = copy_bytes(name.as_slice(), 0, name.len());
        proof {
            assert(prev@.subrange(0, shared as int) =~= prev@.take(shared as int));
            assert(again@ =~= name@);
        }
        *pos = end;
        let ghost before = out@;
        let ghost one = name@;
        out.push(again);
        prev = name;
        left -= 1;
        proof {
            let rest = get_entries(bytes@, *pos as int, left as int, prev@);
            if let Some((names, next)) = rest {
                assert(name_list(before) + (seq![one] + names) =~= name_list(out@) + names);
            }
        }
    }
    proof {
        assert(name_list(out@) + Seq::<Seq<u8>>::empty() =~= name_list(out@));
    }
    Some(out)
}

/// Names that memory can hold.
pub open spec fn names_writable(names: Seq<Seq<u8>>) -> bool {
    &&& names.len() <= u64::MAX
    &&& forall|k: int| 0 <= k < names.len() ==> (#[trigger] names[k]).len() <= u64::MAX
}

proof fn lemma_entries(bytes: Seq<u8>, pos: int, names: Seq<Seq<u8>>, k: int)
    requires
        names_writable(names),
        0 <= k <= names.len(),
        holds_at(bytes, pos, entries_bytes(names, k)),
    ensures
        get_entries(bytes, pos, names.len() - k, name_before(names, k)) == Some(
            (names.skip(k), pos + entries_bytes(names, k).len()),
        ),
    decreases names.len() - k,
{
    if k == names.len() {
        assert(names.skip(k) =~= Seq::empty());
    } else {
        let prev = name_before(names, k);
        let name = names[k];
        assert(names[k].len() <= u64::MAX);
        law_shared_prefix(prev, name, 0);
        let s = shared_prefix(prev, name);
        let vals = name_vals(prev, name);
        let suffix = name.skip(s);
        let rest = entries_bytes(names, k + 1);
        lemma_holds_two(bytes, pos, uvars_bytes(vals), suffix + rest);
        assert(written_at(bytes, pos, vals));
        assert(vals =~= seq![s] + (seq![vals[1]] + Seq::<int>::empty()));
        let p1 = lemma_written_next(bytes, pos, s, seq![vals[1]] + Seq::empty());
        let p2 = lemma_written_next(bytes, p1, vals[1], Seq::empty());
        assert(uvars_bytes(Seq::<int>::empty()) =~= Seq::<u8>::empty());
        lemma_holds_two(bytes, p2, suffix, rest);
        lemma_entries(bytes, p2 + suffix.len(), names, k + 1);
        assert(prev.take(s) + bytes.subrange(p2, p2 + vals[1]) =~= name);
        assert(seq![name] + names.skip(k + 1) =~= names.skip(k));
    }
}

/// Reading a written table gives the names back, wherever it stands.
pub proof fn law_names_round_trip(bytes: Seq<u8>, pos: int, names: Seq<Seq<u8>>)
    requires
        names_writable(names),
        holds_at(bytes, pos, names_bytes(names)),
    ensures
        get_names(bytes, pos) == Some((names, pos + names_bytes(names).len())),
{
    let n = names.len() as int;
    lemma_holds_two(bytes, pos, uvar_bytes(n), entries_bytes(names, 0));
    crate::serialize::leb::law_uvar_round_trip(bytes, pos, n);
    lemma_entries(bytes, pos + uvar_bytes(n).len(), names, 0);
    assert(names.skip(0) =~= names);
}

} // verus!
