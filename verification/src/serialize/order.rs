//! Stable ordering of positions by a key.
use vstd::prelude::*;

verus! {

/// Whether one position may stand before another.
pub type Before = spec_fn(int, int) -> bool;

/// The order with one more position put in, behind all that may stand before
/// it.
pub open spec fn put_in(order: Seq<int>, before: Before, x: int) -> Seq<int>
    decreases order.len(),
{
    if order.len() == 0 || before(order.last(), x) {
        order.push(x)
    } else {
        put_in(order.drop_last(), before, x).push(order.last())
    }
}

/// The first `n` positions in order; of equals the first one stays first.
pub open spec fn in_order(before: Before, n: int) -> Seq<int>
    decreases n,
{
    if n <= 0 {
        Seq::empty()
    } else {
        put_in(in_order(before, n - 1), before, n - 1)
    }
}

/// The positions, each once.
pub open spec fn lists_all(order: Seq<int>, n: int) -> bool {
    &&& order.len() == n
    &&& forall|i: int| 0 <= i < order.len() ==> 0 <= (#[trigger] order[i]) < n
    &&& forall|i: int, j: int|
        0 <= i < j < order.len() ==> #[trigger] order[i] != #[trigger] order[j]
    &&& forall|x: int| 0 <= x < n ==> #[trigger] order.contains(x)
}

/// Each may stand before all that follow.
pub open spec fn is_sorted(order: Seq<int>, before: Before) -> bool {
    forall|i: int, j: int|
        #![trigger order[i], order[j]]
        0 <= i < j < order.len() ==> before(order[i], order[j])
}

proof fn lemma_put_in(order: Seq<int>, before: Before, x: int)
    requires
        !order.contains(x),
        forall|i: int, j: int|
            0 <= i < j < order.len() ==> #[trigger] order[i] != #[trigger] order[j],
    ensures
        ({
            let after = put_in(order, before, x);
            &&& after.len() == order.len() + 1
            &&& forall|y: int| #[trigger] after.contains(y) <==> order.contains(y) || y == x
            &&& forall|i: int, j: int|
                0 <= i < j < after.len() ==> #[trigger] after[i] != #[trigger] after[j]
        }),
    decreases order.len(),
{
    let after = put_in(order, before, x);
    if order.len() == 0 || before(order.last(), x) {
        assert(after[order.len() as int] == x);
        assert forall|y: int| #[trigger] after.contains(y) <==> order.contains(y) || y == x by {
            if order.contains(y) {
                let i = choose|i: int| 0 <= i < order.len() && order[i] == y;
                assert(after[i] == y);
            }
            if after.contains(y) && y != x {
                let i = choose|i: int| 0 <= i < after.len() && after[i] == y;
                assert(order[i] == y);
            }
        }
        assert forall|i: int, j: int| 0 <= i < j < after.len() implies #[trigger] after[i]
            != #[trigger] after[j] by {
            if j == order.len() {
                assert(order.contains(order[i]));
            }
        }
    } else {
        let shorter = order.drop_last();
        assert(!shorter.contains(x)) by {
            if shorter.contains(x) {
                let i = choose|i: int| 0 <= i < shorter.len() && shorter[i] == x;
                assert(order[i] == x);
            }
        }
        lemma_put_in(shorter, before, x);
        let mid = put_in(shorter, before, x);
        let last = order.last();
        assert(order.contains(last)) by {
            assert(order[order.len() - 1] == last);
        }
        assert(!mid.contains(last)) by {
            if mid.contains(last) {
                assert(shorter.contains(last));
                let i = choose|i: int| 0 <= i < shorter.len() && shorter[i] == last;
                assert(order[i] == order[order.len() - 1]);
            }
        }
        assert forall|y: int| #[trigger] after.contains(y) <==> order.contains(y) || y == x by {
            if order.contains(y) {
                let i = choose|i: int| 0 <= i < order.len() && order[i] == y;
                if i < shorter.len() {
                    assert(shorter[i] == y);
                    assert(mid.contains(y));
                    let k = choose|k: int| 0 <= k < mid.len() && mid[k] == y;
                    assert(after[k] == y);
                } else {
                    assert(after[after.len() - 1] == y);
                }
            }
            if y == x {
                assert(mid.contains(x));
                let k = choose|k: int| 0 <= k < mid.len() && mid[k] == x;
                assert(after[k] == x);
            }
            if after.contains(y) {
                let k = choose|k: int| 0 <= k < after.len() && after[k] == y;
                if k < mid.len() {
                    assert(mid[k] == y);
                    assert(mid.contains(y));
                    if y != x {
                        let i = choose|i: int| 0 <= i < shorter.len() && shorter[i] == y;
                        assert(order[i] == y);
                    }
                }
            }
        }
        assert forall|i: int, j: int| 0 <= i < j < after.len() implies #[trigger] after[i]
            != #[trigger] after[j] by {
            if j == mid.len() {
                assert(mid.contains(mid[i]));
            }
        }
    }
}

/// Ordering lists each position once.
pub proof fn lemma_in_order(before: Before, n: int)
    requires
        0 <= n,
    ensures
        lists_all(in_order(before, n), n),
    decreases n,
{
    if n > 0 {
        lemma_in_order(before, n - 1);
        let shorter = in_order(before, n - 1);
        assert(!shorter.contains(n - 1)) by {
            if shorter.contains(n - 1) {
                let i = choose|i: int| 0 <= i < shorter.len() && shorter[i] == n - 1;
                assert(0 <= shorter[i] < n - 1);
            }
        }
        lemma_put_in(shorter, before, n - 1);
        let order = in_order(before, n);
        assert forall|i: int| 0 <= i < order.len() implies 0 <= (#[trigger] order[i]) < n by {
            assert(order.contains(order[i]));
            if order[i] != n - 1 {
                let k = choose|k: int| 0 <= k < shorter.len() && shorter[k] == order[i];
                assert(0 <= shorter[k] < n - 1);
            }
        }
        assert forall|x: int| 0 <= x < n implies #[trigger] order.contains(x) by {
            if x < n - 1 {
                assert(shorter.contains(x));
            }
        }
    }
}

proof fn lemma_put_in_sorted(order: Seq<int>, before: Before, x: int)
    requires
        is_sorted(order, before),
        forall|a: int, b: int| #![trigger before(a, b)] before(a, b) || before(b, a),
        forall|a: int, b: int, c: int|
            #![trigger before(a, b), before(b, c)]
            before(a, b) && before(b, c) ==> before(a, c),
    ensures
        is_sorted(put_in(order, before, x), before),
        forall|i: int|
            0 <= i < put_in(order, before, x).len() ==> (#[trigger] put_in(order, before, x)[i]) == x
                || order.contains(put_in(order, before, x)[i]),
    decreases order.len(),
{
    let after = put_in(order, before, x);
    if order.len() == 0 || before(order.last(), x) {
        assert forall|i: int, j: int|
            #![trigger after[i], after[j]]
            0 <= i < j < after.len() implies before(after[i], after[j]) by {
            if j == order.len() {
                if i < order.len() - 1 {
                    assert(before(order[i], order[order.len() - 1]));
                }
            } else {
                assert(before(order[i], order[j]));
            }
        }
        assert forall|i: int| 0 <= i < after.len() implies (#[trigger] after[i]) == x
            || order.contains(after[i]) by {
            if i < order.len() {
                assert(order[i] == after[i]);
            }
        }
    } else {
        let shorter = order.drop_last();
        let last = order.last();
        assert forall|i: int, j: int|
            #![trigger shorter[i], shorter[j]]
            0 <= i < j < shorter.len() implies before(shorter[i], shorter[j]) by {
            assert(before(order[i], order[j]));
        }
        lemma_put_in_sorted(shorter, before, x);
        let mid = put_in(shorter, before, x);
        assert(before(x, last));
        assert forall|i: int| 0 <= i < mid.len() implies before(#[trigger] mid[i], last) && (mid[i]
            == x || order.contains(mid[i])) by {
            if mid[i] != x {
                assert(shorter.contains(mid[i]));
                let k = choose|k: int| 0 <= k < shorter.len() && shorter[k] == mid[i];
                assert(before(order[k], order[order.len() - 1]));
                assert(order[k] == mid[i]);
            }
        }
        assert forall|i: int, j: int|
            #![trigger after[i], after[j]]
            0 <= i < j < after.len() implies before(after[i], after[j]) by {
            if j == mid.len() {
                assert(before(mid[i], last));
            } else {
                assert(before(mid[i], mid[j]));
            }
        }
        assert forall|i: int| 0 <= i < after.len() implies (#[trigger] after[i]) == x
            || order.contains(after[i]) by {
            if i < mid.len() {
                assert(after[i] == mid[i]);
            } else {
                assert(order[order.len() - 1] == after[i]);
            }
        }
    }
}

/// Ordering by a total preorder sorts.
pub proof fn lemma_in_order_sorted(before: Before, n: int)
    requires
        forall|a: int, b: int| #![trigger before(a, b)] before(a, b) || before(b, a),
        forall|a: int, b: int, c: int|
            #![trigger before(a, b), before(b, c)]
            before(a, b) && before(b, c) ==> before(a, c),
    ensures
        is_sorted(in_order(before, n), before),
    decreases n,
{
    if n > 0 {
        lemma_in_order_sorted(before, n - 1);
        lemma_put_in_sorted(in_order(before, n - 1), before, n - 1);
    }
}

/// A later position stands first only where it has to.
pub open spec fn is_stable(order: Seq<int>, before: Before) -> bool {
    forall|i: int, j: int|
        #![trigger order[i], order[j]]
        0 <= i < j < order.len() && order[i] > order[j] ==> !before(order[j], order[i])
}

proof fn lemma_put_in_stable(order: Seq<int>, before: Before, x: int)
    requires
        is_stable(order, before),
        forall|i: int| 0 <= i < order.len() ==> (#[trigger] order[i]) < x,
    ensures
        is_stable(put_in(order, before, x), before),
        forall|i: int|
            0 <= i < put_in(order, before, x).len() ==> (#[trigger] put_in(order, before, x)[i]) == x
                || order.contains(put_in(order, before, x)[i]),
    decreases order.len(),
{
    let after = put_in(order, before, x);
    if order.len() == 0 || before(order.last(), x) {
        assert forall|i: int| 0 <= i < after.len() implies (#[trigger] after[i]) == x
            || order.contains(after[i]) by {
            if i < order.len() {
                assert(order[i] == after[i]);
            }
        }
    } else {
        let shorter = order.drop_last();
        let last = order.last();
        assert forall|i: int, j: int|
            #![trigger shorter[i], shorter[j]]
            0 <= i < j < shorter.len() && shorter[i] > shorter[j] implies !before(
            shorter[j],
            shorter[i],
        ) by {
            assert(order[i] == shorter[i] && order[j] == shorter[j]);
        }
        assert forall|i: int| 0 <= i < shorter.len() implies (#[trigger] shorter[i]) < x by {
            assert(order[i] < x);
        }
        lemma_put_in_stable(shorter, before, x);
        let mid = put_in(shorter, before, x);
        assert forall|i: int| 0 <= i < mid.len() implies (#[trigger] mid[i] == x
            || order.contains(mid[i])) && (mid[i] > last ==> !before(last, mid[i])) by {
            if mid[i] != x {
                assert(shorter.contains(mid[i]));
                let k = choose|k: int| 0 <= k < shorter.len() && shorter[k] == mid[i];
                assert(order[k] == mid[i] && order[order.len() - 1] == last);
            }
        }
        assert forall|i: int, j: int|
            #![trigger after[i], after[j]]
            0 <= i < j < after.len() && after[i] > after[j] implies !before(after[j], after[i]) by {
            assert(after[i] == mid[i]);
            if j < mid.len() {
                assert(after[j] == mid[j]);
            }
        }
        assert forall|i: int| 0 <= i < after.len() implies (#[trigger] after[i]) == x
            || order.contains(after[i]) by {
            if i < mid.len() {
                assert(after[i] == mid[i]);
            } else {
                assert(order[order.len() - 1] == after[i]);
            }
        }
    }
}

/// Ordering keeps the order of equals.
pub proof fn lemma_in_order_stable(before: Before, n: int)
    ensures
        is_stable(in_order(before, n), before),
    decreases n,
{
    if n > 0 {
        lemma_in_order_stable(before, n - 1);
        lemma_in_order(before, n - 1);
        lemma_put_in_stable(in_order(before, n - 1), before, n - 1);
    }
}

/// By ascending key.
pub open spec fn by_key(keys: Seq<u64>) -> Before {
    |a: int, b: int| keys[a] <= keys[b]
}

/// Positions as integers.
pub open spec fn positions(order: Seq<usize>) -> Seq<int> {
    Seq::new(order.len(), |i: int| order[i] as int)
}

/// The positions of the keys in ascending order; of equal keys the first one
/// stays first.
pub fn sort_by_key(keys: &[u64]) -> (r: Vec<usize>)
    ensures
        positions(r@) == in_order(by_key(keys@), keys@.len() as int),
        lists_all(positions(r@), keys@.len() as int),
        is_sorted(positions(r@), by_key(keys@)),
{
    let mut order: Vec<usize> = Vec::with_capacity(keys.len());
    let mut x: usize = 0;
    proof {
        assert(positions(order@) =~= Seq::empty());
    }
    while x < keys.len()
        invariant
            0 <= x <= keys@.len(),
            positions(order@) == in_order(by_key(keys@), x as int),
            order@.len() == x,
            forall|i: int| 0 <= i < order@.len() ==> (#[trigger] order@[i]) < x,
        decreases keys.len() - x,
    {
        insert_by_key(&mut order, keys, x);
        proof {
            lemma_in_order(by_key(keys@), x + 1);
            assert forall|i: int| 0 <= i < order@.len() implies (#[trigger] order@[i]) < x + 1 by {
                assert(positions(order@)[i] < x + 1);
            }
        }
        x += 1;
    }
    proof {
        lemma_in_order(by_key(keys@), keys@.len() as int);
        lemma_in_order_sorted(by_key(keys@), keys@.len() as int);
    }
    order
}

fn insert_by_key(order: &mut Vec<usize>, keys: &[u64], x: usize)
    requires
        x < keys@.len(),
        forall|i: int| 0 <= i < old(order)@.len() ==> (#[trigger] old(order)@[i]) < keys@.len(),
    ensures
        positions(final(order)@) == put_in(positions(old(order)@), by_key(keys@), x as int),
    decreases old(order)@.len(),
{
    let n = order.len();
    if n == 0 || keys[order[n - 1]] <= keys[x] {
        let ghost start = order@;
        order.push(x);
        proof {
            assert(positions(order@) =~= positions(start).push(x as int));
            if n > 0 {
                assert(positions(start).last() == start[n - 1]);
            }
        }
    } else {
        let last = order[n - 1];
        let ghost start = order@;
        order.pop();
        proof {
            assert(positions(order@) =~= positions(start).drop_last());
            assert(positions(start).last() == last);
        }
        insert_by_key(order, keys, x);
        let ghost mid = order@;
        order.push(last);
        proof {
            assert(positions(order@) =~= positions(mid).push(last as int));
        }
    }
}

/// Byte strings in lexicographic order.
pub open spec fn lex_le(a: Seq<u8>, b: Seq<u8>, i: int) -> bool
    decreases a.len() - i,
{
    if i >= a.len() {
        true
    } else if i < 0 || i >= b.len() {
        false
    } else if a[i] != b[i] {
        a[i] < b[i]
    } else {
        lex_le(a, b, i + 1)
    }
}

/// By name.
pub open spec fn by_name(names: Seq<Seq<u8>>) -> Before {
    |a: int, b: int| lex_le(names[a], names[b], 0)
}

/// The bytes of each name.
pub open spec fn name_list(names: Seq<Vec<u8>>) -> Seq<Seq<u8>> {
    Seq::new(names.len(), |k: int| names[k]@)
}

fn name_le(a: &[u8], b: &[u8]) -> (r: bool)
    ensures
        r == lex_le(a@, b@, 0),
{
    let mut i: usize = 0;
    while i < a.len()
        invariant
            0 <= i <= a@.len(),
            i <= b@.len(),
            lex_le(a@, b@, 0) == lex_le(a@, b@, i as int),
        decreases a.len() - i,
    {
        if i >= b.len() {
            return false;
        }
        if a[i] != b[i] {
            return a[i] < b[i];
        }
        i += 1;
    }
    true
}

proof fn lemma_lex_total(a: Seq<u8>, b: Seq<u8>, i: int)
    requires
        0 <= i,
        i <= a.len() || i <= b.len(),
    ensures
        lex_le(a, b, i) || lex_le(b, a, i),
    decreases a.len() - i,
{
    if i < a.len() && i < b.len() && a[i] == b[i] {
        lemma_lex_total(a, b, i + 1);
    }
}

proof fn lemma_lex_transitive(a: Seq<u8>, b: Seq<u8>, c: Seq<u8>, i: int)
    requires
        0 <= i,
        lex_le(a, b, i),
        lex_le(b, c, i),
    ensures
        lex_le(a, c, i),
    decreases a.len() - i,
{
    if i < a.len() && i < b.len() && i < c.len() && a[i] == b[i] && b[i] == c[i] {
        lemma_lex_transitive(a, b, c, i + 1);
    }
}

/// Ordering by name sorts.
pub proof fn lemma_names_sorted(names: Seq<Seq<u8>>, n: int)
    ensures
        is_sorted(in_order(by_name(names), n), by_name(names)),
{
    let before = by_name(names);
    assert forall|a: int, b: int| #![trigger before(a, b)] before(a, b) || before(b, a) by {
        lemma_lex_total(names[a], names[b], 0);
    }
    assert forall|a: int, b: int, c: int|
        #![trigger before(a, b), before(b, c)]
        before(a, b) && before(b, c) implies before(a, c) by {
        lemma_lex_transitive(names[a], names[b], names[c], 0);
    }
    lemma_in_order_sorted(before, n);
}

/// The positions of the names in alphabetical (bytewise) order.
pub fn sort_by_name(names: &[Vec<u8>]) -> (r: Vec<usize>)
    ensures
        positions(r@) == in_order(by_name(name_list(names@)), names@.len() as int),
        lists_all(positions(r@), names@.len() as int),
        is_sorted(positions(r@), by_name(name_list(names@))),
{
    let mut order: Vec<usize> = Vec::with_capacity(names.len());
    let mut x: usize = 0;
    proof {
        assert(positions(order@) =~= Seq::empty());
    }
    while x < names.len()
        invariant
            0 <= x <= names@.len(),
            positions(order@) == in_order(by_name(name_list(names@)), x as int),
            order@.len() == x,
            forall|i: int| 0 <= i < order@.len() ==> (#[trigger] order@[i]) < x,
        decreases names.len() - x,
    {
        insert_by_name(&mut order, names, x);
        proof {
            lemma_in_order(by_name(name_list(names@)), x + 1);
            assert forall|i: int| 0 <= i < order@.len() implies (#[trigger] order@[i]) < x + 1 by {
                assert(positions(order@)[i] < x + 1);
            }
        }
        x += 1;
    }
    proof {
        lemma_in_order(by_name(name_list(names@)), names@.len() as int);
        lemma_names_sorted(name_list(names@), names@.len() as int);
    }
    order
}

fn insert_by_name(order: &mut Vec<usize>, names: &[Vec<u8>], x: usize)
    requires
        x < names@.len(),
        forall|i: int| 0 <= i < old(order)@.len() ==> (#[trigger] old(order)@[i]) < names@.len(),
    ensures
        positions(final(order)@) == put_in(positions(old(order)@), by_name(name_list(names@)), x as int),
    decreases old(order)@.len(),
{
    let n = order.len();
    if n == 0 || name_le(names[order[n - 1]].as_slice(), names[x].as_slice()) {
        let ghost start = order@;
        order.push(x);
        proof {
            assert(positions(order@) =~= positions(start).push(x as int));
            if n > 0 {
                assert(positions(start).last() == start[n - 1]);
            }
        }
    } else {
        let last = order[n - 1];
        let ghost start = order@;
        order.pop();
        proof {
            assert(positions(order@) =~= positions(start).drop_last());
            assert(positions(start).last() == last);
        }
        insert_by_name(order, names, x);
        let ghost mid = order@;
        order.push(last);
        proof {
            assert(positions(order@) =~= positions(mid).push(last as int));
        }
    }
}

/// Where each position stands in the order.
pub open spec fn is_rank_table(ranks: Seq<u64>, order: Seq<int>) -> bool {
    &&& ranks.len() == order.len()
    &&& forall|r: int| 0 <= r < order.len() ==> ranks[#[trigger] order[r]] == r
}

/// Where each position stands in the order.
pub fn rank_table(order: &[usize]) -> (r: Vec<u64>)
    requires
        lists_all(positions(order@), order@.len() as int),
    ensures
        is_rank_table(r@, positions(order@)),
{
    let n = order.len();
    let mut ranks: Vec<u64> = Vec::with_capacity(n);
    let mut i: usize = 0;
    while i < n
        invariant
            0 <= i <= n,
            ranks@.len() == i,
        decreases n - i,
    {
        ranks.push(0);
        i += 1;
    }
    let mut r: usize = 0;
    let ghost all = positions(order@);
    while r < n
        invariant
            0 <= r <= n,
            n == order@.len(),
            ranks@.len() == n,
            all == positions(order@),
            lists_all(all, n as int),
            forall|k: int| 0 <= k < r ==> ranks@[#[trigger] all[k]] == k,
        decreases n - r,
    {
        proof {
            assert(0 <= all[r as int] < n);
        }
        ranks.set(order[r], r as u64);
        proof {
            assert forall|k: int| 0 <= k < r + 1 implies ranks@[#[trigger] all[k]] == k by {
                if k < r {
                    assert(all[k] != all[r as int]);
                }
            }
        }
        r += 1;
    }
    ranks
}

/// Where each position stands in an order.
pub open spec fn ranks_in(order: Seq<int>) -> Seq<u64> {
    Seq::new(order.len(), |x: int| order.index_of(x) as u64)
}

/// The table of ranks is the only one.
pub proof fn lemma_ranks_in(ranks: Seq<u64>, order: Seq<int>)
    requires
        is_rank_table(ranks, order),
        lists_all(order, order.len() as int),
    ensures
        ranks == ranks_in(order),
{
    assert forall|x: int| 0 <= x < ranks.len() implies (#[trigger] ranks[x])
        == order.index_of(x) as u64 by {
        assert(order.contains(x));
        let r = order.index_of(x);
        assert(0 <= r < order.len() && order[r] == x);
        assert(ranks[order[r]] == r);
    }
    assert(ranks =~= ranks_in(order));
}

/// Ordering by key gives the lower key the lower rank, and of equal keys the
/// lower position.
pub proof fn lemma_lower_key_ranks_lower(keys: Seq<u64>, x: int, y: int)
    requires
        0 <= x < keys.len(),
        0 <= y < keys.len(),
        keys.len() <= u64::MAX,
        keys[x] < keys[y] || (keys[x] == keys[y] && x < y),
    ensures
        ({
            let ranks = ranks_in(in_order(by_key(keys), keys.len() as int));
            ranks[x] < ranks[y]
        }),
{
    let n = keys.len() as int;
    let before = by_key(keys);
    let order = in_order(before, n);
    lemma_in_order(before, n);
    lemma_in_order_sorted(before, n);
    lemma_in_order_stable(before, n);
    assert(order.contains(x) && order.contains(y));
    let (i, j) = (order.index_of(x), order.index_of(y));
    assert(0 <= i < n && order[i] == x);
    assert(0 <= j < n && order[j] == y);
    if j < i {
        assert(before(order[j], order[i]));
        assert(!before(order[i], order[j]));
    }
}

/// The names agree before the position, and at it the first has the lower byte.
pub open spec fn is_lower_at(a: Seq<u8>, b: Seq<u8>, i: int) -> bool {
    &&& 0 <= i < a.len()
    &&& i < b.len()
    &&& a.take(i) == b.take(i)
    &&& a[i] < b[i]
}

proof fn lemma_same_before(a: Seq<u8>, b: Seq<u8>, i: int, k: int)
    requires
        0 <= k < i <= a.len(),
        i <= b.len(),
        a.take(i) == b.take(i),
    ensures
        a[k] == b[k],
{
    assert(a.take(i)[k] == a[k]);
    assert(b.take(i)[k] == b[k]);
}

/// The first name is the start of the second.
pub open spec fn is_start_of(a: Seq<u8>, b: Seq<u8>) -> bool {
    a.len() <= b.len() && a == b.take(a.len() as int)
}

/// The first name has the lower byte where they first differ.
pub open spec fn is_lower(a: Seq<u8>, b: Seq<u8>) -> bool {
    exists|k: int| is_lower_at(a, b, k)
}

proof fn lemma_lex_from(a: Seq<u8>, b: Seq<u8>, i: int)
    requires
        0 <= i <= a.len(),
        i <= b.len(),
        a.take(i) == b.take(i),
    ensures
        lex_le(a, b, i) == (is_start_of(a, b) || is_lower(a, b)),
    decreases a.len() - i,
{
    if i == a.len() {
        assert(a.take(i) =~= a);
    } else if i == b.len() {
        if is_lower(a, b) {
            let k = choose|k: int| is_lower_at(a, b, k);
            lemma_same_before(a, b, i, k);
        }
    } else if a[i] != b[i] {
        if a[i] < b[i] {
            assert(is_lower_at(a, b, i));
        }
        if is_start_of(a, b) {
            assert(b.take(a.len() as int)[i] == b[i]);
        }
        if is_lower(a, b) {
            let k = choose|k: int| is_lower_at(a, b, k);
            if k < i {
                lemma_same_before(a, b, i, k);
            } else if k > i {
                lemma_same_before(a, b, k, i);
            }
        }
    } else {
        assert(a.take(i + 1) =~= a.take(i).push(a[i]));
        assert(b.take(i + 1) =~= b.take(i).push(b[i]));
        lemma_lex_from(a, b, i + 1);
    }
}

/// A name comes before another where it is the start of it, or where it has the
/// lower byte at the first place at which they differ.
pub proof fn law_names_are_ordered_bytewise(a: Seq<u8>, b: Seq<u8>)
    ensures
        lex_le(a, b, 0) == (is_start_of(a, b) || is_lower(a, b)),
{
    assert(a.take(0) =~= b.take(0));
    lemma_lex_from(a, b, 0);
}

/// A table of ranks and an order undo each other.
pub proof fn law_ranks_undo_the_order(order: Seq<int>, x: int)
    requires
        lists_all(order, order.len() as int),
        order.len() <= u64::MAX,
        0 <= x < order.len(),
    ensures
        0 <= ranks_in(order)[x] < order.len(),
        order[ranks_in(order)[x] as int] == x,
        ranks_in(order)[order[x]] == x,
{
    assert(order.contains(x));
    let r = order.index_of(x);
    assert(0 <= r < order.len() && order[r] == x);
    let y = order[x];
    assert(order.contains(y));
    let q = order.index_of(y);
    assert(0 <= q < order.len() && order[q] == y);
    assert(q == x) by {
        if q < x {
            assert(order[q] != order[x]);
        } else if x < q {
            assert(order[x] != order[q]);
        }
    }
}

} // verus!
