//! Vectors kept in increasing order, each key at most once.
use crate::addr::{Ipv4Addr, Ipv6Addr, MacAddr};
use vstd::prelude::*;

verus! {

broadcast use vstd::seq::group_seq_axioms;

/// How many of the leading keys lie below `k`: where `k` stands, or would stand,
/// in an increasing sequence.
pub open spec fn slot(keys: Seq<nat>, k: nat) -> int
    decreases keys.len(),
{
    if keys.len() == 0 || keys[0] >= k {
        0
    } else {
        1 + slot(keys.drop_first(), k)
    }
}

/// Does the key stand in its slot?
pub open spec fn present(keys: Seq<nat>, k: nat) -> bool {
    slot(keys, k) < keys.len() && keys[slot(keys, k)] == k
}

/// Each key is below the next.
pub open spec fn increasing(keys: Seq<nat>) -> bool {
    forall|i: int, j: int| 0 <= i < j < keys.len() ==> #[trigger] keys[i] < #[trigger] keys[j]
}

/// The slot parts the keys below `k` from the first one that is not.
pub proof fn lemma_slot(keys: Seq<nat>, k: nat)
    ensures
        0 <= slot(keys, k) <= keys.len(),
        forall|j: int| 0 <= j < slot(keys, k) ==> #[trigger] keys[j] < k,
        slot(keys, k) < keys.len() ==> keys[slot(keys, k)] >= k,
    decreases keys.len(),
{
    if keys.len() > 0 && keys[0] < k {
        let rest = keys.drop_first();
        lemma_slot(rest, k);
        assert forall|j: int| 0 <= j < slot(keys, k) implies #[trigger] keys[j] < k by {
            if j > 0 {
                assert(rest[j - 1] == keys[j]);
            }
        }
        if slot(keys, k) < keys.len() {
            assert(rest[slot(rest, k)] == keys[slot(keys, k)]);
        }
    }
}

/// Whatever parts the keys in that way is the slot.
pub proof fn lemma_slot_is(keys: Seq<nat>, k: nat, i: int)
    requires
        0 <= i <= keys.len(),
        forall|j: int| 0 <= j < i ==> #[trigger] keys[j] < k,
        i < keys.len() ==> keys[i] >= k,
    ensures
        slot(keys, k) == i,
{
    lemma_slot(keys, k);
    let s = slot(keys, k);
    if s < i {
        assert(keys[s] < k);
    }
    if i < s {
        assert(keys[i] < k);
    }
}

/// In increasing order a key that occurs stands in its slot.
pub proof fn lemma_present(keys: Seq<nat>, k: nat)
    requires
        increasing(keys),
    ensures
        present(keys, k) <==> keys.contains(k),
{
    lemma_slot(keys, k);
    if keys.contains(k) {
        let i = choose|i: int| 0 <= i < keys.len() && keys[i] == k;
        assert forall|j: int| 0 <= j < i implies #[trigger] keys[j] < k by {
            assert(keys[j] < keys[i]);
        }
        lemma_slot_is(keys, k, i);
    }
}

/// Putting a missing key into its slot keeps the order.
pub proof fn lemma_insert_keeps_order(keys: Seq<nat>, k: nat)
    requires
        increasing(keys),
        !present(keys, k),
    ensures
        increasing(keys.insert(slot(keys, k), k)),
{
    lemma_slot(keys, k);
    let s = slot(keys, k);
    let r = keys.insert(s, k);
    assert forall|i: int, j: int| 0 <= i < j < r.len() implies #[trigger] r[i] < #[trigger] r[j] by {
        let a = if i < s { i } else { i - 1 };
        let b = if j < s { j } else { j - 1 };
        if i != s {
            assert(r[i] == keys[a]);
        }
        if j != s {
            assert(r[j] == keys[b]);
        }
        if i != s && j != s {
            assert(keys[a] < keys[b]);
        } else if j == s {
            assert(keys[i] < k);
        } else {
            assert(keys[s] > k);
            if s < b {
                assert(keys[s] < keys[b]);
            }
        }
    }
}

/// Taking a key out keeps the order.
pub proof fn lemma_remove_keeps_order(keys: Seq<nat>, i: int)
    requires
        increasing(keys),
        0 <= i < keys.len(),
    ensures
        increasing(keys.remove(i)),
{
    let r = keys.remove(i);
    assert forall|a: int, b: int| 0 <= a < b < r.len() implies #[trigger] r[a] < #[trigger] r[b] by {
        let x = if a < i { a } else { a + 1 };
        let y = if b < i { b } else { b + 1 };
        assert(r[a] == keys[x] && r[b] == keys[y]);
        assert(keys[x] < keys[y]);
    }
}

/// Items that carry a number by which they are kept in order.
pub trait Ranked: Sized {
    /// The number an item is ordered by.
    spec fn rank(&self) -> nat;

    /// Computes that number.
    fn rank_number(&self) -> (r: u128)
        ensures
            r == self.rank(),
    ;
}

/// The numbers a sequence of items is ordered by.
pub open spec fn ranks<T: Ranked>(s: Seq<T>) -> Seq<nat> {
    Seq::new(s.len(), |i: int| s[i].rank())
}

/// The sequence with `x` in its slot, unless an item with its number stands there.
pub open spec fn inserted<T: Ranked>(s: Seq<T>, x: T) -> Seq<T> {
    if present(ranks(s), x.rank()) {
        s
    } else {
        s.insert(slot(ranks(s), x.rank()), x)
    }
}

/// Finds the slot of a number.
pub fn find_slot<T: Ranked>(v: &Vec<T>, k: u128) -> (r: usize)
    ensures
        r == slot(ranks(v@), k as nat),
        r <= v.len(),
{
    let mut i: usize = 0;
    while i < v.len() && v[i].rank_number() < k
        invariant
            i <= v.len(),
            forall|j: int| 0 <= j < i ==> #[trigger] ranks(v@)[j] < k,
        decreases v.len() - i,
    {
        i = i + 1;
    }
    proof {
        lemma_slot_is(ranks(v@), k as nat, i as int);
    }
    i
}

/// Adds an item in its slot, unless one with its number is there.
pub fn insert_ranked<T: Ranked>(v: &mut Vec<T>, x: T)
    ensures
        final(v)@ == inserted(old(v)@, x),
{
    let k: u128 = x.rank_number();
    let i: usize = find_slot(v, k);
    if i < v.len() && v[i].rank_number() == k {
        return;
    }
    v.insert(i, x);
}

/// The sequence with each item of another added in turn.
pub open spec fn inserted_all<T: Ranked>(s: Seq<T>, more: Seq<T>) -> Seq<T>
    decreases more.len(),
{
    if more.len() == 0 {
        s
    } else {
        inserted(inserted_all(s, more.drop_last()), more.last())
    }
}

/// Adding to an increasing sequence leaves it increasing, and what it holds
/// afterwards is what it held and the new item.
pub proof fn inserted_keeps_order<T: Ranked>(s: Seq<T>, x: T)
    requires
        increasing(ranks(s)),
    ensures
        increasing(ranks(inserted(s, x))),
        ranks(inserted(s, x)).contains(x.rank()),
        forall|k: nat|
            #[trigger] ranks(inserted(s, x)).contains(k) <==> ranks(s).contains(k) || k == x.rank(),
{
    let keys = ranks(s);
    let k = x.rank();
    lemma_slot(keys, k);
    let i = slot(keys, k);
    if present(keys, k) {
        assert(keys[i] == k);
    } else {
        let r = inserted(s, x);
        assert(ranks(r) =~= keys.insert(i, k));
        lemma_insert_keeps_order(keys, k);
        assert(ranks(r)[i] == k);
        assert forall|n: nat| #[trigger] ranks(r).contains(n) <==> keys.contains(n) || n == k by {
            if keys.contains(n) {
                let j = choose|j: int| 0 <= j < keys.len() && keys[j] == n;
                if j < i {
                    assert(ranks(r)[j] == n);
                } else {
                    assert(ranks(r)[j + 1] == n);
                }
            }
            if ranks(r).contains(n) {
                let j = choose|j: int| 0 <= j < ranks(r).len() && ranks(r)[j] == n;
                if j < i {
                    assert(keys[j] == n);
                } else if j > i {
                    assert(keys[j - 1] == n);
                }
            }
        }
    }
}

/// Adding several items leaves an increasing sequence increasing, with the keys of
/// both.
pub proof fn inserted_all_is_union<T: Ranked>(s: Seq<T>, more: Seq<T>)
    requires
        increasing(ranks(s)),
    ensures
        increasing(ranks(inserted_all(s, more))),
        forall|k: nat|
            #[trigger] ranks(inserted_all(s, more)).contains(k) <==> ranks(s).contains(k) || ranks(
                more,
            ).contains(k),
    decreases more.len(),
{
    if more.len() == 0 {
        assert forall|k: nat| !ranks(more).contains(k) by {}
    } else {
        let init = more.drop_last();
        inserted_all_is_union(s, init);
        inserted_keeps_order(inserted_all(s, init), more.last());
        assert(ranks(more) =~= ranks(init).push(more.last().rank()));
        assert forall|k: nat| #[trigger] ranks(inserted_all(s, more)).contains(k) <==> ranks(
            s,
        ).contains(k) || ranks(more).contains(k) by {
            assert(ranks(inserted_all(s, more)).contains(k) <==> ranks(
                inserted_all(s, init),
            ).contains(k) || k == more.last().rank());
            let m = ranks(more);
            if ranks(init).contains(k) {
                let j = choose|j: int| 0 <= j < init.len() && ranks(init)[j] == k;
                assert(m[j] == k);
            }
            if k == more.last().rank() {
                assert(m[init.len() as int] == k);
            }
            if m.contains(k) {
                let j = choose|j: int| 0 <= j < m.len() && m[j] == k;
                if j < init.len() {
                    assert(ranks(init)[j] == k);
                }
            }
        }
    }
}

/// Where no two items have the same number, a sequence holds afterwards what it held
/// and the new item, and nothing else.
pub proof fn inserted_holds<T: Ranked>(s: Seq<T>, x: T, y: T)
    requires
        forall|a: T, b: T| #[trigger] a.rank() == #[trigger] b.rank() ==> a == b,
    ensures
        inserted(s, x).contains(y) <==> s.contains(y) || y == x,
{
    let keys = ranks(s);
    let i = slot(keys, x.rank());
    let r = inserted(s, x);
    lemma_slot(keys, x.rank());
    if present(keys, x.rank()) {
        assert(s[i].rank() == x.rank());
        assert(s[i] == x);
    } else {
        assert(r[i] == x);
        if s.contains(y) {
            let j = choose|j: int| 0 <= j < s.len() && s[j] == y;
            assert(r[if j < i { j } else { j + 1 }] == y);
        }
        if r.contains(y) {
            let j = choose|j: int| 0 <= j < r.len() && r[j] == y;
            if j != i {
                assert(s[if j < i { j } else { j - 1 }] == y);
            }
        }
    }
}

/// The same for several items.
pub proof fn inserted_all_holds<T: Ranked>(s: Seq<T>, more: Seq<T>, y: T)
    requires
        forall|a: T, b: T| #[trigger] a.rank() == #[trigger] b.rank() ==> a == b,
    ensures
        inserted_all(s, more).contains(y) <==> s.contains(y) || more.contains(y),
    decreases more.len(),
{
    if more.len() > 0 {
        let init = more.drop_last();
        inserted_all_holds(s, init, y);
        inserted_holds(inserted_all(s, init), more.last(), y);
        if init.contains(y) {
            let j = choose|j: int| 0 <= j < init.len() && init[j] == y;
            assert(more[j] == y);
        }
        if more.contains(y) {
            let j = choose|j: int| 0 <= j < more.len() && more[j] == y;
            if j < init.len() {
                assert(init[j] == y);
            }
        }
        if y == more.last() {
            assert(more[more.len() - 1] == y);
        }
    }
}

/// Two increasing sequences of keys that hold the same keys are the same.
pub proof fn increasing_is_unique(a: Seq<nat>, b: Seq<nat>)
    requires
        increasing(a),
        increasing(b),
        forall|k: nat| #[trigger] a.contains(k) <==> b.contains(k),
    ensures
        a == b,
    decreases a.len(),
{
    if a.len() == 0 {
        if b.len() > 0 {
            assert(b.contains(b[0]));
            assert(a.contains(b[0]));
        }
        assert(a =~= b);
    } else {
        assert(a.contains(a.last()));
        assert(b.contains(a.last()));
        let i = choose|i: int| 0 <= i < b.len() && b[i] == a.last();
        assert(b.contains(b.last()));
        assert(a.contains(b.last()));
        let j = choose|j: int| 0 <= j < a.len() && a[j] == b.last();
        if i < b.len() - 1 {
            assert(b[i] < b.last());
        }
        if j < a.len() - 1 {
            assert(a[j] < a.last());
        }
        assert(a.last() == b.last());
        let x = a.drop_last();
        let y = b.drop_last();
        assert forall|k: nat| #[trigger] x.contains(k) <==> y.contains(k) by {
            if x.contains(k) {
                let p = choose|p: int| 0 <= p < x.len() && x[p] == k;
                assert(a[p] == k && a[p] < a.last());
                assert(a.contains(k));
                let q = choose|q: int| 0 <= q < b.len() && b[q] == k;
                assert(y[q] == k);
            }
            if y.contains(k) {
                let p = choose|p: int| 0 <= p < y.len() && y[p] == k;
                assert(b[p] == k && b[p] < b.last());
                assert(b.contains(k));
                assert(a.contains(k));
                let q = choose|q: int| 0 <= q < a.len() && a[q] == k;
                assert(x[q] == k);
            }
        }
        increasing_is_unique(x, y);
        assert(a =~= x.push(a.last()));
        assert(b =~= y.push(b.last()));
    }
}

// ---------------------------------------------------------------------
// Filtered sequences
// ---------------------------------------------------------------------

/// Filtering one item more keeps it or not.
pub proof fn lemma_filter_step<A>(s: Seq<A>, i: int, p: spec_fn(A) -> bool)
    requires
        0 <= i < s.len(),
    ensures
        s.take(i + 1).filter(p) == (if p(s[i]) {
            s.take(i).filter(p).push(s[i])
        } else {
            s.take(i).filter(p)
        }),
{
    assert(s.take(i + 1).drop_last() =~= s.take(i));
    assert(s.take(i + 1).last() == s[i]);
    reveal(Seq::filter);
}

/// Filtering keeps everything where the test always holds.
pub proof fn lemma_filter_all<A>(s: Seq<A>, p: spec_fn(A) -> bool)
    requires
        forall|i: int| 0 <= i < s.len() ==> p(#[trigger] s[i]),
    ensures
        s.filter(p) == s,
    decreases s.len(),
{
    reveal(Seq::filter);
    if s.len() > 0 {
        let t = s.drop_last();
        assert forall|i: int| 0 <= i < t.len() implies p(#[trigger] t[i]) by {
            assert(t[i] == s[i]);
        }
        lemma_filter_all(t, p);
        assert(p(s[s.len() - 1]));
        assert(s =~= t.push(s.last()));
    } else {
        assert(s.filter(p) =~= s);
    }
}

/// Filtering keeps nothing where the test never holds.
pub proof fn lemma_filter_none<A>(s: Seq<A>, p: spec_fn(A) -> bool)
    requires
        forall|i: int| 0 <= i < s.len() ==> !p(#[trigger] s[i]),
    ensures
        s.filter(p) == Seq::<A>::empty(),
    decreases s.len(),
{
    reveal(Seq::filter);
    if s.len() > 0 {
        let t = s.drop_last();
        assert forall|i: int| 0 <= i < t.len() implies !p(#[trigger] t[i]) by {
            assert(t[i] == s[i]);
        }
        lemma_filter_none(t, p);
        assert(!p(s[s.len() - 1]));
    } else {
        assert(s.filter(p) =~= s);
    }
}

/// What comes behind a list comes behind what is left of it.
pub proof fn lemma_filter_push<A>(s: Seq<A>, x: A, p: spec_fn(A) -> bool)
    ensures
        s.push(x).filter(p) == (if p(x) {
            s.filter(p).push(x)
        } else {
            s.filter(p)
        }),
{
    assert(s.push(x).drop_last() =~= s);
    reveal(Seq::filter);
}

/// Leaving items out of a list brings none in twice.
pub proof fn lemma_filter_keeps_distinct<A>(s: Seq<A>, p: spec_fn(A) -> bool)
    requires
        s.no_duplicates(),
    ensures
        s.filter(p).no_duplicates(),
    decreases s.len(),
{
    reveal(Seq::filter);
    if s.len() > 0 {
        let init = s.drop_last();
        lemma_filter_keeps_distinct(init, p);
        let f = init.filter(p);
        if p(s.last()) {
            assert forall|i: int| 0 <= i < f.len() implies f[i] != s.last() by {
                assert(f.contains(f[i]));
                init.lemma_filter_contains_rev(p, f[i]);
                let k = choose|k: int| 0 <= k < init.len() && init[k] == f[i];
                assert(s[k] != s[s.len() - 1]);
            }
            assert(s.filter(p) == f.push(s.last()));
        }
    }
}

/// Filtering keeps exactly the items that the test holds of.
pub proof fn lemma_filter_holds<A>(s: Seq<A>, p: spec_fn(A) -> bool, x: A)
    ensures
        s.filter(p).contains(x) <==> s.contains(x) && p(x),
{
    if s.contains(x) && p(x) {
        let i = choose|i: int| 0 <= i < s.len() && s[i] == x;
        s.lemma_filter_contains(p, i);
    }
    if s.filter(p).contains(x) {
        let i = choose|i: int| 0 <= i < s.filter(p).len() && s.filter(p)[i] == x;
        s.lemma_filter_pred(p, i);
        s.lemma_filter_contains_rev(p, x);
    }
}

// ---------------------------------------------------------------------
// The order of addresses
// ---------------------------------------------------------------------

impl Ranked for Ipv4Addr {
    open spec fn rank(&self) -> nat {
        self.bits as nat
    }

    fn rank_number(&self) -> (r: u128) {
        self.bits as u128
    }
}

impl Ranked for Ipv6Addr {
    open spec fn rank(&self) -> nat {
        self.bits as nat
    }

    fn rank_number(&self) -> (r: u128) {
        self.bits
    }
}

impl Ranked for MacAddr {
    open spec fn rank(&self) -> nat {
        self.number()
    }

    fn rank_number(&self) -> (r: u128) {
        self.as_number() as u128
    }
}

} // verus!
