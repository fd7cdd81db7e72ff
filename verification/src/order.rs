//! Orders on texts and stable sorting.

use vstd::prelude::*;
use vstd::seq_lib::group_seq_properties;

use crate::text::to_chars;

verus! {

/// `a` comes before `b` in the order of their characters.
pub open spec fn text_before(a: Seq<char>, b: Seq<char>) -> bool
    decreases a.len(),
{
    if b.len() == 0 {
        false
    } else if a.len() == 0 {
        true
    } else {
        a[0] < b[0] || (a[0] == b[0] && text_before(a.skip(1), b.skip(1)))
    }
}

pub fn is_text_before(a: &str, b: &str) -> (r: bool)
    ensures
        r == text_before(a@, b@),
{
    let x = to_chars(a);
    let y = to_chars(b);
    let mut i: usize = 0;
    assert(x@.skip(0) =~= x@ && y@.skip(0) =~= y@);
    while i < x.len() && i < y.len()
        invariant
            i <= x.len(),
            i <= y.len(),
            x@ == a@,
            y@ == b@,
            text_before(a@, b@) == text_before(x@.skip(i as int), y@.skip(i as int)),
        decreases x.len() - i,
    {
        assert(x@.skip(i as int).skip(1) =~= x@.skip(i + 1));
        assert(y@.skip(i as int).skip(1) =~= y@.skip(i + 1));
        if x[i] < y[i] {
            return true;
        }
        if y[i] < x[i] {
            return false;
        }
        i = i + 1;
    }
    i < y.len()
}

pub proof fn lemma_text_before_asymmetric(a: Seq<char>, b: Seq<char>)
    requires
        text_before(a, b),
    ensures
        !text_before(b, a),
    decreases a.len(),
{
    if a.len() > 0 && b.len() > 0 && a[0] == b[0] {
        lemma_text_before_asymmetric(a.skip(1), b.skip(1));
    }
}

pub proof fn lemma_text_before_total(a: Seq<char>, b: Seq<char>)
    ensures
        text_before(a, b) || text_before(b, a) || a == b,
    decreases a.len(),
{
    if a.len() > 0 && b.len() > 0 && a[0] == b[0] {
        lemma_text_before_total(a.skip(1), b.skip(1));
        if a.skip(1) == b.skip(1) {
            assert(a =~= seq![a[0]] + a.skip(1));
            assert(b =~= seq![b[0]] + b.skip(1));
        }
    } else if a.len() == 0 && b.len() == 0 {
        assert(a =~= b);
    }
}

pub proof fn lemma_text_before_transitive(a: Seq<char>, b: Seq<char>, c: Seq<char>)
    requires
        text_before(a, b),
        text_before(b, c),
    ensures
        text_before(a, c),
    decreases a.len(),
{
    if a.len() > 0 && a[0] == b[0] && b[0] == c[0] {
        lemma_text_before_transitive(a.skip(1), b.skip(1), c.skip(1));
    }
}

// ---------------------------------------------------------------------------
// Stable sorting
// ---------------------------------------------------------------------------

/// Where `x` goes into a sorted list: behind every item that it does not come before.
pub open spec fn insert_at<A>(s: Seq<A>, x: A, before: spec_fn(A, A) -> bool) -> int
    decreases s.len(),
{
    if s.len() == 0 {
        0
    } else if before(x, s.last()) {
        insert_at(s.drop_last(), x, before)
    } else {
        s.len() as int
    }
}

/// The items in order; items of which neither comes before the other keep their order.
pub open spec fn sorted_by<A>(s: Seq<A>, before: spec_fn(A, A) -> bool) -> Seq<A>
    decreases s.len(),
{
    if s.len() == 0 {
        Seq::empty()
    } else {
        let rest = sorted_by(s.drop_last(), before);
        rest.insert(insert_at(rest, s.last(), before), s.last())
    }
}

/// `before` orders items into classes of equals.
pub open spec fn is_order<A>(before: spec_fn(A, A) -> bool) -> bool {
    &&& forall|a: A, b: A| #[trigger] before(a, b) ==> !before(b, a)
    &&& forall|a: A, b: A, c: A| #![trigger before(a, b), before(b, c)] !before(a, b) && !before(b, c) ==> !before(a, c)
}

pub open spec fn in_order<A>(s: Seq<A>, before: spec_fn(A, A) -> bool) -> bool {
    forall|i: int, j: int| 0 <= i < j < s.len() ==> !before(#[trigger] s[j], #[trigger] s[i])
}

pub proof fn lemma_insert_at<A>(s: Seq<A>, x: A, before: spec_fn(A, A) -> bool)
    ensures
        0 <= insert_at(s, x, before) <= s.len(),
        forall|k: int| insert_at(s, x, before) <= k < s.len() ==> before(x, #[trigger] s[k]),
        insert_at(s, x, before) > 0 ==> !before(x, s[insert_at(s, x, before) - 1]),
    decreases s.len(),
{
    if s.len() > 0 && before(x, s.last()) {
        lemma_insert_at(s.drop_last(), x, before);
        let k0 = insert_at(s, x, before);
        assert forall|k: int| k0 <= k < s.len() implies before(x, #[trigger] s[k]) by {
            if k < s.len() - 1 {
                assert(s.drop_last()[k] == s[k]);
            }
        }
        if k0 > 0 {
            assert(s.drop_last()[k0 - 1] == s[k0 - 1]);
        }
    }
}

/// Sorting puts the items in order and neither loses nor adds any.
pub proof fn law_sorting_orders_and_keeps<A>(s: Seq<A>, before: spec_fn(A, A) -> bool)
    requires
        is_order(before),
    ensures
        in_order(sorted_by(s, before), before),
        sorted_by(s, before).to_multiset() =~= s.to_multiset(),
        sorted_by(s, before).len() == s.len(),
    decreases s.len(),
{
    broadcast use group_seq_properties;
    if s.len() > 0 {
        let rest = sorted_by(s.drop_last(), before);
        let x = s.last();
        law_sorting_orders_and_keeps(s.drop_last(), before);
        let k = insert_at(rest, x, before);
        lemma_insert_at(rest, x, before);
        let all = rest.insert(k, x);
        assert forall|i: int, j: int| 0 <= i < j < all.len() implies !before(
            #[trigger] all[j],
            #[trigger] all[i],
        ) by {
            if j < k {
                assert(all[i] == rest[i] && all[j] == rest[j]);
            } else if i > k {
                assert(all[i] == rest[i - 1] && all[j] == rest[j - 1]);
            } else if i == k {
                assert(all[j] == rest[j - 1]);
                assert(before(x, rest[j - 1]));
            } else if j == k {
                assert(all[i] == rest[i]);
                if i < k - 1 {
                    assert(!before(rest[k - 1], rest[i]));
                    assert(!before(x, rest[k - 1]));
                }
            } else {
                assert(all[i] == rest[i] && all[j] == rest[j - 1]);
            }
        }
        rest.to_multiset_ensures();
        s.drop_last().to_multiset_ensures();
        assert(s =~= s.drop_last().push(x));
        assert(all.to_multiset() =~= rest.to_multiset().insert(x)) by {
            lemma_insert_multiset(rest, k, x);
        }
    } else {
        assert(s =~= Seq::<A>::empty());
    }
}

proof fn lemma_insert_multiset<A>(s: Seq<A>, k: int, x: A)
    requires
        0 <= k <= s.len(),
    ensures
        s.insert(k, x).to_multiset() =~= s.to_multiset().insert(x),
{
    broadcast use vstd::multiset::group_multiset_axioms;

    let t = s.insert(k, x);
    t.to_multiset_ensures();
    assert(t.remove(k) =~= s);
    assert(t[k] == x);
    assert(t.contains(x));
    assert(t.to_multiset() =~= s.to_multiset().insert(x));
}

// ---------------------------------------------------------------------------
// Sorting by places
// ---------------------------------------------------------------------------

/// The places of a list of `n` items.
pub open spec fn places(n: nat) -> Seq<int> {
    Seq::new(n, |i: int| i)
}

/// The items at some places.
pub open spec fn picked<A>(items: Seq<A>, at: Seq<int>) -> Seq<A> {
    Seq::new(at.len(), |i: int| items[at[i]])
}

pub open spec fn as_ints(v: Seq<usize>) -> Seq<int> {
    Seq::new(v.len(), |i: int| v[i] as int)
}

pub open spec fn all_below(at: Seq<int>, n: nat) -> bool {
    forall|i: int| 0 <= i < at.len() ==> 0 <= #[trigger] at[i] < n
}

/// A list whose items can be compared by their places.
pub trait Ranked {
    /// How many items there are.
    spec fn count(&self) -> nat;

    /// The item at `a` comes before the one at `b`.
    spec fn comes_before(&self, a: int, b: int) -> bool;

    fn is_before(&self, a: usize, b: usize) -> (r: bool)
        requires
            a < self.count(),
            b < self.count(),
        ensures
            r == self.comes_before(a as int, b as int),
    ;
}

proof fn lemma_sorted_places(n: nat, before: spec_fn(int, int) -> bool)
    ensures
        all_below(sorted_by(places(n), before), n),
        sorted_by(places(n), before).len() == n,
    decreases n,
{
    if n > 0 {
        let m = (n - 1) as nat;
        assert(places(n).drop_last() =~= places(m));
        lemma_sorted_places(m, before);
        let rest = sorted_by(places(m), before);
        lemma_insert_at(rest, n - 1, before);
        let k = insert_at(rest, n - 1, before);
        let all = rest.insert(k, n - 1);
        assert forall|i: int| 0 <= i < all.len() implies 0 <= #[trigger] all[i] < n by {
            if i < k {
                assert(all[i] == rest[i]);
            } else if i > k {
                assert(all[i] == rest[i - 1]);
            }
        }
    }
}

proof fn lemma_insert_at_picked<A>(
    items: Seq<A>,
    at: Seq<int>,
    x: int,
    before: spec_fn(A, A) -> bool,
)
    requires
        all_below(at, items.len()),
        0 <= x < items.len(),
    ensures
        insert_at(at, x, |a: int, b: int| before(items[a], items[b])) == insert_at(
            picked(items, at),
            items[x],
            before,
        ),
    decreases at.len(),
{
    if at.len() > 0 {
        assert(picked(items, at).drop_last() =~= picked(items, at.drop_last()));
        assert(picked(items, at).last() == items[at.last()]);
        lemma_insert_at_picked(items, at.drop_last(), x, before);
    }
}

/// To sort the places of a list by its items is to sort the list.
pub proof fn lemma_sort_by_places<A>(items: Seq<A>, n: nat, before: spec_fn(A, A) -> bool)
    requires
        n <= items.len(),
    ensures
        all_below(sorted_by(places(n), |a: int, b: int| before(items[a], items[b])), n),
        picked(items, sorted_by(places(n), |a: int, b: int| before(items[a], items[b])))
            == sorted_by(items.take(n as int), before),
    decreases n,
{
    let by = |a: int, b: int| before(items[a], items[b]);
    lemma_sorted_places(n, by);
    if n == 0 {
        assert(picked(items, sorted_by(places(n), by)) =~= sorted_by(items.take(0), before));
    } else {
        let m = (n - 1) as nat;
        assert(places(n).drop_last() =~= places(m));
        assert(items.take(n as int).drop_last() =~= items.take(m as int));
        lemma_sorted_places(m, by);
        lemma_sort_by_places(items, m, before);
        let rest = sorted_by(places(m), by);
        lemma_insert_at_picked(items, rest, n - 1, before);
        lemma_insert_at(rest, n - 1, by);
        let k = insert_at(rest, n - 1, by);
        assert(picked(items, rest.insert(k, n - 1)) =~= picked(items, rest).insert(
            k,
            items[n - 1],
        ));
    }
}

/// The order of the places of a list.
pub open spec fn order_of<T: Ranked>(list: &T) -> spec_fn(int, int) -> bool {
    |a: int, b: int| list.comes_before(a, b)
}

/// Sorts the places of a list.
pub fn sort_places<T: Ranked>(list: &T, n: usize) -> (r: Vec<usize>)
    requires
        n == list.count(),
    ensures
        as_ints(r@) == sorted_by(places(n as nat), order_of(list)),
        all_below(as_ints(r@), n as nat),
        r@.len() == n,
{
    let ghost before = order_of(list);
    let mut out: Vec<usize> = Vec::new();
    let mut i: usize = 0;
    assert(as_ints(out@) =~= sorted_by(places(0), before));
    while i < n
        invariant
            i <= n,
            n == list.count(),
            before == order_of(list),
            as_ints(out@) == sorted_by(places(i as nat), before),
            all_below(as_ints(out@), i as nat),
        decreases n - i,
    {
        let ghost all = as_ints(out@);
        let mut k: usize = out.len();
        assert(all.take(k as int) =~= all);
        loop
            invariant
                k <= out.len(),
                i < n,
                n == list.count(),
                before == order_of(list),
                all == as_ints(out@),
                all_below(all, i as nat),
                insert_at(all, i as int, before) == insert_at(all.take(k as int), i as int, before),
            ensures
                k <= out.len(),
                insert_at(all, i as int, before) == k,
            decreases k,
        {
            if k == 0 {
                break;
            }
            assert(all.take(k as int).drop_last() =~= all.take(k - 1));
            assert(all.take(k as int).last() == all[k - 1]);
            assert(0 <= all[k - 1] < i);
            let other = out[k - 1];
            if !list.is_before(i, other) {
                break;
            }
            k = k - 1;
        }
        out.insert(k, i);
        proof {
            assert(places((i + 1) as nat).drop_last() =~= places(i as nat));
            assert(as_ints(out@) =~= all.insert(k as int, i as int));
            lemma_sorted_places((i + 1) as nat, before);
        }
        i = i + 1;
    }
    proof {
        lemma_sorted_places(n as nat, before);
    }
    out
}

/// To sort the places of a list is to sort its items, where the places compare as the items
/// do.
pub proof fn lemma_sorted_items<A, T: Ranked>(list: &T, items: Seq<A>, before: spec_fn(A, A) -> bool)
    requires
        items.len() == list.count(),
        forall|a: int, b: int|
            0 <= a < items.len() && 0 <= b < items.len() ==> #[trigger] list.comes_before(a, b)
                == before(items[a], items[b]),
    ensures
        picked(items, sorted_by(places(items.len()), order_of(list))) == sorted_by(items, before),
{
    let n = items.len();
    let at = |a: int, b: int| before(items[a], items[b]);
    lemma_sort_by_places(items, n, before);
    assert(items.take(n as int) =~= items);
    lemma_same_order(n, order_of(list), at);
}

proof fn lemma_same_order(n: nat, p: spec_fn(int, int) -> bool, q: spec_fn(int, int) -> bool)
    requires
        forall|a: int, b: int| 0 <= a < n && 0 <= b < n ==> #[trigger] p(a, b) == q(a, b),
    ensures
        sorted_by(places(n), p) == sorted_by(places(n), q),
    decreases n,
{
    if n > 0 {
        let m = (n - 1) as nat;
        assert(places(n).drop_last() =~= places(m));
        lemma_same_order(m, p, q);
        lemma_sorted_places(m, p);
        lemma_same_insert(sorted_by(places(m), p), n - 1, n, p, q);
    }
}

proof fn lemma_same_insert(
    s: Seq<int>,
    x: int,
    n: nat,
    p: spec_fn(int, int) -> bool,
    q: spec_fn(int, int) -> bool,
)
    requires
        all_below(s, n),
        0 <= x < n,
        forall|a: int, b: int| 0 <= a < n && 0 <= b < n ==> #[trigger] p(a, b) == q(a, b),
    ensures
        insert_at(s, x, p) == insert_at(s, x, q),
    decreases s.len(),
{
    if s.len() > 0 {
        assert(0 <= s[s.len() - 1] < n);
        assert forall|i: int| 0 <= i < s.drop_last().len() implies 0 <= #[trigger] s.drop_last()[i]
            < n by {
            assert(0 <= s[i] < n);
        }
        lemma_same_insert(s.drop_last(), x, n, p, q);
    }
}

/// Texts are ordered by the first character in which they differ, and the start of a text comes
/// before the text.
pub proof fn law_the_first_difference_decides(
    p: Seq<char>,
    x: char,
    y: char,
    s: Seq<char>,
    t: Seq<char>,
)
    requires
        x < y,
    ensures
        text_before(p + seq![x] + s, p + seq![y] + t),
        !text_before(p + seq![y] + t, p + seq![x] + s),
        text_before(p, p + seq![x] + s),
        !text_before(p, p),
    decreases p.len(),
{
    let a = p + seq![x] + s;
    let b = p + seq![y] + t;
    if p.len() == 0 {
        assert(a[0] == x && b[0] == y);
    } else {
        let q = p.skip(1);
        law_the_first_difference_decides(q, x, y, s, t);
        assert(a.skip(1) =~= q + seq![x] + s);
        assert(b.skip(1) =~= q + seq![y] + t);
        assert(a[0] == p[0] && b[0] == p[0]);
    }
}

} // verus!
