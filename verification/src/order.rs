//! Lexicographic orders and a stable sort.

use std::cmp::Ordering;

use vstd::prelude::*;

use crate::text::{chars_of, views};

verus! {

/// The code points of a text.
pub open spec fn codes(s: Seq<char>) -> Seq<int> {
    s.map_values(|c: char| c as int)
}

/// The order of two integers.
pub open spec fn int_order(a: int, b: int) -> Ordering {
    if a < b {
        Ordering::Less
    } else if a > b {
        Ordering::Greater
    } else {
        Ordering::Equal
    }
}

/// The lexicographic order of integer sequences.
pub open spec fn word_order(a: Seq<int>, b: Seq<int>) -> Ordering
    decreases a.len(),
{
    if a.len() == 0 && b.len() == 0 {
        Ordering::Equal
    } else if a.len() == 0 {
        Ordering::Less
    } else if b.len() == 0 {
        Ordering::Greater
    } else if a[0] != b[0] {
        int_order(a[0], b[0])
    } else {
        word_order(a.drop_first(), b.drop_first())
    }
}

/// The order of texts: by code points, from the left.
pub open spec fn text_order(a: Seq<char>, b: Seq<char>) -> Ordering {
    word_order(codes(a), codes(b))
}

/// The lexicographic order of sort keys. A key is a list of words.
pub open spec fn key_order(a: Seq<Seq<int>>, b: Seq<Seq<int>>) -> Ordering
    decreases a.len(),
{
    if a.len() == 0 && b.len() == 0 {
        Ordering::Equal
    } else if a.len() == 0 {
        Ordering::Less
    } else if b.len() == 0 {
        Ordering::Greater
    } else if word_order(a[0], b[0]) != Ordering::Equal {
        word_order(a[0], b[0])
    } else {
        key_order(a.drop_first(), b.drop_first())
    }
}

/// Whether `a` does not come after `b` in the order of keys.
pub open spec fn key_leq(a: Seq<Seq<int>>, b: Seq<Seq<int>>) -> bool {
    key_order(a, b) != Ordering::Greater
}

pub open spec fn flip(o: Ordering) -> Ordering {
    match o {
        Ordering::Less => Ordering::Greater,
        Ordering::Equal => Ordering::Equal,
        Ordering::Greater => Ordering::Less,
    }
}

pub proof fn lemma_word_order_equal(a: Seq<int>, b: Seq<int>)
    ensures
        word_order(a, b) == Ordering::Equal <==> a == b,
    decreases a.len(),
{
    if a.len() > 0 && b.len() > 0 && a[0] == b[0] {
        lemma_word_order_equal(a.drop_first(), b.drop_first());
        if a.drop_first() == b.drop_first() {
            assert(a =~= seq![a[0]] + a.drop_first());
            assert(b =~= seq![b[0]] + b.drop_first());
        }
    } else if a.len() == 0 && b.len() == 0 {
        assert(a =~= b);
    }
}

pub proof fn lemma_word_order_flip(a: Seq<int>, b: Seq<int>)
    ensures
        word_order(b, a) == flip(word_order(a, b)),
    decreases a.len(),
{
    if a.len() > 0 && b.len() > 0 && a[0] == b[0] {
        lemma_word_order_flip(a.drop_first(), b.drop_first());
    }
}

pub proof fn lemma_word_order_transitive(a: Seq<int>, b: Seq<int>, c: Seq<int>)
    requires
        word_order(a, b) != Ordering::Greater,
        word_order(b, c) != Ordering::Greater,
    ensures
        word_order(a, c) != Ordering::Greater,
        word_order(a, b) == Ordering::Less || word_order(b, c) == Ordering::Less ==> word_order(a, c)
            == Ordering::Less,
    decreases a.len(),
{
    if a.len() > 0 && b.len() > 0 && c.len() > 0 && a[0] == b[0] && b[0] == c[0] {
        lemma_word_order_transitive(a.drop_first(), b.drop_first(), c.drop_first());
    }
}

/// Two keys are level only if they are the same.
pub proof fn lemma_key_order_equal(a: Seq<Seq<int>>, b: Seq<Seq<int>>)
    ensures
        key_order(a, b) == Ordering::Equal <==> a == b,
    decreases a.len(),
{
    if a.len() > 0 && b.len() > 0 {
        lemma_word_order_equal(a[0], b[0]);
        if a[0] == b[0] {
            lemma_key_order_equal(a.drop_first(), b.drop_first());
            if a.drop_first() == b.drop_first() {
                assert(a =~= seq![a[0]] + a.drop_first());
                assert(b =~= seq![b[0]] + b.drop_first());
            }
        }
    } else if a.len() == 0 && b.len() == 0 {
        assert(a =~= b);
    }
}

/// The order of keys is the same read from either side.
pub proof fn lemma_key_order_flip(a: Seq<Seq<int>>, b: Seq<Seq<int>>)
    ensures
        key_order(b, a) == flip(key_order(a, b)),
    decreases a.len(),
{
    if a.len() > 0 && b.len() > 0 {
        lemma_word_order_flip(a[0], b[0]);
        if word_order(a[0], b[0]) == Ordering::Equal {
            lemma_key_order_flip(a.drop_first(), b.drop_first());
        }
    }
}

/// The order of keys is transitive.
pub proof fn lemma_key_order_transitive(a: Seq<Seq<int>>, b: Seq<Seq<int>>, c: Seq<Seq<int>>)
    requires
        key_leq(a, b),
        key_leq(b, c),
    ensures
        key_leq(a, c),
    decreases a.len(),
{
    if a.len() > 0 && b.len() > 0 && c.len() > 0 {
        lemma_word_order_transitive(a[0], b[0], c[0]);
        lemma_word_order_equal(a[0], b[0]);
        lemma_word_order_equal(b[0], c[0]);
        lemma_word_order_equal(a[0], c[0]);
        if a[0] == b[0] && b[0] == c[0] {
            lemma_key_order_transitive(a.drop_first(), b.drop_first(), c.drop_first());
        }
    }
}

/// A key put together from its first word and the rest.
pub proof fn lemma_key_order_step(x: Seq<int>, a: Seq<Seq<int>>, y: Seq<int>, b: Seq<Seq<int>>)
    ensures
        key_order(seq![x] + a, seq![y] + b) == (if word_order(x, y) != Ordering::Equal {
            word_order(x, y)
        } else {
            key_order(a, b)
        }),
{
    assert((seq![x] + a).drop_first() =~= a);
    assert((seq![y] + b).drop_first() =~= b);
}

/// The order of two numbers.
pub fn compare_number(a: u16, b: u16) -> (r: Ordering)
    ensures
        r == word_order(seq![a + 0], seq![b + 0]),
        r == word_order(seq![0 - b], seq![0 - a]),
{
    proof {
        reveal_with_fuel(word_order, 2);
    }
    if a < b {
        Ordering::Less
    } else if b < a {
        Ordering::Greater
    } else {
        Ordering::Equal
    }
}

/// The order of two texts.
pub fn compare_text(a: &str, b: &str) -> (r: Ordering)
    ensures
        r == text_order(a@, b@),
{
    let av = chars_of(a);
    let bv = chars_of(b);
    let n: usize = av.len();
    let m: usize = bv.len();
    let mut i: usize = 0;
    assert(codes(a@).skip(0) =~= codes(a@));
    assert(codes(b@).skip(0) =~= codes(b@));
    while i < n && i < m
        invariant
            av@ == a@,
            bv@ == b@,
            n == a@.len(),
            m == b@.len(),
            i <= n,
            i <= m,
            text_order(a@, b@) == word_order(codes(a@).skip(i + 0), codes(b@).skip(i + 0)),
        decreases n - i,
    {
        let x = av[i];
        let y = bv[i];
        assert(codes(a@).skip(i + 0)[0] == codes(a@)[i + 0]);
        assert(codes(b@).skip(i + 0)[0] == codes(b@)[i + 0]);
        if x < y {
            return Ordering::Less;
        }
        if y < x {
            return Ordering::Greater;
        }
        assert(codes(a@).skip(i + 0).drop_first() =~= codes(a@).skip(i + 1));
        assert(codes(b@).skip(i + 0).drop_first() =~= codes(b@).skip(i + 1));
        i = i + 1;
    }
    if n < m {
        Ordering::Less
    } else if m < n {
        Ordering::Greater
    } else {
        Ordering::Equal
    }
}

// ---------------------------------------------------------------------------
// Stable sort
// ---------------------------------------------------------------------------

/// `t` with `x` put in front of the first item that `x` does not come after.
pub open spec fn place<T>(x: T, t: Seq<T>, leq: spec_fn(T, T) -> bool) -> Seq<T>
    decreases t.len(),
{
    if t.len() == 0 || leq(x, t[0]) {
        seq![x] + t
    } else {
        seq![t[0]] + place(x, t.drop_first(), leq)
    }
}

/// `s` in the order `leq`; items that are level keep their order.
pub open spec fn stable_sort<T>(s: Seq<T>, leq: spec_fn(T, T) -> bool) -> Seq<T>
    decreases s.len(),
{
    if s.len() == 0 {
        s
    } else {
        place(s[0], stable_sort(s.drop_first(), leq), leq)
    }
}

proof fn lemma_place<T>(x: T, t: Seq<T>, leq: spec_fn(T, T) -> bool, p: int)
    requires
        0 <= p <= t.len(),
        forall|j: int| 0 <= j < p ==> !leq(x, #[trigger] t[j]),
        p == t.len() || leq(x, t[p]),
    ensures
        place(x, t, leq) == t.insert(p, x),
    decreases t.len(),
{
    if t.len() == 0 || leq(x, t[0]) {
        assert(p == 0);
        assert(seq![x] + t =~= t.insert(0, x));
    } else {
        assert(p > 0);
        let u = t.drop_first();
        assert forall|j: int| 0 <= j < p - 1 implies !leq(x, #[trigger] u[j]) by {
            assert(u[j] == t[j + 1]);
        }
        assert(p - 1 == u.len() || u[p - 1] == t[p]);
        lemma_place(x, u, leq, p - 1);
        assert(seq![t[0]] + u.insert(p - 1, x) =~= t.insert(p, x));
    }
}

/// Sorts by `first`, which tells whether its left argument does not come after
/// its right one.
pub(crate) fn stable_sort_by<T, F: Fn(&T, &T) -> bool>(
    items: Vec<T>,
    first: F,
    Ghost(leq): Ghost<spec_fn(T, T) -> bool>,
) -> (r: Vec<T>)
    requires
        forall|a: &T, b: &T| #[trigger] call_requires(first, (a, b)),
        forall|a: &T, b: &T, o: bool| #[trigger]
            call_ensures(first, (a, b), o) ==> o == leq(*a, *b),
    ensures
        r@ == stable_sort(items@, leq),
{
    let mut rest = items;
    let mut out: Vec<T> = Vec::new();
    let ghost all = rest@;
    assert(all.skip(all.len() as int) =~= Seq::<T>::empty());
    while rest.len() > 0
        invariant
            rest@.len() <= all.len(),
            rest@ == all.take(rest@.len() as int),
            out@ == stable_sort(all.skip(rest@.len() as int), leq),
            forall|a: &T, b: &T| #[trigger] call_requires(first, (a, b)),
            forall|a: &T, b: &T, o: bool| #[trigger]
                call_ensures(first, (a, b), o) ==> o == leq(*a, *b),
        decreases rest@.len(),
    {
        let ghost k = rest@.len() - 1;
        let item = rest.pop().unwrap();
        assert(item == all[k]);
        let n: usize = out.len();
        let mut p: usize = 0;
        while p < n && !first(&item, &out[p])
            invariant
                n == out@.len(),
                p <= n,
                forall|j: int| 0 <= j < p ==> !leq(item, #[trigger] out@[j]),
                forall|a: &T, b: &T| #[trigger] call_requires(first, (a, b)),
                forall|a: &T, b: &T, o: bool| #[trigger]
                    call_ensures(first, (a, b), o) ==> o == leq(*a, *b),
            ensures
                p == n || leq(item, out@[p as int]),
                n == out@.len(),
                p <= n,
                forall|j: int| 0 <= j < p ==> !leq(item, #[trigger] out@[j]),
            decreases n - p,
        {
            p = p + 1;
        }
        proof {
            lemma_place(item, out@, leq, p as int);
            assert(all.skip(k).drop_first() =~= all.skip(k + 1));
            assert(all.skip(k)[0] == all[k]);
            assert(rest@ =~= all.take(k));
        }
        out.insert(p, item);
    }
    assert(all.skip(0) =~= all);
    out
}

/// Sorts by `first`, which goes by what the two items look like.
pub(crate) fn sort_by_view<T: View, F: Fn(&T, &T) -> bool>(
    items: Vec<T>,
    first: F,
    Ghost(view_leq): Ghost<spec_fn(T::V, T::V) -> bool>,
) -> (r: Vec<T>)
    requires
        forall|a: &T, b: &T| #[trigger] call_requires(first, (a, b)),
        forall|a: &T, b: &T, o: bool| #[trigger]
            call_ensures(first, (a, b), o) ==> o == view_leq(a@, b@),
    ensures
        views(r@) == stable_sort(views(items@), view_leq),
{
    let ghost leq = |a: T, b: T| view_leq(a@, b@);
    proof {
        lemma_stable_sort_views(items@, leq, view_leq);
    }
    stable_sort_by(items, first, Ghost(leq))
}

/// Whether `leq` compares any two items and is transitive.
pub open spec fn total_preorder<T>(leq: spec_fn(T, T) -> bool) -> bool {
    &&& forall|a: T, b: T| #[trigger] leq(a, b) || leq(b, a)
    &&& forall|a: T, b: T, c: T| #[trigger] leq(a, b) && #[trigger] leq(b, c) ==> leq(a, c)
}

/// Whether each item of `s` comes no later in the order than those behind it.
pub open spec fn sorted<T>(s: Seq<T>, leq: spec_fn(T, T) -> bool) -> bool {
    forall|i: int, j: int| 0 <= i < j < s.len() ==> leq(#[trigger] s[i], #[trigger] s[j])
}

proof fn lemma_place_sorted<T>(x: T, t: Seq<T>, leq: spec_fn(T, T) -> bool)
    requires
        total_preorder(leq),
        sorted(t, leq),
    ensures
        sorted(place(x, t, leq), leq),
        place(x, t, leq).to_multiset() == t.to_multiset().insert(x),
    decreases t.len(),
{
    broadcast use vstd::seq_lib::group_to_multiset_ensures;

    let r = place(x, t, leq);
    if t.len() == 0 || leq(x, t[0]) {
        assert forall|i: int, j: int| 0 <= i < j < r.len() implies leq(
            #[trigger] r[i],
            #[trigger] r[j],
        ) by {
            if i == 0 {
                assert(r[j] == t[j - 1]);
                if j > 1 {
                    assert(leq(t[0], t[j - 1]));
                    assert(leq(x, t[0]));
                }
            } else {
                assert(r[i] == t[i - 1] && r[j] == t[j - 1]);
            }
        }
        assert(r =~= t.insert(0, x));
        vstd::seq_lib::lemma_multiset_commutative(seq![x], t);
        assert(seq![x].to_multiset() =~= vstd::multiset::Multiset::empty().insert(x)) by {
            assert(seq![x] =~= Seq::<T>::empty().push(x));
        }
        assert(r.to_multiset() =~= t.to_multiset().insert(x));
    } else {
        let u = t.drop_first();
        let q = place(x, u, leq);
        assert(sorted(u, leq)) by {
            assert forall|i: int, j: int| 0 <= i < j < u.len() implies leq(
                #[trigger] u[i],
                #[trigger] u[j],
            ) by {
                assert(u[i] == t[i + 1] && u[j] == t[j + 1]);
            }
        }
        lemma_place_sorted(x, u, leq);
        assert forall|i: int, j: int| 0 <= i < j < r.len() implies leq(
            #[trigger] r[i],
            #[trigger] r[j],
        ) by {
            if i > 0 {
                assert(r[i] == q[i - 1] && r[j] == q[j - 1]);
            } else {
                assert(r[0] == t[0]);
                assert(r[j] == q[j - 1]);
                assert(q.to_multiset().count(q[j - 1]) > 0) by {
                    assert(q.contains(q[j - 1]));
                }
                if q[j - 1] != x {
                    assert(u.to_multiset().count(q[j - 1]) > 0);
                    assert(u.contains(q[j - 1]));
                    let m = choose|m: int| 0 <= m < u.len() && u[m] == q[j - 1];
                    assert(t[m + 1] == q[j - 1]);
                    assert(leq(t[0], t[m + 1]));
                } else {
                    assert(leq(x, t[0]) || leq(t[0], x));
                }
            }
        }
        assert(t =~= seq![t[0]] + u);
        vstd::seq_lib::lemma_multiset_commutative(seq![t[0]], u);
        vstd::seq_lib::lemma_multiset_commutative(seq![t[0]], q);
        assert(r.to_multiset() =~= t.to_multiset().insert(x));
    }
}

/// A sorted list is in order, and holds what the list held.
pub proof fn lemma_stable_sort_sorted<T>(s: Seq<T>, leq: spec_fn(T, T) -> bool)
    requires
        total_preorder(leq),
    ensures
        sorted(stable_sort(s, leq), leq),
        stable_sort(s, leq).to_multiset() == s.to_multiset(),
        stable_sort(s, leq).len() == s.len(),
    decreases s.len(),
{
    broadcast use vstd::seq_lib::group_to_multiset_ensures;

    if s.len() > 0 {
        let u = s.drop_first();
        lemma_stable_sort_sorted(u, leq);
        lemma_place_sorted(s[0], stable_sort(u, leq), leq);
        assert(s =~= seq![s[0]] + u);
        vstd::seq_lib::lemma_multiset_commutative(seq![s[0]], u);
        assert(seq![s[0]].to_multiset() =~= vstd::multiset::Multiset::empty().insert(s[0])) by {
            assert(seq![s[0]] =~= Seq::<T>::empty().push(s[0]));
        }
        assert(s.to_multiset() =~= u.to_multiset().insert(s[0]));
    }
    assert(stable_sort(s, leq).len() == stable_sort(s, leq).to_multiset().len());
    assert(s.len() == s.to_multiset().len());
}

/// However items are put in order, those at one place are level with each other.
pub proof fn lemma_sorted_level<T>(s: Seq<T>, t: Seq<T>, leq: spec_fn(T, T) -> bool)
    requires
        total_preorder(leq),
        sorted(s, leq),
        sorted(t, leq),
        s.to_multiset() == t.to_multiset(),
    ensures
        s.len() == t.len(),
        forall|i: int| 0 <= i < s.len() ==> leq(#[trigger] s[i], t[i]) && leq(t[i], s[i]),
    decreases s.len(),
{
    broadcast use vstd::seq_lib::group_to_multiset_ensures;

    assert(s.len() == s.to_multiset().len());
    assert(t.len() == t.to_multiset().len());
    if s.len() > 0 {
        let n = s.len() - 1;
        let top = s[n];
        assert(s.contains(top));
        assert(t.to_multiset().count(top) > 0);
        assert(t.contains(top));
        let k = choose|k: int| 0 <= k < t.len() && t[k] == top;
        let u = s.remove(n);
        let v = t.remove(k);
        assert(u.to_multiset() =~= s.to_multiset().remove(top));
        assert(v.to_multiset() =~= t.to_multiset().remove(top));
        assert(sorted(u, leq));
        assert(sorted(v, leq));
        lemma_sorted_level(u, v, leq);
        assert forall|j: int| 0 <= j < t.len() implies leq(#[trigger] t[j], top) by {
            assert(t.contains(t[j]));
            assert(s.to_multiset().count(t[j]) > 0);
            assert(s.contains(t[j]));
            let m = choose|m: int| 0 <= m < s.len() && s[m] == t[j];
            if m < n {
                assert(leq(s[m], s[n]));
            } else {
                assert(leq(top, top));
            }
        }
        assert forall|i: int| 0 <= i < s.len() implies leq(#[trigger] s[i], t[i]) && leq(
            t[i],
            s[i],
        ) by {
            if k <= i {
                assert(leq(t[k], t[i])) by {
                    if k == i {
                        assert(leq(top, top));
                    }
                }
            }
            if i < n {
                assert(u[i] == s[i]);
                assert(leq(u[i], v[i]) && leq(v[i], u[i]));
                if i < k {
                    assert(v[i] == t[i]);
                } else {
                    assert(v[i] == t[i + 1]);
                    assert(leq(t[k], t[i + 1]));
                    assert(leq(t[i + 1], top) && leq(top, t[i]));
                    assert(leq(t[i], top) && leq(top, t[i + 1]));
                    assert(leq(t[i + 1], t[i]));
                    assert(leq(t[i], t[i + 1]));
                }
            }
        }
    }
}

/// There is one way to put items in an order that tells them all apart.
pub proof fn lemma_sorted_unique<T>(s: Seq<T>, t: Seq<T>, leq: spec_fn(T, T) -> bool)
    requires
        sorted(s, leq),
        sorted(t, leq),
        s.to_multiset() == t.to_multiset(),
        forall|i: int, j: int|
            0 <= i < s.len() && 0 <= j < s.len() && leq(#[trigger] s[i], #[trigger] s[j]) && leq(
                s[j],
                s[i],
            ) ==> s[i] == s[j],
    ensures
        s == t,
    decreases s.len(),
{
    broadcast use vstd::seq_lib::group_to_multiset_ensures;

    assert(s.len() == s.to_multiset().len());
    assert(t.len() == t.to_multiset().len());
    if s.len() > 0 {
        assert(s.to_multiset().count(t[0]) > 0) by {
            assert(t.contains(t[0]));
        }
        assert(t.to_multiset().count(s[0]) > 0) by {
            assert(s.contains(s[0]));
        }
        assert(s.contains(t[0]));
        assert(t.contains(s[0]));
        let k = choose|k: int| 0 <= k < s.len() && s[k] == t[0];
        let m = choose|m: int| 0 <= m < t.len() && t[m] == s[0];
        if k != 0 && m != 0 {
            assert(leq(s[0], s[k]));
            assert(leq(t[0], t[m]));
        }
        assert(s[0] == t[0]);
        let u = s.drop_first();
        let v = t.drop_first();
        assert forall|i: int, j: int| 0 <= i < j < u.len() implies leq(
            #[trigger] u[i],
            #[trigger] u[j],
        ) by {
            assert(u[i] == s[i + 1] && u[j] == s[j + 1]);
        }
        assert forall|i: int, j: int| 0 <= i < j < v.len() implies leq(
            #[trigger] v[i],
            #[trigger] v[j],
        ) by {
            assert(v[i] == t[i + 1] && v[j] == t[j + 1]);
        }
        assert forall|i: int, j: int|
            0 <= i < u.len() && 0 <= j < u.len() && leq(#[trigger] u[i], #[trigger] u[j]) && leq(
                u[j],
                u[i],
            ) implies u[i] == u[j] by {
            assert(u[i] == s[i + 1] && u[j] == s[j + 1]);
        }
        assert(u.to_multiset() =~= s.to_multiset().remove(s[0])) by {
            assert(s =~= seq![s[0]] + u);
            assert(u =~= s.remove(0));
        }
        assert(v.to_multiset() =~= t.to_multiset().remove(t[0])) by {
            assert(v =~= t.remove(0));
        }
        lemma_sorted_unique(u, v, leq);
        assert(s =~= seq![s[0]] + u);
        assert(t =~= seq![t[0]] + v);
    } else {
        assert(s =~= t);
    }
}

/// Items that are level with each other keep their order: those of one class
/// stand in the sorted list as they stood in the list.
pub proof fn lemma_stable_sort_stable<T>(
    s: Seq<T>,
    leq: spec_fn(T, T) -> bool,
    class: spec_fn(T) -> bool,
)
    requires
        forall|a: T, b: T| class(a) && class(b) ==> #[trigger] leq(a, b),
    ensures
        stable_sort(s, leq).filter(class) == s.filter(class),
    decreases s.len(),
{
    if s.len() > 0 {
        let u = s.drop_first();
        lemma_stable_sort_stable(u, leq, class);
        lemma_place_filter(s[0], stable_sort(u, leq), leq, class);
        assert(s =~= seq![s[0]] + u);
        Seq::filter_distributes_over_add(seq![s[0]], u, class);
    }
}

proof fn lemma_place_filter<T>(
    x: T,
    t: Seq<T>,
    leq: spec_fn(T, T) -> bool,
    class: spec_fn(T) -> bool,
)
    requires
        forall|a: T, b: T| class(a) && class(b) ==> #[trigger] leq(a, b),
    ensures
        place(x, t, leq).filter(class) == seq![x].filter(class) + t.filter(class),
    decreases t.len(),
{
    if t.len() == 0 || leq(x, t[0]) {
        Seq::filter_distributes_over_add(seq![x], t, class);
    } else {
        let u = t.drop_first();
        lemma_place_filter(x, u, leq, class);
        Seq::filter_distributes_over_add(seq![t[0]], place(x, u, leq), class);
        assert(t =~= seq![t[0]] + u);
        Seq::filter_distributes_over_add(seq![t[0]], u, class);
        assert(seq![t[0]].filter(class) =~= if class(t[0]) {
            seq![t[0]]
        } else {
            Seq::empty()
        }) by {
            reveal_with_fuel(Seq::filter, 2);
            assert(seq![t[0]].drop_last() =~= Seq::<T>::empty());
        }
        assert(seq![x].filter(class) =~= if class(x) {
            seq![x]
        } else {
            Seq::empty()
        }) by {
            reveal_with_fuel(Seq::filter, 2);
            assert(seq![x].drop_last() =~= Seq::<T>::empty());
        }
        assert(place(x, t, leq).filter(class) =~= seq![x].filter(class) + t.filter(class));
    }
}

/// Sorting commutes with taking views, where the order speaks of views only.
pub proof fn lemma_stable_sort_views<T: View>(
    s: Seq<T>,
    leq: spec_fn(T, T) -> bool,
    view_leq: spec_fn(T::V, T::V) -> bool,
)
    requires
        forall|a: T, b: T| #[trigger] leq(a, b) == view_leq(a@, b@),
    ensures
        views(stable_sort(s, leq)) == stable_sort(views(s), view_leq),
    decreases s.len(),
{
    if s.len() == 0 {
        assert(views(s) =~= Seq::<T::V>::empty());
    } else {
        let u = s.drop_first();
        lemma_stable_sort_views(u, leq, view_leq);
        lemma_place_views(s[0], stable_sort(u, leq), leq, view_leq);
        assert(views(s).drop_first() =~= views(u));
    }
}

proof fn lemma_place_views<T: View>(
    x: T,
    t: Seq<T>,
    leq: spec_fn(T, T) -> bool,
    view_leq: spec_fn(T::V, T::V) -> bool,
)
    requires
        forall|a: T, b: T| #[trigger] leq(a, b) == view_leq(a@, b@),
    ensures
        views(place(x, t, leq)) == place(x@, views(t), view_leq),
    decreases t.len(),
{
    let v = views(t);
    if t.len() == 0 || leq(x, t[0]) {
        assert(views(seq![x] + t) =~= seq![x@] + v);
    } else {
        lemma_place_views(x, t.drop_first(), leq, view_leq);
        assert(v.drop_first() =~= views(t.drop_first()));
        assert(views(seq![t[0]] + place(x, t.drop_first(), leq)) =~= seq![t[0]@]
            + views(place(x, t.drop_first(), leq)));
    }
}

/// The order of texts tells equal texts apart from all others, and reads the
/// same from either side.
pub proof fn lemma_text_order(a: Seq<char>, b: Seq<char>)
    ensures
        text_order(a, b) == Ordering::Equal <==> a == b,
        text_order(b, a) == flip(text_order(a, b)),
{
    lemma_word_order_equal(codes(a), codes(b));
    lemma_word_order_flip(codes(a), codes(b));
    if codes(a) == codes(b) {
        assert(a =~= b) by {
            assert forall|i: int| 0 <= i < a.len() implies a[i] == b[i] by {
                assert(codes(a)[i] == codes(b)[i]);
            }
            assert(a.len() == codes(a).len());
            assert(b.len() == codes(b).len());
        }
    }
}

pub proof fn lemma_text_transitive(a: Seq<char>, b: Seq<char>, c: Seq<char>)
    requires
        text_order(a, b) == Ordering::Less,
        text_order(b, c) == Ordering::Less,
    ensures
        text_order(a, c) == Ordering::Less,
{
    lemma_word_order_transitive(
        codes(a),
        codes(b),
        codes(c),
    );
}


// ---------------------------------------------------------------------------
// Sorted sets of texts
// ---------------------------------------------------------------------------

/// `list` with `t` in its place, unless it is there.
pub open spec fn sorted_insert(list: Seq<Seq<char>>, t: Seq<char>) -> Seq<Seq<char>>
    decreases list.len(),
{
    if list.len() == 0 {
        seq![t]
    } else {
        match text_order(t, list[0]) {
            Ordering::Less => seq![t] + list,
            Ordering::Equal => list,
            Ordering::Greater => seq![list[0]] + sorted_insert(list.drop_first(), t),
        }
    }
}

/// The texts of `list`, each once, in order.
pub open spec fn sorted_set(list: Seq<Seq<char>>) -> Seq<Seq<char>>
    decreases list.len(),
{
    if list.len() == 0 {
        Seq::empty()
    } else {
        sorted_insert(sorted_set(list.drop_last()), list.last())
    }
}

/// Whether the texts strictly increase.
pub open spec fn increasing(list: Seq<Seq<char>>) -> bool {
    forall|i: int, j: int|
        0 <= i < j < list.len() ==> text_order(#[trigger] list[i], #[trigger] list[j])
            == Ordering::Less
}

pub proof fn lemma_sorted_insert(list: Seq<Seq<char>>, t: Seq<char>)
    requires
        increasing(list),
    ensures
        increasing(sorted_insert(list, t)),
        forall|x: Seq<char>| #[trigger]
            sorted_insert(list, t).contains(x) <==> x == t || list.contains(x),
    decreases list.len(),
{
    let r = sorted_insert(list, t);
    if list.len() == 0 {
        assert(r[0] == t);
        assert forall|x: Seq<char>| #[trigger] r.contains(x) implies x == t by {}
    } else {
        lemma_text_order(t, list[0]);
        match text_order(t, list[0]) {
            Ordering::Less => {
                assert forall|i: int, j: int| 0 <= i < j < r.len() implies text_order(
                    #[trigger] r[i],
                    #[trigger] r[j],
                ) == Ordering::Less by {
                    assert(r[j] == list[j - 1]);
                    if i > 0 {
                        assert(r[i] == list[i - 1]);
                    } else if j > 1 {
                        assert(text_order(list[0], list[j - 1]) == Ordering::Less);
                        lemma_text_transitive(t, list[0], list[j - 1]);
                    }
                }
                assert forall|x: Seq<char>| #[trigger] r.contains(x) <==> x == t || list.contains(
                    x,
                ) by {
                    if r.contains(x) {
                        let k = choose|k: int| 0 <= k < r.len() && r[k] == x;
                        if k > 0 {
                            assert(list[k - 1] == x);
                        }
                    }
                    if list.contains(x) {
                        let k = choose|k: int| 0 <= k < list.len() && list[k] == x;
                        assert(r[k + 1] == x);
                    }
                    assert(r[0] == t);
                }
            },
            Ordering::Equal => {
                assert(list[0] == t);
            },
            Ordering::Greater => {
                let rest = list.drop_first();
                assert forall|i: int, j: int| 0 <= i < j < rest.len() implies text_order(
                    #[trigger] rest[i],
                    #[trigger] rest[j],
                ) == Ordering::Less by {
                    assert(rest[i] == list[i + 1] && rest[j] == list[j + 1]);
                }
                lemma_sorted_insert(rest, t);
                let q = sorted_insert(rest, t);
                assert forall|i: int, j: int| 0 <= i < j < r.len() implies text_order(
                    #[trigger] r[i],
                    #[trigger] r[j],
                ) == Ordering::Less by {
                    assert(r[j] == q[j - 1]);
                    if i > 0 {
                        assert(r[i] == q[i - 1]);
                    } else {
                        assert(q.contains(q[j - 1]));
                        if q[j - 1] != t {
                            let k = choose|k: int| 0 <= k < rest.len() && rest[k] == q[j - 1];
                            assert(list[k + 1] == q[j - 1]);
                            assert(text_order(list[0], list[k + 1]) == Ordering::Less);
                        }
                    }
                }
                assert forall|x: Seq<char>| #[trigger] r.contains(x) <==> x == t || list.contains(
                    x,
                ) by {
                    if r.contains(x) {
                        let k = choose|k: int| 0 <= k < r.len() && r[k] == x;
                        if k > 0 {
                            assert(q[k - 1] == x);
                            assert(q.contains(x));
                            if rest.contains(x) {
                                let m = choose|m: int| 0 <= m < rest.len() && rest[m] == x;
                                assert(list[m + 1] == x);
                            }
                        } else {
                            assert(list[0] == x);
                        }
                    }
                    if list.contains(x) {
                        let k = choose|k: int| 0 <= k < list.len() && list[k] == x;
                        if k > 0 {
                            assert(rest[k - 1] == x);
                            assert(rest.contains(x));
                        } else {
                            assert(r[0] == x);
                        }
                    }
                    if q.contains(x) {
                        let k = choose|k: int| 0 <= k < q.len() && q[k] == x;
                        assert(r[k + 1] == x);
                    }
                    if x == t {
                        assert(q.contains(t));
                    }
                }
            },
        }
    }
}

/// A sorted set is in strict order and holds what the list holds.
pub proof fn lemma_sorted_set(list: Seq<Seq<char>>)
    ensures
        increasing(sorted_set(list)),
        forall|x: Seq<char>| #[trigger] sorted_set(list).contains(x) <==> list.contains(x),
    decreases list.len(),
{
    if list.len() > 0 {
        let rest = list.drop_last();
        lemma_sorted_set(rest);
        lemma_sorted_insert(sorted_set(rest), list.last());
        assert forall|x: Seq<char>| #[trigger] sorted_set(list).contains(x) <==> list.contains(
            x,
        ) by {
            if list.contains(x) {
                let k = choose|k: int| 0 <= k < list.len() && list[k] == x;
                if k < rest.len() {
                    assert(rest[k] == x);
                    assert(rest.contains(x));
                    assert(sorted_set(rest).contains(x));
                }
            }
            if rest.contains(x) {
                let k = choose|k: int| 0 <= k < rest.len() && rest[k] == x;
                assert(list[k] == x);
            }
            assert(list[list.len() - 1] == list.last());
            if sorted_set(list).contains(x) && x != list.last() {
                assert(sorted_set(rest).contains(x));
            }
        }
    }
}

proof fn lemma_increasing_rest(a: Seq<Seq<char>>, b: Seq<Seq<char>>)
    requires
        increasing(a),
        increasing(b),
        forall|x: Seq<char>| a.contains(x) ==> b.contains(x),
        a.len() > 0,
        b.len() > 0,
        a[0] == b[0],
    ensures
        increasing(a.drop_first()),
        forall|x: Seq<char>| a.drop_first().contains(x) ==> b.drop_first().contains(x),
{
    let rest = a.drop_first();
    assert forall|i: int, j: int| 0 <= i < j < rest.len() implies text_order(
        #[trigger] rest[i],
        #[trigger] rest[j],
    ) == Ordering::Less by {
        assert(rest[i] == a[i + 1] && rest[j] == a[j + 1]);
    }
    assert forall|x: Seq<char>| rest.contains(x) implies b.drop_first().contains(x) by {
        let k = choose|k: int| 0 <= k < rest.len() && rest[k] == x;
        assert(a[k + 1] == x);
        assert(text_order(a[0], a[k + 1]) == Ordering::Less);
        lemma_text_order(a[0], x);
        assert(b.contains(x));
        let m = choose|m: int| 0 <= m < b.len() && b[m] == x;
        assert(b.drop_first()[m - 1] == x);
    }
}

/// Texts that increase are told by which texts they are.
pub proof fn lemma_increasing_unique(a: Seq<Seq<char>>, b: Seq<Seq<char>>)
    requires
        increasing(a),
        increasing(b),
        forall|x: Seq<char>| a.contains(x) <==> b.contains(x),
    ensures
        a == b,
    decreases a.len(),
{
    if a.len() == 0 {
        if b.len() > 0 {
            assert(b.contains(b[0]));
            assert(a.contains(b[0]));
        }
        assert(a =~= b);
    } else {
        assert(a.contains(a[0]));
        assert(b.contains(a[0]));
        let k = choose|k: int| 0 <= k < b.len() && b[k] == a[0];
        assert(b.contains(b[0]));
        assert(a.contains(b[0]));
        let m = choose|m: int| 0 <= m < a.len() && a[m] == b[0];
        lemma_text_order(a[0], b[0]);
        if k > 0 {
            assert(text_order(b[0], b[k]) == Ordering::Less);
            if m > 0 {
                assert(text_order(a[0], a[m]) == Ordering::Less);
            }
        }
        assert(a[0] == b[0]);
        lemma_increasing_rest(a, b);
        lemma_increasing_rest(b, a);
        lemma_increasing_unique(a.drop_first(), b.drop_first());
        assert(a =~= seq![a[0]] + a.drop_first());
        assert(b =~= seq![b[0]] + b.drop_first());
    }
}

/// Neither the order nor the repetition of texts shows in what is kept of them.
pub proof fn law_sorted_set_is_by_content(a: Seq<Seq<char>>, b: Seq<Seq<char>>)
    requires
        forall|x: Seq<char>| a.contains(x) <==> b.contains(x),
    ensures
        sorted_set(a) == sorted_set(b),
{
    lemma_sorted_set(a);
    lemma_sorted_set(b);
    assert forall|x: Seq<char>| sorted_set(a).contains(x) <==> sorted_set(b).contains(x) by {
        assert(a.contains(x) <==> b.contains(x));
    }
    lemma_increasing_unique(sorted_set(a), sorted_set(b));
}

/// Puts `t` into a sorted set.
pub fn insert_sorted(list: &mut Vec<String>, t: String)
    ensures
        views(final(list)@) == sorted_insert(views(old(list)@), t@),
{
    let ghost all = views(list@);
    let n: usize = list.len();
    let mut i: usize = 0;
    assert(all.take(0) + sorted_insert(all.skip(0), t@) =~= sorted_insert(all, t@)) by {
        assert(all.skip(0) =~= all);
    }
    while i < n
        invariant
            n == list@.len(),
            all == views(list@),
            all == views(old(list)@),
            i <= n,
            all.take(i + 0) + sorted_insert(all.skip(i + 0), t@) == sorted_insert(all, t@),
        decreases n - i,
    {
        let ghost rest = all.skip(i + 0);
        assert(rest[0] == list@[i + 0]@);
        match compare_text(t.as_str(), list[i].as_str()) {
            Ordering::Less => {
                list.insert(i, t);
                assert(views(list@) =~= all.take(i + 0) + (seq![t@] + rest));
                return ;
            },
            Ordering::Equal => {
                assert(all =~= all.take(i + 0) + rest);
                return ;
            },
            Ordering::Greater => {
                assert(all.skip(i + 1) =~= rest.drop_first());
                assert(all.take(i + 1) + sorted_insert(all.skip(i + 1), t@) =~= all.take(i + 0) + (
                seq![rest[0]] + sorted_insert(rest.drop_first(), t@)));
                i = i + 1;
            },
        }
    }
    list.push(t);
    assert(all.skip(i + 0) =~= Seq::<Seq<char>>::empty());
    assert(views(list@) =~= all.take(i + 0) + seq![t@]);
}

/// The texts of `list`, each once, in order.
pub fn sort_texts(list: &Vec<String>) -> (r: Vec<String>)
    ensures
        views(r@) == sorted_set(views(list@)),
{
    let ghost all = views(list@);
    let mut r: Vec<String> = Vec::new();
    let n: usize = list.len();
    assert(views(r@) =~= sorted_set(all.take(0)));
    for i in 0..n
        invariant
            n == list@.len(),
            all == views(list@),
            views(r@) == sorted_set(all.take(i + 0)),
    {
        proof {
            assert(all.take(i + 1).drop_last() =~= all.take(i + 0));
            assert(all.take(i + 1).last() == list@[i + 0]@);
        }
        insert_sorted(&mut r, list[i].clone());
    }
    assert(all.take(n + 0) =~= all);
    r
}

/// Texts are ordered by the first place at which they differ, and a text comes before
/// those that it begins.
pub proof fn law_first_difference_orders_texts(a: Seq<char>, b: Seq<char>, k: int)
    requires
        0 <= k <= a.len(),
        k <= b.len(),
        forall|i: int| 0 <= i < k ==> a[i] == b[i],
    ensures
        k < a.len() && k < b.len() && a[k] < b[k] ==> text_order(a, b) == Ordering::Less,
        k < a.len() && k < b.len() && a[k] > b[k] ==> text_order(a, b) == Ordering::Greater,
        k == a.len() && k < b.len() ==> text_order(a, b) == Ordering::Less,
        k < a.len() && k == b.len() ==> text_order(a, b) == Ordering::Greater,
        k == a.len() && k == b.len() ==> text_order(a, b) == Ordering::Equal,
{
    lemma_first_difference(codes(a), codes(b), k);
}

proof fn lemma_first_difference(a: Seq<int>, b: Seq<int>, k: int)
    requires
        0 <= k <= a.len(),
        k <= b.len(),
        forall|i: int| 0 <= i < k ==> a[i] == b[i],
    ensures
        k < a.len() && k < b.len() && a[k] < b[k] ==> word_order(a, b) == Ordering::Less,
        k < a.len() && k < b.len() && a[k] > b[k] ==> word_order(a, b) == Ordering::Greater,
        k == a.len() && k < b.len() ==> word_order(a, b) == Ordering::Less,
        k < a.len() && k == b.len() ==> word_order(a, b) == Ordering::Greater,
        k == a.len() && k == b.len() ==> word_order(a, b) == Ordering::Equal,
    decreases k,
{
    if k > 0 {
        lemma_first_difference(a.drop_first(), b.drop_first(), k - 1);
    }
}

} // verus!
