//! Stable sorting by a key of three integers.
use vstd::prelude::*;

verus! {

/// A sort key: three integers, compared from the first to the last.
pub type SortKey = (u64, u64, u64);

/// `a` comes before `b`, or the two are equal.
pub open spec fn key_le(a: SortKey, b: SortKey) -> bool {
    a.0 < b.0 || (a.0 == b.0 && (a.1 < b.1 || (a.1 == b.1 && a.2 <= b.2)))
}

/// No item of `s` comes before an earlier one.
pub open spec fn in_order<T>(s: Seq<T>, key: spec_fn(T) -> SortKey) -> bool {
    forall|i: int, j: int|
        0 <= i < j < s.len() ==> key_le(#[trigger] key(s[i]), #[trigger] key(s[j]))
}

/// The place behind the last item of `s` whose key is not above `x`.
pub open spec fn place_for<T>(s: Seq<T>, key: spec_fn(T) -> SortKey, x: SortKey) -> int
    decreases s.len(),
{
    if s.len() == 0 {
        0
    } else if key_le(key(s.last()), x) {
        s.len() as int
    } else {
        place_for(s.drop_last(), key, x)
    }
}

/// `s` in the order of its keys; items with one key keep their order.
pub open spec fn sorted_by<T>(s: Seq<T>, key: spec_fn(T) -> SortKey) -> Seq<T>
    decreases s.len(),
{
    if s.len() == 0 {
        s
    } else {
        let front = sorted_by(s.drop_last(), key);
        front.insert(place_for(front, key, key(s.last())), s.last())
    }
}

/// The items of `s` whose key is `x`, in their order.
pub open spec fn keyed<T>(s: Seq<T>, key: spec_fn(T) -> SortKey, x: SortKey) -> Seq<T> {
    s.filter(|t: T| key(t) == x)
}

proof fn lemma_place<T>(s: Seq<T>, key: spec_fn(T) -> SortKey, x: SortKey)
    requires
        in_order(s, key),
    ensures
        0 <= place_for(s, key, x) <= s.len(),
        forall|i: int| 0 <= i < place_for(s, key, x) ==> key_le(#[trigger] key(s[i]), x),
        forall|i: int|
            place_for(s, key, x) <= i < s.len() ==> !key_le(#[trigger] key(s[i]), x),
    decreases s.len(),
{
    if s.len() > 0 && !key_le(key(s.last()), x) {
        let t = s.drop_last();
        assert forall|i: int, j: int| 0 <= i < j < t.len() implies key_le(
            #[trigger] key(t[i]),
            #[trigger] key(t[j]),
        ) by {
            assert(t[i] == s[i] && t[j] == s[j]);
        }
        lemma_place(t, key, x);
        assert forall|i: int| 0 <= i < place_for(s, key, x) implies key_le(
            #[trigger] key(s[i]),
            x,
        ) by {
            assert(t[i] == s[i]);
        }
        assert forall|i: int| place_for(s, key, x) <= i < s.len() implies !key_le(
            #[trigger] key(s[i]),
            x,
        ) by {
            if i < t.len() {
                assert(t[i] == s[i]);
            }
        }
    } else if s.len() > 0 {
        assert forall|i: int| 0 <= i < s.len() implies key_le(#[trigger] key(s[i]), x) by {
            if i < s.len() - 1 {
                assert(key_le(key(s[i]), key(s[s.len() - 1])));
            }
        }
    }
}

/// Sorting puts the items in the order of their keys, keeps each of them as
/// often as it was there, and keeps the order among items with one key.
pub proof fn law_sorted<T>(s: Seq<T>, key: spec_fn(T) -> SortKey)
    ensures
        in_order(sorted_by(s, key), key),
        sorted_by(s, key).to_multiset() == s.to_multiset(),
        sorted_by(s, key).len() == s.len(),
        forall|x: SortKey| #[trigger] keyed(sorted_by(s, key), key, x) == keyed(s, key, x),
    decreases s.len(),
{
    if s.len() > 0 {
        let t = s.drop_last();
        let last = s.last();
        law_sorted(t, key);
        let front = sorted_by(t, key);
        lemma_place(front, key, key(last));
        let p = place_for(front, key, key(last));
        let all = front.insert(p, last);
        assert forall|i: int, j: int| 0 <= i < j < all.len() implies key_le(
            #[trigger] key(all[i]),
            #[trigger] key(all[j]),
        ) by {
            let a = if i < p { i } else { i - 1 };
            let b = if j < p { j } else { j - 1 };
            if i != p && j != p {
                assert(all[i] == front[a] && all[j] == front[b]);
            } else if i == p {
                assert(all[j] == front[b]);
            } else {
                assert(all[i] == front[a]);
            }
        }
        broadcast use vstd::seq_lib::group_to_multiset_ensures;

        assert(s =~= t.push(last));
        assert(all.to_multiset() =~= s.to_multiset());
        assert forall|x: SortKey| #[trigger] keyed(all, key, x) == keyed(s, key, x) by {
            lemma_keyed_insert(front, key, p, last, x);
            assert(keyed(front, key, x) == keyed(t, key, x));
            lemma_keyed_push(t, key, last, x);
        }
    }
}

/// Lists with the same items, no two of which have one key, come out of
/// sorting the same, whatever their order was.
pub proof fn law_sorting_forgets_the_order<T>(a: Seq<T>, b: Seq<T>, key: spec_fn(T) -> SortKey)
    requires
        a.to_multiset() == b.to_multiset(),
        distinct_keys(a, key),
    ensures
        sorted_by(a, key) == sorted_by(b, key),
{
    law_sorted(a, key);
    law_sorted(b, key);
    let x = sorted_by(a, key);
    let y = sorted_by(b, key);
    assert forall|u: T, v: T|
        (#[trigger] x.contains(u) && #[trigger] x.contains(v) && key(u) == key(v)) implies u == v by {
        broadcast use vstd::seq_lib::group_to_multiset_ensures;

        assert(a.contains(u)) by {
            assert(x.to_multiset().count(u) > 0);
        }
        assert(a.contains(v)) by {
            assert(x.to_multiset().count(v) > 0);
        }
    }
    assert forall|i: int, j: int| 0 <= i < j < x.len() implies x[i] != x[j] by {
        if x[i] == x[j] {
            lemma_twice(x, i, j);
            lemma_once(a, x[i]);
        }
    }
    lemma_ordered_is_unique(x, y, key);
}

/// No two items of `s` have one key.
pub open spec fn distinct_keys<T>(s: Seq<T>, key: spec_fn(T) -> SortKey) -> bool {
    &&& s.no_duplicates()
    &&& forall|u: T, v: T|
        (#[trigger] s.contains(u) && #[trigger] s.contains(v) && key(u) == key(v)) ==> u == v
}

proof fn lemma_twice<T>(s: Seq<T>, i: int, j: int)
    requires
        0 <= i < j < s.len(),
        s[i] == s[j],
    ensures
        s.to_multiset().count(s[i]) >= 2,
{
    broadcast use vstd::seq_lib::group_to_multiset_ensures;

    let t = s.remove(j);
    assert(t.insert(j, s[j]) =~= s);
    assert(s.to_multiset() =~= t.to_multiset().insert(s[j]));
    assert(t[i] == s[i]);
    assert(t.contains(s[i]));
    assert(t.to_multiset().count(s[i]) > 0);
}

proof fn lemma_once<T>(s: Seq<T>, v: T)
    requires
        s.no_duplicates(),
    ensures
        s.to_multiset().count(v) <= 1,
{
    broadcast use vstd::seq_lib::group_to_multiset_ensures;

    s.lemma_multiset_has_no_duplicates();
    if s.to_multiset().count(v) > 0 {
        assert(s.to_multiset().contains(v));
    }
}

/// Two lists in order that hold the same items, no two of which have one key,
/// are the same.
pub proof fn law_one_order<T>(a: Seq<T>, b: Seq<T>, key: spec_fn(T) -> SortKey)
    requires
        in_order(a, key),
        in_order(b, key),
        a.no_duplicates(),
        distinct_keys(b, key),
        forall|v: T| #[trigger] a.contains(v) <==> b.contains(v),
    ensures
        a == b,
{
    broadcast use vstd::seq_lib::group_to_multiset_ensures;

    assert forall|v: T| #[trigger] a.to_multiset().count(v) == b.to_multiset().count(v) by {
        lemma_once(a, v);
        lemma_once(b, v);
        assert(a.contains(v) <==> b.contains(v));
    }
    assert(a.to_multiset() =~= b.to_multiset());
    lemma_ordered_is_unique(b, a, key);
}

proof fn lemma_ordered_is_unique<T>(x: Seq<T>, y: Seq<T>, key: spec_fn(T) -> SortKey)
    requires
        in_order(x, key),
        in_order(y, key),
        x.to_multiset() == y.to_multiset(),
        distinct_keys(x, key),
    ensures
        x == y,
    decreases x.len(),
{
    broadcast use vstd::seq_lib::group_to_multiset_ensures;

    assert(x.len() == y.len()) by {
        assert(x.to_multiset().len() == x.len());
        assert(y.to_multiset().len() == y.len());
    }
    if x.len() == 0 {
        assert(x =~= y);
    } else {
        let n = x.len() - 1;
        let u = x[n];
        let v = y[n];
        assert(x.contains(v)) by {
            assert(y.to_multiset().count(v) > 0);
        }
        assert(y.contains(u)) by {
            assert(x.to_multiset().count(u) > 0);
        }
        let i = choose|i: int| 0 <= i < x.len() && x[i] == v;
        let j = choose|j: int| 0 <= j < y.len() && y[j] == u;
        if i < n {
            assert(key_le(key(x[i]), key(x[n])));
        }
        if j < n {
            assert(key_le(key(y[j]), key(y[n])));
        }
        assert(x.contains(u));
        assert(u == v);
        let a = x.drop_last();
        let b = y.drop_last();
        assert(a.push(u) =~= x && b.push(u) =~= y);
        assert(a.to_multiset() =~= b.to_multiset()) by {
            assert(x.to_multiset() =~= a.to_multiset().insert(u));
            assert(y.to_multiset() =~= b.to_multiset().insert(u));
            assert(a.to_multiset() =~= x.to_multiset().remove(u));
            assert(b.to_multiset() =~= y.to_multiset().remove(u));
        }
        assert(in_order(a, key)) by {
            assert forall|p: int, q: int| 0 <= p < q < a.len() implies key_le(
                #[trigger] key(a[p]),
                #[trigger] key(a[q]),
            ) by {
                assert(a[p] == x[p] && a[q] == x[q]);
            }
        }
        assert(in_order(b, key)) by {
            assert forall|p: int, q: int| 0 <= p < q < b.len() implies key_le(
                #[trigger] key(b[p]),
                #[trigger] key(b[q]),
            ) by {
                assert(b[p] == y[p] && b[q] == y[q]);
            }
        }
        assert(distinct_keys(a, key)) by {
            assert forall|p: int, q: int| 0 <= p < q < a.len() implies a[p] != a[q] by {
                assert(a[p] == x[p] && a[q] == x[q]);
            }
            assert forall|c: T, d: T|
                (#[trigger] a.contains(c) && #[trigger] a.contains(d) && key(c) == key(
                    d,
                )) implies c == d by {
                let p = choose|p: int| 0 <= p < a.len() && a[p] == c;
                let q = choose|q: int| 0 <= q < a.len() && a[q] == d;
                assert(x[p] == c && x[q] == d);
                assert(x.contains(c) && x.contains(d));
            }
        }
        lemma_ordered_is_unique(a, b, key);
    }
}

proof fn lemma_keyed_push<T>(s: Seq<T>, key: spec_fn(T) -> SortKey, last: T, x: SortKey)
    ensures
        keyed(s.push(last), key, x) == if key(last) == x {
            keyed(s, key, x).push(last)
        } else {
            keyed(s, key, x)
        },
{
    reveal(Seq::filter);
    assert(s.push(last).drop_last() =~= s);
}

proof fn lemma_keyed_none<T>(s: Seq<T>, key: spec_fn(T) -> SortKey, x: SortKey)
    requires
        forall|i: int| 0 <= i < s.len() ==> #[trigger] key(s[i]) != x,
    ensures
        keyed(s, key, x) == Seq::<T>::empty(),
    decreases s.len(),
{
    reveal(Seq::filter);
    if s.len() > 0 {
        let t = s.drop_last();
        assert forall|i: int| 0 <= i < t.len() implies #[trigger] key(t[i]) != x by {
            assert(t[i] == s[i]);
        }
        lemma_keyed_none(t, key, x);
        assert(key(s[s.len() - 1]) != x);
    }
    assert(keyed(s, key, x) =~= Seq::<T>::empty());
}

proof fn lemma_keyed_insert<T>(
    s: Seq<T>,
    key: spec_fn(T) -> SortKey,
    p: int,
    item: T,
    x: SortKey,
)
    requires
        0 <= p <= s.len(),
        forall|i: int| p <= i < s.len() ==> #[trigger] key(s[i]) != key(item),
    ensures
        keyed(s.insert(p, item), key, x) == if key(item) == x {
            keyed(s, key, x).push(item)
        } else {
            keyed(s, key, x)
        },
{
    let pred = |t: T| key(t) == x;
    let a = s.take(p);
    let b = s.skip(p);
    assert(s =~= a + b);
    assert(s.insert(p, item) =~= a.push(item) + b);
    Seq::filter_distributes_over_add(a, b, pred);
    Seq::filter_distributes_over_add(a.push(item), b, pred);
    lemma_keyed_push(a, key, item, x);
    if key(item) == x {
        assert forall|i: int| 0 <= i < b.len() implies #[trigger] key(b[i]) != x by {
            assert(b[i] == s[i + p]);
        }
        lemma_keyed_none(b, key, x);
        assert(keyed(s, key, x) =~= keyed(a, key, x));
        assert(keyed(s.insert(p, item), key, x) =~= keyed(a, key, x).push(item));
    }
}

/// Whether `a` is at most `b`.
pub fn key_at_most(a: SortKey, b: SortKey) -> (r: bool)
    ensures
        r == key_le(a, b),
{
    a.0 < b.0 || (a.0 == b.0 && (a.1 < b.1 || (a.1 == b.1 && a.2 <= b.2)))
}

/// Sorts the items by the keys that `key_of` gives them, stably. A list that
/// is nearly in order takes time in proportion to its length.
pub(crate) fn sort_by_keys<T, F: Fn(&T) -> SortKey>(
    items: &mut Vec<T>,
    key_of: F,
    Ghost(key): Ghost<spec_fn(T) -> SortKey>,
)
    requires
        forall|t: T| #[trigger] call_requires(key_of, (&t,)),
        forall|t: T, x: SortKey| #[trigger] call_ensures(key_of, (&t,), x) ==> x == key(t),
    ensures
        final(items)@ == sorted_by(old(items)@, key),
{
    let ghost all = items@;
    let n: usize = items.len();
    let mut i: usize = 0;
    assert(all.take(0) =~= Seq::<T>::empty());
    assert(items@ =~= sorted_by(all.take(0), key) + all.skip(0));
    while i < n
        invariant
            i <= n,
            n == all.len(),
            items@.len() == n,
            sorted_by(all.take(i as int), key).len() == i,
            items@ == sorted_by(all.take(i as int), key) + all.skip(i as int),
            forall|t: T| #[trigger] call_requires(key_of, (&t,)),
            forall|t: T, x: SortKey| #[trigger] call_ensures(key_of, (&t,), x) ==> x == key(t),
        decreases n - i,
    {
        let ghost front = sorted_by(all.take(i as int), key);
        let x = key_of(&items[i]);
        assert(items@[i as int] == all[i as int]);
        let mut j: usize = i;
        assert(front.take(i as int) =~= front);
        while j > 0 && !key_at_most(key_of(&items[j - 1]), x)
            invariant
                j <= i < items@.len(),
                front.len() == i,
                forall|a: int| 0 <= a < i ==> front[a] == #[trigger] items@[a],
                place_for(front, key, x) == place_for(front.take(j as int), key, x),
                forall|t: T| #[trigger] call_requires(key_of, (&t,)),
                forall|t: T, y: SortKey| #[trigger]
                    call_ensures(key_of, (&t,), y) ==> y == key(t),
            ensures
                j > 0 ==> key_le(key(front[j - 1]), x),
                place_for(front, key, x) == place_for(front.take(j as int), key, x),
            decreases j,
        {
            assert(front.take(j as int).drop_last() =~= front.take(j - 1));
            j = j - 1;
        }
        assert(place_for(front, key, x) == j);
        let ghost before = items@;
        if j < i {
            let item = items.remove(i);
            items.insert(j, item);
        }
        proof {
            assert(all.take(i + 1).drop_last() =~= all.take(i as int));
            assert(all.take(i + 1).last() == all[i as int]);
            assert(items@ =~= before.remove(i as int).insert(j as int, before[i as int]));
            assert(items@ =~= sorted_by(all.take(i + 1), key) + all.skip(i + 1));
        }
        i += 1;
    }
    assert(all.take(n as int) =~= all);
    assert(items@ =~= sorted_by(all, key));
}

/// Keys in order ascend by their first part, then by the second, then by the
/// third.
pub proof fn law_order_of_keys<T>(s: Seq<T>, key: spec_fn(T) -> SortKey, i: int, j: int)
    requires
        in_order(s, key),
        0 <= i < j < s.len(),
    ensures
        key(s[i]).0 <= key(s[j]).0,
        key(s[i]).0 == key(s[j]).0 ==> key(s[i]).1 <= key(s[j]).1,
        key(s[i]).0 == key(s[j]).0 && key(s[i]).1 == key(s[j]).1 ==> key(s[i]).2 <= key(s[j]).2,
{
    assert(key_le(key(s[i]), key(s[j])));
}

} // verus!
