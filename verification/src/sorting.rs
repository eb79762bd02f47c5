//! Stable sorting by an integer key.
//!
//! The sorts the core depends on (records by energy inside a day bin, day
//! bins by date, aligned records by instant) are all stable ascending sorts
//! by an integer key. One verified insertion sort serves them all; its
//! contract pins the result exactly as the recursive specification
//! [`sort_by_key`], so every caller's output is fully determined by its
//! input.

use vstd::prelude::*;

verus! {

broadcast use vstd::seq_lib::group_to_multiset_ensures;

/// An element carrying an integer sort key.
pub trait HasKey: Sized {
    spec fn skey(&self) -> int;

    /// Whether this element's key is at most the other's.
    fn key_le(&self, other: &Self) -> (b: bool)
        ensures
            b == (self.skey() <= other.skey()),
    ;
}

/// Stable insertion of `x` behind every element whose key is at most
/// `x`'s key.
pub open spec fn insert_sorted<T: HasKey>(s: Seq<T>, x: T) -> Seq<T>
    decreases s.len(),
{
    if s.len() == 0 {
        seq![x]
    } else if s.last().skey() <= x.skey() {
        s.push(x)
    } else {
        insert_sorted(s.drop_last(), x).push(s.last())
    }
}

/// Stable insertion sort, ascending by key; ties keep their input order.
pub open spec fn sort_by_key<T: HasKey>(s: Seq<T>) -> Seq<T>
    decreases s.len(),
{
    if s.len() == 0 {
        Seq::<T>::empty()
    } else {
        insert_sorted(sort_by_key(s.drop_last()), s.last())
    }
}

pub open spec fn sorted_by_key<T: HasKey>(s: Seq<T>) -> bool {
    forall|i: int, j: int| 0 <= i < j < s.len() ==> s[i].skey() <= s[j].skey()
}

pub open spec fn unique_keys<T: HasKey>(s: Seq<T>) -> bool {
    forall|i: int, j: int| 0 <= i < j < s.len() ==> s[i].skey() != s[j].skey()
}

/// Two sequences one insertion apart contain the same elements, up to `x`.
proof fn lemma_contains_via_multiset<T>(a: Seq<T>, b: Seq<T>, x: T)
    requires
        a.to_multiset() == b.to_multiset().insert(x),
    ensures
        forall|y: T| #[trigger] a.contains(y) <==> (b.contains(y) || y == x),
{
    broadcast use vstd::multiset::group_multiset_properties;

    assert forall|y: T| #[trigger] a.contains(y) <==> (b.contains(y) || y == x) by {
        assert(a.contains(y) <==> a.to_multiset().count(y) > 0);
        assert(b.contains(y) <==> b.to_multiset().count(y) > 0);
        if y == x {
            assert(b.to_multiset().insert(x).count(y) == b.to_multiset().count(y) + 1);
        } else {
            assert(b.to_multiset().count(y) == b.to_multiset().insert(x).count(y));
        }
    }
}

/// Sequences with equal multisets contain the same elements.
proof fn lemma_same_contains_via_multiset<T>(a: Seq<T>, b: Seq<T>)
    requires
        a.to_multiset() == b.to_multiset(),
    ensures
        forall|y: T| #[trigger] a.contains(y) <==> b.contains(y),
{
    assert forall|y: T| #[trigger] a.contains(y) <==> b.contains(y) by {
        assert(a.contains(y) <==> a.to_multiset().count(y) > 0);
        assert(b.contains(y) <==> b.to_multiset().count(y) > 0);
    }
}

pub proof fn lemma_insert_sorted_props<T: HasKey>(s: Seq<T>, x: T)
    ensures
        insert_sorted(s, x).len() == s.len() + 1,
        insert_sorted(s, x).to_multiset() == s.to_multiset().insert(x),
        sorted_by_key(s) ==> sorted_by_key(insert_sorted(s, x)),
        forall|y: T| #[trigger] insert_sorted(s, x).contains(y) <==> (s.contains(y) || y == x),
    decreases s.len(),
{
    let r = insert_sorted(s, x);
    if s.len() == 0 {
        assert(r == Seq::<T>::empty().push(x));
        assert(r.to_multiset() =~= s.to_multiset().insert(x));
    } else if s.last().skey() <= x.skey() {
        assert(r == s.push(x));
        assert(sorted_by_key(s) ==> sorted_by_key(r)) by {
            if sorted_by_key(s) {
                assert forall|i: int, j: int| 0 <= i < j < r.len() implies r[i].skey()
                    <= r[j].skey() by {
                    if j < s.len() {
                    } else {
                        assert(r[j] == x);
                        if i < s.len() - 1 {
                            assert(s[i].skey() <= s[s.len() - 1].skey());
                        }
                    }
                }
            }
        }
    } else {
        let dl = s.drop_last();
        lemma_insert_sorted_props(dl, x);
        let rec = insert_sorted(dl, x);
        assert(r == rec.push(s.last()));
        assert(s =~= dl.push(s.last()));
        assert(s.to_multiset() == dl.to_multiset().insert(s.last()));
        assert(r.to_multiset() == rec.to_multiset().insert(s.last()));
        assert(dl.to_multiset().insert(x).insert(s.last()) =~= dl.to_multiset().insert(
            s.last(),
        ).insert(x));
        assert(sorted_by_key(s) ==> sorted_by_key(r)) by {
            if sorted_by_key(s) {
                assert(sorted_by_key(dl)) by {
                    assert forall|i: int, j: int| 0 <= i < j < dl.len() implies dl[i].skey()
                        <= dl[j].skey() by {
                        assert(s[i] == dl[i] && s[j] == dl[j]);
                    }
                }
                assert(sorted_by_key(rec));
                assert forall|i: int, j: int| 0 <= i < j < r.len() implies r[i].skey()
                    <= r[j].skey() by {
                    if j == rec.len() {
                        assert(r[j] == s.last());
                        assert(rec.contains(rec[i]));
                        assert(dl.contains(rec[i]) || rec[i] == x);
                        if dl.contains(rec[i]) {
                            let k = choose|k: int| 0 <= k < dl.len() && dl[k] == rec[i];
                            assert(s[k].skey() <= s[s.len() - 1].skey());
                        }
                    }
                }
            }
        }
    }
    lemma_contains_via_multiset(r, s, x);
}

pub proof fn lemma_sort_by_key_props<T: HasKey>(s: Seq<T>)
    ensures
        sort_by_key(s).len() == s.len(),
        sort_by_key(s).to_multiset() == s.to_multiset(),
        sorted_by_key(sort_by_key(s)),
        forall|y: T| #[trigger] sort_by_key(s).contains(y) <==> s.contains(y),
    decreases s.len(),
{
    if s.len() == 0 {
        assert(sort_by_key(s).to_multiset() =~= s.to_multiset());
    } else {
        let dl = s.drop_last();
        lemma_sort_by_key_props(dl);
        lemma_insert_sorted_props(sort_by_key(dl), s.last());
        assert(s =~= dl.push(s.last()));
        assert(s.to_multiset() == dl.to_multiset().insert(s.last()));
    }
    lemma_same_contains_via_multiset(sort_by_key(s), s);
}

pub proof fn lemma_insert_sorted_unique<T: HasKey>(s: Seq<T>, x: T)
    requires
        unique_keys(s),
        forall|i: int| 0 <= i < s.len() ==> s[i].skey() != x.skey(),
    ensures
        unique_keys(insert_sorted(s, x)),
    decreases s.len(),
{
    let r = insert_sorted(s, x);
    if s.len() == 0 {
    } else if s.last().skey() <= x.skey() {
        assert(r == s.push(x));
        assert forall|i: int, j: int| 0 <= i < j < r.len() implies r[i].skey() != r[j].skey() by {
            if j == s.len() {
                assert(r[i] == s[i] && r[j] == x);
            }
        }
    } else {
        let dl = s.drop_last();
        assert(unique_keys(dl)) by {
            assert forall|i: int, j: int| 0 <= i < j < dl.len() implies dl[i].skey()
                != dl[j].skey() by {
                assert(s[i] == dl[i] && s[j] == dl[j]);
            }
        }
        assert(forall|i: int| 0 <= i < dl.len() ==> dl[i].skey() != x.skey());
        lemma_insert_sorted_unique(dl, x);
        lemma_insert_sorted_props(dl, x);
        let rec = insert_sorted(dl, x);
        assert(r == rec.push(s.last()));
        assert forall|i: int, j: int| 0 <= i < j < r.len() implies r[i].skey() != r[j].skey() by {
            if j == rec.len() {
                assert(r[j] == s.last());
                assert(rec.contains(rec[i]));
                if dl.contains(rec[i]) {
                    let k = choose|k: int| 0 <= k < dl.len() && dl[k] == rec[i];
                    assert(s[k].skey() != s[s.len() - 1].skey());
                } else {
                    assert(rec[i] == x);
                    assert(s[s.len() - 1].skey() != x.skey());
                }
            }
        }
    }
}

pub proof fn lemma_sort_by_key_unique<T: HasKey>(s: Seq<T>)
    requires
        unique_keys(s),
    ensures
        unique_keys(sort_by_key(s)),
    decreases s.len(),
{
    if s.len() == 0 {
    } else {
        let dl = s.drop_last();
        assert(unique_keys(dl)) by {
            assert forall|i: int, j: int| 0 <= i < j < dl.len() implies dl[i].skey()
                != dl[j].skey() by {
                assert(s[i] == dl[i] && s[j] == dl[j]);
            }
        }
        lemma_sort_by_key_unique(dl);
        lemma_sort_by_key_props(dl);
        assert forall|i: int| 0 <= i < sort_by_key(dl).len() implies sort_by_key(dl)[i].skey()
            != s.last().skey() by {
            assert(sort_by_key(dl).contains(sort_by_key(dl)[i]));
            assert(dl.contains(sort_by_key(dl)[i]));
            let k = choose|k: int| 0 <= k < dl.len() && dl[k] == sort_by_key(dl)[i];
            assert(s[k].skey() != s[s.len() - 1].skey());
        }
        lemma_insert_sorted_unique(sort_by_key(dl), s.last());
    }
}

/// Where a stable insertion lands: splitting `s` at a position `p` whose
/// suffix holds exactly the elements with keys above `x`'s.
proof fn lemma_insert_sorted_at<T: HasKey>(s: Seq<T>, x: T, p: int)
    requires
        0 <= p <= s.len(),
        forall|k: int| p <= k < s.len() ==> s[k].skey() > x.skey(),
        p > 0 ==> s[p - 1].skey() <= x.skey(),
    ensures
        insert_sorted(s, x) == s.take(p) + seq![x] + s.skip(p),
    decreases s.len(),
{
    if s.len() == 0 {
        assert(insert_sorted(s, x) =~= s.take(p) + seq![x] + s.skip(p));
    } else if p == s.len() {
        assert(s.last().skey() <= x.skey());
        assert(insert_sorted(s, x) == s.push(x));
        assert(s.push(x) =~= s.take(p) + seq![x] + s.skip(p));
    } else {
        assert(s[s.len() - 1].skey() > x.skey());
        assert(!(s.last().skey() <= x.skey()));
        let dl = s.drop_last();
        lemma_insert_sorted_at(dl, x, p);
        assert(insert_sorted(s, x) == insert_sorted(dl, x).push(s.last()));
        assert(dl.take(p) =~= s.take(p));
        assert(dl.skip(p).push(s.last()) =~= s.skip(p));
        assert((dl.take(p) + seq![x] + dl.skip(p)).push(s.last()) =~= s.take(p) + seq![x] + s.skip(
            p,
        ));
    }
}

/// Sort the vector stably ascending by key: the result is exactly the
/// recursive stable insertion sort of the input.
pub fn sort_vec<T: HasKey>(v: &mut Vec<T>)
    ensures
        final(v)@ == sort_by_key(old(v)@),
{
    let ghost orig = v@;
    let n = v.len();
    let mut i: usize = 0;
    while i < n
        invariant
            i <= n == orig.len(),
            v@.len() == n,
            v@.skip(i as int) == orig.skip(i as int),
            v@.take(i as int) == sort_by_key(orig.take(i as int)),
        decreases n - i,
    {
        let ghost u = v@;
        assert(u[i as int] == orig[i as int]) by {
            assert(u.skip(i as int)[0] == u[i as int]);
            assert(orig.skip(i as int)[0] == orig[i as int]);
        }
        let mut p: usize = i;
        while p > 0 && !(v[p - 1].key_le(&v[i]))
            invariant
                0 <= p <= i < n,
                v@ == u,
                u.len() == n,
                forall|k: int| p <= k < i ==> u[k].skey() > u[i as int].skey(),
            decreases p,
        {
            p = p - 1;
        }
        proof {
            let ghost xg = u[i as int];
            assert forall|k: int| p <= k < i implies u.take(i as int)[k].skey() > xg.skey() by {
                assert(u.take(i as int)[k] == u[k]);
            }
            if p > 0 {
                assert(u.take(i as int)[p - 1] == u[p - 1]);
            }
            lemma_insert_sorted_at(u.take(i as int), u[i as int], p as int);
        }
        let x = v.remove(i);
        v.insert(p, x);
        proof {
            let w = u.remove(i as int).insert(p as int, u[i as int]);
            assert(v@ == w);
            assert(w.take(i + 1) =~= u.take(i as int).take(p as int) + seq![u[i as int]] + u.take(
                i as int,
            ).skip(p as int));
            assert(w.take(i + 1) == insert_sorted(u.take(i as int), u[i as int]));
            assert(orig.take(i + 1).drop_last() =~= orig.take(i as int));
            assert(orig.take(i + 1).last() == orig[i as int]);
            assert(u.take(i as int) == sort_by_key(orig.take(i as int)));
            assert(w.take(i + 1) == sort_by_key(orig.take(i + 1)));
            assert(w.skip(i + 1) =~= u.skip(i + 1));
            assert(u.skip(i + 1) =~= orig.skip(i + 1)) by {
                assert forall|k: int| 0 <= k < n - i - 1 implies #[trigger] u.skip(i + 1)[k]
                    == orig.skip(i + 1)[k] by {
                    assert(u.skip(i as int)[k + 1] == u[i + 1 + k]);
                    assert(orig.skip(i as int)[k + 1] == orig[i + 1 + k]);
                }
            }
        }
        i = i + 1;
    }
    proof {
        assert(v@.take(n as int) =~= v@);
        assert(orig.take(n as int) =~= orig);
    }
}

} // verus!
