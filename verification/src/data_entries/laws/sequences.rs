//! Parts of a sequence: what filtering keeps.
use vstd::prelude::*;

verus! {

/// A part of a sequence that is listed in growing order is listed in
/// growing order too, and holds nothing that the sequence does not hold.
pub proof fn lemma_filter_keeps_order<A>(s: Seq<A>, p: spec_fn(A) -> bool, measure: spec_fn(A) -> int)
    requires
        forall|i: int, j: int| 0 <= i < j < s.len() ==> measure(#[trigger] s[i]) < measure(#[trigger] s[j]),
    ensures
        forall|i: int, j: int|
            0 <= i < j < s.filter(p).len() ==> measure(#[trigger] s.filter(p)[i]) < measure(
                #[trigger] s.filter(p)[j],
            ),
        forall|i: int| 0 <= i < s.filter(p).len() ==> s.contains(#[trigger] s.filter(p)[i]),
    decreases s.len(),
{
    reveal(Seq::filter);
    if s.len() > 0 {
        let init = s.drop_last();
        lemma_filter_keeps_order(init, p, measure);
        let part = init.filter(p);
        let all = s.filter(p);
        assert forall|i: int| 0 <= i < part.len() implies s.contains(#[trigger] part[i])
            && measure(part[i]) < measure(s.last()) by {
            assert(init.contains(part[i]));
            let at = choose|at: int| 0 <= at < init.len() && init[at] == part[i];
            assert(s[at] == part[i]);
        }
        assert forall|i: int| 0 <= i < all.len() implies s.contains(#[trigger] all[i]) by {
            if i < part.len() {
                assert(all[i] == part[i]);
            } else {
                assert(all[i] == s[s.len() - 1]);
            }
        }
        assert forall|i: int, j: int| 0 <= i < j < all.len() implies measure(#[trigger] all[i])
            < measure(#[trigger] all[j]) by {
            assert(all[i] == part[i]);
            if j < part.len() {
                assert(all[j] == part[j]);
            }
        }
    }
}

/// Where whatever satisfies `p` comes before whatever does not, the part
/// that satisfies `p` is a prefix and the rest is the suffix after it.
pub proof fn lemma_filter_splits<A>(s: Seq<A>, p: spec_fn(A) -> bool, q: spec_fn(A) -> bool) -> (k:
    int)
    requires
        forall|i: int, j: int| 0 <= i <= j < s.len() && p(#[trigger] s[j]) ==> p(#[trigger] s[i]),
        forall|i: int| 0 <= i < s.len() ==> q(#[trigger] s[i]) == !p(s[i]),
    ensures
        0 <= k <= s.len(),
        s.filter(p) == s.take(k),
        s.filter(q) == s.skip(k),
        forall|i: int| 0 <= i < k ==> p(#[trigger] s[i]),
        forall|i: int| k <= i < s.len() ==> !p(#[trigger] s[i]),
    decreases s.len(),
{
    reveal(Seq::filter);
    if s.len() == 0 {
        assert(s.filter(p) =~= s.take(0));
        assert(s.filter(q) =~= s.skip(0));
        0
    } else {
        let init = s.drop_last();
        assert forall|i: int, j: int| 0 <= i <= j < init.len() && p(#[trigger] init[j]) implies p(
            #[trigger] init[i],
        ) by {
            assert(init[j] == s[j] && init[i] == s[i]);
        }
        assert forall|i: int| 0 <= i < init.len() implies q(#[trigger] init[i]) == !p(init[i]) by {
            assert(init[i] == s[i]);
        }
        let k0 = lemma_filter_splits(init, p, q);
        if p(s.last()) {
            assert forall|i: int| 0 <= i < init.len() implies p(#[trigger] init[i]) by {
                assert(init[i] == s[i]);
                assert(p(s[s.len() - 1]));
            }
            if k0 < init.len() {
                assert(!p(init[k0]));
            }
            assert(s.filter(p) =~= s.take(s.len() as int));
            assert(s.filter(q) =~= s.skip(s.len() as int));
            assert forall|i: int| 0 <= i < s.len() implies p(#[trigger] s[i]) by {
                if i < init.len() {
                    assert(init[i] == s[i]);
                }
            }
            s.len() as int
        } else {
            assert(s.filter(p) =~= s.take(k0));
            assert(s.filter(q) =~= s.skip(k0));
            assert forall|i: int| 0 <= i < k0 implies p(#[trigger] s[i]) by {
                assert(init[i] == s[i]);
            }
            assert forall|i: int| k0 <= i < s.len() implies !p(#[trigger] s[i]) by {
                if i < init.len() {
                    assert(init[i] == s[i]);
                }
            }
            k0
        }
    }
}

/// Of a sequence in which nothing satisfies `p`, no part satisfies `p`.
pub proof fn lemma_filter_none<A>(s: Seq<A>, p: spec_fn(A) -> bool)
    requires
        forall|i: int| 0 <= i < s.len() ==> !p(#[trigger] s[i]),
    ensures
        s.filter(p) == Seq::<A>::empty(),
    decreases s.len(),
{
    reveal(Seq::filter);
    if s.len() > 0 {
        assert forall|i: int| 0 <= i < s.drop_last().len() implies !p(
            #[trigger] s.drop_last()[i],
        ) by {
            assert(s.drop_last()[i] == s[i]);
        }
        lemma_filter_none(s.drop_last(), p);
        assert(!p(s[s.len() - 1]));
    }
}

/// Of a sequence in which everything satisfies `p`, the part that satisfies
/// `p` is the whole.
pub proof fn lemma_filter_all<A>(s: Seq<A>, p: spec_fn(A) -> bool)
    requires
        forall|i: int| 0 <= i < s.len() ==> p(#[trigger] s[i]),
    ensures
        s.filter(p) == s,
    decreases s.len(),
{
    reveal(Seq::filter);
    if s.len() > 0 {
        assert forall|i: int| 0 <= i < s.drop_last().len() implies p(#[trigger] s.drop_last()[i]) by {
            assert(s.drop_last()[i] == s[i]);
        }
        lemma_filter_all(s.drop_last(), p);
        assert(p(s[s.len() - 1]));
        assert(s.drop_last().push(s.last()) =~= s);
    }
}

/// A sequence in strictly growing order is the only sequence in growing
/// order that holds what it holds.
pub proof fn lemma_sorted_is_same<A>(a: Seq<A>, b: Seq<A>, measure: spec_fn(A) -> int)
    requires
        forall|i: int, j: int|
            0 <= i < j < a.len() ==> measure(#[trigger] a[i]) < measure(#[trigger] a[j]),
        forall|i: int, j: int|
            0 <= i < j < b.len() ==> measure(#[trigger] b[i]) <= measure(#[trigger] b[j]),
        a.to_multiset() == b.to_multiset(),
    ensures
        a == b,
    decreases a.len(),
{
    a.to_multiset_ensures();
    b.to_multiset_ensures();
    assert(a.len() == b.len());
    if a.len() == 0 {
        assert(a =~= b);
    } else {
        let n = a.len() as int;
        let x = a.last();
        let y = b.last();
        assert(a.contains(x)) by {
            assert(a[n - 1] == x);
        }
        assert(b.contains(y)) by {
            assert(b[n - 1] == y);
        }
        vstd::seq_lib::to_multiset_contains(a, x);
        vstd::seq_lib::to_multiset_contains(b, x);
        vstd::seq_lib::to_multiset_contains(a, y);
        vstd::seq_lib::to_multiset_contains(b, y);
        let k = choose|k: int| 0 <= k < n && b[k] == x;
        let m = choose|m: int| 0 <= m < n && a[m] == y;
        if k < n - 1 {
            assert(measure(b[k]) <= measure(b[n - 1]));
        }
        if m < n - 1 {
            assert(measure(a[m]) < measure(a[n - 1]));
        }
        assert(x == y);
        assert(a.remove(n - 1) =~= a.drop_last());
        assert(b.remove(n - 1) =~= b.drop_last());
        assert(a.drop_last().to_multiset() == b.drop_last().to_multiset());
        assert forall|i: int, j: int| 0 <= i < j < a.drop_last().len() implies measure(
            #[trigger] a.drop_last()[i],
        ) < measure(#[trigger] a.drop_last()[j]) by {
            assert(a.drop_last()[i] == a[i] && a.drop_last()[j] == a[j]);
        }
        assert forall|i: int, j: int| 0 <= i < j < b.drop_last().len() implies measure(
            #[trigger] b.drop_last()[i],
        ) <= measure(#[trigger] b.drop_last()[j]) by {
            assert(b.drop_last()[i] == b[i] && b.drop_last()[j] == b[j]);
        }
        lemma_sorted_is_same(a.drop_last(), b.drop_last(), measure);
        assert(a =~= a.drop_last().push(x));
        assert(b =~= b.drop_last().push(y));
    }
}

} // verus!
