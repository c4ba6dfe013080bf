//! A stable sort of values that carry a rank.

use vstd::prelude::*;
use vstd::seq_lib::*;

verus! {

/// A value that takes a place in an order: of two values one may stand
/// before the other, or both may (a tie).
pub trait Ranked: Sized {
    /// Whether `self` may stand before `other`.
    spec fn rank_le(&self, other: &Self) -> bool;

    /// Decides `rank_le`.
    fn may_precede(&self, other: &Self) -> (r: bool)
        ensures
            r == self.rank_le(other),
    ;

    /// Of two values, one may stand before the other.
    proof fn lemma_rank_total(a: &Self, b: &Self)
        ensures
            a.rank_le(b) || b.rank_le(a),
    ;

    /// What may stand before a value may stand before all that follow it.
    proof fn lemma_rank_transitive(a: &Self, b: &Self, c: &Self)
        requires
            a.rank_le(b),
            b.rank_le(c),
        ensures
            a.rank_le(c),
    ;
}

/// Every value of `s` may stand before all that follow it.
pub open spec fn in_order<T: Ranked>(s: Seq<T>) -> bool {
    forall|i: int, j: int| #![trigger s[i], s[j]] 0 <= i < j < s.len() ==> s[i].rank_le(&s[j])
}

/// The values that tie with `k`.
pub open spec fn ties_with<T: Ranked>(k: T) -> spec_fn(T) -> bool {
    |x: T| x.rank_le(&k) && k.rank_le(&x)
}

/// `out` holds the values of `input` in order, those that tie in the order
/// in which `input` has them.
pub open spec fn stable_sort_of<T: Ranked>(out: Seq<T>, input: Seq<T>) -> bool {
    &&& in_order(out)
    &&& out.to_multiset() == input.to_multiset()
    &&& forall|k: T| #[trigger] out.filter(ties_with(k)) == input.filter(ties_with(k))
}

proof fn lemma_insert_keeps_order<T: Ranked>(s: Seq<T>, at: int, x: T)
    requires
        in_order(s),
        0 <= at <= s.len(),
        forall|i: int| 0 <= i < at ==> (#[trigger] s[i]).rank_le(&x),
        forall|i: int| #![trigger s[i]] at <= i < s.len() ==> x.rank_le(&s[i]),
    ensures
        in_order(s.insert(at, x)),
{
    let t = s.insert(at, x);
    assert forall|i: int, j: int| #![trigger t[i], t[j]] 0 <= i < j < t.len() implies t[i].rank_le(
        &t[j],
    ) by {
        if i < at {
            assert(t[i] == s[i]);
            if j > at {
                assert(t[j] == s[j - 1]);
            }
        } else if i == at {
            assert(t[j] == s[j - 1]);
        } else {
            assert(t[i] == s[i - 1]);
            assert(t[j] == s[j - 1]);
        }
    }
}

proof fn lemma_insert_keeps_ties<T: Ranked>(s: Seq<T>, at: int, x: T, rest: Seq<T>, k: T)
    requires
        0 <= at <= s.len(),
        s.filter(ties_with(k)) == rest.filter(ties_with(k)),
        forall|i: int| #![trigger s[i]] 0 <= i < at ==> !x.rank_le(&s[i]),
    ensures
        s.insert(at, x).filter(ties_with(k)) == (seq![x] + rest).filter(ties_with(k)),
{
    let p = ties_with(k);
    let head = s.take(at);
    let tail = s.skip(at);
    assert(s =~= head + tail);
    assert(s.insert(at, x) =~= head + (seq![x] + tail));
    Seq::filter_distributes_over_add(head, tail, p);
    Seq::filter_distributes_over_add(head, seq![x] + tail, p);
    Seq::filter_distributes_over_add(seq![x], tail, p);
    Seq::filter_distributes_over_add(seq![x], rest, p);
    if p(x) {
        assert forall|i: int| 0 <= i < head.len() implies !p(#[trigger] head[i]) by {
            assert(head[i] == s[i]);
            if p(head[i]) {
                T::lemma_rank_transitive(&x, &k, &head[i]);
            }
        }
        assert(head.all(|y: T| !p(y)));
        head.lemma_all_neg_filter_empty(p);
        assert(head.filter(p) =~= Seq::<T>::empty());
        assert(s.insert(at, x).filter(p) =~= (seq![x] + rest).filter(p));
    } else {
        assert(seq![x].filter(p) =~= Seq::<T>::empty()) by {
            reveal_with_fuel(Seq::filter, 2);
            assert(seq![x].drop_last() =~= Seq::<T>::empty());
        }
        assert(s.insert(at, x).filter(p) =~= (seq![x] + rest).filter(p));
    }
}

/// Sorts `v`: the values come out in order, and those that tie keep the
/// order in which `v` had them.
pub fn stable_sort<T: Ranked>(v: Vec<T>) -> (out: Vec<T>)
    ensures
        stable_sort_of(out@, v@),
        out@.len() == v@.len(),
{
    let ghost input = v@;
    let mut v = v;
    let mut out: Vec<T> = Vec::new();
    proof {
        assert(input.skip(input.len() as int) =~= Seq::<T>::empty());
    }
    while v.len() > 0
        invariant
            v@ == input.take(v@.len() as int),
            v@.len() <= input.len(),
            out@.len() + v@.len() == input.len(),
            stable_sort_of(out@, input.skip(v@.len() as int)),
        decreases v@.len(),
    {
        let ghost rest = input.skip(v@.len() as int);
        let ghost before = out@;
        let x = v.pop().unwrap();
        let mut at: usize = 0;
        while at < out.len() && !x.may_precede(&out[at])
            invariant
                at <= out@.len(),
                forall|i: int| #![trigger out@[i]] 0 <= i < at ==> !x.rank_le(&out@[i]),
            decreases out@.len() - at,
        {
            at += 1;
        }
        proof {
            assert forall|i: int| 0 <= i < at implies (#[trigger] before[i]).rank_le(&x) by {
                T::lemma_rank_total(&x, &before[i]);
            }
            assert forall|i: int| #![trigger before[i]] at <= i < before.len() implies x.rank_le(&before[i]) by {
                if i > at {
                    T::lemma_rank_transitive(&x, &before[at as int], &before[i]);
                }
            }
            lemma_insert_keeps_order(before, at as int, x);
            to_multiset_insert(before, at as int, x);
            assert(input.skip(v@.len() as int) =~= seq![x] + rest);
            assert forall|k: T| #[trigger]
                before.insert(at as int, x).filter(ties_with(k)) == (seq![x] + rest).filter(
                    ties_with(k),
                ) by {
                lemma_insert_keeps_ties(before, at as int, x, rest, k);
            }
            assert((seq![x] + rest).to_multiset() =~= rest.to_multiset().insert(x)) by {
                to_multiset_insert(rest, 0, x);
                assert(rest.insert(0, x) =~= seq![x] + rest);
            }
        }
        out.insert(at, x);
    }
    proof {
        assert(input.skip(0) =~= input);
    }
    out
}

/// Every value of `s` may stand before those that follow it, and none of
/// those before it: no two values tie.
pub open spec fn strictly_in_order<T: Ranked>(s: Seq<T>) -> bool {
    forall|i: int, j: int|
        #![trigger s[i], s[j]]
        0 <= i < j < s.len() ==> s[i].rank_le(&s[j]) && !s[j].rank_le(&s[i])
}

/// Where no two values tie, the order leaves one arrangement only: a
/// sequence in order that holds the same values as one strictly in order is
/// that sequence.
pub proof fn lemma_order_is_unique<T: Ranked>(a: Seq<T>, b: Seq<T>)
    requires
        in_order(a),
        strictly_in_order(b),
        a.to_multiset() == b.to_multiset(),
    ensures
        a == b,
    decreases a.len(),
{
    broadcast use vstd::multiset::group_multiset_axioms;
    broadcast use group_to_multiset_ensures;

    a.to_multiset_ensures();
    b.to_multiset_ensures();
    assert(a.len() == b.len());
    if a.len() == 0 {
        assert(a =~= b);
    } else {
        assert(a.to_multiset().contains(a[0]));
        assert(b.to_multiset().contains(b[0]));
        assert(b.contains(a[0]));
        assert(a.contains(b[0]));
        let i = choose|i: int| 0 <= i < b.len() && b[i] == a[0];
        let j = choose|j: int| 0 <= j < a.len() && a[j] == b[0];
        if i != 0 {
            assert(b[0].rank_le(&b[i]) && !b[i].rank_le(&b[0]));
            if j != 0 {
                assert(a[0].rank_le(&a[j]));
            }
            assert(false);
        }
        assert(a[0] == b[0]);
        assert(a.drop_first().to_multiset() =~= a.to_multiset().remove(a[0])) by {
            to_multiset_remove(a, 0);
            assert(a.remove(0) =~= a.drop_first());
        }
        assert(b.drop_first().to_multiset() =~= b.to_multiset().remove(b[0])) by {
            to_multiset_remove(b, 0);
            assert(b.remove(0) =~= b.drop_first());
        }
        assert(in_order(a.drop_first())) by {
            let t = a.drop_first();
            assert forall|x: int, y: int| #![trigger t[x], t[y]] 0 <= x < y < t.len() implies t[x].rank_le(
                &t[y],
            ) by {
                assert(t[x] == a[x + 1] && t[y] == a[y + 1]);
            }
        }
        assert(strictly_in_order(b.drop_first())) by {
            let t = b.drop_first();
            assert forall|x: int, y: int| #![trigger t[x], t[y]] 0 <= x < y < t.len() implies t[x].rank_le(
                &t[y],
            ) && !t[y].rank_le(&t[x]) by {
                assert(t[x] == b[x + 1] && t[y] == b[y + 1]);
            }
        }
        lemma_order_is_unique(a.drop_first(), b.drop_first());
        assert(a =~= seq![a[0]] + a.drop_first());
        assert(b =~= seq![b[0]] + b.drop_first());
    }
}

} // verus!
