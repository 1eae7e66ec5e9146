//! Shared vocabulary for element comparisons.
//!
//! The containers and algorithms in this crate are generic over their
//! element type, and compare elements through the standard `PartialEq`
//! and `Ord` traits. In specifications, those calls are only meaningful
//! for types whose comparison operators agree with logical equality and
//! form a lawful total order; `vstd` packages both conditions as
//! `obeys_concrete_eq` and `obeys_cmp`, and proves them for the integer
//! primitives. This module bundles the two conditions and exposes the
//! laws that proofs over ordered sequences need.

use vstd::prelude::*;

verus! {

use core::cmp::Ordering;
use vstd::laws_cmp::obeys_cmp;
use vstd::laws_eq::obeys_concrete_eq;
use vstd::std_specs::cmp::OrdSpec;
use vstd::std_specs::cmp::PartialEqSpec;
use vstd::std_specs::cmp::PartialOrdSpec;

/// The type's `==` agrees with logical equality. Holds for the integer
/// primitives.
pub open spec fn lawful_eq<T: PartialEq>() -> bool {
    obeys_concrete_eq::<T>()
}

/// The type's comparisons form a lawful total order whose `Equal` case
/// agrees with logical equality. Holds for the integer primitives.
pub open spec fn lawful_ord<T: Ord>() -> bool {
    &&& obeys_cmp::<T>()
    &&& obeys_concrete_eq::<T>()
}

/// `x` is at most `y` under the type's total order.
pub open spec fn le<T: Ord>(x: T, y: T) -> bool {
    x.cmp_spec(&y) != Ordering::Greater
}

/// The sequence is sorted in non-decreasing order.
pub open spec fn sorted<T: Ord>(s: Seq<T>) -> bool {
    forall|i: int, j: int| 0 <= i <= j < s.len() ==> le(s[i], s[j])
}

/// For a lawful type, `==` on values means logical equality.
pub proof fn lemma_lawful_eq<T: PartialEq>()
    requires
        lawful_eq::<T>(),
    ensures
        T::obeys_eq_spec(),
        forall|x: T, y: T| #[trigger] x.eq_spec(&y) <==> x == y,
{
    reveal(vstd::laws_eq::obeys_concrete_eq);
}

/// The laws of a lawful total order, stated over `le`, `cmp_spec` and
/// `partial_cmp_spec`: totality, transitivity, antisymmetry, and the
/// agreement of the three-way comparison with `le` and with equality.
pub proof fn lemma_lawful_ord<T: Ord>()
    requires
        lawful_ord::<T>(),
    ensures
        forall|x: T, y: T| le(x, y) || le(y, x),
        forall|x: T, y: T, z: T| le(x, y) && #[trigger] le(y, z) ==> #[trigger] le(x, z),
        forall|x: T, y: T| #[trigger] le(x, y) && le(y, x) ==> x == y,
        forall|x: T, y: T| #[trigger] x.cmp_spec(&y) == Ordering::Equal <==> x == y,
        forall|x: T, y: T| #[trigger] x.cmp_spec(&y) == Ordering::Greater <==> (le(y, x) && x != y),
        forall|x: T, y: T| #[trigger] x.cmp_spec(&y) == Ordering::Less <==> (le(x, y) && x != y),
        forall|x: T, y: T| #[trigger] x.partial_cmp_spec(&y) == Some(x.cmp_spec(&y)),
        forall|x: T, y: T| #[trigger] x.eq_spec(&y) <==> x == y,
        T::obeys_eq_spec(),
        T::obeys_partial_cmp_spec(),
        T::obeys_cmp_spec(),
{
    reveal(vstd::laws_eq::obeys_eq_spec_properties);
    reveal(vstd::laws_eq::obeys_concrete_eq);
    reveal(vstd::laws_cmp::obeys_partial_cmp_spec_properties);
    reveal(vstd::laws_cmp::obeys_cmp_partial_ord);
    reveal(vstd::laws_cmp::obeys_cmp_ord);
    assert forall|x: T, y: T| #[trigger] x.cmp_spec(&y) == Ordering::Equal <==> x == y by {
        assert(x.partial_cmp_spec(&y) == Some(x.cmp_spec(&y)));
    }
    assert forall|x: T, y: T| le(x, y) || le(y, x) by {
        assert(x.partial_cmp_spec(&y) == Some(x.cmp_spec(&y)));
        assert(y.partial_cmp_spec(&x) == Some(y.cmp_spec(&x)));
        if x.cmp_spec(&y) == Ordering::Greater && y.cmp_spec(&x) == Ordering::Greater {
            assert(x.partial_cmp_spec(&y) == Some(Ordering::Greater));
            assert(y.partial_cmp_spec(&x) == Some(Ordering::Less));
        }
    }
    assert forall|x: T, y: T| #[trigger] x.cmp_spec(&y) == Ordering::Greater <==> (le(y, x) && x
        != y) by {
        assert(x.partial_cmp_spec(&y) == Some(x.cmp_spec(&y)));
        assert(y.partial_cmp_spec(&x) == Some(y.cmp_spec(&x)));
        if x.cmp_spec(&y) == Ordering::Greater {
            assert(y.partial_cmp_spec(&x) == Some(Ordering::Less));
        }
        if le(y, x) && x != y {
            if y.cmp_spec(&x) == Ordering::Equal {
                assert(y.partial_cmp_spec(&x) == Some(Ordering::Equal));
            }
            assert(y.cmp_spec(&x) == Ordering::Less);
            assert(y.partial_cmp_spec(&x) == Some(Ordering::Less));
        }
    }
    assert forall|x: T, y: T, z: T| le(x, y) && #[trigger] le(y, z) implies #[trigger] le(
        x,
        z,
    ) by {
        assert(x.partial_cmp_spec(&y) == Some(x.cmp_spec(&y)));
        assert(y.partial_cmp_spec(&z) == Some(y.cmp_spec(&z)));
        assert(x.partial_cmp_spec(&z) == Some(x.cmp_spec(&z)));
        if x.cmp_spec(&y) == Ordering::Equal {
            assert(x == y);
        } else if y.cmp_spec(&z) == Ordering::Equal {
            assert(y == z);
        } else {
            assert(x.partial_cmp_spec(&y) == Some(Ordering::Less));
            assert(y.partial_cmp_spec(&z) == Some(Ordering::Less));
            assert(x.partial_cmp_spec(&z) == Some(Ordering::Less));
        }
    }
}

/// The stable merge of two sorted sequences: the smaller head goes
/// first, and on a tie the head of the first sequence wins.
pub open spec fn merge_seqs<T: Ord>(a: Seq<T>, b: Seq<T>) -> Seq<T>
    decreases a.len() + b.len(),
{
    if a.len() == 0 {
        b
    } else if b.len() == 0 {
        a
    } else if le(a[0], b[0]) {
        seq![a[0]] + merge_seqs(a.drop_first(), b)
    } else {
        seq![b[0]] + merge_seqs(a, b.drop_first())
    }
}

/// Merging two sorted sequences yields a sorted sequence whose length
/// is the sum of the input lengths and whose elements are the multiset
/// union of the input elements.
pub proof fn lemma_merge_sorted<T: Ord>(a: Seq<T>, b: Seq<T>)
    requires
        lawful_ord::<T>(),
        sorted(a),
        sorted(b),
    ensures
        merge_seqs(a, b).len() == a.len() + b.len(),
        merge_seqs(a, b).to_multiset() == a.to_multiset().add(b.to_multiset()),
        sorted(merge_seqs(a, b)),
    decreases a.len() + b.len(),
{
    broadcast use vstd::seq_lib::group_to_multiset_ensures;
    broadcast use vstd::seq_lib::lemma_multiset_commutative;

    lemma_lawful_ord::<T>();
    let m = merge_seqs(a, b);
    if a.len() == 0 {
        assert(a.to_multiset().len() == 0);
        assert(m.to_multiset() =~= a.to_multiset().add(b.to_multiset()));
    } else if b.len() == 0 {
        assert(b.to_multiset().len() == 0);
        assert(m.to_multiset() =~= a.to_multiset().add(b.to_multiset()));
    } else if le(a[0], b[0]) {
        let a2 = a.drop_first();
        assert(sorted(a2)) by {
            assert(forall|i: int, j: int|
                0 <= i <= j < a2.len() ==> le(a[i + 1], a[j + 1]) && a2[i] == a[i + 1] && a2[j]
                    == a[j + 1]);
        }
        lemma_merge_sorted(a2, b);
        let m2 = merge_seqs(a2, b);
        assert(a =~= seq![a[0]] + a2);
        assert(m.to_multiset() =~= a.to_multiset().add(b.to_multiset())) by {
            assert(m == seq![a[0]] + m2);
            assert(m.to_multiset() == seq![a[0]].to_multiset().add(m2.to_multiset()));
            assert(a.to_multiset() == seq![a[0]].to_multiset().add(a2.to_multiset()));
        }
        assert forall|k: int| 0 <= k < m2.len() implies le(a[0], m2[k]) by {
            assert(m2.contains(m2[k]));
            assert(m2.to_multiset().count(m2[k]) > 0);
            if a2.to_multiset().count(m2[k]) > 0 {
                let i = choose|i: int| 0 <= i < a2.len() && a2[i] == m2[k];
                assert(a2[i] == a[i + 1]);
                assert(le(a[0], a[i + 1]));
            } else {
                assert(b.to_multiset().count(m2[k]) > 0);
                let i = choose|i: int| 0 <= i < b.len() && b[i] == m2[k];
                assert(le(b[0], b[i]));
            }
        }
        assert forall|i: int, j: int| 0 <= i <= j < m.len() implies le(m[i], m[j]) by {
            if 0 < i {
                assert(m[i] == m2[i - 1] && m[j] == m2[j - 1]);
            } else if 0 < j {
                assert(m[j] == m2[j - 1]);
            }
        }
    } else {
        let b2 = b.drop_first();
        assert(sorted(b2)) by {
            assert(forall|i: int, j: int|
                0 <= i <= j < b2.len() ==> le(b[i + 1], b[j + 1]) && b2[i] == b[i + 1] && b2[j]
                    == b[j + 1]);
        }
        lemma_merge_sorted(a, b2);
        let m2 = merge_seqs(a, b2);
        assert(b =~= seq![b[0]] + b2);
        assert(m.to_multiset() =~= a.to_multiset().add(b.to_multiset())) by {
            assert(m == seq![b[0]] + m2);
            assert(m.to_multiset() == seq![b[0]].to_multiset().add(m2.to_multiset()));
            assert(b.to_multiset() == seq![b[0]].to_multiset().add(b2.to_multiset()));
        }
        assert forall|k: int| 0 <= k < m2.len() implies le(b[0], m2[k]) by {
            assert(m2.contains(m2[k]));
            assert(m2.to_multiset().count(m2[k]) > 0);
            if a.to_multiset().count(m2[k]) > 0 {
                let i = choose|i: int| 0 <= i < a.len() && a[i] == m2[k];
                assert(le(a[0], a[i]));
                assert(le(b[0], a[0]));
            } else {
                assert(b2.to_multiset().count(m2[k]) > 0);
                let i = choose|i: int| 0 <= i < b2.len() && b2[i] == m2[k];
                assert(b2[i] == b[i + 1]);
                assert(le(b[0], b[i + 1]));
            }
        }
        assert forall|i: int, j: int| 0 <= i <= j < m.len() implies le(m[i], m[j]) by {
            if 0 < i {
                assert(m[i] == m2[i - 1] && m[j] == m2[j - 1]);
            } else if 0 < j {
                assert(m[j] == m2[j - 1]);
            }
        }
    }
}

} // verus!
