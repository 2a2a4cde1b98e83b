//! Facts about `Ord` that the ordered collections rely on.
use std::cmp::Ordering;
use vstd::laws_cmp::{
    obeys_cmp, obeys_cmp_ord, obeys_cmp_partial_ord, obeys_partial_cmp_spec_properties,
};
use vstd::laws_eq::{obeys_concrete_eq, obeys_eq_spec_properties};
use vstd::prelude::*;
use vstd::std_specs::cmp::{OrdSpec, PartialOrdSpec};

verus! {

/// `cmp` on `T` is a total order whose `Equal` coincides with `==`.
pub open spec fn total_order<T: Ord>() -> bool {
    obeys_cmp::<T>() && obeys_concrete_eq::<T>()
}

/// `a` comes strictly before `b`.
pub open spec fn lt<T: Ord>(a: T, b: T) -> bool {
    a.cmp_spec(&b) == Ordering::Less
}

/// Every element comes strictly before every later one.
pub open spec fn ascending<T: Ord>(s: Seq<T>) -> bool {
    forall|i: int, j: int| 0 <= i < j < s.len() ==> lt(s[i], s[j])
}

pub proof fn lemma_total_order<T: Ord>()
    requires
        total_order::<T>(),
    ensures
        T::obeys_cmp_spec(),
        T::obeys_partial_cmp_spec(),
        forall|a: T, b: T| #[trigger] a.partial_cmp_spec(&b) == Some(a.cmp_spec(&b)),
        forall|a: T, b: T| #[trigger] a.cmp_spec(&b) == Ordering::Equal <==> a == b,
        forall|a: T, b: T|
            #[trigger] a.cmp_spec(&b) == Ordering::Less <==> b.cmp_spec(&a) == Ordering::Greater,
        forall|a: T, b: T, c: T|
            #[trigger] lt(a, b) && #[trigger] lt(b, c) ==> lt(a, c),
{
    reveal(obeys_cmp_partial_ord);
    reveal(obeys_cmp_ord);
    reveal(obeys_partial_cmp_spec_properties);
    reveal(obeys_concrete_eq);
    reveal(obeys_eq_spec_properties);
    assert forall|a: T, b: T, c: T| #[trigger] lt(a, b) && #[trigger] lt(b, c) implies lt(a, c) by {
        assert(a.partial_cmp_spec(&b) == Some(a.cmp_spec(&b)));
        assert(b.partial_cmp_spec(&c) == Some(b.cmp_spec(&c)));
        assert(a.partial_cmp_spec(&c) == Some(a.cmp_spec(&c)));
    }
    assert forall|a: T, b: T|
        #[trigger] a.cmp_spec(&b) == Ordering::Less <==> b.cmp_spec(&a) == Ordering::Greater by {
        assert(a.partial_cmp_spec(&b) == Some(a.cmp_spec(&b)));
        assert(b.partial_cmp_spec(&a) == Some(b.cmp_spec(&a)));
    }
    assert forall|a: T, b: T| #[trigger] a.cmp_spec(&b) == Ordering::Equal <==> a == b by {
        assert(a.partial_cmp_spec(&b) == Some(a.cmp_spec(&b)));
    }
}

/// Inserting into a sequence adds the element to its set.
pub proof fn lemma_insert_to_set<T>(s: Seq<T>, q: int, v: T)
    requires
        0 <= q <= s.len(),
    ensures
        s.insert(q, v).to_set() == s.to_set().insert(v),
{
    let t = s.insert(q, v);
    assert forall|x: T| t.to_set().contains(x) <==> s.to_set().insert(v).contains(x) by {
        if t.contains(x) {
            let j = choose|j: int| 0 <= j < t.len() && t[j] == x;
            if j < q {
                assert(s[j] == x);
            } else if j > q {
                assert(s[j - 1] == x);
            }
        }
        if s.contains(x) {
            let j = choose|j: int| 0 <= j < s.len() && s[j] == x;
            if j < q {
                assert(t[j] == x);
            } else {
                assert(t[j + 1] == x);
            }
        }
        if x == v {
            assert(t[q] == x);
        }
    }
    assert(t.to_set() =~= s.to_set().insert(v));
}

/// Removing an element from an ascending sequence drops it from its set.
pub proof fn lemma_remove_to_set<T: Ord>(s: Seq<T>, q: int)
    requires
        total_order::<T>(),
        ascending(s),
        0 <= q < s.len(),
    ensures
        s.remove(q).to_set() == s.to_set().remove(s[q]),
{
    lemma_total_order::<T>();
    let t = s.remove(q);
    assert forall|x: T| t.to_set().contains(x) <==> s.to_set().remove(s[q]).contains(x) by {
        if t.contains(x) {
            let j = choose|j: int| 0 <= j < t.len() && t[j] == x;
            if j < q {
                assert(s[j] == x);
                assert(lt(s[j], s[q]));
            } else {
                assert(s[j + 1] == x);
                assert(lt(s[q], s[j + 1]));
            }
        }
        if s.contains(x) && x != s[q] {
            let j = choose|j: int| 0 <= j < s.len() && s[j] == x;
            if j < q {
                assert(t[j] == x);
            } else {
                assert(t[j - 1] == x);
            }
        }
    }
    assert(t.to_set() =~= s.to_set().remove(s[q]));
}

} // verus!
