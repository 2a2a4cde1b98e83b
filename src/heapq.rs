//! A binary max-heap kept in a `Vec`: the parent of place `i > 0` is place
//! `(i - 1) / 2`, and no element is less than one of its children.
use crate::order::{lemma_total_order, lt, total_order};
use std::cmp::Ordering;
use vstd::multiset::Multiset;
use vstd::prelude::*;
use vstd::seq_lib::{
    to_multiset_build, to_multiset_contains, to_multiset_len, to_multiset_remove, to_multiset_update,
};
use vstd::std_specs::cmp::{OrdSpec, PartialOrdSpec};

verus! {

broadcast use {
    to_multiset_update,
    to_multiset_len,
    to_multiset_build,
    to_multiset_remove,
    to_multiset_contains,
    vstd::multiset::group_multiset_axioms,
    vstd::multiset::group_multiset_properties,
};

/// A max-heap of `T`.
pub struct HeapQ<T: Ord> {
    values: Vec<T>,
}

/// Relies on `slice::swap`: exchanges the elements at `i` and `j`.
#[verifier::external_body]
fn swap_at<T>(v: &mut Vec<T>, i: usize, j: usize)
    requires
        i < old(v)@.len(),
        j < old(v)@.len(),
    ensures
        final(v)@ == old(v)@.update(i as int, old(v)@[j as int]).update(j as int, old(v)@[i as int]),
{
    v.swap(i, j)
}

pub open spec fn parent_of(i: int) -> int {
    (i - 1) / 2
}

/// `a` is not less than `b`.
pub open spec fn geq<T: Ord>(a: T, b: T) -> bool {
    !lt(a, b)
}

/// No element is less than one of its children, leaving out the edge into
/// place `skip`.
pub open spec fn heap_except<T: Ord>(s: Seq<T>, skip: int) -> bool {
    forall|i: int| 0 < i < s.len() && i != skip ==> geq(#[trigger] s[parent_of(i)], s[i])
}

proof fn lemma_geq_trans<T: Ord>(a: T, b: T, c: T)
    requires
        total_order::<T>(),
        geq(a, b),
        geq(b, c),
    ensures
        geq(a, c),
{
    lemma_total_order::<T>();
    if lt(a, c) {
        if a != b {
            assert(a.cmp_spec(&b) != Ordering::Equal);
            assert(a.cmp_spec(&b) == Ordering::Greater);
            assert(b.cmp_spec(&a) == Ordering::Less);
            assert(lt(b, a));
            assert(lt(b, c));
        }
    }
}

proof fn lemma_lt_geq<T: Ord>(a: T, b: T)
    requires
        total_order::<T>(),
        lt(a, b),
    ensures
        geq(b, a),
{
    lemma_total_order::<T>();
    assert(a.cmp_spec(&b) == Ordering::Less);
    assert(b.cmp_spec(&a) == Ordering::Greater);
}

/// The first element of a heap is not less than any element.
proof fn lemma_root_max<T: Ord>(s: Seq<T>, i: int)
    requires
        total_order::<T>(),
        heap_except(s, 0),
        0 <= i < s.len(),
    ensures
        geq(s[0], s[i]),
    decreases i,
{
    lemma_total_order::<T>();
    if i == 0 {
        assert(s[0].cmp_spec(&s[0]) == Ordering::Equal);
    } else {
        lemma_root_max(s, parent_of(i));
        assert(geq(s[parent_of(i)], s[i]));
        lemma_geq_trans(s[0], s[parent_of(i)], s[i]);
    }
}

/// Exchanging two elements keeps the multiset.
proof fn lemma_swap_multiset<T>(s: Seq<T>, i: int, j: int)
    requires
        0 <= i < s.len(),
        0 <= j < s.len(),
    ensures
        s.update(i, s[j]).update(j, s[i]).to_multiset() == s.to_multiset(),
{
    let s1 = s.update(i, s[j]);
    assert(s1.to_multiset() == s.to_multiset().insert(s[j]).remove(s[i]));
    assert(s1.update(j, s[i]).to_multiset() == s1.to_multiset().insert(s[i]).remove(s1[j]));
    if i == j {
        assert(s.update(i, s[j]).update(j, s[i]) =~= s);
    } else {
        assert(s1[j] == s[j]);
        assert(s1.update(j, s[i]).to_multiset() =~= s.to_multiset());
    }
}

impl<T: Ord> HeapQ<T> {
    /// The elements held.
    pub closed spec fn view(&self) -> Multiset<T> {
        self.values@.to_multiset()
    }

    pub closed spec fn wf(&self) -> bool {
        &&& total_order::<T>()
        &&& heap_except(self.values@, 0)
    }

    /// An empty heap.
    pub fn new() -> (r: Self)
        requires
            total_order::<T>(),
        ensures
            r.wf(),
            r@ == Multiset::<T>::empty(),
    {
        let r = HeapQ { values: Vec::new() };
        proof {
            assert(r.values@ =~= Seq::<T>::empty());
            assert(r.values@.to_multiset().len() == 0);
            assert(r.values@.to_multiset() =~= Multiset::<T>::empty());
        }
        r
    }

    /// Adds `value`.
    pub fn push(&mut self, value: T)
        requires
            old(self).wf(),
        ensures
            final(self).wf(),
            final(self)@ == old(self)@.insert(value),
    {
        let ghost old_values = self.values@;
        self.values.push(value);
        proof {
            assert(old_values.push(value).to_multiset() == old_values.to_multiset().insert(value));
            assert forall|c: int|
                0 < c < self.values@.len() && parent_of(c) == self.values@.len() - 1 implies geq(
                    self.values@[parent_of(self.values@.len() - 1)],
                    #[trigger] self.values@[c],
                ) by {}
            assert forall|i: int| 0 < i < self.values@.len() && i != self.values@.len() - 1 implies geq(
                #[trigger] self.values@[parent_of(i)],
                self.values@[i],
            ) by {
                assert(self.values@[i] == old_values[i]);
                assert(self.values@[parent_of(i)] == old_values[parent_of(i)]);
            }
        }
        self.siftup(self.values.len() - 1);
    }

    /// Takes out and returns a greatest element; `None` when empty.
    pub fn pop(&mut self) -> (r: Option<T>)
        requires
            old(self).wf(),
        ensures
            final(self).wf(),
            old(self)@.len() == 0 ==> r is None && final(self)@ == old(self)@,
            old(self)@.len() > 0 ==> (r matches Some(v) && old(self)@.contains(v) && final(self)@
                == old(self)@.remove(v) && forall|x: T| old(self)@.contains(x) ==> geq(v, x)),
    {
        proof {
            self.lemma_max();
        }
        match self.values.len() {
            0 => None,
            1 => {
                let ghost s = self.values@;
                let r = self.values.pop();
                proof {
                    assert(s =~= seq![s[0]]);
                    assert(self.values@ =~= Seq::<T>::empty());
                    assert(s.to_multiset() =~= self.values@.to_multiset().insert(s[0]));
                }
                r
            },
            x => {
                let ghost s = self.values@;
                swap_at(&mut self.values, 0, x - 1);
                let ghost t = self.values@;
                let value = self.values.pop();
                proof {
                    lemma_swap_multiset(s, 0, x - 1);
                    assert(t.to_multiset() == s.to_multiset());
                    assert(t =~= self.values@.push(t[x - 1]));
                    assert(t.to_multiset() == self.values@.to_multiset().insert(s[0]));
                    assert(self.values@.to_multiset() =~= s.to_multiset().remove(s[0]));
                    assert forall|i: int| 0 < i < self.values@.len() && parent_of(i) != 0 implies geq(
                        #[trigger] self.values@[parent_of(i)],
                        self.values@[i],
                    ) by {
                        assert(self.values@[parent_of(i)] == s[parent_of(i)]);
                        assert(self.values@[i] == s[i]);
                    }
                }
                self.siftdown(0);
                value
            },
        }
    }

    /// A greatest element; `None` when empty.
    pub fn top(&mut self) -> (r: Option<&T>)
        requires
            old(self).wf(),
        ensures
            final(self).wf(),
            final(self)@ == old(self)@,
            old(self)@.len() == 0 ==> r is None,
            old(self)@.len() > 0 ==> (r matches Some(v) && old(self)@.contains(*v) && forall|x: T|
                old(self)@.contains(x) ==> geq(*v, x)),
    {
        proof {
            self.lemma_max();
        }
        if self.values.len() == 0 {
            None
        } else {
            Some(&self.values[0])
        }
    }

    /// The number of elements.
    pub fn len(&self) -> (r: usize)
        requires
            self.wf(),
        ensures
            r == self@.len(),
    {
        self.values.len()
    }

    /// Whether there are no elements.
    pub fn is_empty(&self) -> (r: bool)
        requires
            self.wf(),
        ensures
            r == (self@.len() == 0),
    {
        self.values.len() == 0
    }

    /// The first element is a greatest one.
    proof fn lemma_max(&self)
        requires
            self.wf(),
        ensures
            self.values@.len() > 0 ==> self@.contains(self.values@[0]) && forall|x: T|
                self@.contains(x) ==> geq(self.values@[0], x),
    {
        if self.values@.len() > 0 {
            assert(self.values@.contains(self.values@[0]));
            assert forall|x: T| self@.contains(x) implies geq(self.values@[0], x) by {
                assert(self.values@.contains(x));
                let i = choose|i: int| 0 <= i < self.values@.len() && self.values@[i] == x;
                lemma_root_max(self.values@, i);
            }
        }
    }

    /// Moves the element at `index` up while it is greater than its parent.
    fn siftup(&mut self, index: usize)
        requires
            total_order::<T>(),
            index < old(self).values@.len(),
            heap_except(old(self).values@, index as int),
            index > 0 ==> forall|c: int|
                0 < c < old(self).values@.len() && parent_of(c) == index ==> geq(
                    #[trigger] old(self).values@[parent_of(index as int)],
                    old(self).values@[c],
                ),
        ensures
            final(self).wf(),
            final(self)@ == old(self)@,
    {
        let mut index = index;
        while index > 0
            invariant
                total_order::<T>(),
                index < self.values@.len(),
                heap_except(self.values@, index as int),
                index > 0 ==> forall|c: int|
                    0 < c < self.values@.len() && parent_of(c) == index ==> geq(
                        #[trigger] self.values@[parent_of(index as int)],
                        self.values@[c],
                    ),
                self@ == old(self)@,
            decreases index,
        {
            let parent = (index - 1) / 2;
            if self.values[parent] < self.values[index] {
                let ghost s = self.values@;
                swap_at(&mut self.values, index, parent);
                proof {
                    lemma_total_order::<T>();
                    let t = self.values@;
                    let i = index as int;
                    let p = parent as int;
                    assert(lt(s[p], s[i]));
                    lemma_lt_geq(s[p], s[i]);
                    assert forall|j: int| 0 < j < t.len() && j != p implies geq(#[trigger] t[parent_of(j)], t[j]) by {
                        if j == i {
                        } else if parent_of(j) == i {
                            assert(geq(s[p], s[j]));
                        } else if parent_of(j) == p {
                            assert(geq(s[p], s[j]));
                            lemma_geq_trans(s[i], s[p], s[j]);
                        } else {
                            assert(geq(s[parent_of(j)], s[j]));
                        }
                    }
                    if p > 0 {
                        assert forall|c: int| 0 < c < t.len() && parent_of(c) == p implies geq(
                            #[trigger] t[parent_of(p)],
                            t[c],
                        ) by {
                            assert(geq(s[parent_of(p)], s[p]));
                            if c == i {
                            } else {
                                assert(geq(s[p], s[c]));
                                lemma_geq_trans(s[parent_of(p)], s[p], s[c]);
                            }
                        }
                    }
                    lemma_swap_multiset(s, i, p);
                }
                index = parent;
            } else {
                proof {
                    lemma_total_order::<T>();
                    let s = self.values@;
                    assert(!lt(s[parent as int], s[index as int]));
                    assert(heap_except(s, 0));
                }
                return;
            }
        }
    }

    /// Moves the element at `index` down while it is less than its greater
    /// child.
    fn siftdown(&mut self, index: usize)
        requires
            total_order::<T>(),
            heap_except_children(old(self).values@, index as int),
            index > 0 ==> forall|c: int|
                0 < c < old(self).values@.len() && parent_of(c) == index ==> geq(
                    #[trigger] old(self).values@[parent_of(index as int)],
                    old(self).values@[c],
                ),
        ensures
            final(self).wf(),
            final(self)@ == old(self)@,
    {
        let mut index = index;
        while index < self.values.len()
            invariant
                total_order::<T>(),
                heap_except_children(self.values@, index as int),
                index > 0 ==> forall|c: int|
                    0 < c < self.values@.len() && parent_of(c) == index ==> geq(
                        #[trigger] self.values@[parent_of(index as int)],
                        self.values@[c],
                    ),
                self@ == old(self)@,
            decreases self.values@.len() - index,
        {
            if index >= self.values.len() / 2 {
                // no children
                proof {
                    assert forall|i: int| 0 < i < self.values@.len() implies geq(#[trigger] self.values@[parent_of(i)], self.values@[i]) by {
                        if parent_of(i) == index {
                            assert(i >= 2 * index + 1);
                        }
                    }
                }
                return;
            }
            let left_idx = 2 * index + 1;
            let right_idx = left_idx + 1;

            let mut greater_idx = left_idx;
            if right_idx < self.values.len() && self.values[left_idx] < self.values[right_idx] {
                greater_idx = right_idx;
            }
            let ghost s = self.values@;
            proof {
                lemma_total_order::<T>();
                assert(parent_of(left_idx as int) == index);
                assert(parent_of(right_idx as int) == index);
                if greater_idx == right_idx {
                    lemma_lt_geq(s[left_idx as int], s[right_idx as int]);
                } else if right_idx < s.len() {
                    assert(!lt(s[left_idx as int], s[right_idx as int]));
                }
            }

            if self.values[index] < self.values[greater_idx] {
                swap_at(&mut self.values, index, greater_idx);
                proof {
                    lemma_total_order::<T>();
                    let t = self.values@;
                    let i = index as int;
                    let g = greater_idx as int;
                    lemma_lt_geq(s[i], s[g]);
                    assert forall|j: int| 0 < j < t.len() && parent_of(j) != g implies geq(#[trigger] t[parent_of(j)], t[j]) by {
                        if j == i {
                            assert(geq(s[parent_of(i)], s[g]));
                        } else if j == g {
                        } else if parent_of(j) == i {
                            // the other child
                            if j == left_idx {
                                assert(!lt(s[g], s[j]));
                            } else {
                                assert(!lt(s[g], s[j]));
                            }
                        } else {
                            assert(geq(s[parent_of(j)], s[j]));
                        }
                    }
                    assert forall|c: int| 0 < c < t.len() && parent_of(c) == g implies geq(
                        #[trigger] t[parent_of(g)],
                        t[c],
                    ) by {
                        assert(geq(s[g], s[c]));
                    }
                    lemma_swap_multiset(s, i, g);
                }
                index = greater_idx;
            } else {
                proof {
                    lemma_total_order::<T>();
                    assert forall|i: int| 0 < i < s.len() implies geq(#[trigger] s[parent_of(i)], s[i]) by {
                        if parent_of(i) == index {
                            if i == greater_idx {
                            } else if i == left_idx {
                                lemma_geq_trans(s[index as int], s[greater_idx as int], s[i]);
                            } else {
                                assert(i == right_idx);
                                lemma_geq_trans(s[index as int], s[greater_idx as int], s[i]);
                            }
                        }
                    }
                }
                return;
            }
        }
        proof {
            assert forall|i: int| 0 < i < self.values@.len() implies geq(#[trigger] self.values@[parent_of(i)], self.values@[i]) by {
                if parent_of(i) == index {
                    assert(i > index);
                }
            }
        }
    }
}

/// No element is less than one of its children, leaving out the edges out
/// of place `skip`.
pub open spec fn heap_except_children<T: Ord>(s: Seq<T>, skip: int) -> bool {
    forall|i: int| 0 < i < s.len() && parent_of(i) != skip ==> geq(#[trigger] s[parent_of(i)], s[i])
}

} // verus!
