//! An AVL tree whose nodes live in a slot arena and refer to each other by
//! index. Removed slots go on a free list and are reused by later inserts.
use crate::order::{
    ascending, lemma_insert_to_set, lemma_remove_to_set, lemma_total_order, lt, total_order,
};
use std::cmp::Ordering;
use vstd::prelude::*;
use vstd::std_specs::cmp::OrdSpec;

verus! {

/// A node of the tree: its element, the height of its subtree (a leaf has
/// height 0, an absent subtree -1) and the indices of its neighbours.
pub struct Node<T> {
    pub value: T,
    pub height: i32,
    pub parent: Option<usize>,
    pub left: Option<usize>,
    pub right: Option<usize>,
}

/// A slot of the arena: a live node, or a link in the list of free slots.
enum Slot<T> {
    Occupied { node: Node<T> },
    Free { next_free: Option<usize> },
}

/// An ordered set of `T` kept as an AVL tree inside a slot arena.
///
/// Besides the arena, the tree carries ghost bookkeeping: `order` lists the
/// occupied slots in ascending order of their elements, `pos` gives the place
/// of each slot in `order`, and `[lo, hi)` is the range of places that the
/// subtree rooted at a slot covers. `free` lists the free slots from the head
/// of the free list on.
pub struct Tree<T: Ord> {
    items: Vec<Slot<T>>,
    head_free: Option<usize>,
    root: Option<usize>,
    len: usize,
    order: Ghost<Seq<usize>>,
    pos: Ghost<spec_fn(usize) -> int>,
    lo: Ghost<spec_fn(usize) -> int>,
    hi: Ghost<spec_fn(usize) -> int>,
    free: Ghost<Seq<usize>>,
}

/// Hands out the elements of a tree, smallest first, and empties it.
pub struct IntoIter<T: Ord> {
    tree: Tree<T>,
}

/// Walks the elements of a tree, smallest first, by successor links.
pub struct Iter<'a, T: Ord> {
    tree: &'a Tree<T>,
    next: Option<usize>,
}

impl<T> Node<T> {
    /// A detached leaf holding `value`.
    pub fn new(value: T) -> (r: Self)
        ensures
            r.value == value,
            r.height == 0,
            r.parent is None,
            r.left is None,
            r.right is None,
    {
        Node { value, height: 0, parent: None, left: None, right: None }
    }
}

/// Where an end of a range goes when a place is opened at `q`: ends past
/// `q` move up, and so does an end at `q` when the new element joins the
/// ranges that end just before it.
pub open spec fn shift_end(e: int, q: int, join_left: bool) -> int {
    if e > q || (join_left && e == q) {
        e + 1
    } else {
        e
    }
}

/// Where a place goes when a place is opened at `q`.
pub open spec fn shift_place(k: int, q: int) -> int {
    if k >= q {
        k + 1
    } else {
        k
    }
}

/// Where an end of a range goes when the place `q` is closed: ends past `q`
/// move down, and so does an end at `q` when `at_q` holds.
pub open spec fn unshift_end(e: int, q: int, at_q: bool) -> int {
    if e > q || (at_q && e == q) {
        e - 1
    } else {
        e
    }
}

/// Where a place goes when the place `q` is closed.
pub open spec fn unshift_place(k: int, q: int) -> int {
    if k > q {
        k - 1
    } else {
        k
    }
}

/// The fewest nodes that a balanced tree of height `h` can hold: none for
/// the empty tree (height -1), one for a leaf, and for a greater height the
/// root, one subtree one lower and one subtree two lower.
pub open spec fn min_nodes(h: int) -> nat
    decreases h,
{
    if h < 0 {
        0
    } else if h == 0 {
        1
    } else if h == 1 {
        2
    } else {
        min_nodes(h - 1) + min_nodes(h - 2) + 1
    }
}

pub proof fn lemma_min_nodes_monotone(h1: int, h2: int)
    requires
        h1 <= h2,
    ensures
        min_nodes(h1) <= min_nodes(h2),
    decreases h2 - h1,
{
    if h1 < h2 {
        lemma_min_nodes_monotone(h1, h2 - 1);
        if h2 >= 2 {
            assert(min_nodes(h2) == min_nodes(h2 - 1) + min_nodes(h2 - 2) + 1);
        }
    }
}

/// The most nodes that a binary tree of height `h` can hold.
pub open spec fn max_nodes(h: int) -> nat
    decreases h,
{
    if h < 0 {
        0
    } else if h == 0 {
        1
    } else {
        2 * max_nodes(h - 1) + 1
    }
}

pub proof fn lemma_max_nodes_monotone(h1: int, h2: int)
    requires
        h1 <= h2,
    ensures
        max_nodes(h1) <= max_nodes(h2),
    decreases h2 - h1,
{
    if h1 < h2 {
        lemma_max_nodes_monotone(h1, h2 - 1);
        if h2 >= 1 {
            assert(max_nodes(h2) == 2 * max_nodes(h2 - 1) + 1);
        }
    }
}

pub open spec fn max_int(a: int, b: int) -> int {
    if a >= b { a } else { b }
}

impl<T: Ord> Tree<T> {
    // ---------------------------------------------------------------- model

    pub closed spec fn occ(&self, i: usize) -> bool {
        &&& i < self.items@.len()
        &&& self.items@[i as int] is Occupied
    }

    pub closed spec fn nd(&self, i: usize) -> Node<T> {
        self.items@[i as int]->Occupied_node
    }

    /// The element at place `k` of the in-order sequence.
    pub closed spec fn val_at(&self, k: int) -> T {
        self.nd(self.order@[k]).value
    }

    /// The elements in ascending order.
    pub closed spec fn view(&self) -> Seq<T> {
        Seq::new(self.len as nat, |k: int| self.val_at(k))
    }

    /// The height of the subtree that `link` points to.
    pub closed spec fn link_h(&self, link: Option<usize>) -> int {
        match link {
            Some(i) => self.nd(i).height as int,
            None => -1,
        }
    }

    closed spec fn size(&self, i: usize) -> int {
        (self.hi@)(i) - (self.lo@)(i)
    }

    /// The arena: `order` and `free` describe the slots.
    closed spec fn wf_arena(&self) -> bool {
        &&& self.order@.len() == self.len
        &&& forall|k: int|
            0 <= k < self.len ==> {
                &&& #[trigger] self.occ(self.order@[k])
                &&& (self.pos@)(self.order@[k]) == k
            }
        &&& forall|i: usize|
            #[trigger] self.occ(i) ==> {
                &&& 0 <= (self.pos@)(i) < self.len
                &&& self.order@[(self.pos@)(i)] == i
            }
        &&& self.wf_free()
    }

    /// `free` lists the free list from its head on.
    closed spec fn wf_free(&self) -> bool {
        &&& forall|a: int, b: int|
            0 <= a < b < self.free@.len() ==> #[trigger] self.free@[a] != #[trigger] self.free@[b]
        &&& forall|j: int|
            0 <= j < self.free@.len() ==> {
                &&& self.free@[j] < self.items@.len()
                &&& #[trigger] self.items@[self.free@[j] as int] is Free
                &&& self.items@[self.free@[j] as int]->next_free == if j + 1 < self.free@.len() {
                    Some(self.free@[j + 1])
                } else {
                    None::<usize>
                }
            }
        &&& self.head_free == if self.free@.len() > 0 {
            Some(self.free@[0])
        } else {
            None::<usize>
        }
    }

    proof fn lemma_free_at(&self, j: int)
        requires
            self.wf_free(),
            0 <= j < self.free@.len(),
        ensures
            self.free@[j] < self.items@.len(),
            self.items@[self.free@[j] as int] is Free,
            self.items@[self.free@[j] as int]->next_free == if j + 1 < self.free@.len() {
                Some(self.free@[j + 1])
            } else {
                None::<usize>
            },
    {
        assert(self.items@[self.free@[j] as int] is Free);
    }

    /// Changing an occupied slot leaves the free list as it is.
    proof fn lemma_free_frame(a: &Self, b: &Self, i: usize)
        requires
            a.wf_free(),
            a.occ(i),
            b.items@.len() == a.items@.len(),
            forall|j: int| 0 <= j < a.items@.len() && j != i ==> b.items@[j] == a.items@[j],
            b.free@ == a.free@,
            b.head_free == a.head_free,
        ensures
            b.wf_free(),
    {
        assert forall|j: int| 0 <= j < b.free@.len() implies {
            &&& b.free@[j] < b.items@.len()
            &&& #[trigger] b.items@[b.free@[j] as int] is Free
            &&& b.items@[b.free@[j] as int]->next_free == if j + 1 < b.free@.len() {
                Some(b.free@[j + 1])
            } else {
                None::<usize>
            }
        } by {
            a.lemma_free_at(j);
        }
    }

    /// The links of the node at place `k`, against the ranges.
    closed spec fn wf_node(&self, k: int) -> bool {
        let i = self.order@[k];
        let n = self.nd(i);
        &&& 0 <= (self.lo@)(i) <= k < (self.hi@)(i) <= self.len
        &&& (n.left is Some <==> (self.lo@)(i) < k)
        &&& (n.right is Some <==> k + 1 < (self.hi@)(i))
        &&& n.left matches Some(l) ==> {
            &&& self.occ(l)
            &&& (self.lo@)(l) == (self.lo@)(i)
            &&& (self.hi@)(l) == k
            &&& self.nd(l).parent == Some(i)
        }
        &&& n.right matches Some(r) ==> {
            &&& self.occ(r)
            &&& (self.lo@)(r) == k + 1
            &&& (self.hi@)(r) == (self.hi@)(i)
            &&& self.nd(r).parent == Some(i)
        }
        &&& match n.parent {
            None => self.root == Some(i),
            Some(p) => self.occ(p) && (self.nd(p).left == Some(i) || self.nd(p).right == Some(i)),
        }
        &&& 0 <= n.height < i32::MAX
    }

    /// The height stored at `i` is the height of its subtree.
    closed spec fn height_ok(&self, i: usize) -> bool {
        let n = self.nd(i);
        &&& n.height == 1 + max_int(self.link_h(n.left), self.link_h(n.right))
        &&& n.height < self.size(i)
    }

    /// The heights of the two subtrees of `i` differ by one at most.
    closed spec fn balanced_at(&self, i: usize) -> bool {
        let d = self.link_h(self.nd(i).left) - self.link_h(self.nd(i).right);
        -1 <= d <= 1
    }

    closed spec fn wf_links(&self) -> bool {
        &&& forall|k: int| 0 <= k < self.len ==> #[trigger] self.wf_node(k)
        &&& (self.root is None <==> self.len == 0)
        &&& self.root matches Some(r) ==> {
            &&& self.occ(r)
            &&& (self.lo@)(r) == 0
            &&& (self.hi@)(r) == self.len
            &&& self.nd(r).parent is None
        }
        &&& ascending(self.view())
        &&& self.len < i32::MAX
    }

    /// Everything but the stored heights.
    closed spec fn wf_shape(&self) -> bool {
        &&& total_order::<T>()
        &&& self.wf_arena()
        &&& self.wf_links()
    }

    /// The heights are right at every node that is not on `path`.
    closed spec fn heights_ok_off(&self, path: Seq<usize>) -> bool {
        forall|k: int|
            0 <= k < self.len && !path.contains(self.order@[k]) ==> #[trigger] self.height_ok(
                self.order@[k],
            )
    }

    /// The shape is well formed and every stored height is right.
    closed spec fn hwf(&self) -> bool {
        &&& self.wf_shape()
        &&& self.heights_ok_off(Seq::empty())
    }

    /// The tree is well formed: a search tree with right heights, balanced
    /// at every node.
    pub closed spec fn wf(&self) -> bool {
        &&& self.avl_ok()
        &&& self.free_complete()
    }

    /// A search tree with right heights, balanced at every node.
    closed spec fn avl_ok(&self) -> bool {
        &&& self.hwf()
        &&& forall|i: usize| #[trigger] self.occ(i) ==> self.balanced_at(i)
    }

    /// Every slot that holds no node is on the free list.
    closed spec fn free_complete(&self) -> bool {
        forall|i: usize| i < self.items@.len() && !#[trigger] self.occ(i) ==> self.free@.contains(i)
    }

    /// Each element of `path` is the parent of the one before, and the last
    /// one is the root.
    closed spec fn up_path(&self, path: Seq<usize>) -> bool {
        &&& forall|j: int| 0 <= j < path.len() ==> #[trigger] self.occ(path[j])
        &&& forall|a: int, b: int|
            0 <= a < b < path.len() ==> {
                &&& self.size(#[trigger] path[a]) < self.size(#[trigger] path[b])
                &&& (self.lo@)(path[b]) <= (self.lo@)(path[a])
                &&& (self.hi@)(path[a]) <= (self.hi@)(path[b])
            }
        &&& forall|j: int|
            0 <= j < path.len() ==> #[trigger] self.nd(path[j]).parent == if j + 1 < path.len() {
                Some(path[j + 1])
            } else {
                None::<usize>
            }
    }

    /// `i` is where a search for `v` ends: it holds `v`, or `v` belongs just
    /// before it in place of its absent left child, or just after it in place
    /// of its absent right child.
    closed spec fn closest_ok(&self, v: T, i: usize) -> bool {
        let k = (self.pos@)(i);
        &&& self.occ(i)
        &&& {
            ||| self.val_at(k) == v
            ||| lt(v, self.val_at(k)) && self.nd(i).left is None && (k == 0 || lt(
                self.val_at(k - 1),
                v,
            ))
            ||| lt(self.val_at(k), v) && self.nd(i).right is None && (k + 1 == self.len || lt(
                v,
                self.val_at(k + 1),
            ))
        }
    }

    /// `v` lies between the elements before place `k` and those from `k` on.
    closed spec fn splits_at(&self, v: T, k: int) -> bool {
        &&& 0 <= k <= self.len
        &&& forall|j: int| 0 <= j < k ==> lt(#[trigger] self.val_at(j), v)
        &&& forall|j: int| k <= j < self.len ==> lt(v, #[trigger] self.val_at(j))
    }

    proof fn lemma_lt_places(&self, i: int, j: int)
        requires
            total_order::<T>(),
            ascending(self@),
            0 <= i < j < self.len,
        ensures
            lt(self.val_at(i), self.val_at(j)),
    {
        assert(self@[i] == self.val_at(i) && self@[j] == self.val_at(j));
    }

    proof fn lemma_splits_absent(&self, v: T, k: int)
        requires
            total_order::<T>(),
            ascending(self@),
            self.splits_at(v, k),
        ensures
            !self@.contains(v),
    {
        lemma_total_order::<T>();
        if self@.contains(v) {
            let j = choose|j: int| 0 <= j < self@.len() && self@[j] == v;
            assert(self@[j] == self.val_at(j));
        }
    }

    /// From the neighbours of place `k` to all places.
    proof fn lemma_splits_from_neighbours(&self, v: T, k: int)
        requires
            total_order::<T>(),
            ascending(self@),
            0 <= k <= self.len,
            k > 0 ==> lt(self.val_at(k - 1), v),
            k < self.len ==> lt(v, self.val_at(k)),
        ensures
            self.splits_at(v, k),
    {
        lemma_total_order::<T>();
        assert forall|j: int| 0 <= j < k implies lt(#[trigger] self.val_at(j), v) by {
            if j < k - 1 {
                self.lemma_lt_places(j, k - 1);
            }
        }
        assert forall|j: int| k <= j < self.len implies lt(v, #[trigger] self.val_at(j)) by {
            if j > k {
                self.lemma_lt_places(k, j);
            }
        }
    }

    /// A child of the start of an upward path extends it.
    proof fn lemma_path_extend(&self, path: Seq<usize>, c: usize)
        requires
            self.wf_shape(),
            self.up_path(path),
            path.len() > 0,
            self.occ(path[0]),
            self.nd(path[0]).left == Some(c) || self.nd(path[0]).right == Some(c),
        ensures
            self.up_path(seq![c] + path),
    {
        let top = path[0];
        assert(self.wf_node((self.pos@)(top)));
        let np = seq![c] + path;
        assert forall|a: int, b: int| 0 <= a < b < np.len() implies {
            &&& self.size(#[trigger] np[a]) < self.size(#[trigger] np[b])
            &&& (self.lo@)(np[b]) <= (self.lo@)(np[a])
            &&& (self.hi@)(np[a]) <= (self.hi@)(np[b])
        } by {
            if a == 0 {
                assert(np[b] == path[b - 1]);
                if b > 1 {
                    assert(path[0] == np[1]);
                }
            } else {
                assert(np[a] == path[a - 1] && np[b] == path[b - 1]);
            }
        }
        assert forall|j: int| 0 <= j < np.len() implies #[trigger] self.nd(np[j]).parent == if j + 1 < np.len() {
            Some(np[j + 1])
        } else {
            None::<usize>
        } by {
            if j > 0 {
                assert(np[j] == path[j - 1]);
            }
        }
        assert forall|j: int| 0 <= j < np.len() implies #[trigger] self.occ(np[j]) by {
            if j > 0 {
                assert(np[j] == path[j - 1]);
            }
        }
    }

    /// A suffix of an upward path is one.
    proof fn lemma_path_skip(&self, path: Seq<usize>, m: int)
        requires
            self.up_path(path),
            0 <= m <= path.len(),
        ensures
            self.up_path(path.subrange(m, path.len() as int)),
    {
        let np = path.subrange(m, path.len() as int);
        assert forall|j: int| 0 <= j < np.len() implies #[trigger] self.occ(np[j]) by {
            assert(np[j] == path[j + m]);
        }
        assert forall|j: int| 0 <= j < np.len() implies #[trigger] self.nd(np[j]).parent == if j + 1 < np.len() {
            Some(np[j + 1])
        } else {
            None::<usize>
        } by {
            assert(np[j] == path[j + m]);
            assert(self.nd(path[j + m]).parent == if j + m + 1 < path.len() {
                Some(path[j + m + 1])
            } else {
                None::<usize>
            });
        }
        assert forall|c: int, d: int| 0 <= c < d < np.len() implies {
            &&& self.size(#[trigger] np[c]) < self.size(#[trigger] np[d])
            &&& (self.lo@)(np[d]) <= (self.lo@)(np[c])
            &&& (self.hi@)(np[c]) <= (self.hi@)(np[d])
        } by {
            assert(np[c] == path[c + m] && np[d] == path[d + m]);
        }
    }

    // ------------------------------------------------------- construction

    pub fn new() -> (r: Self)
        requires
            total_order::<T>(),
        ensures
            r.wf(),
            r@ == Seq::<T>::empty(),
            r.slot_count() == 0,
            r.free_slots() == Seq::<usize>::empty(),
    {
        let r = Tree {
            items: Vec::new(),
            head_free: None,
            root: None,
            len: 0,
            order: Ghost(Seq::empty()),
            pos: Ghost(|i: usize| 0),
            lo: Ghost(|i: usize| 0),
            hi: Ghost(|i: usize| 0),
            free: Ghost(Seq::empty()),
        };
        assert(r@ =~= Seq::<T>::empty());
        r
    }

    /// The number of elements.
    pub fn len(&self) -> (r: usize)
        requires
            self.wf(),
        ensures
            r == self@.len(),
    {
        self.len
    }

    /// The node in slot `index`.
    fn unwrap_occupied(&self, index: usize) -> (r: &Node<T>)
        requires
            self.occ(index),
        ensures
            *r == self.nd(index),
    {
        match &self.items[index] {
            Slot::Occupied { node } => node,
            Slot::Free { .. } => vstd::pervasive::unreached(),
        }
    }

    /// The height of the subtree that `link` points to, -1 for none.
    fn link_height(&self, link: Option<usize>) -> (r: i32)
        requires
            link matches Some(i) ==> self.occ(i),
        ensures
            r == self.link_h(link),
    {
        match link {
            Some(index) => self.unwrap_occupied(index).height,
            None => -1,
        }
    }

    /// Descends from the root towards `value`; see `closest_ok`. The ghost
    /// result is the path from the returned node up to the root.
    fn find_closest(&self, value: &T) -> (r: (Option<usize>, Ghost<Seq<usize>>))
        requires
            self.hwf(),
        ensures
            r.0 is None <==> self.len == 0,
            r.0 matches Some(i) ==> {
                &&& self.closest_ok(*value, i)
                &&& self.up_path(r.1@)
                &&& r.1@.len() > 0
                &&& r.1@[0] == i
            },
    {
        proof {
            lemma_total_order::<T>();
        }
        let mut prev: Option<usize> = None;
        let mut cur = self.root;
        let ghost mut path: Seq<usize> = match self.root {
            Some(r) => seq![r],
            None => Seq::empty(),
        };
        loop
            invariant
                self.hwf(),
                cur matches Some(c) ==> {
                    &&& self.occ(c)
                    &&& self.up_path(path)
                    &&& path.len() > 0
                    &&& path[0] == c
                    &&& forall|j: int| 0 <= j < (self.lo@)(c) ==> lt(#[trigger] self.val_at(j), *value)
                    &&& forall|j: int|
                        (self.hi@)(c) <= j < self.len ==> lt(*value, #[trigger] self.val_at(j))
                },
                cur is None ==> (prev is None <==> self.len == 0),
                cur is None ==> (prev matches Some(p) ==> {
                    &&& self.closest_ok(*value, p)
                    &&& self.up_path(path)
                    &&& path.len() > 0
                    &&& path[0] == p
                }),
            decreases
                match cur {
                    Some(c) => self.size(c) + 1,
                    None => 0,
                },
        {
            match cur {
                None => {
                    return (prev, Ghost(path));
                },
                Some(index) => {
                    proof {
                        lemma_total_order::<T>();
                        let k = (self.pos@)(index);
                        assert(self.wf_node(k));
                    }
                    prev = cur;
                    let node = self.unwrap_occupied(index);
                    proof {
                        assert(self.val_at((self.pos@)(index)) == node.value);
                    }
                    match value.cmp(&node.value) {
                        Ordering::Less => {
                            proof {
                                let k = (self.pos@)(index);
                                assert(value.cmp_spec(&node.value) == Ordering::Less);
                                assert(lt(*value, node.value));
                                assert(lt(*value, self.val_at(k)));
                                assert forall|j: int| k <= j < self.len implies lt(
                                    *value,
                                    #[trigger] self.val_at(j),
                                ) by {
                                    if j > k {
                                        self.lemma_lt_places(k, j);
                                    }
                                }
                                if let Some(l) = node.left {
                                    assert(self.wf_node((self.pos@)(l)));
                                    self.lemma_path_extend(path, l);
                                    path = seq![l] + path;
                                } else {
                                    if k > 0 {
                                        assert(self.val_at(k - 1) == self.val_at(k - 1));
                                    }
                                }
                            }
                            cur = node.left;
                        },
                        Ordering::Greater => {
                            proof {
                                let k = (self.pos@)(index);
                                assert(value.cmp_spec(&node.value) == Ordering::Greater);
                                assert(node.value.cmp_spec(value) == Ordering::Less);
                                assert(lt(self.val_at(k), *value));
                                assert forall|j: int| 0 <= j <= k implies lt(
                                    #[trigger] self.val_at(j),
                                    *value,
                                ) by {
                                    if j < k {
                                        self.lemma_lt_places(j, k);
                                    }
                                }
                                if let Some(rt) = node.right {
                                    assert(self.wf_node((self.pos@)(rt)));
                                    self.lemma_path_extend(path, rt);
                                    path = seq![rt] + path;
                                } else {
                                    if k + 1 < self.len {
                                        assert(self.val_at(k + 1) == self.val_at(k + 1));
                                    }
                                }
                            }
                            cur = node.right;
                        },
                        Ordering::Equal => {
                            return (cur, Ghost(path));
                        },
                    }
                },
            }
        }
    }

    /// Whether `value` is an element.
    pub fn contains(&self, value: &T) -> (r: bool)
        requires
            self.wf(),
        ensures
            r == self@.contains(*value),
    {
        proof {
            lemma_total_order::<T>();
        }
        let (closest, _) = self.find_closest(value);
        match closest {
            Some(index) => {
                let node = self.unwrap_occupied(index);
                let r = matches!(value.cmp(&node.value), Ordering::Equal);
                proof {
                    let k = (self.pos@)(index);
                    if r {
                        assert(self@[k] == *value);
                    } else {
                        assert(self.wf_node(k));
                        if lt(*value, self.val_at(k)) {
                            self.lemma_splits_from_neighbours(*value, k);
                            self.lemma_splits_absent(*value, k);
                        } else {
                            self.lemma_splits_from_neighbours(*value, k + 1);
                            self.lemma_splits_absent(*value, k + 1);
                        }
                    }
                }
                r
            },
            None => {
                proof {
                    self.lemma_splits_absent(*value, 0);
                }
                false
            },
        }
    }

    /// `new` differs from `old` in the slot `i` at most.
    closed spec fn same_but_slot(old: &Self, new: &Self, i: usize) -> bool {
        &&& new.items@.len() == old.items@.len()
        &&& forall|j: int| 0 <= j < old.items@.len() && j != i ==> new.items@[j] == old.items@[j]
        &&& new.head_free == old.head_free
        &&& new.root == old.root
        &&& new.len == old.len
        &&& new.order@ == old.order@
        &&& new.pos@ == old.pos@
        &&& new.lo@ == old.lo@
        &&& new.hi@ == old.hi@
        &&& new.free@ == old.free@
    }

    /// `new` has the nodes of `old` with their links and elements, and
    /// perhaps other heights.
    closed spec fn same_shape(old: &Self, new: &Self) -> bool {
        &&& new.items@.len() == old.items@.len()
        &&& forall|j: int|
            0 <= j < old.items@.len() ==> (#[trigger] new.items@[j] is Occupied <==> old.items@[j] is Occupied)
        &&& forall|j: int|
            0 <= j < old.items@.len() && old.items@[j] is Free ==> #[trigger] new.items@[j]
                == old.items@[j]
        &&& forall|i: usize|
            #[trigger] old.occ(i) ==> {
                &&& new.nd(i).value == old.nd(i).value
                &&& new.nd(i).parent == old.nd(i).parent
                &&& new.nd(i).left == old.nd(i).left
                &&& new.nd(i).right == old.nd(i).right
            }
        &&& new.head_free == old.head_free
        &&& new.root == old.root
        &&& new.len == old.len
        &&& new.order@ == old.order@
        &&& new.pos@ == old.pos@
        &&& new.lo@ == old.lo@
        &&& new.hi@ == old.hi@
        &&& new.free@ == old.free@
    }

    /// Heights aside, a tree of the same shape is as well formed.
    proof fn lemma_same_shape_wf(a: &Self, b: &Self)
        requires
            a.wf_shape(),
            Self::same_shape(a, b),
            forall|j: usize| #[trigger] b.occ(j) ==> 0 <= b.nd(j).height < i32::MAX,
        ensures
            b.wf_shape(),
            b@ == a@,
    {
        assert forall|i: usize| #![trigger a.occ(i)] #![trigger b.occ(i)] a.occ(i) <==> b.occ(i) by {
            if i < a.items@.len() {
                assert(b.items@[i as int] is Occupied <==> a.items@[i as int] is Occupied);
            }
        }
        assert(b@ =~= a@) by {
            assert forall|k: int| 0 <= k < b.len implies b.val_at(k) == a.val_at(k) by {
                assert(a.occ(a.order@[k]));
            }
        }
        assert forall|j: int| 0 <= j < b.free@.len() implies {
            &&& #[trigger] b.free@[j] < b.items@.len()
            &&& b.items@[b.free@[j] as int] is Free
            &&& b.items@[b.free@[j] as int]->next_free == if j + 1 < b.free@.len() {
                Some(b.free@[j + 1])
            } else {
                None::<usize>
            }
        } by {
            assert(a.free@[j] < a.items@.len());
            assert(a.items@[a.free@[j] as int] is Free);
        }
        assert(b.wf_free());
        assert forall|k: int| 0 <= k < b.len implies #[trigger] b.wf_node(k) by {
            assert(a.wf_node(k));
            let i = a.order@[k];
            let n = a.nd(i);
            assert(a.occ(i));
            if let Some(l) = n.left {
                assert(a.occ(l));
            }
            if let Some(r) = n.right {
                assert(a.occ(r));
            }
            if let Some(p) = n.parent {
                assert(a.occ(p));
            }
        }
        if let Some(r) = a.root {
            assert(a.occ(r));
        }
        assert(forall|k: int|
            0 <= k < b.len ==> {
                &&& #[trigger] b.occ(b.order@[k])
                &&& (b.pos@)(b.order@[k]) == k
            });
        assert(forall|i: usize|
            #[trigger] b.occ(i) ==> {
                &&& 0 <= (b.pos@)(i) < b.len
                &&& b.order@[(b.pos@)(i)] == i
            });
        assert(b.wf_arena());
        assert(b.wf_links());
    }

    proof fn lemma_same_shape_path(a: &Self, b: &Self, path: Seq<usize>)
        requires
            Self::same_shape(a, b),
            a.up_path(path),
        ensures
            b.up_path(path),
    {
        assert forall|j: int| 0 <= j < path.len() implies #[trigger] b.occ(path[j]) by {
            assert(a.occ(path[j]));
            assert(b.items@[path[j] as int] is Occupied);
        }
        assert forall|j: int| 0 <= j < path.len() implies #[trigger] b.nd(path[j]).parent == if j + 1 < path.len() {
            Some(path[j + 1])
        } else {
            None::<usize>
        } by {
            assert(a.occ(path[j]));
        }
    }

    /// `b` has the slots of `a`: as many, the same free list, and the same
    /// occupied slots holding the same elements.
    closed spec fn same_slots(a: &Self, b: &Self) -> bool {
        &&& b.items@.len() == a.items@.len()
        &&& b.free@ == a.free@
        &&& forall|i: usize| #![trigger a.occ(i)] #![trigger b.occ(i)] a.occ(i) <==> b.occ(i)
        &&& forall|i: usize| #[trigger] a.occ(i) ==> b.nd(i).value == a.nd(i).value
    }

    proof fn lemma_same_slots_trans(a: &Self, b: &Self, c: &Self)
        requires
            Self::same_slots(a, b),
            Self::same_slots(b, c),
        ensures
            Self::same_slots(a, c),
    {
    }

    proof fn lemma_shape_slots(a: &Self, b: &Self)
        requires
            Self::same_shape(a, b),
        ensures
            Self::same_slots(a, b),
    {
        assert forall|i: usize| #![trigger a.occ(i)] #![trigger b.occ(i)] a.occ(i) <==> b.occ(i) by {
            if i < a.items@.len() {
                assert(b.items@[i as int] is Occupied <==> a.items@[i as int] is Occupied);
            }
        }
    }

    /// The node `i` of `a` has, in `b`, the same children, height and range.
    closed spec fn kept(a: &Self, b: &Self, i: usize) -> bool {
        &&& b.occ(i)
        &&& b.nd(i).left == a.nd(i).left
        &&& b.nd(i).right == a.nd(i).right
        &&& b.nd(i).height == a.nd(i).height
        &&& (b.lo@)(i) == (a.lo@)(i)
        &&& (b.hi@)(i) == (a.hi@)(i)
    }

    /// A node that kept its children, height and range, whose children kept
    /// their heights, keeps a right height and its balance.
    proof fn lemma_kept_settled(a: &Self, b: &Self, i: usize)
        requires
            a.occ(i),
            Self::kept(a, b, i),
            a.height_ok(i),
            a.balanced_at(i),
            a.nd(i).left matches Some(c) ==> b.nd(c).height == a.nd(c).height,
            a.nd(i).right matches Some(c) ==> b.nd(c).height == a.nd(c).height,
        ensures
            b.height_ok(i),
            b.balanced_at(i),
    {
    }

    fn set_left(&mut self, index: usize, link: Option<usize>)
        requires
            old(self).occ(index),
        ensures
            Self::same_but_slot(old(self), final(self), index),
            old(self).wf_free() ==> final(self).wf_free(),
            final(self).occ(index),
            final(self).nd(index) == (Node { left: link, ..old(self).nd(index) }),
    {
        match &mut self.items[index] {
            Slot::Occupied { node } => node.left = link,
            Slot::Free { .. } => {},
        }
        proof {
            if old(self).wf_free() {
                Self::lemma_free_frame(old(self), self, index);
            }
        }
    }

    fn set_right(&mut self, index: usize, link: Option<usize>)
        requires
            old(self).occ(index),
        ensures
            Self::same_but_slot(old(self), final(self), index),
            old(self).wf_free() ==> final(self).wf_free(),
            final(self).occ(index),
            final(self).nd(index) == (Node { right: link, ..old(self).nd(index) }),
    {
        match &mut self.items[index] {
            Slot::Occupied { node } => node.right = link,
            Slot::Free { .. } => {},
        }
        proof {
            if old(self).wf_free() {
                Self::lemma_free_frame(old(self), self, index);
            }
        }
    }

    fn set_parent(&mut self, index: usize, link: Option<usize>)
        requires
            old(self).occ(index),
        ensures
            Self::same_but_slot(old(self), final(self), index),
            old(self).wf_free() ==> final(self).wf_free(),
            final(self).occ(index),
            final(self).nd(index) == (Node { parent: link, ..old(self).nd(index) }),
    {
        match &mut self.items[index] {
            Slot::Occupied { node } => node.parent = link,
            Slot::Free { .. } => {},
        }
        proof {
            if old(self).wf_free() {
                Self::lemma_free_frame(old(self), self, index);
            }
        }
    }

    fn set_height(&mut self, index: usize, height: i32)
        requires
            old(self).occ(index),
        ensures
            Self::same_but_slot(old(self), final(self), index),
            old(self).wf_free() ==> final(self).wf_free(),
            final(self).occ(index),
            final(self).nd(index) == (Node { height, ..old(self).nd(index) }),
    {
        match &mut self.items[index] {
            Slot::Occupied { node } => node.height = height,
            Slot::Free { .. } => {},
        }
        proof {
            if old(self).wf_free() {
                Self::lemma_free_frame(old(self), self, index);
            }
        }
    }

    /// Sets the height of `index` from those of its children.
    fn update_height(&mut self, index: usize)
        requires
            old(self).wf_shape(),
            old(self).occ(index),
            old(self).nd(index).left matches Some(l) ==> old(self).height_ok(l),
            old(self).nd(index).right matches Some(r) ==> old(self).height_ok(r),
        ensures
            final(self).wf_shape(),
            Self::same_shape(old(self), final(self)),
            Self::same_but_slot(old(self), final(self), index),
            final(self).height_ok(index),
            final(self)@ == old(self)@,
    {
        let node = self.unwrap_occupied(index);
        proof {
            let k = (self.pos@)(index);
            assert(self.wf_node(k));
            if let Some(l) = node.left {
                assert(self.wf_node((self.pos@)(l)));
            }
            if let Some(r) = node.right {
                assert(self.wf_node((self.pos@)(r)));
            }
        }
        let left_height = self.link_height(node.left);
        let right_height = self.link_height(node.right);
        let h = 1 + if left_height >= right_height { left_height } else { right_height };
        let ghost old_self = *self;
        self.set_height(index, h);
        proof {
            let k = (self.pos@)(index);
            assert(old_self.wf_node(k));
            assert(self.height_ok(index));
            assert forall|j: usize| #[trigger] self.occ(j) implies 0 <= self.nd(j).height < i32::MAX by {
                assert(old_self.occ(j));
                if j != index {
                    assert(old_self.wf_node((old_self.pos@)(j)));
                }
            }
            Self::lemma_same_shape_wf(&old_self, self);
            assert(self.height_ok(index));
        }
    }

    /// The height of the left subtree of `link` minus that of its right one.
    fn balance_factor(&self, link: Option<usize>) -> (r: i32)
        requires
            self.wf_shape(),
            link matches Some(i) ==> self.occ(i) && {
                &&& self.nd(i).left matches Some(l) ==> self.height_ok(l)
                &&& self.nd(i).right matches Some(r) ==> self.height_ok(r)
            },
        ensures
            r == match link {
                Some(i) => self.link_h(self.nd(i).left) - self.link_h(self.nd(i).right),
                None => 0,
            },
    {
        if let Some(index) = link {
            let node = self.unwrap_occupied(index);
            proof {
                assert(self.wf_node((self.pos@)(index)));
                if let Some(l) = node.left {
                    assert(self.wf_node((self.pos@)(l)));
                }
                if let Some(r) = node.right {
                    assert(self.wf_node((self.pos@)(r)));
                }
            }
            let left_height = self.link_height(node.left);
            let right_height = self.link_height(node.right);
            left_height - right_height
        } else {
            0
        }
    }

    /// Puts `node` in a slot: the head of the free list if there is one, else
    /// a new slot at the end.
    fn insert_node(&mut self, value: T, parent: Option<usize>) -> (r: usize)
        requires
            old(self).wf_free(),
        ensures
            final(self).wf_free(),
            !old(self).occ(r),
            r <= old(self).items@.len(),
            final(self).items@ == if r < old(self).items@.len() {
                old(self).items@.update(r as int, Slot::Occupied { node: Node { value, height: 0, parent, left: None, right: None } })
            } else {
                old(self).items@.push(Slot::Occupied { node: Node { value, height: 0, parent, left: None, right: None } })
            },
            final(self).root == old(self).root,
            final(self).len == old(self).len,
            final(self).order@ == old(self).order@,
            final(self).pos@ == old(self).pos@,
            final(self).lo@ == old(self).lo@,
            final(self).hi@ == old(self).hi@,
            r < old(self).items@.len() ==> final(self).free@ == old(self).free@.drop_first(),
            r == old(self).items@.len() ==> final(self).free@ == old(self).free@,
            old(self).free@.len() > 0 ==> r == old(self).free@[0],
            old(self).free@.len() == 0 ==> r == old(self).items@.len(),
    {
        let mut node = Node::new(value);
        node.parent = parent;
        if let Some(free_index) = self.head_free {
            proof {
                assert(self.free@[0] == free_index);
                self.lemma_free_at(0);
            }
            if let Slot::Free { next_free } = self.items[free_index] {
                self.head_free = next_free;
                self.items.set(free_index, Slot::Occupied { node });
                self.free = Ghost(self.free@.drop_first());
                proof {
                    assert forall|j: int| 0 <= j < self.free@.len() implies {
                        &&& self.free@[j] < self.items@.len()
                        &&& #[trigger] self.items@[self.free@[j] as int] is Free
                    } by {
                        assert(old(self).free@[j + 1] == self.free@[j]);
                        old(self).lemma_free_at(j + 1);
                    }
                    assert(self.wf_free()) by {
                        assert forall|a: int, b: int| 0 <= a < b < self.free@.len() implies #[trigger] self.free@[a] != #[trigger] self.free@[b] by {
                            assert(old(self).free@[a + 1] == self.free@[a]);
                            assert(old(self).free@[b + 1] == self.free@[b]);
                        }
                        assert forall|j: int| 0 <= j < self.free@.len() implies #[trigger] self.items@[self.free@[j] as int]->next_free == if j + 1 < self.free@.len() {
                            Some(self.free@[j + 1])
                        } else {
                            None::<usize>
                        } by {
                            assert(old(self).free@[j + 1] == self.free@[j]);
                            old(self).lemma_free_at(j + 1);
                        }
                    }
                }
                free_index
            } else {
                vstd::pervasive::unreached()
            }
        } else {
            self.items.push(Slot::Occupied { node });
            proof {
                assert forall|j: int| 0 <= j < self.free@.len() implies {
                    &&& self.free@[j] < self.items@.len()
                    &&& #[trigger] self.items@[self.free@[j] as int] is Free
                    &&& self.items@[self.free@[j] as int]->next_free == if j + 1 < self.free@.len() {
                        Some(self.free@[j + 1])
                    } else {
                        None::<usize>
                    }
                } by {
                    old(self).lemma_free_at(j);
                }
            }
            self.items.len() - 1
        }
    }

    /// `b` is `a` with a new leaf `n` holding `v` under `p`, on the right if
    /// `right`, and the ghost ranges shifted to make room for it at place `q`.
    closed spec fn attached(a: &Self, b: &Self, n: usize, p: usize, right: bool, v: T, q: int) -> bool {
        &&& a.wf_shape()
        &&& a.occ(p)
        &&& !a.occ(n)
        &&& n <= a.items@.len()
        &&& a.len + 1 < i32::MAX
        &&& q == if right { (a.pos@)(p) + 1 } else { (a.pos@)(p) }
        &&& right ==> a.nd(p).right is None
        &&& !right ==> a.nd(p).left is None
        &&& a.splits_at(v, q)
        &&& b.items@.len() == if n < a.items@.len() { a.items@.len() } else { a.items@.len() + 1 }
        &&& forall|j: int| 0 <= j < a.items@.len() && j != n && j != p ==> b.items@[j] == a.items@[j]
        &&& b.occ(n)
        &&& b.nd(n) == (Node { value: v, height: 0, parent: Some(p), left: None, right: None })
        &&& b.occ(p)
        &&& right ==> b.nd(p) == (Node { right: Some(n), ..a.nd(p) })
        &&& !right ==> b.nd(p) == (Node { left: Some(n), ..a.nd(p) })
        &&& b.len == a.len + 1
        &&& b.root == a.root
        &&& b.order@ == a.order@.insert(q, n)
        &&& forall|i: usize|
            #[trigger] (b.pos@)(i) == if i == n {
                q
            } else {
                shift_place((a.pos@)(i), q)
            }
        &&& forall|i: usize|
            #[trigger] (b.lo@)(i) == if i == n {
                q
            } else {
                shift_end((a.lo@)(i), q, right)
            }
        &&& forall|i: usize|
            #[trigger] (b.hi@)(i) == if i == n {
                q + 1
            } else {
                shift_end((a.hi@)(i), q, right)
            }
        &&& b.wf_free()
    }

    #[verifier::spinoff_prover]
    proof fn lemma_attach_occ(a: &Self, b: &Self, n: usize, p: usize, right: bool, v: T, q: int)
        requires
            Self::attached(a, b, n, p, right, v, q),
        ensures
            forall|i: usize| #[trigger] a.occ(i) ==> b.occ(i),
            forall|i: usize| #[trigger] a.occ(i) && i != p ==> b.nd(i) == a.nd(i),
            forall|i: usize| #![trigger b.occ(i)] b.occ(i) ==> a.occ(i) || i == n,
    {
        lemma_total_order::<T>();
        let kp = (a.pos@)(p);
        assert(a.wf_node(kp));
        assert forall|i: usize| #[trigger] a.occ(i) implies b.occ(i) && (i != p ==> b.nd(i) == a.nd(i)) by {
            assert(i != n);
        }
        assert forall|i: usize| #![trigger b.occ(i)] b.occ(i) implies a.occ(i) || i == n by {
            if i != n && i != p && i < a.items@.len() {
                assert(b.items@[i as int] == a.items@[i as int]);
            }
        }
    }

    #[verifier::spinoff_prover]
    #[verifier::rlimit(40)]
    proof fn lemma_attach_arena(a: &Self, b: &Self, n: usize, p: usize, right: bool, v: T, q: int)
        requires
            Self::attached(a, b, n, p, right, v, q),
        ensures
            b.wf_arena(),
    {
        Self::lemma_attach_occ(a, b, n, p, right, v, q);
        // the arena
        assert forall|k: int| 0 <= k < b.len implies {
            &&& #[trigger] b.occ(b.order@[k])
            &&& (b.pos@)(b.order@[k]) == k
        } by {
            if k < q {
                assert(b.order@[k] == a.order@[k]);
                assert(a.occ(a.order@[k]));
            } else if k > q {
                assert(b.order@[k] == a.order@[k - 1]);
                assert(a.occ(a.order@[k - 1]));
            }
        }
        assert forall|i: usize| #[trigger] b.occ(i) implies {
            &&& 0 <= (b.pos@)(i) < b.len
            &&& b.order@[(b.pos@)(i)] == i
        } by {
            if i != n {
                assert(a.occ(i));
                let k = (a.pos@)(i);
                assert(a.order@[k] == i);
                if k < q {
                    assert(b.order@[k] == a.order@[k]);
                } else {
                    assert(b.order@[k + 1] == a.order@[k]);
                }
            }
        }
        assert(b.wf_arena());
    }

    #[verifier::spinoff_prover]
    proof fn lemma_attach_view(a: &Self, b: &Self, n: usize, p: usize, right: bool, v: T, q: int)
        requires
            Self::attached(a, b, n, p, right, v, q),
        ensures
            b@ == a@.insert(q, v),
            ascending(b@),
    {
        lemma_total_order::<T>();
        Self::lemma_attach_occ(a, b, n, p, right, v, q);
        // the view
        assert(b@ =~= a@.insert(q, v)) by {
            assert forall|k: int| 0 <= k < b.len implies #[trigger] b.val_at(k) == a@.insert(q, v)[k] by {
                if k < q {
                    assert(a.occ(a.order@[k]));
                } else if k > q {
                    assert(a.occ(a.order@[k - 1]));
                }
            }
        }
        assert(ascending(b@)) by {
            assert forall|x: int, y: int| 0 <= x < y < b@.len() implies lt(b@[x], b@[y]) by {
                if x != q && y != q {
                    let xa = if x < q { x } else { x - 1 };
                    let ya = if y < q { y } else { y - 1 };
                    a.lemma_lt_places(xa, ya);
                } else if x == q {
                    assert(b@[y] == a.val_at(y - 1));
                } else {
                    assert(b@[x] == a.val_at(x));
                }
            }
        }
    }

    #[verifier::spinoff_prover]
    proof fn lemma_attach_links(a: &Self, b: &Self, n: usize, p: usize, right: bool, v: T, q: int)
        requires
            Self::attached(a, b, n, p, right, v, q),
        ensures
            forall|k: int| 0 <= k < b.len ==> #[trigger] b.wf_node(k),
    {
        Self::lemma_attach_occ(a, b, n, p, right, v, q);
        let kp = (a.pos@)(p);
        assert(a.wf_node(kp));
        // the links
        assert forall|k: int| 0 <= k < b.len implies #[trigger] b.wf_node(k) by {
            if k == q {
                assert(b.order@[k] == n);
            } else {
                let ka = if k < q { k } else { k - 1 };
                let i = a.order@[ka];
                assert(b.order@[k] == i);
                assert(a.wf_node(ka));
                assert(a.occ(i));
                assert(i != n);
                let na = a.nd(i);
                if let Some(l) = na.left {
                    assert(a.occ(l));
                    assert(a.wf_node((a.pos@)(l)));
                }
                if let Some(r) = na.right {
                    assert(a.occ(r));
                    assert(a.wf_node((a.pos@)(r)));
                }
                if let Some(pp) = na.parent {
                    assert(a.occ(pp));
                }
                if i == p {
                    assert(b.nd(n).parent == Some(p));
                }
            }
        }
    }

        proof fn lemma_attach(a: &Self, b: &Self, n: usize, p: usize, right: bool, v: T, q: int)
        requires
            Self::attached(a, b, n, p, right, v, q),
        ensures
            b.wf_shape(),
            b@ == a@.insert(q, v),
            b.height_ok(n),
            forall|i: usize| #[trigger] a.occ(i) && i != p && a.height_ok(i) ==> b.height_ok(i),
            forall|i: usize| #[trigger] a.occ(i) ==> b.occ(i),
            forall|i: usize| #[trigger] a.occ(i) && i != p ==> b.nd(i) == a.nd(i),
            forall|i: usize|
                #[trigger] a.occ(i) && (a.lo@)(i) <= (a.pos@)(p) < (a.hi@)(i) ==> b.size(i) == a.size(i) + 1
                    && (b.lo@)(i) == (a.lo@)(i),
            forall|i: usize| #[trigger] a.occ(i) ==> b.size(i) >= a.size(i),
    {
        Self::lemma_attach_occ(a, b, n, p, right, v, q);
        Self::lemma_attach_arena(a, b, n, p, right, v, q);
        Self::lemma_attach_view(a, b, n, p, right, v, q);
        Self::lemma_attach_links(a, b, n, p, right, v, q);
        if let Some(r) = a.root {
            assert(a.occ(r));
            assert(a.wf_node((a.pos@)(r)));
        }
        assert(b.wf_links());
        assert(b.height_ok(n));
        assert forall|i: usize| #[trigger] a.occ(i) && i != p && a.height_ok(i) implies b.height_ok(i) by {
            assert(a.wf_node((a.pos@)(i)));
            let na = a.nd(i);
            if let Some(l) = na.left {
                assert(a.occ(l));
            }
            if let Some(r) = na.right {
                assert(a.occ(r));
            }
        }
            assert forall|i: usize| #[trigger] a.occ(i) implies b.size(i) >= a.size(i) by {
            assert(a.wf_node((a.pos@)(i)));
        }
        assert forall|i: usize|
            #[trigger] a.occ(i) && (a.lo@)(i) <= (a.pos@)(p) < (a.hi@)(i) implies b.size(i) == a.size(i) + 1
                && (b.lo@)(i) == (a.lo@)(i) by {
            assert(a.wf_node((a.pos@)(i)));
        }
    }

    /// After an attach, the path from `p` up is still an upward path, and
    /// only its nodes may have wrong heights.
    proof fn lemma_attach_path(a: &Self, b: &Self, n: usize, p: usize, right: bool, v: T, q: int, path: Seq<usize>)
        requires
            Self::attached(a, b, n, p, right, v, q),
            a.heights_ok_off(Seq::empty()),
            a.up_path(path),
            path.len() > 0,
            path[0] == p,
        ensures
            b.up_path(path),
            b.heights_ok_off(path),
    {
        Self::lemma_attach(a, b, n, p, right, v, q);
        let kp = (a.pos@)(p);
        assert(a.wf_node(kp));
        assert forall|j: int| 0 <= j < path.len() implies b.size(#[trigger] path[j]) == a.size(path[j]) + 1
            && (b.lo@)(path[j]) == (a.lo@)(path[j]) && (b.hi@)(path[j]) == (a.hi@)(path[j]) + 1 by {
            assert(a.occ(path[j]));
            if j > 0 {
                assert((a.lo@)(path[j]) <= (a.lo@)(path[0]));
                assert((a.hi@)(path[0]) <= (a.hi@)(path[j]));
            }
        }
        assert forall|j: int| 0 <= j < path.len() implies #[trigger] b.nd(path[j]).parent == if j + 1 < path.len() {
            Some(path[j + 1])
        } else {
            None::<usize>
        } by {
            assert(a.occ(path[j]));
        }
        assert forall|j: int| 0 <= j < path.len() implies #[trigger] b.occ(path[j]) by {
            assert(a.occ(path[j]));
        }
        assert forall|k: int| 0 <= k < b.len && !path.contains(b.order@[k]) implies #[trigger] b.height_ok(b.order@[k]) by {
            let i = b.order@[k];
            if i != n {
                assert(b.occ(i));
                assert(a.occ(i));
                let ka = (a.pos@)(i);
                assert(a.order@[ka] == i);
                assert(!Seq::<usize>::empty().contains(i));
                assert(a.height_ok(a.order@[ka]));
                assert(i != p) by {
                    if i == p {
                        assert(path[0] == i);
                    }
                }
            }
        }
    }

    /// After an attach the walk can start at the parent `p` of the new leaf,
    /// whose child on that side had height -1.
    proof fn lemma_attach_walk(a: &Self, b: &Self, n: usize, p: usize, right: bool, v: T, q: int, path: Seq<usize>)
        requires
            Self::attached(a, b, n, p, right, v, q),
            a.wf(),
            a.up_path(path),
            path.len() > 0,
            path[0] == p,
        ensures
            b.walk_ok(path, -1, !right),
    {
        Self::lemma_attach(a, b, n, p, right, v, q);
        Self::lemma_attach_path(a, b, n, p, right, v, q, path);
        Self::lemma_rest_above(a, path);
        a.lemma_node_facts(p);
        assert(a.height_ok(a.order@[(a.pos@)(p)]));
        assert(a.balanced_at(p));
        assert forall|i: usize| #[trigger] b.occ(i) && !path.contains(i) implies b.height_ok(i) && b.balanced_at(i) by {
            if i != n {
                assert(a.occ(i));
                assert(i != p);
                a.lemma_node_facts(i);
                assert(a.height_ok(a.order@[(a.pos@)(i)]));
                assert(a.balanced_at(i));
                if let Some(c) = a.nd(i).left {
                    a.lemma_node_facts(c);
                    if c == p {
                        assert(path[1] == i);
                    }
                }
                if let Some(c) = a.nd(i).right {
                    a.lemma_node_facts(c);
                    if c == p {
                        assert(path[1] == i);
                    }
                }
            }
        }
        assert forall|j: int| 1 <= j < path.len() implies #[trigger] b.height_eq(path[j]) && b.balanced_at(path[j]) by {
            let i = path[j];
            assert(a.occ(i));
            assert(a.size(p) < a.size(i));
            a.lemma_node_facts(i);
            assert(a.height_ok(a.order@[(a.pos@)(i)]));
            assert(a.balanced_at(i));
            if let Some(c) = a.nd(i).left {
                a.lemma_node_facts(c);
            }
            if let Some(c) = a.nd(i).right {
                a.lemma_node_facts(c);
            }
        }
    }

    /// Adds `value`. Returns false, and changes nothing, if it is already an
    /// element. Heights are kept as `i32`, and the proof bounds a height,
    /// also halfway through rebalancing, by the size of its subtree, so a new
    /// element is taken while there are fewer than `i32::MAX - 1`.
    pub fn insert(&mut self, value: T) -> (r: bool)
        requires
            old(self).wf(),
            old(self)@.contains(value) || old(self)@.len() + 1 < i32::MAX,
        ensures
            final(self).wf(),
            r == !old(self)@.contains(value),
            final(self)@.to_set() == old(self)@.to_set().insert(value),
            !r ==> final(self)@ == old(self)@,
            r ==> final(self)@.len() == old(self)@.len() + 1,
            !r ==> *final(self) == *old(self),
            r ==> final(self).slot_count() == if old(self).free_slots().len() > 0 {
                old(self).slot_count()
            } else {
                old(self).slot_count() + 1
            },
            r ==> final(self).free_slots() == if old(self).free_slots().len() > 0 {
                old(self).free_slots().drop_first()
            } else {
                old(self).free_slots()
            },
            r ==> ({
                let s = if old(self).free_slots().len() > 0 {
                    old(self).free_slots()[0]
                } else {
                    old(self).slot_count() as usize
                };
                &&& final(self).slot_occupied(s)
                &&& final(self).slot_element(s) == value
                &&& !old(self).slot_occupied(s)
                &&& forall|i: usize|
                    i != s ==> (final(self).slot_occupied(i) <==> old(self).slot_occupied(i)) && (
                    old(self).slot_occupied(i) ==> final(self).slot_element(i) == old(self).slot_element(i))
            }),
    {
        proof {
            lemma_total_order::<T>();
        }
        let ghost v = value;
        let ghost a = *self;
        let (closest, Ghost(path)) = self.find_closest(&value);
        match closest {
            Some(index) => {
                let ord = value.cmp(&self.unwrap_occupied(index).value);
                let ghost kp = (self.pos@)(index);
                proof {
                    assert(self.wf_node(kp));
                    assert(self.val_at(kp) == self.nd(index).value);
                }
                if matches!(ord, Ordering::Equal) {
                    proof {
                        assert(self@[kp] == v);
                    }
                    return false;
                }
                let right = matches!(ord, Ordering::Greater);
                let ghost q = if right { kp + 1 } else { kp };
                proof {
                    if right {
                        assert(v.cmp_spec(&self.val_at(kp)) == Ordering::Greater);
                        assert(self.val_at(kp).cmp_spec(&v) == Ordering::Less);
                    }
                    self.lemma_splits_from_neighbours(v, q);
                    self.lemma_splits_absent(v, q);
                }
                let new = self.insert_node(value, Some(index));
                if right {
                    self.set_right(index, Some(new));
                } else {
                    self.set_left(index, Some(new));
                }
                self.len = self.len + 1;
                self.order = Ghost(a.order@.insert(q, new));
                self.pos = Ghost(|i: usize| if i == new { q } else { shift_place((a.pos@)(i), q) });
                self.lo = Ghost(|i: usize| if i == new { q } else { shift_end((a.lo@)(i), q, right) });
                self.hi = Ghost(|i: usize| if i == new { q + 1 } else { shift_end((a.hi@)(i), q, right) });
                proof {
                    assert(a.wf_shape());
                    assert(a.occ(index));
                    assert(!a.occ(new));
                    assert(a.splits_at(v, q));
                    assert(self.items@.len() == if new < a.items@.len() { a.items@.len() } else { a.items@.len() + 1 });
                    assert(forall|j: int| 0 <= j < a.items@.len() && j != new && j != index ==> self.items@[j] == a.items@[j]);
                    assert(self.occ(new));
                    assert(self.nd(new) == (Node { value: v, height: 0, parent: Some(index), left: None, right: None }));
                    assert(self.occ(index));
                    assert(right ==> self.nd(index) == (Node { right: Some(new), ..a.nd(index) }));
                    assert(!right ==> self.nd(index) == (Node { left: Some(new), ..a.nd(index) }));
                    assert(self.wf_free());
                    assert(right ==> a.nd(index).right is None);
                    assert(!right ==> a.nd(index).left is None);
                    assert(Self::attached(&a, self, new, index, right, v, q));
                    Self::lemma_attach(&a, self, new, index, right, v, q);
                    Self::lemma_attach_path(&a, self, new, index, right, v, q, path);
                    lemma_insert_to_set(a@, q, v);
                }
                proof {
                    Self::lemma_attach_walk(&a, self, new, index, right, v, q, path);
                }
                let ghost pre = *self;
                self.rebalance_ancestors(closest, Ghost(path), Ghost(-1), Ghost(!right));
                proof {
                    assert(pre.occ(new));
                    assert forall|i: usize| i != new implies (self.slot_occupied(i) <==> a.slot_occupied(i)) && (
                    a.slot_occupied(i) ==> self.slot_element(i) == a.slot_element(i)) by {
                        assert(pre.occ(i) <==> self.occ(i));
                        if i < a.items@.len() && i != index {
                            assert(pre.items@[i as int] == a.items@[i as int]);
                        }
                        if pre.occ(i) {
                            assert(self.nd(i).value == pre.nd(i).value);
                        }
                    }
                }
                proof {
                    assert forall|i: usize| i != new implies (self.occ(i) <==> a.occ(i)) by {
                        assert(self.slot_occupied(i) <==> a.slot_occupied(i));
                    }
                    Self::lemma_free_complete_after_take(&a, self, new);
                }
            },
            None => {
                let new = self.insert_node(value, None);
                self.root = Some(new);
                self.len = 1;
                self.order = Ghost(Seq::empty().push(new));
                self.pos = Ghost(|i: usize| 0);
                self.lo = Ghost(|i: usize| 0);
                self.hi = Ghost(|i: usize| 1);
                proof {
                    assert forall|i: usize| #[trigger] self.occ(i) implies i == new by {
                        if i != new && i < a.items@.len() {
                            assert(self.items@[i as int] == a.items@[i as int]);
                            assert(a.occ(i));
                        }
                    }
                    assert(self.wf_node(0));
                    assert(self.height_ok(new));
                    assert(self@ =~= a@.insert(0, v));
                    lemma_insert_to_set(a@, 0, v);
                    assert(!a@.contains(v));
                    assert forall|i: usize| i != new implies (self.slot_occupied(i) <==> a.slot_occupied(i)) && (
                    a.slot_occupied(i) ==> self.slot_element(i) == a.slot_element(i)) by {
                        if i < a.items@.len() {
                            assert(self.items@[i as int] == a.items@[i as int]);
                        }
                    }
                    assert forall|i: usize| i != new implies (self.occ(i) <==> a.occ(i)) by {
                        assert(self.slot_occupied(i) <==> a.slot_occupied(i));
                    }
                    Self::lemma_free_complete_after_take(&a, self, new);
                }
            },
        }
        true
    }

    /// `b` is `a` with the subtree at `x` turned right: its left child `y`
    /// takes its place, `x` becomes the right child of `y`, and the right
    /// subtree of `y` moves over to become the left subtree of `x`.
    closed spec fn rotated_right(a: &Self, b: &Self, x: usize, y: usize) -> bool {
        let t2 = a.nd(y).right;
        let xp = a.nd(x).parent;
        &&& a.wf_shape()
        &&& a.occ(x)
        &&& a.nd(x).left == Some(y)
        &&& b.items@.len() == a.items@.len()
        &&& forall|j: int|
            0 <= j < a.items@.len() && j != x && j != y && xp != Some(j as usize) && t2 != Some(
                j as usize,
            ) ==> b.items@[j] == a.items@[j]
        &&& b.occ(x)
        &&& b.occ(y)
        &&& b.nd(y) == (Node { parent: xp, right: Some(x), ..a.nd(y) })
        &&& b.nd(x) == (Node { parent: Some(y), left: t2, ..a.nd(x) })
        &&& xp matches Some(p) ==> b.occ(p) && b.nd(p) == if a.nd(p).right == Some(x) {
            Node { right: Some(y), ..a.nd(p) }
        } else {
            Node { left: Some(y), ..a.nd(p) }
        }
        &&& t2 matches Some(t) ==> b.occ(t) && b.nd(t) == (Node { parent: Some(x), ..a.nd(t) })
        &&& b.root == if xp is None { Some(y) } else { a.root }
        &&& b.len == a.len
        &&& b.order@ == a.order@
        &&& b.pos@ == a.pos@
        &&& b.free@ == a.free@
        &&& b.head_free == a.head_free
        &&& forall|i: usize|
            #[trigger] (b.lo@)(i) == if i == y {
                (a.lo@)(x)
            } else if i == x {
                (a.pos@)(y) + 1
            } else {
                (a.lo@)(i)
            }
        &&& forall|i: usize|
            #[trigger] (b.hi@)(i) == if i == y {
                (a.hi@)(x)
            } else {
                (a.hi@)(i)
            }
    }

    #[verifier::spinoff_prover]
    #[verifier::rlimit(60)]
    proof fn lemma_rotated_right(a: &Self, b: &Self, x: usize, y: usize)
        requires
            Self::rotated_right(a, b, x, y),
        ensures
            b.wf_shape(),
            b@ == a@,
            forall|i: usize| #[trigger] a.occ(i) <==> b.occ(i),
            forall|i: usize|
                #[trigger] a.occ(i) && i != x && i != y && a.nd(x).parent != Some(i) && a.height_ok(i)
                    ==> b.height_ok(i),
            forall|i: usize| #[trigger] a.occ(i) ==> b.nd(i).height == a.nd(i).height && b.nd(i).value == a.nd(i).value,
            forall|i: usize|
                #[trigger] a.occ(i) && i != x && i != y && a.nd(x).parent != Some(i) ==> Self::kept(a, b, i),
            forall|path: Seq<usize>|
                #[trigger] a.up_path(path) && path.len() > 0 && path[0] == x ==> b.up_path(
                    seq![x, y] + path.drop_first(),
                ),
    {
        let t2 = a.nd(y).right;
        let xp = a.nd(x).parent;
        let kx = (a.pos@)(x);
        let ky = (a.pos@)(y);
        assert(a.wf_node(kx));
        assert(a.wf_node(ky));
        if let Some(t) = t2 {
            assert(a.wf_node((a.pos@)(t)));
        }
        if let Some(p) = xp {
            assert(a.wf_node((a.pos@)(p)));
        }
        assert forall|i: usize| #![trigger a.occ(i)] #![trigger b.occ(i)] a.occ(i) <==> b.occ(i) by {
            if i < a.items@.len() && i != x && i != y && xp != Some(i) && t2 != Some(i) {
                assert(b.items@[i as int] == a.items@[i as int]);
            }
        }
        assert forall|i: usize| #[trigger] a.occ(i) && i != x && i != y && xp != Some(i) && t2 != Some(i) implies b.nd(i) == a.nd(i) by {
            assert(b.items@[i as int] == a.items@[i as int]);
        }
        assert(b@ =~= a@) by {
            assert forall|k: int| 0 <= k < b.len implies b.val_at(k) == a.val_at(k) by {
                assert(a.occ(a.order@[k]));
            }
        }
        assert(b.wf_free()) by {
            assert forall|j: int| 0 <= j < b.free@.len() implies {
                &&& #[trigger] b.free@[j] < b.items@.len()
                &&& b.items@[b.free@[j] as int] is Free
                &&& b.items@[b.free@[j] as int]->next_free == if j + 1 < b.free@.len() {
                    Some(b.free@[j + 1])
                } else {
                    None::<usize>
                }
            } by {
                let f = a.free@[j];
                assert(a.items@[f as int] is Free);
                assert(!a.occ(f));
                assert(f != x && f != y);
                assert(b.items@[f as int] == a.items@[f as int]);
            }
        }
        assert(forall|k: int|
            0 <= k < b.len ==> {
                &&& #[trigger] b.occ(b.order@[k])
                &&& (b.pos@)(b.order@[k]) == k
            });
        assert(forall|i: usize|
            #[trigger] b.occ(i) ==> {
                &&& 0 <= (b.pos@)(i) < b.len
                &&& b.order@[(b.pos@)(i)] == i
            });
        assert(b.wf_arena());
        assert forall|k: int| 0 <= k < b.len implies #[trigger] b.wf_node(k) by {
            let i = a.order@[k];
            assert(a.wf_node(k));
            assert(a.occ(i));
            let n = a.nd(i);
            if let Some(l) = n.left {
                assert(a.occ(l));
                assert(a.wf_node((a.pos@)(l)));
            }
            if let Some(r) = n.right {
                assert(a.occ(r));
                assert(a.wf_node((a.pos@)(r)));
            }
            if let Some(pp) = n.parent {
                assert(a.occ(pp));
                assert(a.wf_node((a.pos@)(pp)));
            }
        }
        if let Some(r) = a.root {
            assert(a.occ(r));
            assert(a.wf_node((a.pos@)(r)));
        }
        assert(b.wf_links());
        assert forall|i: usize|
            #[trigger] a.occ(i) && i != x && i != y && xp != Some(i) && a.height_ok(i) implies b.height_ok(i) by {
            assert(a.wf_node((a.pos@)(i)));
            let n = a.nd(i);
            if let Some(l) = n.left {
                assert(a.occ(l));
            }
            if let Some(r) = n.right {
                assert(a.occ(r));
            }
            if t2 == Some(i) {
                assert(b.nd(i).left == n.left && b.nd(i).right == n.right);
            } else {
                assert(b.nd(i) == n);
            }
        }
        assert forall|i: usize| #[trigger] a.occ(i) implies b.nd(i).height == a.nd(i).height && b.nd(i).value == a.nd(i).value by {
            if i != x && i != y && xp != Some(i) && t2 != Some(i) {
                assert(b.nd(i) == a.nd(i));
            }
        }
        assert forall|i: usize|
            #[trigger] a.occ(i) && i != x && i != y && xp != Some(i) implies Self::kept(a, b, i) by {
            if t2 == Some(i) {
                assert(b.nd(i).left == a.nd(i).left && b.nd(i).right == a.nd(i).right);
            } else {
                assert(b.nd(i) == a.nd(i));
            }
        }
        assert forall|path: Seq<usize>|
            #[trigger] a.up_path(path) && path.len() > 0 && path[0] == x implies b.up_path(
                seq![x, y] + path.drop_first(),
            ) by {
            let np = seq![x, y] + path.drop_first();
            assert forall|j: int| 0 <= j < np.len() implies #[trigger] b.occ(np[j]) by {
                if j >= 2 {
                    assert(np[j] == path[j - 1]);
                    assert(a.occ(path[j - 1]));
                }
            }
            assert forall|j: int| 2 <= j < np.len() implies np[j] != x && np[j] != y && #[trigger] (b.lo@)(np[j]) == (a.lo@)(np[j]) && (b.hi@)(np[j]) == (a.hi@)(np[j]) by {
                assert(np[j] == path[j - 1]);
                assert(a.size(path[0]) < a.size(path[j - 1]));
                assert(a.size(y) < a.size(x));
            }
            assert forall|j: int| 0 <= j < np.len() implies #[trigger] b.nd(np[j]).parent == if j + 1 < np.len() {
                Some(np[j + 1])
            } else {
                None::<usize>
            } by {
                if j >= 2 {
                    assert(np[j] == path[j - 1]);
                    assert(a.occ(path[j - 1]));
                    assert(a.nd(path[j - 1]).parent == if j < path.len() {
                        Some(path[j])
                    } else {
                        None::<usize>
                    });
                    if j + 1 < np.len() {
                        assert(np[j + 1] == path[j]);
                    }
                } else if j == 1 {
                    assert(a.nd(path[0]).parent == if 1 < path.len() {
                        Some(path[1])
                    } else {
                        None::<usize>
                    });
                    if 2 < np.len() {
                        assert(np[2] == path[1]);
                    }
                }
            }
            assert forall|c: int, d: int| 0 <= c < d < np.len() implies {
                &&& b.size(#[trigger] np[c]) < b.size(#[trigger] np[d])
                &&& (b.lo@)(np[d]) <= (b.lo@)(np[c])
                &&& (b.hi@)(np[c]) <= (b.hi@)(np[d])
            } by {
                if d >= 2 {
                    assert(np[d] == path[d - 1]);
                    assert((a.lo@)(path[d - 1]) <= (a.lo@)(path[0]));
                    assert((a.hi@)(path[0]) <= (a.hi@)(path[d - 1]));
                    assert(a.size(path[0]) < a.size(path[d - 1]));
                    if c >= 2 {
                        assert(np[c] == path[c - 1]);
                    }
                }
            }
        }
    }

    /// Turns the subtree at `x` right; returns its new root, the former left
    /// child of `x`.
    fn rotate_right(&mut self, x_link: Option<usize>) -> (r: Option<usize>)
        requires
            old(self).wf_shape(),
            x_link matches Some(x) ==> old(self).occ(x),
        ensures
            x_link is None || old(self).nd(x_link->0).left is None ==> r is None && *final(self) == *old(self),
            x_link is Some && old(self).nd(x_link->0).left is Some ==> r == old(self).nd(x_link->0).left
                && Self::rotated_right(old(self), final(self), x_link->0, r->0),
    {
        let x_index = match x_link {
            Some(x_index) => x_index,
            None => {
                return None;
            },
        };
        let (x_left, x_parent) = {
            let x = self.unwrap_occupied(x_index);
            (x.left, x.parent)
        };
        let y_link = x_left;
        let y_index = match y_link {
            Some(y_index) => y_index,
            None => {
                return None;
            },
        };
        let ghost a = *self;
        proof {
            assert(a.wf_node((a.pos@)(x_index)));
            assert(a.wf_node((a.pos@)(y_index)));
            if let Some(p) = x_parent {
                assert(a.wf_node((a.pos@)(p)));
            }
            if let Some(t) = a.nd(y_index).right {
                assert(a.wf_node((a.pos@)(t)));
            }
        }
        let t2_link = self.unwrap_occupied(y_index).right;

        // the parent of x now points at y
        if let Some(parent_index) = x_parent {
            let parent_node_right = self.unwrap_occupied(parent_index).right;
            if parent_node_right == x_link {
                self.set_right(parent_index, y_link);
            } else {
                self.set_left(parent_index, y_link);
            }
        } else {
            self.root = y_link;
        }
        self.set_parent(y_index, x_parent);

        // x hangs under y
        self.set_parent(x_index, y_link);
        self.set_right(y_index, x_link);

        // the right subtree of y moves under x
        self.set_left(x_index, t2_link);
        if let Some(t2_index) = t2_link {
            self.set_parent(t2_index, x_link);
        }
        let ghost lo0 = a.lo@;
        let ghost hi0 = a.hi@;
        let ghost ky = (a.pos@)(y_index);
        self.lo = Ghost(|i: usize| if i == y_index { lo0(x_index) } else if i == x_index { ky + 1 } else { lo0(i) });
        self.hi = Ghost(|i: usize| if i == y_index { hi0(x_index) } else { hi0(i) });
        y_link
    }

    /// `b` is `a` with the subtree at `x` turned left: its right child `y`
    /// takes its place, `x` becomes the left child of `y`, and the left
    /// subtree of `y` moves over to become the right subtree of `x`.
    closed spec fn rotated_left(a: &Self, b: &Self, x: usize, y: usize) -> bool {
        let t2 = a.nd(y).left;
        let xp = a.nd(x).parent;
        &&& a.wf_shape()
        &&& a.occ(x)
        &&& a.nd(x).right == Some(y)
        &&& b.items@.len() == a.items@.len()
        &&& forall|j: int|
            0 <= j < a.items@.len() && j != x && j != y && xp != Some(j as usize) && t2 != Some(
                j as usize,
            ) ==> b.items@[j] == a.items@[j]
        &&& b.occ(x)
        &&& b.occ(y)
        &&& b.nd(y) == (Node { parent: xp, left: Some(x), ..a.nd(y) })
        &&& b.nd(x) == (Node { parent: Some(y), right: t2, ..a.nd(x) })
        &&& xp matches Some(p) ==> b.occ(p) && b.nd(p) == if a.nd(p).left == Some(x) {
            Node { left: Some(y), ..a.nd(p) }
        } else {
            Node { right: Some(y), ..a.nd(p) }
        }
        &&& t2 matches Some(t) ==> b.occ(t) && b.nd(t) == (Node { parent: Some(x), ..a.nd(t) })
        &&& b.root == if xp is None { Some(y) } else { a.root }
        &&& b.len == a.len
        &&& b.order@ == a.order@
        &&& b.pos@ == a.pos@
        &&& b.free@ == a.free@
        &&& b.head_free == a.head_free
        &&& forall|i: usize|
            #[trigger] (b.lo@)(i) == if i == y {
                (a.lo@)(x)
            } else {
                (a.lo@)(i)
            }
        &&& forall|i: usize|
            #[trigger] (b.hi@)(i) == if i == y {
                (a.hi@)(x)
            } else if i == x {
                (a.pos@)(y)
            } else {
                (a.hi@)(i)
            }
    }

    #[verifier::spinoff_prover]
    #[verifier::rlimit(60)]
    proof fn lemma_rotated_left(a: &Self, b: &Self, x: usize, y: usize)
        requires
            Self::rotated_left(a, b, x, y),
        ensures
            b.wf_shape(),
            b@ == a@,
            forall|i: usize| #[trigger] a.occ(i) <==> b.occ(i),
            forall|i: usize|
                #[trigger] a.occ(i) && i != x && i != y && a.nd(x).parent != Some(i) && a.height_ok(i)
                    ==> b.height_ok(i),
            forall|i: usize| #[trigger] a.occ(i) ==> b.nd(i).height == a.nd(i).height && b.nd(i).value == a.nd(i).value,
            forall|i: usize|
                #[trigger] a.occ(i) && i != x && i != y && a.nd(x).parent != Some(i) ==> Self::kept(a, b, i),
            forall|path: Seq<usize>|
                #[trigger] a.up_path(path) && path.len() > 0 && path[0] == x ==> b.up_path(
                    seq![x, y] + path.drop_first(),
                ),
    {
        let t2 = a.nd(y).left;
        let xp = a.nd(x).parent;
        let kx = (a.pos@)(x);
        let ky = (a.pos@)(y);
        assert(a.wf_node(kx));
        assert(a.wf_node(ky));
        if let Some(t) = t2 {
            assert(a.wf_node((a.pos@)(t)));
        }
        if let Some(p) = xp {
            assert(a.wf_node((a.pos@)(p)));
        }
        assert forall|i: usize| #![trigger a.occ(i)] #![trigger b.occ(i)] a.occ(i) <==> b.occ(i) by {
            if i < a.items@.len() && i != x && i != y && xp != Some(i) && t2 != Some(i) {
                assert(b.items@[i as int] == a.items@[i as int]);
            }
        }
        assert forall|i: usize| #[trigger] a.occ(i) && i != x && i != y && xp != Some(i) && t2 != Some(i) implies b.nd(i) == a.nd(i) by {
            assert(b.items@[i as int] == a.items@[i as int]);
        }
        assert(b@ =~= a@) by {
            assert forall|k: int| 0 <= k < b.len implies b.val_at(k) == a.val_at(k) by {
                assert(a.occ(a.order@[k]));
            }
        }
        assert(b.wf_free()) by {
            assert forall|j: int| 0 <= j < b.free@.len() implies {
                &&& #[trigger] b.free@[j] < b.items@.len()
                &&& b.items@[b.free@[j] as int] is Free
                &&& b.items@[b.free@[j] as int]->next_free == if j + 1 < b.free@.len() {
                    Some(b.free@[j + 1])
                } else {
                    None::<usize>
                }
            } by {
                let f = a.free@[j];
                assert(a.items@[f as int] is Free);
                assert(!a.occ(f));
                assert(f != x && f != y);
                assert(b.items@[f as int] == a.items@[f as int]);
            }
        }
        assert(forall|k: int|
            0 <= k < b.len ==> {
                &&& #[trigger] b.occ(b.order@[k])
                &&& (b.pos@)(b.order@[k]) == k
            });
        assert(forall|i: usize|
            #[trigger] b.occ(i) ==> {
                &&& 0 <= (b.pos@)(i) < b.len
                &&& b.order@[(b.pos@)(i)] == i
            });
        assert(b.wf_arena());
        assert forall|k: int| 0 <= k < b.len implies #[trigger] b.wf_node(k) by {
            let i = a.order@[k];
            assert(a.wf_node(k));
            assert(a.occ(i));
            let n = a.nd(i);
            if let Some(l) = n.right {
                assert(a.occ(l));
                assert(a.wf_node((a.pos@)(l)));
            }
            if let Some(r) = n.left {
                assert(a.occ(r));
                assert(a.wf_node((a.pos@)(r)));
            }
            if let Some(pp) = n.parent {
                assert(a.occ(pp));
                assert(a.wf_node((a.pos@)(pp)));
            }
        }
        if let Some(r) = a.root {
            assert(a.occ(r));
            assert(a.wf_node((a.pos@)(r)));
        }
        assert(b.wf_links());
        assert forall|i: usize|
            #[trigger] a.occ(i) && i != x && i != y && xp != Some(i) && a.height_ok(i) implies b.height_ok(i) by {
            assert(a.wf_node((a.pos@)(i)));
            let n = a.nd(i);
            if let Some(l) = n.right {
                assert(a.occ(l));
            }
            if let Some(r) = n.left {
                assert(a.occ(r));
            }
            if t2 == Some(i) {
                assert(b.nd(i).right == n.right && b.nd(i).left == n.left);
            } else {
                assert(b.nd(i) == n);
            }
        }
        assert forall|i: usize| #[trigger] a.occ(i) implies b.nd(i).height == a.nd(i).height && b.nd(i).value == a.nd(i).value by {
            if i != x && i != y && xp != Some(i) && t2 != Some(i) {
                assert(b.nd(i) == a.nd(i));
            }
        }
        assert forall|i: usize|
            #[trigger] a.occ(i) && i != x && i != y && xp != Some(i) implies Self::kept(a, b, i) by {
            if t2 == Some(i) {
                assert(b.nd(i).left == a.nd(i).left && b.nd(i).right == a.nd(i).right);
            } else {
                assert(b.nd(i) == a.nd(i));
            }
        }
        assert forall|path: Seq<usize>|
            #[trigger] a.up_path(path) && path.len() > 0 && path[0] == x implies b.up_path(
                seq![x, y] + path.drop_first(),
            ) by {
            let np = seq![x, y] + path.drop_first();
            assert forall|j: int| 0 <= j < np.len() implies #[trigger] b.occ(np[j]) by {
                if j >= 2 {
                    assert(np[j] == path[j - 1]);
                    assert(a.occ(path[j - 1]));
                }
            }
            assert forall|j: int| 2 <= j < np.len() implies np[j] != x && np[j] != y && #[trigger] (b.lo@)(np[j]) == (a.lo@)(np[j]) && (b.hi@)(np[j]) == (a.hi@)(np[j]) by {
                assert(np[j] == path[j - 1]);
                assert(a.size(path[0]) < a.size(path[j - 1]));
                assert(a.size(y) < a.size(x));
            }
            assert forall|j: int| 0 <= j < np.len() implies #[trigger] b.nd(np[j]).parent == if j + 1 < np.len() {
                Some(np[j + 1])
            } else {
                None::<usize>
            } by {
                if j >= 2 {
                    assert(np[j] == path[j - 1]);
                    assert(a.occ(path[j - 1]));
                    assert(a.nd(path[j - 1]).parent == if j < path.len() {
                        Some(path[j])
                    } else {
                        None::<usize>
                    });
                    if j + 1 < np.len() {
                        assert(np[j + 1] == path[j]);
                    }
                } else if j == 1 {
                    assert(a.nd(path[0]).parent == if 1 < path.len() {
                        Some(path[1])
                    } else {
                        None::<usize>
                    });
                    if 2 < np.len() {
                        assert(np[2] == path[1]);
                    }
                }
            }
            assert forall|c: int, d: int| 0 <= c < d < np.len() implies {
                &&& b.size(#[trigger] np[c]) < b.size(#[trigger] np[d])
                &&& (b.lo@)(np[d]) <= (b.lo@)(np[c])
                &&& (b.hi@)(np[c]) <= (b.hi@)(np[d])
            } by {
                if d >= 2 {
                    assert(np[d] == path[d - 1]);
                    assert((a.lo@)(path[d - 1]) <= (a.lo@)(path[0]));
                    assert((a.hi@)(path[0]) <= (a.hi@)(path[d - 1]));
                    assert(a.size(path[0]) < a.size(path[d - 1]));
                    if c >= 2 {
                        assert(np[c] == path[c - 1]);
                    }
                }
            }
        }
    }

    /// Turns the subtree at `x` left; returns its new root, the former right
    /// child of `x`.
    fn rotate_left(&mut self, x_link: Option<usize>) -> (r: Option<usize>)
        requires
            old(self).wf_shape(),
            x_link matches Some(x) ==> old(self).occ(x),
        ensures
            x_link is None || old(self).nd(x_link->0).right is None ==> r is None && *final(self) == *old(self),
            x_link is Some && old(self).nd(x_link->0).right is Some ==> r == old(self).nd(x_link->0).right
                && Self::rotated_left(old(self), final(self), x_link->0, r->0),
    {
        let x_index = match x_link {
            Some(x_index) => x_index,
            None => {
                return None;
            },
        };
        let (x_right, x_parent) = {
            let x = self.unwrap_occupied(x_index);
            (x.right, x.parent)
        };
        let y_link = x_right;
        let y_index = match y_link {
            Some(y_index) => y_index,
            None => {
                return None;
            },
        };
        let ghost a = *self;
        proof {
            assert(a.wf_node((a.pos@)(x_index)));
            assert(a.wf_node((a.pos@)(y_index)));
            if let Some(p) = x_parent {
                assert(a.wf_node((a.pos@)(p)));
            }
            if let Some(t) = a.nd(y_index).left {
                assert(a.wf_node((a.pos@)(t)));
            }
        }
        let t2_link = self.unwrap_occupied(y_index).left;

        // the parent of x now points at y
        if let Some(parent_index) = x_parent {
            let parent_node_left = self.unwrap_occupied(parent_index).left;
            if parent_node_left == x_link {
                self.set_left(parent_index, y_link);
            } else {
                self.set_right(parent_index, y_link);
            }
        } else {
            self.root = y_link;
        }
        self.set_parent(y_index, x_parent);

        // x hangs under y
        self.set_parent(x_index, y_link);
        self.set_left(y_index, x_link);

        // the left subtree of y moves under x
        self.set_right(x_index, t2_link);
        if let Some(t2_index) = t2_link {
            self.set_parent(t2_index, x_link);
        }
        let ghost lo0 = a.lo@;
        let ghost hi0 = a.hi@;
        let ghost ky = (a.pos@)(y_index);
        self.lo = Ghost(|i: usize| if i == y_index { lo0(x_index) } else { lo0(i) });
        self.hi = Ghost(|i: usize| if i == y_index { hi0(x_index) } else if i == x_index { ky } else { hi0(i) });
        y_link
    }

    /// The stored height of `i` is one more than the greater of its
    /// children's.
    closed spec fn height_eq(&self, i: usize) -> bool {
        self.nd(i).height == 1 + max_int(self.link_h(self.nd(i).left), self.link_h(self.nd(i).right))
    }

    /// Every node off `path` has a right height and is balanced.
    closed spec fn settled_off(&self, path: Seq<usize>) -> bool {
        forall|i: usize|
            #[trigger] self.occ(i) && !path.contains(i) ==> self.height_ok(i) && self.balanced_at(i)
    }

    /// `n` with its link to `x` turned into a link to `top`.
    closed spec fn relink(n: Node<T>, x: usize, top: usize) -> Node<T> {
        Node {
            left: if n.left == Some(x) {
                Some(top)
            } else {
                n.left
            },
            right: if n.right == Some(x) {
                Some(top)
            } else {
                n.right
            },
            ..n
        }
    }

    /// Changing one slot keeps every other node.
    proof fn lemma_slot_kept(b: &Self, c: &Self, k: usize)
        requires
            Self::same_shape(b, c),
            Self::same_but_slot(b, c, k),
        ensures
            forall|i: usize| #[trigger] b.occ(i) && i != k ==> Self::kept(b, c, i) && c.nd(i) == b.nd(i),
    {
        assert forall|i: usize| #[trigger] b.occ(i) && i != k implies Self::kept(b, c, i) && c.nd(i) == b.nd(i) by {
            assert(c.items@[i as int] == b.items@[i as int]);
        }
    }

    /// What rebalancing at `x` (from `a` to `z`, with `top` now where `x`
    /// stood) promises to the walk along `rest`, which starts at `x`.
    closed spec fn rebalanced(a: &Self, z: &Self, x: usize, top: usize, rest: Seq<usize>) -> bool {
        let n = a.nd(x);
        let hl = a.link_h(n.left);
        let hr = a.link_h(n.right);
        &&& z.wf_shape()
        &&& z@ == a@
        &&& z.up_path(seq![top] + rest.drop_first())
        &&& z.settled_off(rest.drop_first())
        &&& forall|p: usize|
            rest.drop_first().contains(p) ==> z.occ(p) && z.nd(p) == Self::relink(a.nd(p), x, top)
        &&& forall|i: usize|
            #[trigger] a.occ(i) && !rest.contains(i) && (a.nd(i).parent matches Some(p)
                && rest.drop_first().contains(p)) ==> z.nd(i).height == a.nd(i).height
        &&& max_int(hl, hr) <= z.nd(top).height <= 1 + max_int(hl, hr)
        &&& -1 <= hl - hr <= 1 ==> z.nd(top).height == 1 + max_int(hl, hr)
    }

    /// The facts that rebalancing at `x` needs: the path `rest` up from `x`,
    /// everything off it settled, the height of `x` right, and `x` leaning
    /// by two at most.
    closed spec fn ready(a: &Self, x: usize, rest: Seq<usize>) -> bool {
        let n = a.nd(x);
        &&& a.wf_shape()
        &&& a.occ(x)
        &&& a.up_path(rest)
        &&& rest.len() > 0
        &&& rest[0] == x
        &&& a.settled_off(rest)
        &&& a.height_ok(x)
        &&& -2 <= a.link_h(n.left) - a.link_h(n.right) <= 2
    }

    /// The nodes of `rest` other than its start are not below it.
    proof fn lemma_rest_above(a: &Self, rest: Seq<usize>)
        requires
            a.wf_shape(),
            a.up_path(rest),
            rest.len() > 0,
        ensures
            forall|j: int| 1 <= j < rest.len() ==> a.size(rest[0]) < a.size(#[trigger] rest[j]),
            rest.len() > 1 ==> a.nd(rest[0]).parent == Some(rest[1]),
            rest.len() == 1 ==> a.nd(rest[0]).parent is None,
            !rest.drop_first().contains(rest[0]),
    {
        assert(a.nd(rest[0]).parent == if 1 < rest.len() {
            Some(rest[1])
        } else {
            None::<usize>
        });
        if rest.drop_first().contains(rest[0]) {
            let j = choose|j: int| 0 <= j < rest.drop_first().len() && rest.drop_first()[j] == rest[0];
            assert(rest[j + 1] == rest[0]);
            assert(a.size(rest[0]) < a.size(rest[j + 1]));
        }
    }

    /// When the nodes moved by rebalancing at `x` (`x`, `u`, `w`, each a
    /// child of `x` or of `u`) are settled, and all others kept their
    /// children, heights and ranges, everything off the rest of the path is
    /// settled.
    #[verifier::spinoff_prover]
    proof fn lemma_settle_rest(a: &Self, f: &Self, x: usize, u: usize, w: usize, rest: Seq<usize>)
        requires
            a.wf_shape(),
            a.up_path(rest),
            rest.len() > 0,
            rest[0] == x,
            a.settled_off(rest),
            a.occ(u),
            a.occ(w),
            a.nd(u).parent == Some(x),
            a.nd(w).parent == Some(x) || a.nd(w).parent == Some(u),
            forall|i: usize| #[trigger] f.occ(i) ==> a.occ(i),
            forall|i: usize|
                #[trigger] a.occ(i) && i != x && i != u && i != w && a.nd(x).parent != Some(i) ==> Self::kept(a, f, i),
            f.height_ok(x) && f.balanced_at(x),
            f.height_ok(u) && f.balanced_at(u),
            f.height_ok(w) && f.balanced_at(w),
        ensures
            f.settled_off(rest.drop_first()),
    {
        let tail = rest.drop_first();
        let xp = a.nd(x).parent;
        Self::lemma_rest_above(a, rest);
        assert forall|i: usize| #[trigger] f.occ(i) && !tail.contains(i) implies f.height_ok(i) && f.balanced_at(i) by {
            assert(a.occ(i));
            if i != x && i != u && i != w {
                assert(!rest.contains(i)) by {
                    if rest.contains(i) {
                        let j = choose|j: int| 0 <= j < rest.len() && rest[j] == i;
                        assert(j != 0);
                        assert(tail[j - 1] == i);
                    }
                }
                assert(xp != Some(i)) by {
                    if xp == Some(i) {
                        assert(tail[0] == i);
                    }
                }
                assert(Self::kept(a, f, i));
                a.lemma_node_facts(i);
                if let Some(ch) = a.nd(i).left {
                    a.lemma_node_facts(ch);
                    assert(ch != x && ch != u && ch != w);
                    assert(Self::kept(a, f, ch));
                }
                if let Some(ch) = a.nd(i).right {
                    a.lemma_node_facts(ch);
                    assert(ch != x && ch != u && ch != w);
                    assert(Self::kept(a, f, ch));
                }
                Self::lemma_kept_settled(a, f, i);
            }
        }
    }

    /// A rotation (from `a` to `b`) and two settings of heights keep the
    /// slots.
    proof fn lemma_slots_chain3(a: &Self, b: &Self, c: &Self, d: &Self)
        requires
            forall|i: usize| #[trigger] a.occ(i) <==> b.occ(i),
            forall|i: usize| #[trigger] a.occ(i) ==> b.nd(i).value == a.nd(i).value,
            b.items@.len() == a.items@.len(),
            b.free@ == a.free@,
            Self::same_shape(b, c),
            Self::same_shape(c, d),
        ensures
            Self::same_slots(a, d),
    {
        Self::lemma_shape_slots(b, c);
        Self::lemma_shape_slots(c, d);
        assert(Self::same_slots(a, b));
    }

    /// Two rotations (from `a` to `c`) and three settings of heights keep
    /// the slots.
    proof fn lemma_slots_chain5(a: &Self, b: &Self, c: &Self, d: &Self, e: &Self, f: &Self)
        requires
            forall|i: usize| #[trigger] a.occ(i) <==> b.occ(i),
            forall|i: usize| #[trigger] a.occ(i) ==> b.nd(i).value == a.nd(i).value,
            b.items@.len() == a.items@.len(),
            b.free@ == a.free@,
            forall|i: usize| #[trigger] b.occ(i) <==> c.occ(i),
            forall|i: usize| #[trigger] b.occ(i) ==> c.nd(i).value == b.nd(i).value,
            c.items@.len() == b.items@.len(),
            c.free@ == b.free@,
            Self::same_shape(c, d),
            Self::same_shape(d, e),
            Self::same_shape(e, f),
        ensures
            Self::same_slots(a, f),
    {
        Self::lemma_shape_slots(c, d);
        Self::lemma_shape_slots(d, e);
        Self::lemma_shape_slots(e, f);
        assert(Self::same_slots(a, b));
        assert(Self::same_slots(b, c));
    }

    /// One right rotation at `x` and the heights of `x` and `y` set again.
    #[verifier::spinoff_prover]
    #[verifier::rlimit(80)]
    proof fn lemma_single_right_settle(a: &Self, b: &Self, c: &Self, d: &Self, x: usize, y: usize, rest: Seq<usize>)
        requires
            Self::ready(a, x, rest),
            a.nd(x).left == Some(y),
            a.link_h(a.nd(x).left) - a.link_h(a.nd(x).right) == 2,
            a.link_h(a.nd(y).left) >= a.link_h(a.nd(y).right),
            Self::rotated_right(a, b, x, y),
            Self::same_shape(b, c),
            Self::same_but_slot(b, c, x),
            c.height_ok(x),
            c@ == b@,
            c.wf_shape(),
            Self::same_shape(c, d),
            Self::same_but_slot(c, d, y),
            d.height_ok(y),
            d@ == c@,
            d.wf_shape(),
        ensures
            Self::rebalanced(a, d, x, y, rest),
            d.nd(y).left == a.nd(y).left,
            d.nd(y).right == Some(x),
            d.nd(x).left == a.nd(y).right,
            d.nd(x).right == a.nd(x).right,
    {
        let xp = a.nd(x).parent;
        let tail = rest.drop_first();
        let t1 = a.nd(y).left;
        let t2 = a.nd(y).right;
        let t3 = a.nd(x).right;
        Self::lemma_rotated_right(a, b, x, y);
        Self::lemma_slot_kept(b, c, x);
        Self::lemma_slot_kept(c, d, y);
        Self::lemma_rest_above(a, rest);
        a.lemma_node_facts(x);
        a.lemma_node_facts(y);
        assert(a.height_ok(y));
        // the path
        assert(b.up_path(seq![x, y] + tail));
        b.lemma_path_skip(seq![x, y] + tail, 1);
        assert((seq![x, y] + tail).subrange(1, tail.len() as int + 2) =~= seq![y] + tail);
        Self::lemma_same_shape_path(b, c, seq![y] + tail);
        Self::lemma_same_shape_path(c, d, seq![y] + tail);
        // everything but x, y and the parent of x keeps its children and height
        assert forall|i: usize| #[trigger] a.occ(i) && i != x && i != y && xp != Some(i) implies Self::kept(a, d, i) && d.nd(i).value == a.nd(i).value && d.nd(i).parent == a.nd(i).parent || t2 == Some(i) by {
            assert(Self::kept(a, b, i));
            assert(b.occ(i));
            if t2 != Some(i) {
                assert(b.items@[i as int] == a.items@[i as int]);
            }
        }
        // the children of x and y
        if let Some(t) = t1 {
            a.lemma_node_facts(t);
            assert(Self::kept(a, b, t) && Self::kept(b, c, t) && Self::kept(c, d, t));
        }
        if let Some(t) = t2 {
            a.lemma_node_facts(t);
            assert(Self::kept(a, b, t) && Self::kept(b, c, t) && Self::kept(c, d, t));
        }
        if let Some(t) = t3 {
            a.lemma_node_facts(t);
            assert(Self::kept(a, b, t) && Self::kept(b, c, t) && Self::kept(c, d, t));
        }
        assert(Self::kept(c, d, x));
        assert(d.nd(x).left == t2 && d.nd(x).right == t3);
        assert(d.nd(y).left == t1 && d.nd(y).right == Some(x));
        assert(d.height_ok(x));
        // settled off the rest of the path
        assert forall|i: usize| #[trigger] d.occ(i) && !tail.contains(i) implies d.height_ok(i) && d.balanced_at(i) by {
            assert(b.occ(i) && c.occ(i));
            assert(a.occ(i));
            if i != x && i != y {
                assert(!rest.contains(i)) by {
                    if rest.contains(i) {
                        let j = choose|j: int| 0 <= j < rest.len() && rest[j] == i;
                        assert(j != 0);
                        assert(tail[j - 1] == i);
                    }
                }
                assert(xp != Some(i)) by {
                    if xp == Some(i) {
                        assert(tail[0] == i);
                    }
                }
                assert(Self::kept(a, b, i) && Self::kept(b, c, i) && Self::kept(c, d, i));
                a.lemma_node_facts(i);
                let ni = a.nd(i);
                if let Some(ch) = ni.left {
                    a.lemma_node_facts(ch);
                    assert(ch != x && ch != y);
                    assert(d.nd(ch).height == a.nd(ch).height) by {
                        if xp != Some(ch) {
                            assert(Self::kept(a, b, ch));
                        }
                    }
                }
                if let Some(ch) = ni.right {
                    a.lemma_node_facts(ch);
                    assert(ch != x && ch != y);
                    assert(d.nd(ch).height == a.nd(ch).height) by {
                        if xp != Some(ch) {
                            assert(Self::kept(a, b, ch));
                        }
                    }
                }
                Self::lemma_kept_settled(a, d, i);
            }
        }
        // the rest of the path
        assert forall|p: usize| tail.contains(p) implies d.occ(p) && d.nd(p) == Self::relink(a.nd(p), x, y) by {
            let j = choose|j: int| 0 <= j < tail.len() && tail[j] == p;
            assert(rest[j + 1] == p);
            assert(a.size(x) < a.size(p));
            assert(a.occ(p));
            a.lemma_node_facts(p);
            assert(p != x && p != y);
            if let Some(t) = t2 {
                assert(t != p);
            }
            assert(d.nd(p) == b.nd(p));
            if xp != Some(p) {
                assert(b.items@[p as int] == a.items@[p as int]);
                assert(a.nd(p).left != Some(x) && a.nd(p).right != Some(x));
            }
        }
        assert forall|i: usize|
            #[trigger] a.occ(i) && !rest.contains(i) && (a.nd(i).parent matches Some(p) && tail.contains(p))
            implies d.nd(i).height == a.nd(i).height by {
            assert(i != x) by {
                assert(rest[0] == x);
            }
            let p = a.nd(i).parent->0;
            assert(i != y) by {
                if i == y {
                    assert(!tail.contains(x));
                }
            }
            if xp != Some(i) {
                assert(Self::kept(a, b, i));
            } else {
                assert(tail[0] == i);
            }
        }
    }

    /// A double rotation at `x`: its left child `l` turned left (from `a` to
    /// `b`), `x` turned right (to `c`), then the heights of `l`, `x` and `m`
    /// set again (to `d`, `e`, `f`).
    #[verifier::spinoff_prover]
    #[verifier::rlimit(100)]
    proof fn lemma_left_right_settle(
        a: &Self,
        b: &Self,
        c: &Self,
        d: &Self,
        e: &Self,
        f: &Self,
        x: usize,
        l: usize,
        m: usize,
        rest: Seq<usize>,
    )
        requires
            Self::ready(a, x, rest),
            a.nd(x).left == Some(l),
            a.occ(l),
            a.nd(l).right == Some(m),
            a.link_h(a.nd(x).left) - a.link_h(a.nd(x).right) == 2,
            a.link_h(a.nd(l).left) < a.link_h(a.nd(l).right),
            Self::rotated_left(a, b, l, m),
            Self::rotated_right(b, c, x, m),
            Self::same_shape(c, d),
            Self::same_but_slot(c, d, l),
            d.height_ok(l),
            d@ == c@,
            Self::same_shape(d, e),
            Self::same_but_slot(d, e, x),
            e.height_ok(x),
            e@ == d@,
            Self::same_shape(e, f),
            Self::same_but_slot(e, f, m),
            f.height_ok(m),
            f@ == e@,
            f.wf_shape(),
        ensures
            Self::rebalanced(a, f, x, m, rest),
            f.nd(m).left == Some(l),
            f.nd(m).right == Some(x),
            f.nd(l).left == a.nd(l).left,
            f.nd(l).right == a.nd(m).left,
            f.nd(x).left == a.nd(m).right,
            f.nd(x).right == a.nd(x).right,
    {
        let xp = a.nd(x).parent;
        let tail = rest.drop_first();
        let t1 = a.nd(l).left;
        let m1 = a.nd(m).left;
        let m2 = a.nd(m).right;
        let t3 = a.nd(x).right;
        Self::lemma_rotated_left(a, b, l, m);
        Self::lemma_rotated_right(b, c, x, m);
        Self::lemma_slot_kept(c, d, l);
        Self::lemma_slot_kept(d, e, x);
        Self::lemma_slot_kept(e, f, m);
        Self::lemma_rest_above(a, rest);
        a.lemma_node_facts(x);
        a.lemma_node_facts(l);
        a.lemma_node_facts(m);
        assert(a.height_ok(l) && a.height_ok(m) && a.balanced_at(l) && a.balanced_at(m));
        // the path
        assert(b.nd(x).parent == xp);
        assert(a.up_path(rest));
        assert(b.up_path(rest)) by {
            assert forall|j: int| 0 <= j < rest.len() implies #[trigger] b.occ(rest[j]) && b.nd(rest[j]).parent == a.nd(rest[j]).parent
                && (b.lo@)(rest[j]) == (a.lo@)(rest[j]) && (b.hi@)(rest[j]) == (a.hi@)(rest[j]) by {
                assert(a.occ(rest[j]));
                if j > 0 {
                    assert(a.size(x) < a.size(rest[j]));
                }
                assert(rest[j] != l && rest[j] != m);
            }
            assert forall|j: int| 0 <= j < rest.len() implies #[trigger] b.nd(rest[j]).parent == if j + 1 < rest.len() {
                Some(rest[j + 1])
            } else {
                None::<usize>
            } by {
                assert(b.occ(rest[j]));
                assert(a.nd(rest[j]).parent == if j + 1 < rest.len() {
                    Some(rest[j + 1])
                } else {
                    None::<usize>
                });
            }
        }
        assert(c.up_path(seq![x, m] + tail));
        c.lemma_path_skip(seq![x, m] + tail, 1);
        assert((seq![x, m] + tail).subrange(1, tail.len() as int + 2) =~= seq![m] + tail);
        Self::lemma_same_shape_path(c, d, seq![m] + tail);
        Self::lemma_same_shape_path(d, e, seq![m] + tail);
        Self::lemma_same_shape_path(e, f, seq![m] + tail);
        // the subtrees hanging off the moved nodes
        if let Some(t) = t1 {
            a.lemma_node_facts(t);
            assert(Self::kept(a, b, t) && Self::kept(b, c, t) && Self::kept(c, d, t) && Self::kept(d, e, t) && Self::kept(e, f, t));
        }
        if let Some(t) = m1 {
            a.lemma_node_facts(t);
            assert(Self::kept(a, b, t) && Self::kept(b, c, t) && Self::kept(c, d, t) && Self::kept(d, e, t) && Self::kept(e, f, t));
        }
        if let Some(t) = m2 {
            a.lemma_node_facts(t);
            assert(Self::kept(a, b, t) && Self::kept(b, c, t) && Self::kept(c, d, t) && Self::kept(d, e, t) && Self::kept(e, f, t));
        }
        if let Some(t) = t3 {
            a.lemma_node_facts(t);
            assert(Self::kept(a, b, t) && Self::kept(b, c, t) && Self::kept(c, d, t) && Self::kept(d, e, t) && Self::kept(e, f, t));
        }
        assert(Self::kept(d, e, l) && Self::kept(e, f, l) && Self::kept(e, f, x));
        assert(f.nd(l).left == t1 && f.nd(l).right == m1);
        assert(f.nd(x).left == m2 && f.nd(x).right == t3);
        assert(f.nd(m).left == Some(l) && f.nd(m).right == Some(x));
        assert(f.height_ok(l) && f.height_ok(x));
        // settled off the rest of the path
        assert forall|i: usize| #[trigger] a.occ(i) && i != x && i != l && i != m && xp != Some(i) implies Self::kept(a, f, i) by {
            assert(Self::kept(a, b, i));
            assert(b.occ(i));
            assert(Self::kept(b, c, i));
            assert(c.occ(i) && d.occ(i) && e.occ(i));
        }
        assert forall|i: usize| #[trigger] f.occ(i) implies a.occ(i) by {
            assert(e.occ(i) && d.occ(i) && c.occ(i) && b.occ(i));
        }
        Self::lemma_settle_rest(a, f, x, l, m, rest);
        // the rest of the path
        assert forall|p: usize| tail.contains(p) implies f.occ(p) && f.nd(p) == Self::relink(a.nd(p), x, m) by {
            let j = choose|j: int| 0 <= j < tail.len() && tail[j] == p;
            assert(rest[j + 1] == p);
            assert(a.size(x) < a.size(p));
            assert(a.occ(p));
            a.lemma_node_facts(p);
            assert(p != x && p != l && p != m);
            if let Some(t) = m1 {
                a.lemma_node_facts(t);
                assert(t != p);
            }
            if let Some(t) = m2 {
                a.lemma_node_facts(t);
                assert(t != p);
            }
            assert(b.items@[p as int] == a.items@[p as int]);
            assert(f.nd(p) == c.nd(p));
            if xp != Some(p) {
                assert(c.items@[p as int] == b.items@[p as int]);
                assert(a.nd(p).left != Some(x) && a.nd(p).right != Some(x));
            }
        }
        assert forall|i: usize|
            #[trigger] a.occ(i) && !rest.contains(i) && (a.nd(i).parent matches Some(p) && tail.contains(p))
            implies f.nd(i).height == a.nd(i).height by {
            assert(i != x) by {
                assert(rest[0] == x);
            }
            assert(i != l && i != m) by {
                if i == l || i == m {
                    assert(!tail.contains(x));
                    a.lemma_node_facts(l);
                }
            }
            if xp != Some(i) {
                assert(Self::kept(a, b, i) && Self::kept(b, c, i));
            } else {
                assert(tail[0] == i);
            }
        }
    }

    /// The shape that rebalancing at `x` leaves (from `a` to `z`, with `top`
    /// where `x` stood): `x` as it was when it leans by one at most; for a
    /// left lean, a right rotation (LL) or, when the left child `l` leans
    /// right, a left rotation at `l` and a right rotation at `x` (LR), which
    /// puts the right child `m` of `l` on top with children `l` and `x`; and
    /// the mirror images (RR, RL) for a right lean.
    closed spec fn reshaped(a: &Self, z: &Self, x: usize, top: usize) -> bool {
        let n = a.nd(x);
        let bf = a.link_h(n.left) - a.link_h(n.right);
        &&& -1 <= bf <= 1 ==> top == x && *z == *a
        &&& bf > 1 ==> {
            let l = n.left->0;
            if a.link_h(a.nd(l).left) < a.link_h(a.nd(l).right) {
                let m = a.nd(l).right->0;
                &&& top == m
                &&& z.nd(m).left == Some(l)
                &&& z.nd(m).right == Some(x)
                &&& z.nd(l).left == a.nd(l).left
                &&& z.nd(l).right == a.nd(m).left
                &&& z.nd(x).left == a.nd(m).right
                &&& z.nd(x).right == n.right
            } else {
                &&& top == l
                &&& z.nd(l).left == a.nd(l).left
                &&& z.nd(l).right == Some(x)
                &&& z.nd(x).left == a.nd(l).right
                &&& z.nd(x).right == n.right
            }
        }
        &&& bf < -1 ==> {
            let rc = n.right->0;
            if a.link_h(a.nd(rc).right) < a.link_h(a.nd(rc).left) {
                let m = a.nd(rc).left->0;
                &&& top == m
                &&& z.nd(m).right == Some(rc)
                &&& z.nd(m).left == Some(x)
                &&& z.nd(rc).right == a.nd(rc).right
                &&& z.nd(rc).left == a.nd(m).right
                &&& z.nd(x).right == a.nd(m).left
                &&& z.nd(x).left == n.left
            } else {
                &&& top == rc
                &&& z.nd(rc).right == a.nd(rc).right
                &&& z.nd(rc).left == Some(x)
                &&& z.nd(x).right == a.nd(rc).left
                &&& z.nd(x).left == n.left
            }
        }
    }

    /// Restores the balance at `link`, which leans by two at most, with one
    /// or two rotations, and sets the heights of the nodes it moves; see
    /// `reshaped` for the four shapes. Returns the node that now stands where
    /// `link` stood. A missing link is left alone. The heights of the nodes
    /// above are not touched here: `rebalance_ancestors`, which calls this at
    /// each node on the way up, sets each of them before rebalancing it, so
    /// that every height on the path is recomputed after the rotations below
    /// it.
    fn rebalance(&mut self, link: Option<usize>, Ghost(rest): Ghost<Seq<usize>>) -> (r: Option<usize>)
        requires
            link matches Some(x) ==> Self::ready(old(self), x, rest),
        ensures
            link is None ==> r is None && *final(self) == *old(self),
            link matches Some(x) ==> {
                &&& r is Some
                &&& Self::same_slots(old(self), final(self))
                &&& Self::rebalanced(old(self), final(self), x, r->0, rest)
                &&& Self::reshaped(old(self), final(self), x, r->0)
            },
    {
        let index = match link {
            Some(index) => index,
            None => {
                return None;
            },
        };
        proof {
            self.lemma_node_facts(index);
            self.lemma_settled_children(index, rest);
        }
        let balance_factor = self.balance_factor(link);
        if balance_factor > 1 {
            self.fix_left_heavy(index, Ghost(rest))
        } else if balance_factor < -1 {
            self.fix_right_heavy(index, Ghost(rest))
        } else {
            proof {
                Self::lemma_no_rotation(self, index, rest);
                Self::lemma_shape_slots(self, self);
            }
            link
        }
    }

    /// The children of the start of `rest`, and theirs, are settled.
    proof fn lemma_settled_children(&self, x: usize, rest: Seq<usize>)
        requires
            self.wf_shape(),
            self.occ(x),
            self.up_path(rest),
            rest.len() > 0,
            rest[0] == x,
            self.settled_off(rest),
        ensures
            self.nd(x).left matches Some(c) ==> self.occ(c) && self.height_ok(c) && self.balanced_at(c)
                && !rest.contains(c),
            self.nd(x).right matches Some(c) ==> self.occ(c) && self.height_ok(c) && self.balanced_at(c)
                && !rest.contains(c),
            self.nd(x).left matches Some(c) ==> (self.nd(c).left matches Some(g) ==> self.occ(g)
                && self.height_ok(g) && self.balanced_at(g)),
            self.nd(x).left matches Some(c) ==> (self.nd(c).right matches Some(g) ==> self.occ(g)
                && self.height_ok(g) && self.balanced_at(g)),
            self.nd(x).right matches Some(c) ==> (self.nd(c).left matches Some(g) ==> self.occ(g)
                && self.height_ok(g) && self.balanced_at(g)),
            self.nd(x).right matches Some(c) ==> (self.nd(c).right matches Some(g) ==> self.occ(g)
                && self.height_ok(g) && self.balanced_at(g)),
    {
        Self::lemma_rest_above(self, rest);
        self.lemma_node_facts(x);
        assert forall|c: usize| #[trigger] self.occ(c) && self.size(c) < self.size(x) implies !rest.contains(c) by {
            if rest.contains(c) {
                let j = choose|j: int| 0 <= j < rest.len() && rest[j] == c;
                if j > 0 {
                    assert(self.size(rest[0]) < self.size(rest[j]));
                }
            }
        }
        if let Some(c) = self.nd(x).left {
            self.lemma_node_facts(c);
            if let Some(g) = self.nd(c).left {
                self.lemma_node_facts(g);
            }
            if let Some(g) = self.nd(c).right {
                self.lemma_node_facts(g);
            }
        }
        if let Some(c) = self.nd(x).right {
            self.lemma_node_facts(c);
            if let Some(g) = self.nd(c).left {
                self.lemma_node_facts(g);
            }
            if let Some(g) = self.nd(c).right {
                self.lemma_node_facts(g);
            }
        }
    }

    /// A node that is balanced already is left as it is.
    proof fn lemma_no_rotation(a: &Self, x: usize, rest: Seq<usize>)
        requires
            Self::ready(a, x, rest),
            -1 <= a.link_h(a.nd(x).left) - a.link_h(a.nd(x).right) <= 1,
        ensures
            Self::rebalanced(a, a, x, x, rest),
    {
        let tail = rest.drop_first();
        Self::lemma_rest_above(a, rest);
        a.lemma_path_skip(rest, 1);
        assert(seq![x] + tail =~= rest);
        assert(rest.subrange(1, rest.len() as int) =~= tail);
        assert forall|i: usize| #[trigger] a.occ(i) && !tail.contains(i) implies a.height_ok(i) && a.balanced_at(i) by {
            if i != x {
                assert(!rest.contains(i)) by {
                    if rest.contains(i) {
                        let j = choose|j: int| 0 <= j < rest.len() && rest[j] == i;
                        assert(tail[j - 1] == i);
                    }
                }
            }
        }
        assert forall|p: usize| tail.contains(p) implies a.occ(p) && a.nd(p) == Self::relink(a.nd(p), x, x) by {
            let j = choose|j: int| 0 <= j < tail.len() && tail[j] == p;
            assert(rest[j + 1] == p);
        }
    }

    /// Changing the slot `k` keeps a right height at a node that is not `k`
    /// and has no child `k`.
    proof fn lemma_slot_height_ok(b: &Self, c: &Self, k: usize, i: usize)
        requires
            b.wf_shape(),
            Self::same_shape(b, c),
            Self::same_but_slot(b, c, k),
            b.occ(i),
            i != k,
            b.height_ok(i),
            b.nd(i).left != Some(k),
            b.nd(i).right != Some(k),
        ensures
            c.height_ok(i),
    {
        Self::lemma_slot_kept(b, c, k);
        b.lemma_node_facts(i);
    }

    /// Rebalances at `index`, whose left subtree is higher by two.
    fn fix_left_heavy(&mut self, index: usize, Ghost(rest): Ghost<Seq<usize>>) -> (r: Option<usize>)
        requires
            Self::ready(old(self), index, rest),
            old(self).link_h(old(self).nd(index).left) - old(self).link_h(old(self).nd(index).right) == 2,
        ensures
            r is Some,
            Self::same_slots(old(self), final(self)),
            Self::rebalanced(old(self), final(self), index, r->0, rest),
            Self::reshaped(old(self), final(self), index, r->0),
    {
        let ghost a = *self;
        proof {
            self.lemma_node_facts(index);
            self.lemma_settled_children(index, rest);
            if let Some(c) = self.nd(index).left {
                self.lemma_node_facts(c);
            }
            if let Some(c) = self.nd(index).right {
                self.lemma_node_facts(c);
            }
        }
        let node_left = self.unwrap_occupied(index).left;
        let l = node_left.unwrap();
        proof {
            self.lemma_node_facts(l);
        }
        if self.balance_factor(node_left) < 0 {
            let m = self.rotate_left(node_left).unwrap();
            let ghost b = *self;
            proof {
                Self::lemma_rotated_left(&a, &b, l, m);
                assert(b.nd(index).left == Some(m));
            }
            self.rotate_right(Some(index));
            let ghost c = *self;
            proof {
                Self::lemma_rotated_right(&b, &c, index, m);
                a.lemma_node_facts(m);
                if let Some(t) = a.nd(l).left {
                    a.lemma_node_facts(t);
                    assert(b.height_ok(t));
                }
                if let Some(t) = a.nd(m).left {
                    a.lemma_node_facts(t);
                    assert(b.height_ok(t));
                }
                if let Some(t) = a.nd(m).right {
                    a.lemma_node_facts(t);
                    assert(b.height_ok(t));
                }
                if let Some(t) = a.nd(index).right {
                    a.lemma_node_facts(t);
                    assert(b.height_ok(t));
                }
                assert(c.nd(l).left == a.nd(l).left && c.nd(l).right == a.nd(m).left);
                assert(c.nd(index).left == a.nd(m).right && c.nd(index).right == a.nd(index).right);
            }
            self.update_height(l);
            let ghost d = *self;
            proof {
                if let Some(t) = a.nd(m).right {
                    Self::lemma_slot_height_ok(&c, &d, l, t);
                }
                if let Some(t) = a.nd(index).right {
                    Self::lemma_slot_height_ok(&c, &d, l, t);
                }
            }
            self.update_height(index);
            let ghost e = *self;
            proof {
                Self::lemma_slot_height_ok(&d, &e, index, l);
            }
            self.update_height(m);
            proof {
                Self::lemma_left_right_settle(&a, &b, &c, &d, &e, self, index, l, m, rest);
                Self::lemma_slots_chain5(&a, &b, &c, &d, &e, self);
            }
            Some(m)
        } else {
            let y = self.rotate_right(Some(index)).unwrap();
            let ghost b = *self;
            proof {
                Self::lemma_rotated_right(&a, &b, index, y);
                if let Some(t) = a.nd(l).left {
                    a.lemma_node_facts(t);
                    assert(b.height_ok(t));
                }
                if let Some(t) = a.nd(l).right {
                    a.lemma_node_facts(t);
                    assert(b.height_ok(t));
                }
                if let Some(t) = a.nd(index).right {
                    a.lemma_node_facts(t);
                    assert(b.height_ok(t));
                }
            }
            self.update_height(index);
            let ghost c = *self;
            proof {
                if let Some(t) = a.nd(l).left {
                    Self::lemma_slot_height_ok(&b, &c, index, t);
                }
            }
            self.update_height(y);
            proof {
                Self::lemma_single_right_settle(&a, &b, &c, self, index, y, rest);
                Self::lemma_slots_chain3(&a, &b, &c, self);
            }
            Some(y)
        }
    }

    /// The state of the walk that sets heights and rebalances along `path`,
    /// from `path[0]` up, after one node was attached or spliced out below
    /// `path[0]`: everything off the path is settled; the nodes above
    /// `path[0]` are as before the change, with heights and balance right as
    /// stored; and at `path[0]` the child on the side of the change (left if
    /// `on_left`) had the height `prev` before, and moved by one at most.
    closed spec fn walk_ok(&self, path: Seq<usize>, prev: int, on_left: bool) -> bool {
        &&& self.wf_shape()
        &&& self.up_path(path)
        &&& self.settled_off(path)
        &&& forall|j: int| 1 <= j < path.len() ==> #[trigger] self.height_eq(path[j]) && self.balanced_at(path[j])
        &&& path.len() > 0 ==> Self::walk_head(self, path[0], prev, on_left)
    }

    closed spec fn walk_head(s: &Self, x: usize, prev: int, on_left: bool) -> bool {
        let n = s.nd(x);
        let on = if on_left { n.left } else { n.right };
        let off = if on_left { n.right } else { n.left };
        &&& n.height == 1 + max_int(prev, s.link_h(off))
        &&& -1 <= prev - s.link_h(off) <= 1
        &&& -1 <= s.link_h(on) - prev <= 1
    }

    /// Setting the height at the start of the walk makes it ready to
    /// rebalance there.
    proof fn lemma_walk_ready(a: &Self, b: &Self, x: usize, rest: Seq<usize>, prev: int, on_left: bool)
        requires
            a.walk_ok(rest, prev, on_left),
            rest.len() > 0,
            rest[0] == x,
            Self::same_shape(a, b),
            Self::same_but_slot(a, b, x),
            b.wf_shape(),
            b.height_ok(x),
        ensures
            Self::ready(b, x, rest),
    {
        Self::lemma_rest_above(a, rest);
        Self::lemma_same_shape_path(a, b, rest);
        Self::lemma_slot_kept(a, b, x);
        assert(a.occ(x));
        assert forall|i: usize| #[trigger] b.occ(i) && !rest.contains(i) implies b.height_ok(i) && b.balanced_at(i) by {
            assert(a.occ(i));
            assert(i != x);
            a.lemma_node_facts(i);
            if let Some(ch) = a.nd(i).left {
                a.lemma_node_facts(ch);
                if ch == x {
                    assert(rest[1] == i);
                }
            }
            if let Some(ch) = a.nd(i).right {
                a.lemma_node_facts(ch);
                if ch == x {
                    assert(rest[1] == i);
                }
            }
            Self::lemma_kept_settled(a, b, i);
        }
        a.lemma_node_facts(x);
        if let Some(ch) = a.nd(x).left {
            a.lemma_node_facts(ch);
        }
        if let Some(ch) = a.nd(x).right {
            a.lemma_node_facts(ch);
        }
    }

    #[verifier::spinoff_prover]
    proof fn lemma_walk_step_above(a: &Self, b: &Self, z: &Self, x: usize, top: usize, rest: Seq<usize>, prev: int, on_left: bool)
        requires
            a.wf_shape(),
            a.up_path(rest),
            rest.len() > 0,
            rest[0] == x,
            forall|j: int| 1 <= j < rest.len() ==> #[trigger] a.height_eq(rest[j]) && a.balanced_at(rest[j]),
            forall|i: usize| #[trigger] a.occ(i) && i != x ==> b.occ(i) && b.nd(i) == a.nd(i),
            b.nd(x).left == a.nd(x).left,
            b.nd(x).right == a.nd(x).right,
            forall|p: usize|
                rest.drop_first().contains(p) ==> z.occ(p) && z.nd(p) == Self::relink(b.nd(p), x, top),
            forall|i: usize|
                #[trigger] b.occ(i) && !rest.contains(i) && (b.nd(i).parent matches Some(p)
                    && rest.drop_first().contains(p)) ==> z.nd(i).height == b.nd(i).height,
        ensures
            forall|j: int|
                1 <= j < rest.drop_first().len() ==> #[trigger] z.height_eq(rest.drop_first()[j]) && z.balanced_at(
                    rest.drop_first()[j],
                ),
    {
        let tail = rest.drop_first();
        Self::lemma_rest_above(a, rest);
        a.lemma_node_facts(x);
        assert forall|j: int| 1 <= j < tail.len() implies #[trigger] z.height_eq(tail[j]) && z.balanced_at(tail[j]) by {
            let p = tail[j];
            assert(rest[j + 1] == p);
            assert(a.height_eq(rest[j + 1]) && a.balanced_at(rest[j + 1]));
            assert(tail.contains(p));
            a.lemma_node_facts(p);
            assert(a.size(x) < a.size(p));
            assert(a.nd(p).left != Some(x) && a.nd(p).right != Some(x)) by {
                assert(a.nd(x).parent == Some(rest[1]));
                assert(a.size(rest[1]) < a.size(rest[j + 1]));
            }
            assert(a.occ(p));
            assert(b.nd(p) == a.nd(p));
            assert(z.nd(p) == a.nd(p));
            let on = tail[j - 1];
            assert(rest[j] == on);
            assert(tail.contains(on));
            assert(a.nd(on).parent == Some(p));
            assert(z.nd(on).height == a.nd(on).height) by {
                if j - 1 == 0 {
                    assert(on == rest[1]);
                } else {
                    assert(a.size(x) < a.size(on));
                }
                assert(on != x);
                assert(a.occ(on));
                assert(b.nd(on) == a.nd(on));
            }
            if let Some(o) = a.nd(p).left {
                if o != on {
                    a.lemma_node_facts(o);
                    assert(!rest.contains(o)) by {
                        if rest.contains(o) {
                            let k = choose|k: int| 0 <= k < rest.len() && rest[k] == o;
                            if k + 1 < rest.len() {
                                assert(a.nd(rest[k]).parent == Some(rest[k + 1]));
                            } else {
                                assert(a.nd(rest[k]).parent == None::<usize>);
                            }
                        }
                    }
                    assert(o != x);
                    assert(b.nd(o) == a.nd(o));
                    assert(b.occ(o));
                }
            }
            if let Some(o) = a.nd(p).right {
                if o != on {
                    a.lemma_node_facts(o);
                    assert(!rest.contains(o)) by {
                        if rest.contains(o) {
                            let k = choose|k: int| 0 <= k < rest.len() && rest[k] == o;
                            if k + 1 < rest.len() {
                                assert(a.nd(rest[k]).parent == Some(rest[k + 1]));
                            } else {
                                assert(a.nd(rest[k]).parent == None::<usize>);
                            }
                        }
                    }
                    assert(o != x);
                    assert(b.nd(o) == a.nd(o));
                    assert(b.occ(o));
                }
            }
        }
    }

    #[verifier::spinoff_prover]
    proof fn lemma_walk_step_head(a: &Self, b: &Self, z: &Self, x: usize, top: usize, rest: Seq<usize>, prev: int, on_left: bool)
        requires
            a.wf_shape(),
            a.up_path(rest),
            rest.len() > 0,
            rest[0] == x,
            forall|j: int| 1 <= j < rest.len() ==> #[trigger] a.height_eq(rest[j]) && a.balanced_at(rest[j]),
            forall|i: usize| #[trigger] a.occ(i) && i != x ==> b.occ(i) && b.nd(i) == a.nd(i),
            b.nd(x).left == a.nd(x).left,
            b.nd(x).right == a.nd(x).right,
            forall|p: usize|
                rest.drop_first().contains(p) ==> z.occ(p) && z.nd(p) == Self::relink(b.nd(p), x, top),
            forall|i: usize|
                #[trigger] b.occ(i) && !rest.contains(i) && (b.nd(i).parent matches Some(p)
                    && rest.drop_first().contains(p)) ==> z.nd(i).height == b.nd(i).height,
            Self::walk_head(a, x, prev, on_left),
            b.height_eq(x),
            ({
                let hl = b.link_h(b.nd(x).left);
                let hr = b.link_h(b.nd(x).right);
                &&& max_int(hl, hr) <= z.nd(top).height <= 1 + max_int(hl, hr)
                &&& -1 <= hl - hr <= 1 ==> z.nd(top).height == 1 + max_int(hl, hr)
            }),
        ensures
            rest.len() > 1 ==> Self::walk_head(z, rest[1], a.nd(x).height as int, a.nd(rest[1]).left == Some(x)),
    {
        let tail = rest.drop_first();
        Self::lemma_rest_above(a, rest);
        a.lemma_node_facts(x);
        if tail.len() > 0 {
            let p = tail[0];
            assert(rest[1] == p);
            assert(a.height_eq(rest[1]) && a.balanced_at(rest[1]));
            assert(tail.contains(p));
            a.lemma_node_facts(p);
            assert(a.occ(p));
            assert(b.nd(p) == a.nd(p));
            assert(b.nd(x).left == a.nd(x).left && b.nd(x).right == a.nd(x).right);
            if let Some(c) = a.nd(x).left {
                a.lemma_node_facts(c);
                assert(b.nd(c) == a.nd(c));
            }
            if let Some(c) = a.nd(x).right {
                a.lemma_node_facts(c);
                assert(b.nd(c) == a.nd(c));
            }
            if let Some(o) = a.nd(p).left {
                if o != x {
                    a.lemma_node_facts(o);
                    assert(!rest.contains(o)) by {
                        if rest.contains(o) {
                            let k = choose|k: int| 0 <= k < rest.len() && rest[k] == o;
                            if k + 1 < rest.len() {
                                assert(a.nd(rest[k]).parent == Some(rest[k + 1]));
                            } else {
                                assert(a.nd(rest[k]).parent == None::<usize>);
                            }
                        }
                    }
                    assert(b.nd(o) == a.nd(o));
                    assert(b.occ(o));
                }
            }
            if let Some(o) = a.nd(p).right {
                if o != x {
                    a.lemma_node_facts(o);
                    assert(!rest.contains(o)) by {
                        if rest.contains(o) {
                            let k = choose|k: int| 0 <= k < rest.len() && rest[k] == o;
                            if k + 1 < rest.len() {
                                assert(a.nd(rest[k]).parent == Some(rest[k + 1]));
                            } else {
                                assert(a.nd(rest[k]).parent == None::<usize>);
                            }
                        }
                    }
                    assert(b.nd(o) == a.nd(o));
                    assert(b.occ(o));
                }
            }
            assert(Self::walk_head(z, p, a.nd(x).height as int, a.nd(p).left == Some(x)));
        }
        }

    /// One step of the walk: after setting the height at `x` (from `a` to
    /// `b`) and rebalancing there (to `z`), the walk goes on from the parent.
    proof fn lemma_walk_step(a: &Self, b: &Self, z: &Self, x: usize, top: usize, rest: Seq<usize>, prev: int, on_left: bool)
        requires
            a.walk_ok(rest, prev, on_left),
            rest.len() > 0,
            rest[0] == x,
            Self::same_shape(a, b),
            Self::same_but_slot(a, b, x),
            b.height_ok(x),
            Self::ready(b, x, rest),
            Self::rebalanced(b, z, x, top, rest),
        ensures
            z.walk_ok(
                rest.drop_first(),
                a.nd(x).height as int,
                rest.len() > 1 && a.nd(rest[1]).left == Some(x),
            ),
            z@ == a@,
    {
        let tail = rest.drop_first();
        Self::lemma_slot_kept(a, b, x);
        assert(b@ =~= a@) by {
            assert forall|k: int| 0 <= k < b.len implies b.val_at(k) == a.val_at(k) by {
                assert(a.occ(a.order@[k]));
            }
        }
        assert(a.occ(x));
        assert(b.nd(x).left == a.nd(x).left && b.nd(x).right == a.nd(x).right);
        Self::lemma_walk_step_above(a, b, z, x, top, rest, prev, on_left);
        Self::lemma_walk_step_head(a, b, z, x, top, rest, prev, on_left);
        z.lemma_path_skip(seq![top] + tail, 1);
        assert((seq![top] + tail).subrange(1, tail.len() as int + 1) =~= tail);
        if tail.len() > 0 {
            assert(tail[0] == rest[1]);
        }
    }

    /// The walk is over: the tree is a search tree with right heights,
    /// balanced at every node.
    proof fn lemma_walk_done(z: &Self)
        requires
            z.walk_ok(Seq::empty(), -1, true),
        ensures
            z.avl_ok(),
    {
        assert forall|k: int| 0 <= k < z.len && !Seq::<usize>::empty().contains(z.order@[k]) implies #[trigger] z.height_ok(z.order@[k]) by {
            assert(z.occ(z.order@[k]));
        }
        assert forall|i: usize| #[trigger] z.occ(i) implies z.balanced_at(i) by {
            assert(!Seq::<usize>::empty().contains(i));
        }
    }

    /// Sets the heights and rebalances every node of `path`, from its start
    /// up to the root.
    fn rebalance_ancestors(
        &mut self,
        link: Option<usize>,
        Ghost(path): Ghost<Seq<usize>>,
        Ghost(prev): Ghost<int>,
        Ghost(on_left): Ghost<bool>,
    )
        requires
            old(self).walk_ok(path, prev, on_left),
            link is None <==> path.len() == 0,
            link matches Some(c) ==> path[0] == c,
        ensures
            final(self).avl_ok(),
            final(self)@ == old(self)@,
            Self::same_slots(old(self), final(self)),
    {
        let mut cur = link;
        let ghost mut rest = path;
        let ghost mut prev = prev;
        let ghost mut on_left = on_left;
        loop
            invariant
                self.walk_ok(rest, prev, on_left),
                cur is None <==> rest.len() == 0,
                cur matches Some(c) ==> rest[0] == c,
                self@ == old(self)@,
                Self::same_slots(old(self), self),
            decreases rest.len(),
        {
            match cur {
                None => {
                    proof {
                        assert(rest =~= Seq::<usize>::empty());
                        assert(self.walk_ok(Seq::empty(), -1, true));
                        Self::lemma_walk_done(self);
                        if self.items@.len() == 0 {
                            Self::lemma_shape_slots(self, self);
                        }
                    }
                    return;
                },
                Some(index) => {
                    let ghost a = *self;
                    proof {
                        Self::lemma_rest_above(self, rest);
                        assert(self.occ(rest[0]));
                        self.lemma_settled_children(index, rest);
                    }
                    self.update_height(index);
                    let ghost b = *self;
                    proof {
                        Self::lemma_walk_ready(&a, &b, index, rest, prev, on_left);
                    }
                    let top = self.rebalance(cur, Ghost(rest)).unwrap();
                    proof {
                        Self::lemma_shape_slots(&a, &b);
                        Self::lemma_same_slots_trans(old(self), &a, &b);
                        Self::lemma_same_slots_trans(old(self), &b, self);
                        Self::lemma_walk_step(&a, &b, self, index, top, rest, prev, on_left);
                        let np = seq![top] + rest.drop_first();
                        assert(self.nd(np[0]).parent == if 1 < np.len() {
                            Some(np[1])
                        } else {
                            None::<usize>
                        });
                        if 1 < np.len() {
                            assert(np[1] == rest[1]);
                        }
                    }
                    cur = self.unwrap_occupied(top).parent;
                    proof {
                        prev = a.nd(index).height as int;
                        on_left = rest.len() > 1 && a.nd(rest[1]).left == Some(index);
                        rest = rest.drop_first();
                    }
                },
            }
        }
    }

    /// One left rotation at `x` and the heights of `x` and `y` set again.
    #[verifier::spinoff_prover]
    #[verifier::rlimit(80)]
    proof fn lemma_single_left_settle(a: &Self, b: &Self, c: &Self, d: &Self, x: usize, y: usize, rest: Seq<usize>)
        requires
            Self::ready(a, x, rest),
            a.nd(x).right == Some(y),
            a.link_h(a.nd(x).right) - a.link_h(a.nd(x).left) == 2,
            a.link_h(a.nd(y).right) >= a.link_h(a.nd(y).left),
            Self::rotated_left(a, b, x, y),
            Self::same_shape(b, c),
            Self::same_but_slot(b, c, x),
            c.height_ok(x),
            c@ == b@,
            c.wf_shape(),
            Self::same_shape(c, d),
            Self::same_but_slot(c, d, y),
            d.height_ok(y),
            d@ == c@,
            d.wf_shape(),
        ensures
            Self::rebalanced(a, d, x, y, rest),
            d.nd(y).right == a.nd(y).right,
            d.nd(y).left == Some(x),
            d.nd(x).right == a.nd(y).left,
            d.nd(x).left == a.nd(x).left,
    {
        let xp = a.nd(x).parent;
        let tail = rest.drop_first();
        let t1 = a.nd(y).right;
        let t2 = a.nd(y).left;
        let t3 = a.nd(x).left;
        Self::lemma_rotated_left(a, b, x, y);
        Self::lemma_slot_kept(b, c, x);
        Self::lemma_slot_kept(c, d, y);
        Self::lemma_rest_above(a, rest);
        a.lemma_node_facts(x);
        a.lemma_node_facts(y);
        assert(a.height_ok(y));
        // the path
        assert(b.up_path(seq![x, y] + tail));
        b.lemma_path_skip(seq![x, y] + tail, 1);
        assert((seq![x, y] + tail).subrange(1, tail.len() as int + 2) =~= seq![y] + tail);
        Self::lemma_same_shape_path(b, c, seq![y] + tail);
        Self::lemma_same_shape_path(c, d, seq![y] + tail);
        // everything but x, y and the parent of x keeps its children and height
        assert forall|i: usize| #[trigger] a.occ(i) && i != x && i != y && xp != Some(i) implies Self::kept(a, d, i) && d.nd(i).value == a.nd(i).value && d.nd(i).parent == a.nd(i).parent || t2 == Some(i) by {
            assert(Self::kept(a, b, i));
            assert(b.occ(i));
            if t2 != Some(i) {
                assert(b.items@[i as int] == a.items@[i as int]);
            }
        }
        // the children of x and y
        if let Some(t) = t1 {
            a.lemma_node_facts(t);
            assert(Self::kept(a, b, t) && Self::kept(b, c, t) && Self::kept(c, d, t));
        }
        if let Some(t) = t2 {
            a.lemma_node_facts(t);
            assert(Self::kept(a, b, t) && Self::kept(b, c, t) && Self::kept(c, d, t));
        }
        if let Some(t) = t3 {
            a.lemma_node_facts(t);
            assert(Self::kept(a, b, t) && Self::kept(b, c, t) && Self::kept(c, d, t));
        }
        assert(Self::kept(c, d, x));
        assert(d.nd(x).right == t2 && d.nd(x).left == t3);
        assert(d.nd(y).right == t1 && d.nd(y).left == Some(x));
        assert(d.height_ok(x));
        // settled off the rest of the path
        assert forall|i: usize| #[trigger] d.occ(i) && !tail.contains(i) implies d.height_ok(i) && d.balanced_at(i) by {
            assert(b.occ(i) && c.occ(i));
            assert(a.occ(i));
            if i != x && i != y {
                assert(!rest.contains(i)) by {
                    if rest.contains(i) {
                        let j = choose|j: int| 0 <= j < rest.len() && rest[j] == i;
                        assert(j != 0);
                        assert(tail[j - 1] == i);
                    }
                }
                assert(xp != Some(i)) by {
                    if xp == Some(i) {
                        assert(tail[0] == i);
                    }
                }
                assert(Self::kept(a, b, i) && Self::kept(b, c, i) && Self::kept(c, d, i));
                a.lemma_node_facts(i);
                let ni = a.nd(i);
                if let Some(ch) = ni.right {
                    a.lemma_node_facts(ch);
                    assert(ch != x && ch != y);
                    assert(d.nd(ch).height == a.nd(ch).height) by {
                        if xp != Some(ch) {
                            assert(Self::kept(a, b, ch));
                        }
                    }
                }
                if let Some(ch) = ni.left {
                    a.lemma_node_facts(ch);
                    assert(ch != x && ch != y);
                    assert(d.nd(ch).height == a.nd(ch).height) by {
                        if xp != Some(ch) {
                            assert(Self::kept(a, b, ch));
                        }
                    }
                }
                Self::lemma_kept_settled(a, d, i);
            }
        }
        // the rest of the path
        assert forall|p: usize| tail.contains(p) implies d.occ(p) && d.nd(p) == Self::relink(a.nd(p), x, y) by {
            let j = choose|j: int| 0 <= j < tail.len() && tail[j] == p;
            assert(rest[j + 1] == p);
            assert(a.size(x) < a.size(p));
            assert(a.occ(p));
            a.lemma_node_facts(p);
            assert(p != x && p != y);
            if let Some(t) = t2 {
                assert(t != p);
            }
            assert(d.nd(p) == b.nd(p));
            if xp != Some(p) {
                assert(b.items@[p as int] == a.items@[p as int]);
                assert(a.nd(p).right != Some(x) && a.nd(p).left != Some(x));
            }
        }
        assert forall|i: usize|
            #[trigger] a.occ(i) && !rest.contains(i) && (a.nd(i).parent matches Some(p) && tail.contains(p))
            implies d.nd(i).height == a.nd(i).height by {
            assert(i != x) by {
                assert(rest[0] == x);
            }
            let p = a.nd(i).parent->0;
            assert(i != y) by {
                if i == y {
                    assert(!tail.contains(x));
                }
            }
            if xp != Some(i) {
                assert(Self::kept(a, b, i));
            } else {
                assert(tail[0] == i);
            }
        }
    }

    /// A double rotation at `x`: its right child `l` turned right (from `a` to
    /// `b`), `x` turned left (to `c`), then the heights of `l`, `x` and `m`
    /// set again (to `d`, `e`, `f`).
    #[verifier::spinoff_prover]
    #[verifier::rlimit(100)]
    proof fn lemma_right_left_settle(
        a: &Self,
        b: &Self,
        c: &Self,
        d: &Self,
        e: &Self,
        f: &Self,
        x: usize,
        l: usize,
        m: usize,
        rest: Seq<usize>,
    )
        requires
            Self::ready(a, x, rest),
            a.nd(x).right == Some(l),
            a.occ(l),
            a.nd(l).left == Some(m),
            a.link_h(a.nd(x).right) - a.link_h(a.nd(x).left) == 2,
            a.link_h(a.nd(l).right) < a.link_h(a.nd(l).left),
            Self::rotated_right(a, b, l, m),
            Self::rotated_left(b, c, x, m),
            Self::same_shape(c, d),
            Self::same_but_slot(c, d, l),
            d.height_ok(l),
            d@ == c@,
            Self::same_shape(d, e),
            Self::same_but_slot(d, e, x),
            e.height_ok(x),
            e@ == d@,
            Self::same_shape(e, f),
            Self::same_but_slot(e, f, m),
            f.height_ok(m),
            f@ == e@,
            f.wf_shape(),
        ensures
            Self::rebalanced(a, f, x, m, rest),
            f.nd(m).right == Some(l),
            f.nd(m).left == Some(x),
            f.nd(l).right == a.nd(l).right,
            f.nd(l).left == a.nd(m).right,
            f.nd(x).right == a.nd(m).left,
            f.nd(x).left == a.nd(x).left,
    {
        let xp = a.nd(x).parent;
        let tail = rest.drop_first();
        let t1 = a.nd(l).right;
        let m1 = a.nd(m).right;
        let m2 = a.nd(m).left;
        let t3 = a.nd(x).left;
        Self::lemma_rotated_right(a, b, l, m);
        Self::lemma_rotated_left(b, c, x, m);
        Self::lemma_slot_kept(c, d, l);
        Self::lemma_slot_kept(d, e, x);
        Self::lemma_slot_kept(e, f, m);
        Self::lemma_rest_above(a, rest);
        a.lemma_node_facts(x);
        a.lemma_node_facts(l);
        a.lemma_node_facts(m);
        assert(a.height_ok(l) && a.height_ok(m) && a.balanced_at(l) && a.balanced_at(m));
        // the path
        assert(b.nd(x).parent == xp);
        assert(a.up_path(rest));
        assert(b.up_path(rest)) by {
            assert forall|j: int| 0 <= j < rest.len() implies #[trigger] b.occ(rest[j]) && b.nd(rest[j]).parent == a.nd(rest[j]).parent
                && (b.lo@)(rest[j]) == (a.lo@)(rest[j]) && (b.hi@)(rest[j]) == (a.hi@)(rest[j]) by {
                assert(a.occ(rest[j]));
                if j > 0 {
                    assert(a.size(x) < a.size(rest[j]));
                }
                assert(rest[j] != l && rest[j] != m);
            }
            assert forall|j: int| 0 <= j < rest.len() implies #[trigger] b.nd(rest[j]).parent == if j + 1 < rest.len() {
                Some(rest[j + 1])
            } else {
                None::<usize>
            } by {
                assert(b.occ(rest[j]));
                assert(a.nd(rest[j]).parent == if j + 1 < rest.len() {
                    Some(rest[j + 1])
                } else {
                    None::<usize>
                });
            }
        }
        assert(c.up_path(seq![x, m] + tail));
        c.lemma_path_skip(seq![x, m] + tail, 1);
        assert((seq![x, m] + tail).subrange(1, tail.len() as int + 2) =~= seq![m] + tail);
        Self::lemma_same_shape_path(c, d, seq![m] + tail);
        Self::lemma_same_shape_path(d, e, seq![m] + tail);
        Self::lemma_same_shape_path(e, f, seq![m] + tail);
        // the subtrees hanging off the moved nodes
        if let Some(t) = t1 {
            a.lemma_node_facts(t);
            assert(Self::kept(a, b, t) && Self::kept(b, c, t) && Self::kept(c, d, t) && Self::kept(d, e, t) && Self::kept(e, f, t));
        }
        if let Some(t) = m1 {
            a.lemma_node_facts(t);
            assert(Self::kept(a, b, t) && Self::kept(b, c, t) && Self::kept(c, d, t) && Self::kept(d, e, t) && Self::kept(e, f, t));
        }
        if let Some(t) = m2 {
            a.lemma_node_facts(t);
            assert(Self::kept(a, b, t) && Self::kept(b, c, t) && Self::kept(c, d, t) && Self::kept(d, e, t) && Self::kept(e, f, t));
        }
        if let Some(t) = t3 {
            a.lemma_node_facts(t);
            assert(Self::kept(a, b, t) && Self::kept(b, c, t) && Self::kept(c, d, t) && Self::kept(d, e, t) && Self::kept(e, f, t));
        }
        assert(Self::kept(d, e, l) && Self::kept(e, f, l) && Self::kept(e, f, x));
        assert(f.nd(l).right == t1 && f.nd(l).left == m1);
        assert(f.nd(x).right == m2 && f.nd(x).left == t3);
        assert(f.nd(m).right == Some(l) && f.nd(m).left == Some(x));
        assert(f.height_ok(l) && f.height_ok(x));
        // settled off the rest of the path
        assert forall|i: usize| #[trigger] a.occ(i) && i != x && i != l && i != m && xp != Some(i) implies Self::kept(a, f, i) by {
            assert(Self::kept(a, b, i));
            assert(b.occ(i));
            assert(Self::kept(b, c, i));
            assert(c.occ(i) && d.occ(i) && e.occ(i));
        }
        assert forall|i: usize| #[trigger] f.occ(i) implies a.occ(i) by {
            assert(e.occ(i) && d.occ(i) && c.occ(i) && b.occ(i));
        }
        Self::lemma_settle_rest(a, f, x, l, m, rest);
        // the rest of the path
        assert forall|p: usize| tail.contains(p) implies f.occ(p) && f.nd(p) == Self::relink(a.nd(p), x, m) by {
            let j = choose|j: int| 0 <= j < tail.len() && tail[j] == p;
            assert(rest[j + 1] == p);
            assert(a.size(x) < a.size(p));
            assert(a.occ(p));
            a.lemma_node_facts(p);
            assert(p != x && p != l && p != m);
            if let Some(t) = m1 {
                a.lemma_node_facts(t);
                assert(t != p);
            }
            if let Some(t) = m2 {
                a.lemma_node_facts(t);
                assert(t != p);
            }
            assert(b.items@[p as int] == a.items@[p as int]);
            assert(f.nd(p) == c.nd(p));
            if xp != Some(p) {
                assert(c.items@[p as int] == b.items@[p as int]);
                assert(a.nd(p).right != Some(x) && a.nd(p).left != Some(x));
            }
        }
        assert forall|i: usize|
            #[trigger] a.occ(i) && !rest.contains(i) && (a.nd(i).parent matches Some(p) && tail.contains(p))
            implies f.nd(i).height == a.nd(i).height by {
            assert(i != x) by {
                assert(rest[0] == x);
            }
            assert(i != l && i != m) by {
                if i == l || i == m {
                    assert(!tail.contains(x));
                    a.lemma_node_facts(l);
                }
            }
            if xp != Some(i) {
                assert(Self::kept(a, b, i) && Self::kept(b, c, i));
            } else {
                assert(tail[0] == i);
            }
        }
    }

    /// Rebalances at `index`, whose right subtree is higher by two.
    fn fix_right_heavy(&mut self, index: usize, Ghost(rest): Ghost<Seq<usize>>) -> (r: Option<usize>)
        requires
            Self::ready(old(self), index, rest),
            old(self).link_h(old(self).nd(index).right) - old(self).link_h(old(self).nd(index).left) == 2,
        ensures
            r is Some,
            Self::same_slots(old(self), final(self)),
            Self::rebalanced(old(self), final(self), index, r->0, rest),
            Self::reshaped(old(self), final(self), index, r->0),
    {
        let ghost a = *self;
        proof {
            self.lemma_node_facts(index);
            self.lemma_settled_children(index, rest);
            if let Some(c) = self.nd(index).left {
                self.lemma_node_facts(c);
            }
            if let Some(c) = self.nd(index).right {
                self.lemma_node_facts(c);
            }
        }
        let node_right = self.unwrap_occupied(index).right;
        let l = node_right.unwrap();
        proof {
            self.lemma_node_facts(l);
        }
        if self.balance_factor(node_right) > 0 {
            let m = self.rotate_right(node_right).unwrap();
            let ghost b = *self;
            proof {
                Self::lemma_rotated_right(&a, &b, l, m);
                assert(b.nd(index).right == Some(m));
            }
            self.rotate_left(Some(index));
            let ghost c = *self;
            proof {
                Self::lemma_rotated_left(&b, &c, index, m);
                a.lemma_node_facts(m);
                if let Some(t) = a.nd(l).right {
                    a.lemma_node_facts(t);
                    assert(b.height_ok(t));
                }
                if let Some(t) = a.nd(m).right {
                    a.lemma_node_facts(t);
                    assert(b.height_ok(t));
                }
                if let Some(t) = a.nd(m).left {
                    a.lemma_node_facts(t);
                    assert(b.height_ok(t));
                }
                if let Some(t) = a.nd(index).left {
                    a.lemma_node_facts(t);
                    assert(b.height_ok(t));
                }
                assert(c.nd(l).right == a.nd(l).right && c.nd(l).left == a.nd(m).right);
                assert(c.nd(index).right == a.nd(m).left && c.nd(index).left == a.nd(index).left);
            }
            self.update_height(l);
            let ghost d = *self;
            proof {
                if let Some(t) = a.nd(m).left {
                    Self::lemma_slot_height_ok(&c, &d, l, t);
                }
                if let Some(t) = a.nd(index).left {
                    Self::lemma_slot_height_ok(&c, &d, l, t);
                }
            }
            self.update_height(index);
            let ghost e = *self;
            proof {
                Self::lemma_slot_height_ok(&d, &e, index, l);
            }
            self.update_height(m);
            proof {
                Self::lemma_right_left_settle(&a, &b, &c, &d, &e, self, index, l, m, rest);
                Self::lemma_slots_chain5(&a, &b, &c, &d, &e, self);
            }
            Some(m)
        } else {
            let y = self.rotate_left(Some(index)).unwrap();
            let ghost b = *self;
            proof {
                Self::lemma_rotated_left(&a, &b, index, y);
                if let Some(t) = a.nd(l).right {
                    a.lemma_node_facts(t);
                    assert(b.height_ok(t));
                }
                if let Some(t) = a.nd(l).left {
                    a.lemma_node_facts(t);
                    assert(b.height_ok(t));
                }
                if let Some(t) = a.nd(index).left {
                    a.lemma_node_facts(t);
                    assert(b.height_ok(t));
                }
            }
            self.update_height(index);
            let ghost c = *self;
            proof {
                if let Some(t) = a.nd(l).right {
                    Self::lemma_slot_height_ok(&b, &c, index, t);
                }
            }
            self.update_height(y);
            proof {
                Self::lemma_single_left_settle(&a, &b, &c, self, index, y, rest);
                Self::lemma_slots_chain3(&a, &b, &c, self);
            }
            Some(y)
        }
    }

    /// The children of an occupied node of a well-formed tree are occupied
    /// and have right heights.
    proof fn lemma_children_heights(&self, i: usize)
        requires
            self.hwf(),
            self.occ(i),
        ensures
            self.nd(i).left matches Some(l) ==> self.occ(l) && self.height_ok(l) && self.nd(l).parent == Some(i),
            self.nd(i).right matches Some(r) ==> self.occ(r) && self.height_ok(r) && self.nd(r).parent == Some(i),
            self.height_ok(i),
            self.link_h(self.nd(i).left) >= -1,
            self.link_h(self.nd(i).right) >= -1,
            self.nd(i).left is None ==> self.link_h(self.nd(i).left) == -1,
            self.nd(i).right is None ==> self.link_h(self.nd(i).right) == -1,
            Self::node_facts(self, i),
    {
        self.lemma_node_facts(i);
        assert(self.height_ok(self.order@[(self.pos@)(i)]));
        if let Some(l) = self.nd(i).left {
            assert(self.wf_node((self.pos@)(l)));
            assert(self.height_ok(self.order@[(self.pos@)(l)]));
        }
        if let Some(r) = self.nd(i).right {
            assert(self.wf_node((self.pos@)(r)));
            assert(self.height_ok(self.order@[(self.pos@)(r)]));
        }
    }

    /// What the shape says of the node `i` and its neighbours.
    closed spec fn node_facts(&self, i: usize) -> bool {
        &&& self.nd(i).left matches Some(l) ==> self.occ(l) && self.nd(l).parent == Some(i)
        &&& self.nd(i).right matches Some(r) ==> self.occ(r) && self.nd(r).parent == Some(i)
        &&& self.nd(i).left matches Some(l) ==> self.size(l) < self.size(i)
        &&& self.nd(i).right matches Some(r) ==> self.size(r) < self.size(i)
        &&& self.nd(i).parent matches Some(p) ==> self.occ(p) && self.size(i) < self.size(p)
        &&& (self.lo@)(i) <= (self.pos@)(i) < (self.hi@)(i) <= self.len
        &&& 0 <= (self.lo@)(i)
        &&& self.order@[(self.pos@)(i)] == i
        &&& (self.nd(i).left is None <==> (self.lo@)(i) == (self.pos@)(i))
        &&& (self.nd(i).right is None <==> (self.pos@)(i) + 1 == (self.hi@)(i))
        &&& self.nd(i).parent is None ==> (self.lo@)(i) == 0 && (self.hi@)(i) == self.len && self.root == Some(i)
        &&& self.nd(i).parent matches Some(p) ==> (self.nd(p).left == Some(i) || self.nd(p).right == Some(i))
        &&& self.nd(i).left matches Some(l) ==> (self.lo@)(l) == (self.lo@)(i) && (self.hi@)(l) == (self.pos@)(i)
        &&& self.nd(i).right matches Some(r) ==> (self.lo@)(r) == (self.pos@)(i) + 1 && (self.hi@)(r) == (self.hi@)(i)
        &&& 0 <= self.nd(i).height < i32::MAX
    }

    proof fn lemma_node_facts(&self, i: usize)
        requires
            self.wf_shape(),
            self.occ(i),
        ensures
            Self::node_facts(self, i),
    {
        assert(self.wf_node((self.pos@)(i)));
        if let Some(p) = self.nd(i).parent {
            assert(self.wf_node((self.pos@)(p)));
        } else {
            if let Some(rt) = self.root {
                assert(self.wf_node((self.pos@)(rt)));
            }
        }
        if let Some(l) = self.nd(i).left {
            assert(self.wf_node((self.pos@)(l)));
        }
        if let Some(r) = self.nd(i).right {
            assert(self.wf_node((self.pos@)(r)));
        }
    }

    /// Every node has an upward path to the root.
    proof fn lemma_path_to_root(&self, i: usize) -> (path: Seq<usize>)
        requires
            self.wf_shape(),
            self.occ(i),
        ensures
            self.up_path(path),
            path.len() > 0,
            path[0] == i,
        decreases self.len - self.size(i),
    {
        assert(self.wf_node((self.pos@)(i)));
        match self.nd(i).parent {
            None => {
                let path = seq![i];
                path
            },
            Some(p) => {
                assert(self.wf_node((self.pos@)(p)));
                let rest = self.lemma_path_to_root(p);
                let path = seq![i] + rest;
                assert forall|a: int, b: int| 0 <= a < b < path.len() implies {
                    &&& self.size(#[trigger] path[a]) < self.size(#[trigger] path[b])
                    &&& (self.lo@)(path[b]) <= (self.lo@)(path[a])
                    &&& (self.hi@)(path[a]) <= (self.hi@)(path[b])
                } by {
                    if a == 0 {
                        assert(path[b] == rest[b - 1]);
                        if b > 1 {
                            assert(rest[0] == p);
                        }
                    } else {
                        assert(path[a] == rest[a - 1] && path[b] == rest[b - 1]);
                    }
                }
                assert forall|j: int| 0 <= j < path.len() implies #[trigger] self.nd(path[j]).parent == if j + 1 < path.len() {
                    Some(path[j + 1])
                } else {
                    None::<usize>
                } by {
                    if j > 0 {
                        assert(path[j] == rest[j - 1]);
                    }
                }
                assert forall|j: int| 0 <= j < path.len() implies #[trigger] self.occ(path[j]) by {
                    if j > 0 {
                        assert(path[j] == rest[j - 1]);
                    }
                }
                path
            },
        }
    }

    /// The node just before `index` in its own subtree: the rightmost node of
    /// its left subtree.
    fn before_sub(&self, index: usize) -> (r: Option<usize>)
        requires
            self.hwf(),
            self.occ(index),
        ensures
            r is None <==> self.nd(index).left is None,
            r matches Some(b) ==> 0 < (self.pos@)(index) && b == self.order@[(self.pos@)(index) - 1]
                && self.occ(b) && self.nd(b).right is None && (self.hi@)(b) == (self.pos@)(index),
    {
        proof {
            self.lemma_children_heights(index);
        }
        let node = self.unwrap_occupied(index);
        let mut cur = match node.left {
            Some(l) => l,
            None => {
                return None;
            },
        };
        loop
            invariant
                self.hwf(),
                self.occ(cur),
                self.occ(index),
                self.nd(index).left is Some,
                (self.hi@)(cur) == (self.pos@)(index),
                (self.lo@)(index) <= (self.lo@)(cur),
            decreases self.size(cur),
        {
            proof {
                self.lemma_children_heights(cur);
            }
            match self.unwrap_occupied(cur).right {
                Some(right) => {
                    cur = right;
                },
                None => {
                    proof {
                        assert(self.order@[(self.pos@)(cur)] == cur);
                    }
                    return Some(cur);
                },
            }
        }
    }

    /// The node just before the subtree of `index`, found by climbing.
    fn before_above(&self, index: usize) -> (r: Option<usize>)
        requires
            self.hwf(),
            self.occ(index),
        ensures
            r is None <==> (self.lo@)(index) == 0,
            r matches Some(b) ==> b == self.order@[(self.lo@)(index) - 1],
    {
        proof {
            self.lemma_children_heights(index);
        }
        let node = self.unwrap_occupied(index);
        let mut cur_index = index;
        let mut cur = node;
        loop
            invariant
                self.hwf(),
                self.occ(cur_index),
                *cur == self.nd(cur_index),
                (self.lo@)(cur_index) == (self.lo@)(index),
            decreases self.len - self.size(cur_index),
        {
            proof {
                self.lemma_children_heights(cur_index);
            }
            match cur.parent {
                Some(parent_index) => {
                    proof {
                        self.lemma_children_heights(parent_index);
                        if let Some(l) = self.nd(parent_index).left {
                            self.lemma_children_heights(l);
                        }
                        assert((self.hi@)(parent_index) <= self.len) by {
                            assert(self.wf_node((self.pos@)(parent_index)));
                        }
                        assert((self.lo@)(parent_index) >= 0) by {
                            assert(self.wf_node((self.pos@)(parent_index)));
                        }
                    }
                    let parent = self.unwrap_occupied(parent_index);
                    if parent.left == Some(cur_index) {
                        cur_index = parent_index;
                        cur = parent;
                    } else {
                        proof {
                            assert(self.order@[(self.pos@)(parent_index)] == parent_index);
                        }
                        return cur.parent;
                    }
                },
                None => {
                    proof {
                        assert(self.wf_node((self.pos@)(cur_index)));
                    }
                    return None;
                },
            }
        }
    }

    /// The node just before `index`.
    fn before(&self, index: usize) -> (r: Option<usize>)
        requires
            self.hwf(),
            self.occ(index),
        ensures
            r is None <==> (self.pos@)(index) == 0,
            r matches Some(b) ==> b == self.order@[(self.pos@)(index) - 1],
    {
        proof {
            self.lemma_children_heights(index);
            assert(self.wf_node((self.pos@)(index)));
        }
        match self.before_sub(index) {
            Some(b) => Some(b),
            None => self.before_above(index),
        }
    }

    /// The node just after `index` in its own subtree: the leftmost node of
    /// its right subtree.
    fn after_sub(&self, index: usize) -> (r: Option<usize>)
        requires
            self.hwf(),
            self.occ(index),
        ensures
            r is None <==> self.nd(index).right is None,
            r matches Some(b) ==> (self.pos@)(index) + 1 < self.len && b == self.order@[(self.pos@)(index) + 1],
    {
        proof {
            self.lemma_children_heights(index);
            assert(self.wf_node((self.pos@)(index)));
        }
        let node = self.unwrap_occupied(index);
        let mut cur = match node.right {
            Some(r) => r,
            None => {
                return None;
            },
        };
        loop
            invariant
                self.hwf(),
                self.occ(cur),
                self.occ(index),
                self.nd(index).right is Some,
                (self.lo@)(cur) == (self.pos@)(index) + 1,
                (self.hi@)(cur) <= (self.hi@)(index),
            decreases self.size(cur),
        {
            proof {
                self.lemma_children_heights(cur);
                assert(self.wf_node((self.pos@)(cur)));
            }
            match self.unwrap_occupied(cur).left {
                Some(left) => {
                    cur = left;
                },
                None => {
                    proof {
                        assert(self.order@[(self.pos@)(cur)] == cur);
                    }
                    return Some(cur);
                },
            }
        }
    }

    /// The node just after the subtree of `index`, found by climbing.
    fn after_above(&self, index: usize) -> (r: Option<usize>)
        requires
            self.hwf(),
            self.occ(index),
        ensures
            r is None <==> (self.hi@)(index) == self.len,
            r matches Some(b) ==> (self.hi@)(index) < self.len && b == self.order@[(self.hi@)(index)],
    {
        proof {
            self.lemma_children_heights(index);
        }
        let node = self.unwrap_occupied(index);
        let mut cur_index = index;
        let mut cur = node;
        loop
            invariant
                self.hwf(),
                self.occ(cur_index),
                *cur == self.nd(cur_index),
                (self.hi@)(cur_index) == (self.hi@)(index),
            decreases self.len - self.size(cur_index),
        {
            proof {
                self.lemma_children_heights(cur_index);
            }
            match cur.parent {
                Some(parent_index) => {
                    proof {
                        self.lemma_children_heights(parent_index);
                        if let Some(r) = self.nd(parent_index).right {
                            self.lemma_children_heights(r);
                        }
                        assert(self.wf_node((self.pos@)(parent_index)));
                    }
                    let parent = self.unwrap_occupied(parent_index);
                    if parent.right == Some(cur_index) {
                        cur_index = parent_index;
                        cur = parent;
                    } else {
                        proof {
                            assert(self.order@[(self.pos@)(parent_index)] == parent_index);
                        }
                        return cur.parent;
                    }
                },
                None => {
                    proof {
                        assert(self.wf_node((self.pos@)(cur_index)));
                    }
                    return None;
                },
            }
        }
    }

    /// The node just after `index`.
    fn after(&self, index: usize) -> (r: Option<usize>)
        requires
            self.hwf(),
            self.occ(index),
        ensures
            r is None <==> (self.pos@)(index) + 1 == self.len,
            r matches Some(b) ==> (self.pos@)(index) + 1 < self.len && b == self.order@[(self.pos@)(index) + 1],
    {
        proof {
            self.lemma_children_heights(index);
            assert(self.wf_node((self.pos@)(index)));
        }
        match self.after_sub(index) {
            Some(a) => Some(a),
            None => self.after_above(index),
        }
    }

    /// The node of the least element.
    fn first(&self) -> (r: Option<usize>)
        requires
            self.hwf(),
        ensures
            r is None <==> self.len == 0,
            r matches Some(f) ==> self.len > 0 && f == self.order@[0],
    {
        let mut cur = self.root;
        proof {
            if let Some(rt) = self.root {
                assert(self.order@[(self.pos@)(rt)] == rt);
            }
        }
        loop
            invariant
                self.hwf(),
                cur is None <==> self.len == 0,
                cur matches Some(c) ==> self.occ(c),
            decreases
                match cur {
                    Some(c) => (self.pos@)(c) + 1,
                    None => 0,
                },
        {
            match cur {
                None => {
                    return None;
                },
                Some(cur_index) => {
                    proof {
                        assert(self.order@[(self.pos@)(cur_index)] == cur_index);
                    }
                    match self.before(cur_index) {
                        None => {
                            return cur;
                        },
                        before => {
                            proof {
                                let k = (self.pos@)(cur_index) - 1;
                                assert(self.occ(self.order@[k]));
                            }
                            cur = before;
                        },
                    }
                },
            }
        }
    }

    /// The nodes whose range holds the place of `path[0]` are exactly those
    /// on the upward path from it.
    proof fn lemma_on_path(&self, path: Seq<usize>, i: usize)
        requires
            self.wf_shape(),
            self.up_path(path),
            path.len() > 0,
            self.occ(i),
            (self.lo@)(i) <= (self.pos@)(path[0]) < (self.hi@)(i),
        ensures
            path.contains(i),
        decreases self.len - self.size(i),
    {
        let t = path[0];
        let last = path[path.len() - 1];
        self.lemma_node_facts(i);
        self.lemma_node_facts(t);
        self.lemma_node_facts(last);
        assert(self.nd(last).parent == None::<usize>);
        match self.nd(i).parent {
            None => {
                assert(self.root == Some(i));
                assert(self.root == Some(last));
                assert(path[path.len() - 1] == i);
            },
            Some(p) => {
                self.lemma_node_facts(p);
                self.lemma_on_path(path, p);
                let j = choose|j: int| 0 <= j < path.len() && path[j] == p;
                if j == 0 {
                    // the children of t leave out the place of t
                    assert(false);
                } else {
                    let c = path[j - 1];
                    assert(self.nd(c).parent == Some(p));
                    self.lemma_node_facts(c);
                    assert((self.lo@)(c) <= (self.lo@)(t) && (self.hi@)(t) <= (self.hi@)(c)) by {
                        if j - 1 > 0 {
                            assert((self.lo@)(path[j - 1]) <= (self.lo@)(path[0]));
                        }
                    }
                    assert(c == i);
                    assert(path[j - 1] == i);
                }
            },
        }
    }

    /// Frees the slot `index` and hands back its element; the slot becomes the
    /// head of the free list.
    fn remove_node_from_arena(&mut self, index: usize) -> (r: T)
        requires
            old(self).occ(index),
            old(self).wf_free(),
        ensures
            final(self).items@ == old(self).items@.update(index as int, Slot::Free { next_free: old(self).head_free }),
            final(self).free@ == seq![index] + old(self).free@,
            final(self).wf_free(),
            r == old(self).nd(index).value,
            final(self).root == old(self).root,
            final(self).len == old(self).len,
            final(self).order@ == old(self).order@,
            final(self).pos@ == old(self).pos@,
            final(self).lo@ == old(self).lo@,
            final(self).hi@ == old(self).hi@,
    {
        let mut slot = Slot::Free { next_free: self.head_free };
        std::mem::swap(&mut self.items[index], &mut slot);
        self.head_free = Some(index);
        self.free = Ghost(seq![index] + old(self).free@);
        proof {
            let f = self.free@;
            assert forall|a: int, b: int| 0 <= a < b < f.len() implies #[trigger] f[a] != #[trigger] f[b] by {
                if a == 0 {
                    assert(f[b] == old(self).free@[b - 1]);
                    assert(old(self).items@[f[b] as int] is Free);
                } else {
                    assert(f[a] == old(self).free@[a - 1] && f[b] == old(self).free@[b - 1]);
                }
            }
            assert forall|j: int| 0 <= j < f.len() implies {
                &&& #[trigger] f[j] < self.items@.len()
                &&& self.items@[f[j] as int] is Free
                &&& self.items@[f[j] as int]->next_free == if j + 1 < f.len() {
                    Some(f[j + 1])
                } else {
                    None::<usize>
                }
            } by {
                if j > 0 {
                    assert(f[j] == old(self).free@[j - 1]);
                    assert(old(self).items@[f[j] as int] is Free);
                    if j + 1 < f.len() {
                        assert(f[j + 1] == old(self).free@[j]);
                    }
                } else if f.len() > 1 {
                    assert(f[1] == old(self).free@[0]);
                }
            }
        }
        match slot {
            Slot::Occupied { node } => node.value,
            Slot::Free { .. } => vstd::pervasive::unreached(),
        }
    }

    /// `b` is `a` after `replace_node(node_index, new_link)`.
    closed spec fn replaced(a: &Self, b: &Self, node_index: usize, new_link: Option<usize>) -> bool {
        let n = a.nd(node_index);
        &&& b.items@.len() == a.items@.len()
        &&& forall|j: usize|
            j < a.items@.len() && n.parent != Some(j) && new_link != Some(j) && (new_link is None || (n.left
                != Some(j) && n.right != Some(j))) ==> #[trigger] b.items@[j as int] == a.items@[j as int]
        &&& n.parent matches Some(p) ==> b.occ(p) && b.nd(p) == if a.nd(p).left == Some(node_index) {
            Node { left: new_link, ..a.nd(p) }
        } else {
            Node { right: new_link, ..a.nd(p) }
        }
        &&& b.root == if n.parent is None { new_link } else { a.root }
        &&& new_link matches Some(m) ==> {
            &&& b.occ(m)
            &&& b.nd(m) == (Node {
                parent: n.parent,
                left: if n.left != new_link { n.left } else { a.nd(m).left },
                right: if n.right != new_link { n.right } else { a.nd(m).right },
                ..a.nd(m)
            })
            &&& n.left matches Some(c) ==> c != m ==> b.occ(c) && b.nd(c) == (Node { parent: new_link, ..a.nd(c) })
            &&& n.right matches Some(c) ==> c != m ==> b.occ(c) && b.nd(c) == (Node { parent: new_link, ..a.nd(c) })
        }
        &&& b.head_free == a.head_free
        &&& b.len == a.len
        &&& b.order@ == a.order@
        &&& b.pos@ == a.pos@
        &&& b.lo@ == a.lo@
        &&& b.hi@ == a.hi@
        &&& b.free@ == a.free@
    }

    /// Puts `new_link` where `node_index` stands under its parent (or at the
    /// root). The new node takes over the parent of the old one, and its
    /// children, present or absent, unless a child is the new node itself.
    fn replace_node(&mut self, node_index: usize, new_link: Option<usize>)
        requires
            old(self).occ(node_index),
            old(self).nd(node_index).parent matches Some(p) ==> {
                &&& old(self).occ(p)
                &&& p != node_index
                &&& new_link != Some(p)
                &&& old(self).nd(node_index).left != Some(p)
                &&& old(self).nd(node_index).right != Some(p)
            },
            new_link matches Some(m) ==> {
                &&& old(self).occ(m)
                &&& m != node_index
                &&& old(self).nd(node_index).left matches Some(c) ==> c != node_index && (c != m ==> old(self).occ(c))
                &&& old(self).nd(node_index).right matches Some(c) ==> c != node_index && (c != m ==> old(self).occ(c))
                &&& (old(self).nd(node_index).left is Some ==> old(self).nd(node_index).left != old(self).nd(node_index).right)
            },
        ensures
            Self::replaced(old(self), final(self), node_index, new_link),
            old(self).wf_free() ==> final(self).wf_free(),
    {
        let (node_parent, node_left, node_right) = {
            let node = self.unwrap_occupied(node_index);
            (node.parent, node.left, node.right)
        };
        if let Some(parent_index) = node_parent {
            let parent_node_left = self.unwrap_occupied(parent_index).left;
            if parent_node_left == Some(node_index) {
                self.set_left(parent_index, new_link);
            } else {
                self.set_right(parent_index, new_link);
            }
        } else {
            self.root = new_link;
        }

        if let Some(new_index) = new_link {
            self.set_parent(new_index, node_parent);

            if node_left != new_link {
                self.set_left(new_index, node_left);
                if let Some(child_index) = self.unwrap_occupied(new_index).left {
                    self.set_parent(child_index, new_link);
                }
            }

            if node_right != new_link {
                self.set_right(new_index, node_right);
                if let Some(child_index) = self.unwrap_occupied(new_index).right {
                    self.set_parent(child_index, new_link);
                }
            }
        }
    }

    /// `b` is `a` without the node `t`, which had at most one child: the
    /// child takes its place, its slot is freed, and the ghost ranges close
    /// the place `q` of `t`.
    closed spec fn detached_one(a: &Self, b: &Self, t: usize, q: int) -> bool {
        let n = a.nd(t);
        let c = if n.left is Some { n.left } else { n.right };
        let tp = n.parent;
        &&& a.wf_shape()
        &&& a.occ(t)
        &&& q == (a.pos@)(t)
        &&& !(n.left is Some && n.right is Some)
        &&& b.items@.len() == a.items@.len()
        &&& forall|j: usize|
            j < a.items@.len() && j != t && tp != Some(j) && c != Some(j) ==> #[trigger] b.items@[j as int]
                == a.items@[j as int]
        &&& b.items@[t as int] is Free
        &&& tp matches Some(p) ==> b.occ(p) && b.nd(p) == if a.nd(p).left == Some(t) {
            Node { left: c, ..a.nd(p) }
        } else {
            Node { right: c, ..a.nd(p) }
        }
        &&& c matches Some(ci) ==> b.occ(ci) && b.nd(ci) == (Node { parent: tp, ..a.nd(ci) })
        &&& b.root == if tp is None { c } else { a.root }
        &&& b.len == a.len - 1
        &&& b.order@ == a.order@.remove(q)
        &&& forall|i: usize| #[trigger] (b.pos@)(i) == unshift_place((a.pos@)(i), q)
        &&& forall|i: usize| #[trigger] (b.lo@)(i) == unshift_end((a.lo@)(i), q, false)
        &&& forall|i: usize| #[trigger] (b.hi@)(i) == unshift_end((a.hi@)(i), q, false)
        &&& b.wf_free()
    }

    #[verifier::spinoff_prover]
    proof fn lemma_detach_one_occ(a: &Self, b: &Self, t: usize, q: int)
        requires
            Self::detached_one(a, b, t, q),
        ensures
            forall|i: usize| #[trigger] b.occ(i) <==> a.occ(i) && i != t,
            forall|i: usize|
                #[trigger] a.occ(i) && i != t && a.nd(t).parent != Some(i) && (if a.nd(t).left is Some { a.nd(t).left } else { a.nd(t).right }) != Some(i) ==> b.nd(i) == a.nd(i),
    {
        lemma_total_order::<T>();
        let n = a.nd(t);
        let c = if n.left is Some { n.left } else { n.right };
        let tp = n.parent;
        a.lemma_node_facts(t);
        if let Some(ci) = c {
            a.lemma_node_facts(ci);
        }
        if let Some(p) = tp {
            a.lemma_node_facts(p);
        }
        assert forall|i: usize| #![trigger b.occ(i)] #![trigger a.occ(i)] b.occ(i) <==> a.occ(i) && i != t by {
            if i < a.items@.len() && i != t && tp != Some(i) && c != Some(i) {
                assert(b.items@[i as int] == a.items@[i as int]);
            }
        }
        assert forall|i: usize| #[trigger] a.occ(i) && i != t && tp != Some(i) && c != Some(i) implies b.nd(i) == a.nd(i) by {
            assert(b.items@[i as int] == a.items@[i as int]);
        }
    }

    /// `b` has the nodes of `a` but `t`, with their elements, and the place
    /// `q` of `t` closed in the ghost order.
    closed spec fn closed_place(a: &Self, b: &Self, t: usize, q: int) -> bool {
        &&& a.wf_shape()
        &&& a.occ(t)
        &&& q == (a.pos@)(t)
        &&& b.len == a.len - 1
        &&& b.order@ == a.order@.remove(q)
        &&& forall|i: usize| #[trigger] (b.pos@)(i) == unshift_place((a.pos@)(i), q)
        &&& b.wf_free()
    }

    #[verifier::spinoff_prover]
    proof fn lemma_closed_order(a: &Self, b: &Self, t: usize, q: int, k: int)
        requires
            Self::closed_place(a, b, t, q),
            forall|i: usize| #![trigger b.occ(i)] #![trigger a.occ(i)] b.occ(i) <==> a.occ(i) && i != t,
            0 <= k < b.len,
        ensures
            b.occ(b.order@[k]),
            (b.pos@)(b.order@[k]) == k,
    {
        assert(a.order@[q] == t);
        let ka = if k < q { k } else { k + 1 };
        assert(b.order@[k] == a.order@[ka]);
        assert(a.occ(a.order@[ka]));
        assert((a.pos@)(a.order@[ka]) == ka);
        assert(a.order@[ka] != t);
    }

    #[verifier::spinoff_prover]
    proof fn lemma_closed_pos(a: &Self, b: &Self, t: usize, q: int, i: usize)
        requires
            Self::closed_place(a, b, t, q),
            forall|i: usize| #![trigger b.occ(i)] #![trigger a.occ(i)] b.occ(i) <==> a.occ(i) && i != t,
            b.occ(i),
        ensures
            0 <= (b.pos@)(i) < b.len,
            b.order@[(b.pos@)(i)] == i,
    {
        assert(a.order@[q] == t);
        assert(a.occ(i));
        let k = (a.pos@)(i);
        assert(a.order@[k] == i);
        assert(k != q);
        if k < q {
            assert(b.order@[k] == a.order@[k]);
        } else {
            assert(b.order@[k - 1] == a.order@[k]);
        }
    }

    proof fn lemma_closed_arena(a: &Self, b: &Self, t: usize, q: int)
        requires
            Self::closed_place(a, b, t, q),
            forall|i: usize| #![trigger b.occ(i)] #![trigger a.occ(i)] b.occ(i) <==> a.occ(i) && i != t,
        ensures
            b.wf_arena(),
    {
        assert forall|k: int| 0 <= k < b.len implies {
            &&& #[trigger] b.occ(b.order@[k])
            &&& (b.pos@)(b.order@[k]) == k
        } by {
            Self::lemma_closed_order(a, b, t, q, k);
        }
        assert forall|i: usize| #[trigger] b.occ(i) implies {
            &&& 0 <= (b.pos@)(i) < b.len
            &&& b.order@[(b.pos@)(i)] == i
        } by {
            Self::lemma_closed_pos(a, b, t, q, i);
        }
    }

    #[verifier::spinoff_prover]
    #[verifier::rlimit(80)]
    proof fn lemma_closed_view(a: &Self, b: &Self, t: usize, q: int)
        requires
            Self::closed_place(a, b, t, q),
            forall|i: usize| #![trigger b.occ(i)] #![trigger a.occ(i)] b.occ(i) <==> a.occ(i) && i != t,
            forall|i: usize| #[trigger] b.occ(i) ==> b.nd(i).value == a.nd(i).value,
        ensures
            b@ == a@.remove(q),
            ascending(b@),
    {
        lemma_total_order::<T>();
        assert(a.order@[q] == t);
        // the view
        assert(b@ =~= a@.remove(q)) by {
            assert forall|k: int| 0 <= k < b.len implies #[trigger] b.val_at(k) == a@.remove(q)[k] by {
                if k < q {
                    assert(a.occ(a.order@[k]));
                    assert(a.order@[k] != t);
                } else {
                    assert(a.occ(a.order@[k + 1]));
                    assert(a.order@[k + 1] != t);
                }
            }
        }
        assert(ascending(b@)) by {
            assert forall|x: int, y: int| 0 <= x < y < b@.len() implies lt(b@[x], b@[y]) by {
                let xa = if x < q { x } else { x + 1 };
                let ya = if y < q { y } else { y + 1 };
                a.lemma_lt_places(xa, ya);
            }
        }
        }

    #[verifier::spinoff_prover]
    #[verifier::rlimit(80)]
    proof fn lemma_detach_one_node(a: &Self, b: &Self, t: usize, q: int, k: int)
        requires
            Self::detached_one(a, b, t, q),
            0 <= k < b.len,
        ensures
            b.wf_node(k),
    {
        let n = a.nd(t);
        let c = if n.left is Some { n.left } else { n.right };
        let tp = n.parent;
        Self::lemma_detach_one_occ(a, b, t, q);
        a.lemma_node_facts(t);
        if let Some(ci) = c {
            a.lemma_node_facts(ci);
        }
        if let Some(p) = tp {
            a.lemma_node_facts(p);
        }
        let ka = if k < q { k } else { k + 1 };
        let i = a.order@[ka];
        assert(b.order@[k] == i);
        assert(a.occ(i));
        a.lemma_node_facts(i);
        let na = a.nd(i);
        if let Some(x) = na.left {
            a.lemma_node_facts(x);
        }
        if let Some(x) = na.right {
            a.lemma_node_facts(x);
        }
        if let Some(x) = na.parent {
            a.lemma_node_facts(x);
        }
    }

    proof fn lemma_detach_one_links(a: &Self, b: &Self, t: usize, q: int)
        requires
            Self::detached_one(a, b, t, q),
        ensures
            forall|k: int| 0 <= k < b.len ==> #[trigger] b.wf_node(k),
    {
        assert forall|k: int| 0 <= k < b.len implies #[trigger] b.wf_node(k) by {
            Self::lemma_detach_one_node(a, b, t, q, k);
        }
    }

    #[verifier::spinoff_prover]
    proof fn lemma_detach_one_path(a: &Self, b: &Self, t: usize, q: int)
        requires
            Self::detached_one(a, b, t, q),
        ensures
            forall|path: Seq<usize>|
                #[trigger] a.up_path(path) && path.len() > 0 && path[0] == t ==> b.up_path(path.drop_first()),
    {
        lemma_total_order::<T>();
        let n = a.nd(t);
        let c = if n.left is Some { n.left } else { n.right };
        let tp = n.parent;
        Self::lemma_detach_one_occ(a, b, t, q);
        a.lemma_node_facts(t);
        // the path
        assert forall|path: Seq<usize>|
            #[trigger] a.up_path(path) && path.len() > 0 && path[0] == t implies b.up_path(path.drop_first()) by {
            let np = path.drop_first();
            assert forall|j: int| 0 <= j < np.len() implies #[trigger] b.occ(np[j]) && b.nd(np[j]).parent == a.nd(np[j]).parent
                && (b.lo@)(np[j]) == (a.lo@)(np[j]) && (b.hi@)(np[j]) == (a.hi@)(np[j]) - 1 by {
                assert(np[j] == path[j + 1]);
                assert(a.occ(path[j + 1]));
                assert(a.size(path[0]) < a.size(path[j + 1]));
                assert((a.lo@)(path[j + 1]) <= (a.lo@)(path[0]));
                assert((a.hi@)(path[0]) <= (a.hi@)(path[j + 1]));
                assert(path[j + 1] != t);
                if c == Some(path[j + 1]) {
                    assert(a.size(path[j + 1]) < a.size(t));
                }
            }
            assert forall|j: int| 0 <= j < np.len() implies #[trigger] b.nd(np[j]).parent == if j + 1 < np.len() {
                Some(np[j + 1])
            } else {
                None::<usize>
            } by {
                assert(np[j] == path[j + 1]);
                assert(b.occ(np[j]) && b.nd(np[j]).parent == a.nd(np[j]).parent);
                assert(a.nd(path[j + 1]).parent == if j + 2 < path.len() {
                    Some(path[j + 2])
                } else {
                    None::<usize>
                });
            }
            assert forall|x: int, y: int| 0 <= x < y < np.len() implies {
                &&& b.size(#[trigger] np[x]) < b.size(#[trigger] np[y])
                &&& (b.lo@)(np[y]) <= (b.lo@)(np[x])
                &&& (b.hi@)(np[x]) <= (b.hi@)(np[y])
            } by {
                assert(np[x] == path[x + 1] && np[y] == path[y + 1]);
            }
        }
        }

    proof fn lemma_detach_one(a: &Self, b: &Self, t: usize, q: int)
        requires
            Self::detached_one(a, b, t, q),
        ensures
            b.wf_shape(),
            b@ == a@.remove(q),
            forall|i: usize| #[trigger] b.occ(i) <==> a.occ(i) && i != t,
            forall|i: usize| #[trigger] b.occ(i) ==> b.nd(i).value == a.nd(i).value,
            forall|i: usize|
                #[trigger] a.occ(i) && i != t && a.nd(t).parent != Some(i) && !((a.lo@)(i) <= q < (a.hi@)(i))
                    && a.height_ok(i) ==> b.height_ok(i),
            forall|path: Seq<usize>|
                #[trigger] a.up_path(path) && path.len() > 0 && path[0] == t ==> b.up_path(path.drop_first()),
    {
        let n = a.nd(t);
        let c = if n.left is Some { n.left } else { n.right };
        let tp = n.parent;
        Self::lemma_detach_one_occ(a, b, t, q);
        assert forall|i: usize| #[trigger] b.occ(i) implies b.nd(i).value == a.nd(i).value by {
            if let Some(p) = tp {
                a.lemma_node_facts(p);
            }
            if let Some(ci) = c {
                a.lemma_node_facts(ci);
            }
        }
        assert(Self::closed_place(a, b, t, q));
        Self::lemma_closed_arena(a, b, t, q);
        Self::lemma_closed_view(a, b, t, q);
        Self::lemma_detach_one_links(a, b, t, q);
        Self::lemma_detach_one_path(a, b, t, q);
        a.lemma_node_facts(t);
        if let Some(rt) = a.root {
            a.lemma_node_facts(rt);
        }
        if let Some(rt) = b.root {
            assert(a.occ(rt));
            a.lemma_node_facts(rt);
        }
        assert(b.wf_links());
        // the heights
        assert forall|i: usize|
            #[trigger] a.occ(i) && i != t && tp != Some(i) && !((a.lo@)(i) <= q < (a.hi@)(i)) && a.height_ok(i) implies b.height_ok(i) by {
            a.lemma_node_facts(i);
            let na = a.nd(i);
            if let Some(x) = na.left {
                a.lemma_node_facts(x);
            }
            if let Some(x) = na.right {
                a.lemma_node_facts(x);
            }
        }
    }

    /// `b` is `a` without the node `t`, which had two children: the node
    /// `bi` just before it leaves its place to its left child and takes the
    /// place of `t`; the slot of `t` is freed and the ghost ranges close the
    /// place `q` of `t`.
    closed spec fn detached_two(a: &Self, b: &Self, t: usize, q: int) -> bool {
        let n = a.nd(t);
        let l = n.left->0;
        let r = n.right->0;
        let tp = n.parent;
        let bi = a.order@[q - 1];
        let bl = a.nd(bi).left;
        let bp = a.nd(bi).parent->0;
        &&& a.wf_shape()
        &&& a.occ(t)
        &&& q == (a.pos@)(t)
        &&& n.left is Some
        &&& n.right is Some
        &&& b.items@.len() == a.items@.len()
        &&& forall|j: usize|
            j < a.items@.len() && j != t && tp != Some(j) && j != bi && j != r && j != l && j != bp && bl
                != Some(j) ==> #[trigger] b.items@[j as int] == a.items@[j as int]
        &&& b.items@[t as int] is Free
        &&& tp matches Some(p) ==> b.occ(p) && b.nd(p) == if a.nd(p).left == Some(t) {
            Node { left: Some(bi), ..a.nd(p) }
        } else {
            Node { right: Some(bi), ..a.nd(p) }
        }
        &&& b.root == if tp is None { Some(bi) } else { a.root }
        &&& b.occ(bi)
        &&& b.nd(bi) == (Node {
            parent: tp,
            left: if bi == l { bl } else { Some(l) },
            right: Some(r),
            ..a.nd(bi)
        })
        &&& b.occ(r)
        &&& b.nd(r) == (Node { parent: Some(bi), ..a.nd(r) })
        &&& bi != l ==> {
            &&& b.occ(l)
            &&& b.nd(l) == if bp == l {
                Node { parent: Some(bi), right: bl, ..a.nd(l) }
            } else {
                Node { parent: Some(bi), ..a.nd(l) }
            }
            &&& bp != l ==> b.occ(bp) && b.nd(bp) == (Node { right: bl, ..a.nd(bp) })
        }
        &&& bl matches Some(x) ==> b.occ(x) && b.nd(x) == (Node {
            parent: Some(if bi == l { bi } else { bp }),
            ..a.nd(x)
        })
        &&& b.len == a.len - 1
        &&& b.order@ == a.order@.remove(q)
        &&& forall|i: usize| #[trigger] (b.pos@)(i) == unshift_place((a.pos@)(i), q)
        &&& forall|i: usize|
            #[trigger] (b.lo@)(i) == if i == bi {
                (a.lo@)(t)
            } else {
                unshift_end((a.lo@)(i), q, true)
            }
        &&& forall|i: usize|
            #[trigger] (b.hi@)(i) == if i == bi {
                (a.hi@)(t) - 1
            } else {
                unshift_end((a.hi@)(i), q, true)
            }
        &&& b.wf_free()
    }

    /// What the shape of `a` says of the nodes that a removal of `t` with
    /// two children touches.
    proof fn lemma_two_facts(a: &Self, t: usize)
        requires
            a.wf_shape(),
            a.occ(t),
            a.nd(t).left is Some,
            a.nd(t).right is Some,
        ensures
            ({
                let q = (a.pos@)(t);
                let l = a.nd(t).left->0;
                let r = a.nd(t).right->0;
                let bi = a.order@[q - 1];
                &&& 0 < q
                &&& a.occ(bi)
                &&& a.occ(l)
                &&& a.occ(r)
                &&& a.nd(bi).right is None
                &&& (a.pos@)(bi) == q - 1
                &&& (a.hi@)(bi) == q
                &&& (a.lo@)(l) <= (a.lo@)(bi)
                &&& bi != t && bi != r && l != r && l != t && r != t
                &&& bi != l ==> (a.nd(bi).parent is Some && a.occ(a.nd(bi).parent->0) && a.nd(a.nd(bi).parent->0).right == Some(bi)
                    && a.nd(bi).parent->0 != t && (a.lo@)(l) <= (a.lo@)(a.nd(bi).parent->0) && (a.hi@)(a.nd(bi).parent->0) == q
                    && a.nd(bi).parent->0 != r)
                &&& bi == l ==> a.nd(bi).parent == Some(t)
                &&& a.nd(t).parent matches Some(p) ==> (a.occ(p) && p != t && p != bi && p != l && p != r
                    && (bi != l ==> p != a.nd(bi).parent->0))
                &&& a.nd(bi).left matches Some(x) ==> (a.occ(x) && x != t && x != bi && x != r && x != l
                    && a.nd(x).parent == Some(bi) && (a.hi@)(x) == q - 1 && (bi != l ==> x != a.nd(bi).parent->0)
                    && (a.nd(t).parent is Some ==> x != a.nd(t).parent->0))
            }),
    {
        let q = (a.pos@)(t);
        let l = a.nd(t).left->0;
        let r = a.nd(t).right->0;
        a.lemma_node_facts(t);
        a.lemma_node_facts(l);
        a.lemma_node_facts(r);
        let bi = a.order@[q - 1];
        assert(a.occ(bi));
        a.lemma_node_facts(bi);
        // bi lies in the subtree of l, at its right end
        let pb = a.lemma_path_to_root(bi);
        a.lemma_on_path(pb, t);
        a.lemma_on_path(pb, l);
        if let Some(rc) = a.nd(bi).right {
            a.lemma_node_facts(rc);
            a.lemma_on_path(pb, rc);
            let j = choose|j: int| 0 <= j < pb.len() && pb[j] == rc;
            if j > 0 {
                assert(a.size(pb[0]) < a.size(pb[j]));
            }
            assert(false);
        }
        if bi != l {
            let bp = a.nd(bi).parent->0;
            a.lemma_node_facts(bp);
            if a.nd(bp).left == Some(bi) {
                assert(a.order@[q] == t);
                assert(bp == t);
            }
            a.lemma_on_path(pb, bp);
            let jl = choose|j: int| 0 <= j < pb.len() && pb[j] == l;
            let jp = choose|j: int| 0 <= j < pb.len() && pb[j] == bp;
            assert(pb[1] == bp);
            if jl > 1 {
                assert((a.lo@)(pb[jl]) <= (a.lo@)(pb[1]));
            }
            assert(jl != 0);
        }
        if let Some(p) = a.nd(t).parent {
            a.lemma_node_facts(p);
        }
        if let Some(x) = a.nd(bi).left {
            a.lemma_node_facts(x);
        }
    }

    #[verifier::spinoff_prover]
    proof fn lemma_detach_two_occ(a: &Self, b: &Self, t: usize, q: int)
        requires
            Self::detached_two(a, b, t, q),
        ensures
            forall|i: usize| #![trigger b.occ(i)] #![trigger a.occ(i)] b.occ(i) <==> a.occ(i) && i != t,
            forall|i: usize| #[trigger] b.occ(i) ==> b.nd(i).value == a.nd(i).value && b.nd(i).height == a.nd(i).height,
    {
        Self::lemma_two_facts(a, t);
        let n = a.nd(t);
        let l = n.left->0;
        let r = n.right->0;
        let tp = n.parent;
        let bi = a.order@[q - 1];
        let bl = a.nd(bi).left;
        let bp = a.nd(bi).parent->0;
        a.lemma_node_facts(t);
        assert forall|i: usize| #![trigger b.occ(i)] #![trigger a.occ(i)] b.occ(i) <==> a.occ(i) && i != t by {
            if i < a.items@.len() && i != t && tp != Some(i) && i != bi && i != r && i != l && i != bp && bl != Some(i) {
                assert(b.items@[i as int] == a.items@[i as int]);
            }
        }
        assert forall|i: usize| #[trigger] b.occ(i) implies b.nd(i).value == a.nd(i).value && b.nd(i).height == a.nd(i).height by {
            if i < a.items@.len() && i != t && tp != Some(i) && i != bi && i != r && i != l && i != bp && bl != Some(i) {
                assert(b.items@[i as int] == a.items@[i as int]);
            }
        }
    }

    #[verifier::spinoff_prover]
    #[verifier::rlimit(80)]
    proof fn lemma_detach_two_node(a: &Self, b: &Self, t: usize, q: int, k: int)
        requires
            Self::detached_two(a, b, t, q),
            0 <= k < b.len,
        ensures
            b.wf_node(k),
    {
        Self::lemma_two_facts(a, t);
        Self::lemma_detach_two_occ(a, b, t, q);
        let n = a.nd(t);
        let l = n.left->0;
        let r = n.right->0;
        let tp = n.parent;
        let bi = a.order@[q - 1];
        let bl = a.nd(bi).left;
        let bp = a.nd(bi).parent->0;
        a.lemma_node_facts(t);
        a.lemma_node_facts(l);
        a.lemma_node_facts(r);
        a.lemma_node_facts(bi);
        if bi != l {
            a.lemma_node_facts(bp);
        }
        if let Some(p) = tp {
            a.lemma_node_facts(p);
        }
        if let Some(x) = bl {
            a.lemma_node_facts(x);
        }
        let ka = if k < q { k } else { k + 1 };
        let i = a.order@[ka];
        assert(b.order@[k] == i);
        assert(a.occ(i));
        a.lemma_node_facts(i);
        let na = a.nd(i);
        if i != t && tp != Some(i) && i != bi && i != r && i != l && i != bp && bl != Some(i) {
            assert(b.items@[i as int] == a.items@[i as int]);
            if let Some(x) = na.left {
                a.lemma_node_facts(x);
                if x != t && tp != Some(x) && x != bi && x != r && x != l && x != bp && bl != Some(x) {
                    assert(b.items@[x as int] == a.items@[x as int]);
                }
            }
            if let Some(x) = na.right {
                a.lemma_node_facts(x);
                if x != t && tp != Some(x) && x != bi && x != r && x != l && x != bp && bl != Some(x) {
                    assert(b.items@[x as int] == a.items@[x as int]);
                }
            }
            if let Some(x) = na.parent {
                a.lemma_node_facts(x);
                if x != t && tp != Some(x) && x != bi && x != r && x != l && x != bp && bl != Some(x) {
                    assert(b.items@[x as int] == a.items@[x as int]);
                }
            }
        } else {
            if let Some(x) = na.left {
                a.lemma_node_facts(x);
            }
            if let Some(x) = na.right {
                a.lemma_node_facts(x);
            }
            if let Some(x) = na.parent {
                a.lemma_node_facts(x);
            }
        }
    }

    #[verifier::spinoff_prover]
    proof fn lemma_detach_two_heights(a: &Self, b: &Self, t: usize, q: int, i: usize)
        requires
            Self::detached_two(a, b, t, q),
            a.occ(i),
            i != t,
            i != a.order@[q - 1],
            !((a.lo@)(i) <= q - 1 < (a.hi@)(i)),
            a.height_ok(i),
        ensures
            b.height_ok(i),
    {
        Self::lemma_two_facts(a, t);
        Self::lemma_detach_two_occ(a, b, t, q);
        let n = a.nd(t);
        let l = n.left->0;
        let r = n.right->0;
        let tp = n.parent;
        let bi = a.order@[q - 1];
        let bl = a.nd(bi).left;
        let bp = a.nd(bi).parent->0;
        a.lemma_node_facts(t);
        a.lemma_node_facts(l);
        a.lemma_node_facts(bi);
        if bi != l {
            a.lemma_node_facts(bp);
        }
        if let Some(p) = tp {
            a.lemma_node_facts(p);
        }
        a.lemma_node_facts(i);
        let na = a.nd(i);
        assert(b.nd(i).left == na.left && b.nd(i).right == na.right) by {
            if i != t && tp != Some(i) && i != bi && i != r && i != l && i != bp && bl != Some(i) {
                assert(b.items@[i as int] == a.items@[i as int]);
            }
        }
        if let Some(x) = na.left {
            a.lemma_node_facts(x);
        }
        if let Some(x) = na.right {
            a.lemma_node_facts(x);
        }
    }

    #[verifier::spinoff_prover]
    #[verifier::rlimit(80)]
    proof fn lemma_detach_two_path(a: &Self, b: &Self, t: usize, q: int, pb: Seq<usize>, j: int)
        requires
            Self::detached_two(a, b, t, q),
            a.up_path(pb),
            0 < j < pb.len(),
            pb[0] == a.order@[q - 1],
            pb[j] == t,
        ensures
            b.up_path(pb.subrange(1, j) + seq![pb[0]] + pb.subrange(j + 1, pb.len() as int)),
    {
        Self::lemma_two_facts(a, t);
        Self::lemma_detach_two_occ(a, b, t, q);
        let n = a.nd(t);
        let l = n.left->0;
        let r = n.right->0;
        let tp = n.parent;
        let bi = a.order@[q - 1];
        let bl = a.nd(bi).left;
        let bp = a.nd(bi).parent->0;
        a.lemma_node_facts(t);
        a.lemma_node_facts(l);
        a.lemma_node_facts(bi);
        let np = pb.subrange(1, j) + seq![bi] + pb.subrange(j + 1, pb.len() as int);
        assert(np.len() == pb.len() - 1);
        assert(np[j - 1] == bi);
        // below t the path runs up the right edge of the subtree of l
        assert(a.nd(pb[j - 1]).parent == Some(t));
        a.lemma_node_facts(pb[j - 1]);
        assert((a.lo@)(pb[j - 1]) <= (a.lo@)(pb[0]) && (a.hi@)(pb[0]) <= (a.hi@)(pb[j - 1]));
        assert(pb[j - 1] == l);
        assert forall|m: int| 1 <= m < j implies #[trigger] a.occ(pb[m]) && pb[m] != t && pb[m] != bi && pb[m] != r
            && (a.hi@)(pb[m]) == q && (a.lo@)(l) <= (a.lo@)(pb[m]) && (a.lo@)(pb[m]) < q - 1 by {
            a.lemma_node_facts(pb[m]);
            assert(a.size(pb[m]) < a.size(pb[j]));
            assert((a.lo@)(pb[m]) <= (a.lo@)(pb[0]) && (a.hi@)(pb[0]) <= (a.hi@)(pb[m]));
            if m < j - 1 {
                assert((a.lo@)(pb[j - 1]) <= (a.lo@)(pb[m]) && (a.hi@)(pb[m]) <= (a.hi@)(pb[j - 1]));
                assert(a.size(pb[m]) < a.size(pb[j - 1]));
            }
            assert(a.size(pb[0]) < a.size(pb[m]));
        }
        assert forall|m: int| j < m < pb.len() implies #[trigger] a.occ(pb[m]) && pb[m] != t && pb[m] != bi
            && pb[m] != l && pb[m] != r && (a.lo@)(pb[m]) <= (a.lo@)(t) && (a.hi@)(t) <= (a.hi@)(pb[m])
            && a.size(t) < a.size(pb[m]) by {
            a.lemma_node_facts(pb[m]);
            assert(a.size(pb[j]) < a.size(pb[m]));
            assert((a.lo@)(pb[m]) <= (a.lo@)(pb[j]) && (a.hi@)(pb[j]) <= (a.hi@)(pb[m]));
        }
        assert forall|x: int| 0 <= x < np.len() implies #[trigger] b.occ(np[x]) by {
            if x < j - 1 {
                assert(np[x] == pb[x + 1]);
            } else if x > j - 1 {
                assert(np[x] == pb[x + 1]);
            }
        }
        assert forall|x: int| 0 <= x < np.len() implies #[trigger] b.nd(np[x]).parent == if x + 1 < np.len() {
            Some(np[x + 1])
        } else {
            None::<usize>
        } by {
            if x < j - 1 {
                assert(np[x] == pb[x + 1]);
                let y = pb[x + 1];
                a.lemma_node_facts(y);
                assert(a.nd(y).parent == Some(pb[x + 2]));
                if x + 1 < j - 1 {
                    assert(np[x + 1] == pb[x + 2]);
                } else {
                    assert(pb[x + 2] == t);
                }
                assert(a.occ(pb[x + 1]));
                assert(y != t && y != bi && y != r);
                if y != l && y != bp && bl != Some(y) && tp != Some(y) {
                    assert(b.items@[y as int] == a.items@[y as int]);
                }
                if bl == Some(y) {
                    assert(a.nd(y).parent == Some(bi));
                    assert(false);
                }
                if tp == Some(y) {
                    assert(a.size(t) < a.size(y));
                    assert(false);
                }
            } else if x == j - 1 {
                assert(a.nd(t).parent == if j + 1 < pb.len() {
                    Some(pb[j + 1])
                } else {
                    None::<usize>
                });
                if x + 1 < np.len() {
                    assert(np[x + 1] == pb[j + 1]);
                }
            } else {
                assert(np[x] == pb[x + 1]);
                let y = pb[x + 1];
                a.lemma_node_facts(y);
                assert(a.nd(y).parent == if x + 2 < pb.len() {
                    Some(pb[x + 2])
                } else {
                    None::<usize>
                });
                if x + 1 < np.len() {
                    assert(np[x + 1] == pb[x + 2]);
                }
                assert(a.occ(pb[x + 1]));
                assert(y != t && y != bi && y != r && y != l);
                if y != bp && bl != Some(y) && tp != Some(y) {
                    assert(b.items@[y as int] == a.items@[y as int]);
                }
                if bl == Some(y) {
                    a.lemma_node_facts(bl->0);
                    assert(false);
                }
                if bi != l && y == bp {
                    assert(false);
                }
            }
        }
        assert forall|x: int, y: int| 0 <= x < y < np.len() implies {
            &&& b.size(#[trigger] np[x]) < b.size(#[trigger] np[y])
            &&& (b.lo@)(np[y]) <= (b.lo@)(np[x])
            &&& (b.hi@)(np[x]) <= (b.hi@)(np[y])
        } by {
            if x < j - 1 {
                assert(np[x] == pb[x + 1]);
            }
            if x > j - 1 {
                assert(np[x] == pb[x + 1]);
            }
            if y < j - 1 {
                assert(np[y] == pb[y + 1]);
                assert((a.lo@)(pb[y + 1]) <= (a.lo@)(pb[x + 1]));
                assert(a.size(pb[x + 1]) < a.size(pb[y + 1]));
            }
            if y > j - 1 {
                assert(np[y] == pb[y + 1]);
                if x > j - 1 {
                    assert((a.lo@)(pb[y + 1]) <= (a.lo@)(pb[x + 1]));
                    assert((a.hi@)(pb[x + 1]) <= (a.hi@)(pb[y + 1]));
                    assert(a.size(pb[x + 1]) < a.size(pb[y + 1]));
                }
            }
        }
    }

    proof fn lemma_detach_two(a: &Self, b: &Self, t: usize, q: int)
        requires
            Self::detached_two(a, b, t, q),
        ensures
            b.wf_shape(),
            b@ == a@.remove(q),
            forall|i: usize| #![trigger b.occ(i)] #![trigger a.occ(i)] b.occ(i) <==> a.occ(i) && i != t,
    {
        Self::lemma_two_facts(a, t);
        Self::lemma_detach_two_occ(a, b, t, q);
        assert(Self::closed_place(a, b, t, q));
        Self::lemma_closed_arena(a, b, t, q);
        Self::lemma_closed_view(a, b, t, q);
        assert forall|k: int| 0 <= k < b.len implies #[trigger] b.wf_node(k) by {
            Self::lemma_detach_two_node(a, b, t, q, k);
        }
        let bi = a.order@[q - 1];
        a.lemma_node_facts(t);
        if let Some(rt) = a.root {
            a.lemma_node_facts(rt);
        }
        if let Some(rt) = b.root {
            assert(a.occ(rt));
            a.lemma_node_facts(rt);
        }
        assert(b.wf_links());
    }

    /// The two calls of `replace_node` and the release of the slot of `t`
    /// make the removal that `detached_two` describes.
    proof fn lemma_two_steps(a: &Self, s1: &Self, s2: &Self, b: &Self, t: usize, q: int)
        requires
            a.wf_shape(),
            a.occ(t),
            q == (a.pos@)(t),
            a.nd(t).left is Some,
            a.nd(t).right is Some,
            Self::replaced(a, s1, a.order@[q - 1], a.nd(a.order@[q - 1]).left),
            Self::replaced(s1, s2, t, Some(a.order@[q - 1])),
            a.nd(a.order@[q - 1]).left matches Some(x) ==> a.nd(x).left is None && a.nd(x).right is None,
            b.items@ == s2.items@.update(t as int, Slot::Free { next_free: s2.head_free }),
            b.root == s2.root,
            b.wf_free(),
            b.len == a.len - 1,
            b.order@ == a.order@.remove(q),
            forall|i: usize| #[trigger] (b.pos@)(i) == unshift_place((a.pos@)(i), q),
            forall|i: usize|
                #[trigger] (b.lo@)(i) == if i == a.order@[q - 1] {
                    (a.lo@)(t)
                } else {
                    unshift_end((a.lo@)(i), q, true)
                },
            forall|i: usize|
                #[trigger] (b.hi@)(i) == if i == a.order@[q - 1] {
                    (a.hi@)(t) - 1
                } else {
                    unshift_end((a.hi@)(i), q, true)
                },
        ensures
            Self::detached_two(a, b, t, q),
    {
        Self::lemma_two_facts(a, t);
        let bi = a.order@[q - 1];
        let l = a.nd(t).left->0;
        let r = a.nd(t).right->0;
        a.lemma_node_facts(t);
        a.lemma_node_facts(bi);
        a.lemma_node_facts(l);
        a.lemma_node_facts(r);
        if let Some(p) = a.nd(t).parent {
            a.lemma_node_facts(p);
        }
        if bi != l {
            a.lemma_node_facts(a.nd(bi).parent->0);
        }
        let tp = a.nd(t).parent;
        let bl = a.nd(bi).left;
        let bp = a.nd(bi).parent->0;
        assert(s1.occ(t));
        assert(s1.nd(t).parent == a.nd(t).parent);
        assert(s1.nd(t).right == Some(r));
        assert(s1.nd(t).left == if bi == l { bl } else { Some(l) });
        assert(b.items@.len() == a.items@.len());
        assert forall|j: usize|
            j < a.items@.len() && j != t && tp != Some(j) && j != bi && j != r && j != l && j != bp && bl
                != Some(j) implies #[trigger] b.items@[j as int] == a.items@[j as int] by {
            assert(a.nd(bi).parent == Some(bp));
            assert(s1.items@[j as int] == a.items@[j as int]);
            assert(s2.items@[j as int] == s1.items@[j as int]);
        }
        assert(b.items@[t as int] is Free);
        assert(tp matches Some(p) ==> b.occ(p) && b.nd(p) == if a.nd(p).left == Some(t) {
            Node { left: Some(bi), ..a.nd(p) }
        } else {
            Node { right: Some(bi), ..a.nd(p) }
        });
        assert(b.root == if tp is None { Some(bi) } else { a.root });
        assert(b.occ(bi));
        assert(b.nd(bi) == (Node {
            parent: tp,
            left: if bi == l { bl } else { Some(l) },
            right: Some(r),
            ..a.nd(bi)
        }));
        assert(b.occ(r));
        assert(b.nd(r) == (Node { parent: Some(bi), ..a.nd(r) }));
        assert(bi != l ==> {
            &&& b.occ(l)
            &&& b.nd(l) == if bp == l {
                Node { parent: Some(bi), right: bl, ..a.nd(l) }
            } else {
                Node { parent: Some(bi), ..a.nd(l) }
            }
            &&& bp != l ==> b.occ(bp) && b.nd(bp) == (Node { right: bl, ..a.nd(bp) })
        });
        assert(bl matches Some(x) ==> b.occ(x) && b.nd(x) == (Node {
            parent: Some(if bi == l { bi } else { bp }),
            ..a.nd(x)
        }));
    }

    /// Every node off `newpath` but `t` has a range that leaves out the place
    /// `q`, when the path from `pt[0]` (at place `q`) up lies on `newpath`.
    proof fn lemma_off_path(a: &Self, pt: Seq<usize>, newpath: Seq<usize>, t: usize, i: usize)
        requires
            a.wf_shape(),
            a.up_path(pt),
            pt.len() > 0,
            a.occ(i),
            i != t,
            i != pt[0],
            forall|j: int| 0 < j < pt.len() && pt[j] != t ==> newpath.contains(#[trigger] pt[j]),
            !newpath.contains(i),
        ensures
            !((a.lo@)(i) <= (a.pos@)(pt[0]) < (a.hi@)(i)),
    {
        if (a.lo@)(i) <= (a.pos@)(pt[0]) < (a.hi@)(i) {
            a.lemma_on_path(pt, i);
            let j = choose|j: int| 0 <= j < pt.len() && pt[j] == i;
            if j > 0 {
                assert(newpath.contains(pt[j]));
            }
        }
    }

    /// A node of a balanced tree with no child on one side has, on the other
    /// side, at most a leaf.
    proof fn lemma_lone_child_leaf(a: &Self, i: usize)
        requires
            a.hwf(),
            a.occ(i),
            a.balanced_at(i),
        ensures
            a.nd(i).left is None ==> (a.nd(i).right matches Some(c) ==> a.nd(c).left is None && a.nd(c).right is None),
            a.nd(i).right is None ==> (a.nd(i).left matches Some(c) ==> a.nd(c).left is None && a.nd(c).right is None),
    {
        a.lemma_children_heights(i);
        if let Some(c) = a.nd(i).left {
            a.lemma_children_heights(c);
            a.lemma_node_facts(c);
            if let Some(g) = a.nd(c).left {
                a.lemma_node_facts(g);
            }
            if let Some(g) = a.nd(c).right {
                a.lemma_node_facts(g);
            }
        }
        if let Some(c) = a.nd(i).right {
            a.lemma_children_heights(c);
            a.lemma_node_facts(c);
            if let Some(g) = a.nd(c).left {
                a.lemma_node_facts(g);
            }
            if let Some(g) = a.nd(c).right {
                a.lemma_node_facts(g);
            }
        }
    }

    /// After splicing out `t`, which had one child at most, the walk can
    /// start at the parent of `t`.
    #[verifier::rlimit(80)]
    proof fn lemma_detach_one_walk(a: &Self, b: &Self, t: usize, q: int, pt: Seq<usize>)
        requires
            Self::detached_one(a, b, t, q),
            a.wf(),
            a.up_path(pt),
            pt.len() > 0,
            pt[0] == t,
        ensures
            b.walk_ok(pt.drop_first(), a.nd(t).height as int, pt.len() > 1 && a.nd(pt[1]).left == Some(t)),
    {
        let n = a.nd(t);
        let c = if n.left is Some { n.left } else { n.right };
        let tp = n.parent;
        let newpath = pt.drop_first();
        Self::lemma_detach_one(a, b, t, q);
        Self::lemma_rest_above(a, pt);
        a.lemma_children_heights(t);
        assert(a.balanced_at(t));
        if let Some(ci) = c {
            a.lemma_children_heights(ci);
        }
        assert forall|i: usize| #[trigger] a.occ(i) && i != t && tp != Some(i) && c != Some(i) implies b.nd(i) == a.nd(i) by {
            assert(b.items@[i as int] == a.items@[i as int]);
        }
        // off the path
        assert forall|i: usize| #[trigger] b.occ(i) && !newpath.contains(i) implies b.height_ok(i) && b.balanced_at(i) by {
            assert(a.occ(i) && i != t);
            assert forall|m: int| 0 < m < pt.len() && pt[m] != t implies newpath.contains(#[trigger] pt[m]) by {
                assert(newpath[m - 1] == pt[m]);
            }
            Self::lemma_off_path(a, pt, newpath, t, i);
            assert(tp != Some(i)) by {
                if tp == Some(i) {
                    assert(newpath[0] == i);
                }
            }
            a.lemma_children_heights(i);
            assert(a.height_ok(i) && a.balanced_at(i));
            if let Some(ch) = a.nd(i).left {
                a.lemma_node_facts(ch);
            }
            if let Some(ch) = a.nd(i).right {
                a.lemma_node_facts(ch);
            }
        }
        // above the parent of t
        assert forall|j: int| 1 <= j < newpath.len() implies #[trigger] b.height_eq(newpath[j]) && b.balanced_at(newpath[j]) by {
            let i = newpath[j];
            assert(pt[j + 1] == i);
            assert(a.occ(i));
            assert(a.size(t) < a.size(i));
            assert(a.size(pt[1]) < a.size(i));
            a.lemma_children_heights(i);
            if let Some(ch) = a.nd(i).left {
                a.lemma_node_facts(ch);
            }
            if let Some(ch) = a.nd(i).right {
                a.lemma_node_facts(ch);
            }
        }
        if pt.len() > 1 {
            let p = pt[1];
            assert(tp == Some(p));
            a.lemma_children_heights(p);
            assert(a.balanced_at(p));
            if let Some(ch) = a.nd(p).left {
                a.lemma_node_facts(ch);
            }
            if let Some(ch) = a.nd(p).right {
                a.lemma_node_facts(ch);
            }
            assert(Self::walk_head(b, p, a.nd(t).height as int, a.nd(p).left == Some(t)));
        }
    }

    #[verifier::spinoff_prover]
    #[verifier::rlimit(100)]
    proof fn lemma_detach_two_walk_off(a: &Self, b: &Self, b2: &Self, t: usize, q: int, pb: Seq<usize>, j: int)
        requires
            Self::detached_two(a, b, t, q),
            a.wf(),
            a.up_path(pb),
            0 < j < pb.len(),
            pb[0] == a.order@[q - 1],
            pb[j] == t,
            b.wf_shape(),
            Self::same_shape(b, b2),
            Self::same_but_slot(b, b2, pb[0]),
            b2.occ(pb[0]),
            b2.nd(pb[0]) == (Node { height: a.nd(t).height, ..b.nd(pb[0]) }),
            b2.wf_shape(),
        ensures
            b2.settled_off((pb.subrange(1, j) + seq![pb[0]] + pb.subrange(j + 1, pb.len() as int))),
    {
        let n = a.nd(t);
        let l = n.left->0;
        let r = n.right->0;
        let tp = n.parent;
        let bi = pb[0];
        let bl = a.nd(bi).left;
        let bp = a.nd(bi).parent->0;
        let np = pb.subrange(1, j) + seq![bi] + pb.subrange(j + 1, pb.len() as int);
        Self::lemma_two_facts(a, t);
        Self::lemma_detach_two(a, b, t, q);
        Self::lemma_detach_two_occ(a, b, t, q);
        Self::lemma_detach_two_path(a, b, t, q, pb, j);
        Self::lemma_same_shape_path(b, b2, np);
        Self::lemma_slot_kept(b, b2, bi);
        Self::lemma_rest_above(a, pb);
        a.lemma_children_heights(t);
        a.lemma_children_heights(bi);
        a.lemma_children_heights(l);
        assert(a.balanced_at(t) && a.balanced_at(bi));
        if let Some(x) = bl {
            a.lemma_children_heights(x);
        }
        if let Some(p) = tp {
            a.lemma_children_heights(p);
        }
        if bi != l {
            a.lemma_children_heights(bp);
        }
        assert(np.len() == pb.len() - 1);
        assert(np[j - 1] == bi);
        assert(pb[j - 1] == l) by {
            assert(a.nd(pb[j - 1]).parent == Some(t));
            a.lemma_node_facts(pb[j - 1]);
            assert((a.lo@)(pb[j - 1]) <= (a.lo@)(pb[0]));
        }
        // heights and children carried over
        assert forall|i: usize| #[trigger] a.occ(i) && i != t && i != bi implies b2.occ(i) && b2.nd(i).height == a.nd(i).height by {
            assert(b.occ(i));
            if i != t && tp != Some(i) && i != bi && i != r && i != l && i != bp && bl != Some(i) {
                assert(b.items@[i as int] == a.items@[i as int]);
            }
        }
        assert forall|i: usize| #[trigger] a.occ(i) && i != t && i != bi && tp != Some(i) && i != bp && !(i == l && bp == l) implies
            b2.nd(i).left == a.nd(i).left && b2.nd(i).right == a.nd(i).right by {
            assert(b.occ(i));
            if i != t && tp != Some(i) && i != bi && i != r && i != l && i != bp && bl != Some(i) {
                assert(b.items@[i as int] == a.items@[i as int]);
            }
        }
        // off the path
        assert forall|i: usize| #[trigger] b2.occ(i) && !np.contains(i) implies b2.height_ok(i) && b2.balanced_at(i) by {
            assert(b.occ(i));
            assert(a.occ(i) && i != t);
            assert(i != bi);
            assert forall|m: int| 0 < m < pb.len() && pb[m] != t implies np.contains(#[trigger] pb[m]) by {
                assert(np[m - 1] == pb[m]);
            }
            Self::lemma_off_path(a, pb, np, t, i);
            a.lemma_children_heights(i);
            Self::lemma_detach_two_heights(a, b, t, q, i);
            assert(tp != Some(i)) by {
                if tp == Some(i) {
                    assert(np[j] == pb[j + 1]);
                    assert(a.nd(pb[j]).parent == Some(pb[j + 1]));
                }
            }
            assert(i != bp) by {
                if bi != l && i == bp {
                    assert(np[0] == pb[1]);
                    assert(a.nd(pb[0]).parent == Some(pb[1]));
                }
            }
            assert(i != l) by {
                if i == l {
                    assert(np[j - 2] == pb[j - 1]);
                }
            }
            if let Some(ch) = a.nd(i).left {
                a.lemma_node_facts(ch);
            }
            if let Some(ch) = a.nd(i).right {
                a.lemma_node_facts(ch);
            }
            Self::lemma_slot_height_ok(b, b2, bi, i);
        }
    }

    #[verifier::spinoff_prover]
    #[verifier::rlimit(100)]
    proof fn lemma_detach_two_walk_above(a: &Self, b: &Self, b2: &Self, t: usize, q: int, pb: Seq<usize>, j: int)
        requires
            Self::detached_two(a, b, t, q),
            a.wf(),
            a.up_path(pb),
            0 < j < pb.len(),
            pb[0] == a.order@[q - 1],
            pb[j] == t,
            b.wf_shape(),
            Self::same_shape(b, b2),
            Self::same_but_slot(b, b2, pb[0]),
            b2.occ(pb[0]),
            b2.nd(pb[0]) == (Node { height: a.nd(t).height, ..b.nd(pb[0]) }),
            b2.wf_shape(),
        ensures
            forall|k: int| 1 <= k < (pb.subrange(1, j) + seq![pb[0]] + pb.subrange(j + 1, pb.len() as int)).len() ==> #[trigger] b2.height_eq((pb.subrange(1, j) + seq![pb[0]] + pb.subrange(j + 1, pb.len() as int))[k]) && b2.balanced_at((pb.subrange(1, j) + seq![pb[0]] + pb.subrange(j + 1, pb.len() as int))[k]),
    {
        let n = a.nd(t);
        let l = n.left->0;
        let r = n.right->0;
        let tp = n.parent;
        let bi = pb[0];
        let bl = a.nd(bi).left;
        let bp = a.nd(bi).parent->0;
        let np = pb.subrange(1, j) + seq![bi] + pb.subrange(j + 1, pb.len() as int);
        Self::lemma_two_facts(a, t);
        Self::lemma_detach_two(a, b, t, q);
        Self::lemma_detach_two_occ(a, b, t, q);
        Self::lemma_detach_two_path(a, b, t, q, pb, j);
        Self::lemma_same_shape_path(b, b2, np);
        Self::lemma_slot_kept(b, b2, bi);
        Self::lemma_rest_above(a, pb);
        a.lemma_children_heights(t);
        a.lemma_children_heights(bi);
        a.lemma_children_heights(l);
        assert(a.balanced_at(t) && a.balanced_at(bi));
        if let Some(x) = bl {
            a.lemma_children_heights(x);
        }
        if let Some(p) = tp {
            a.lemma_children_heights(p);
        }
        if bi != l {
            a.lemma_children_heights(bp);
        }
        assert(np.len() == pb.len() - 1);
        assert(np[j - 1] == bi);
        assert(pb[j - 1] == l) by {
            assert(a.nd(pb[j - 1]).parent == Some(t));
            a.lemma_node_facts(pb[j - 1]);
            assert((a.lo@)(pb[j - 1]) <= (a.lo@)(pb[0]));
        }
        // heights and children carried over
        assert forall|i: usize| #[trigger] a.occ(i) && i != t && i != bi implies b2.occ(i) && b2.nd(i).height == a.nd(i).height by {
            assert(b.occ(i));
            if i != t && tp != Some(i) && i != bi && i != r && i != l && i != bp && bl != Some(i) {
                assert(b.items@[i as int] == a.items@[i as int]);
            }
        }
        assert forall|i: usize| #[trigger] a.occ(i) && i != t && i != bi && tp != Some(i) && i != bp && !(i == l && bp == l) implies
            b2.nd(i).left == a.nd(i).left && b2.nd(i).right == a.nd(i).right by {
            assert(b.occ(i));
            if i != t && tp != Some(i) && i != bi && i != r && i != l && i != bp && bl != Some(i) {
                assert(b.items@[i as int] == a.items@[i as int]);
            }
        }
        // above the start
        assert forall|k: int| 1 <= k < np.len() implies #[trigger] b2.height_eq(np[k]) && b2.balanced_at(np[k]) by {
            if k < j - 1 {
                let i = pb[k + 1];
                assert(np[k] == i);
                assert(a.occ(i));
                a.lemma_children_heights(i);
                assert(a.size(pb[1]) < a.size(i));
                assert(a.size(i) < a.size(t));
                assert(i != bi && i != t && tp != Some(i) && i != bp);
                if let Some(ch) = a.nd(i).left {
                    a.lemma_node_facts(ch);
                }
                if let Some(ch) = a.nd(i).right {
                    a.lemma_node_facts(ch);
                    if ch == bi {
                        assert(a.nd(bi).parent == Some(pb[1]));
                    }
                }
            } else if k == j - 1 {
                assert(np[k] == bi);
                a.lemma_node_facts(r);
            } else {
                let i = pb[k + 1];
                assert(np[k] == i);
                assert(a.occ(i));
                a.lemma_children_heights(i);
                assert(a.size(t) < a.size(i));
                if k > j {
                    assert(a.size(pb[j + 1]) < a.size(i));
                }
                if let Some(ch) = a.nd(i).left {
                    a.lemma_node_facts(ch);
                }
                if let Some(ch) = a.nd(i).right {
                    a.lemma_node_facts(ch);
                }
            }
        }
    }

    #[verifier::spinoff_prover]
    #[verifier::rlimit(100)]
    proof fn lemma_detach_two_walk_start(a: &Self, b: &Self, b2: &Self, t: usize, q: int, pb: Seq<usize>, j: int)
        requires
            Self::detached_two(a, b, t, q),
            a.wf(),
            a.up_path(pb),
            0 < j < pb.len(),
            pb[0] == a.order@[q - 1],
            pb[j] == t,
            b.wf_shape(),
            Self::same_shape(b, b2),
            Self::same_but_slot(b, b2, pb[0]),
            b2.occ(pb[0]),
            b2.nd(pb[0]) == (Node { height: a.nd(t).height, ..b.nd(pb[0]) }),
            b2.wf_shape(),
        ensures
            j == 1 ==> Self::walk_head(b2, pb[0], a.nd(pb[0]).height as int, true),
            j > 1 ==> Self::walk_head(b2, pb[1], a.nd(pb[0]).height as int, false),
            b2.up_path((pb.subrange(1, j) + seq![pb[0]] + pb.subrange(j + 1, pb.len() as int))),
    {
        let n = a.nd(t);
        let l = n.left->0;
        let r = n.right->0;
        let tp = n.parent;
        let bi = pb[0];
        let bl = a.nd(bi).left;
        let bp = a.nd(bi).parent->0;
        let np = pb.subrange(1, j) + seq![bi] + pb.subrange(j + 1, pb.len() as int);
        Self::lemma_two_facts(a, t);
        Self::lemma_detach_two(a, b, t, q);
        Self::lemma_detach_two_occ(a, b, t, q);
        Self::lemma_detach_two_path(a, b, t, q, pb, j);
        Self::lemma_same_shape_path(b, b2, np);
        Self::lemma_slot_kept(b, b2, bi);
        Self::lemma_rest_above(a, pb);
        a.lemma_children_heights(t);
        a.lemma_children_heights(bi);
        a.lemma_children_heights(l);
        assert(a.balanced_at(t) && a.balanced_at(bi));
        if let Some(x) = bl {
            a.lemma_children_heights(x);
        }
        if let Some(p) = tp {
            a.lemma_children_heights(p);
        }
        if bi != l {
            a.lemma_children_heights(bp);
        }
        assert(np.len() == pb.len() - 1);
        assert(np[j - 1] == bi);
        assert(pb[j - 1] == l) by {
            assert(a.nd(pb[j - 1]).parent == Some(t));
            a.lemma_node_facts(pb[j - 1]);
            assert((a.lo@)(pb[j - 1]) <= (a.lo@)(pb[0]));
        }
        // heights and children carried over
        assert forall|i: usize| #[trigger] a.occ(i) && i != t && i != bi implies b2.occ(i) && b2.nd(i).height == a.nd(i).height by {
            assert(b.occ(i));
            if i != t && tp != Some(i) && i != bi && i != r && i != l && i != bp && bl != Some(i) {
                assert(b.items@[i as int] == a.items@[i as int]);
            }
        }
        assert forall|i: usize| #[trigger] a.occ(i) && i != t && i != bi && tp != Some(i) && i != bp && !(i == l && bp == l) implies
            b2.nd(i).left == a.nd(i).left && b2.nd(i).right == a.nd(i).right by {
            assert(b.occ(i));
            if i != t && tp != Some(i) && i != bi && i != r && i != l && i != bp && bl != Some(i) {
                assert(b.items@[i as int] == a.items@[i as int]);
            }
        }
        // the start
        if j == 1 {
            assert(np[0] == bi);
            a.lemma_node_facts(r);
            assert(Self::walk_head(b2, bi, a.nd(bi).height as int, true));
        } else {
            assert(np[0] == pb[1]);
            assert(a.nd(pb[0]).parent == Some(pb[1]));
            assert(pb[1] == bp);
            if let Some(ch) = a.nd(bp).left {
                a.lemma_node_facts(ch);
            }
            assert(Self::walk_head(b2, bp, a.nd(bi).height as int, false));
        }
        }

    /// After the node `bi` just before `t` took the place of `t` (from `a`
    /// to `b`) and the height of `t` (to `b2`), the walk can start where the
    /// tree changed: at the old parent of `bi`, or at `bi` when it was the
    /// left child of `t`.
    proof fn lemma_detach_two_walk(a: &Self, b: &Self, b2: &Self, t: usize, q: int, pb: Seq<usize>, j: int)
        requires
            Self::detached_two(a, b, t, q),
            a.wf(),
            a.up_path(pb),
            0 < j < pb.len(),
            pb[0] == a.order@[q - 1],
            pb[j] == t,
            b.wf_shape(),
            Self::same_shape(b, b2),
            Self::same_but_slot(b, b2, pb[0]),
            b2.occ(pb[0]),
            b2.nd(pb[0]) == (Node { height: a.nd(t).height, ..b.nd(pb[0]) }),
            b2.wf_shape(),
        ensures
            b2.walk_ok(
                pb.subrange(1, j) + seq![pb[0]] + pb.subrange(j + 1, pb.len() as int),
                a.nd(pb[0]).height as int,
                j == 1,
            ),
    {
        let np = pb.subrange(1, j) + seq![pb[0]] + pb.subrange(j + 1, pb.len() as int);
        assert(np.len() == pb.len() - 1);
        Self::lemma_detach_two_walk_off(a, b, b2, t, q, pb, j);
        Self::lemma_detach_two_walk_above(a, b, b2, t, q, pb, j);
        Self::lemma_detach_two_walk_start(a, b, b2, t, q, pb, j);
        Self::lemma_two_facts(a, t);
        if j == 1 {
            assert(np[0] == pb[0]);
        } else {
            assert(np[0] == pb[1]);
        }
    }

    /// Slot `index` was freed and put at the head of the free list, and no
    /// other slot changed hands: every free slot is still on the list.
    proof fn lemma_free_complete_after_free(a: &Self, b: &Self, index: usize)
        requires
            a.free_complete(),
            b.items@.len() == a.items@.len(),
            b.free@ == seq![index] + a.free@,
            forall|i: usize| #![trigger b.occ(i)] #![trigger a.occ(i)] b.occ(i) <==> a.occ(i) && i != index,
        ensures
            b.free_complete(),
    {
        assert forall|i: usize| i < b.items@.len() && !#[trigger] b.occ(i) implies b.free@.contains(i) by {
            if i == index {
                assert(b.free@[0] == i);
            } else {
                assert(!a.occ(i));
                let k = choose|k: int| 0 <= k < a.free@.len() && a.free@[k] == i;
                assert(b.free@[k + 1] == i);
            }
        }
    }

    /// The head of the free list, or a new slot at the end, was taken, and
    /// no other slot changed hands: every free slot is still on the list.
    proof fn lemma_free_complete_after_take(a: &Self, b: &Self, s: usize)
        requires
            a.free_complete(),
            a.wf_free(),
            a.free@.len() > 0 ==> s == a.free@[0] && b.items@.len() == a.items@.len() && b.free@ == a.free@.drop_first(),
            a.free@.len() == 0 ==> s == a.items@.len() && b.items@.len() == a.items@.len() + 1 && b.free@ == a.free@,
            b.occ(s),
            forall|i: usize| i != s ==> (b.occ(i) <==> a.occ(i)),
        ensures
            b.free_complete(),
    {
        assert forall|i: usize| i < b.items@.len() && !#[trigger] b.occ(i) implies b.free@.contains(i) by {
            assert(i != s);
            assert(!a.occ(i));
            assert(i < a.items@.len());
            let k = choose|k: int| 0 <= k < a.free@.len() && a.free@[k] == i;
            if a.free@.len() > 0 {
                assert(k != 0);
                assert(b.free@[k - 1] == i);
            }
        }
    }

    /// Takes the node `index` out of the tree and hands back its element.
    fn remove_node(&mut self, index: usize) -> (r: T)
        requires
            old(self).wf(),
            old(self).occ(index),
        ensures
            final(self).wf(),
            r == old(self)@[(old(self).pos@)(index)],
            final(self)@ == old(self)@.remove((old(self).pos@)(index)),
            final(self).items@.len() == old(self).items@.len(),
            final(self).free@ == seq![index] + old(self).free@,
            forall|i: usize| #![trigger final(self).occ(i)] #![trigger old(self).occ(i)] final(self).occ(i) <==> old(self).occ(i) && i != index,
            forall|i: usize| #[trigger] final(self).occ(i) ==> final(self).nd(i).value == old(self).nd(i).value,
    {
        let node = self.unwrap_occupied(index);
        if node.left.is_some() && node.right.is_some() {
            self.remove_node_with_two(index)
        } else {
            self.remove_node_with_one(index)
        }
    }

    /// Removes `index`, which has two children: the node just before it
    /// takes its place.
    #[verifier::spinoff_prover]
    #[verifier::rlimit(100)]
    fn remove_node_with_two(&mut self, index: usize) -> (r: T)
        requires
            old(self).wf(),
            old(self).occ(index),
            old(self).nd(index).left is Some && old(self).nd(index).right is Some,
        ensures
            final(self).wf(),
            r == old(self)@[(old(self).pos@)(index)],
            final(self)@ == old(self)@.remove((old(self).pos@)(index)),
            final(self).items@.len() == old(self).items@.len(),
            final(self).free@ == seq![index] + old(self).free@,
            forall|i: usize| #![trigger final(self).occ(i)] #![trigger old(self).occ(i)] final(self).occ(i) <==> old(self).occ(i) && i != index,
            forall|i: usize| #[trigger] final(self).occ(i) ==> final(self).nd(i).value == old(self).nd(i).value,
    {
        let ghost a = *self;
        let ghost q = (self.pos@)(index);
        proof {
            self.lemma_node_facts(index);
        }
        let (node_left, node_right, node_parent, node_height) = {
            let node = self.unwrap_occupied(index);
            (node.left, node.right, node.parent, node.height)
        };
        let before = self.before_sub(index);
        let before_index = before.unwrap();
        proof {
            Self::lemma_two_facts(&a, index);
            a.lemma_node_facts(before_index);
            if let Some(p) = node_parent {
                a.lemma_node_facts(p);
            }
            a.lemma_node_facts(node_left.unwrap());
            a.lemma_node_facts(node_right.unwrap());
        }
        let (before_left, before_parent) = {
            let before_node = self.unwrap_occupied(before_index);
            (before_node.left, before_node.parent)
        };
        let ancestor_start = if before == node_left { before } else { before_parent };
        proof {
            a.lemma_children_heights(before_index);
            Self::lemma_lone_child_leaf(&a, before_index);
        }
        self.replace_node(before_index, before_left);
        let ghost s1 = *self;
        proof {
            assert(s1.occ(index));
            assert(s1.nd(index).parent == node_parent);
            assert(s1.nd(index).right == node_right);
        }
        self.replace_node(index, before);
        let ghost s2 = *self;
        let value = self.remove_node_from_arena(index);
        self.len = self.len - 1;
        self.order = Ghost(a.order@.remove(q));
        self.pos = Ghost(|i: usize| unshift_place((a.pos@)(i), q));
        self.lo = Ghost(|i: usize| if i == before_index { (a.lo@)(index) } else { unshift_end((a.lo@)(i), q, true) });
        self.hi = Ghost(|i: usize| if i == before_index { (a.hi@)(index) - 1 } else { unshift_end((a.hi@)(i), q, true) });
        let ghost newpath: Seq<usize>;
        let ghost ghost_pb: Seq<usize>;
        let ghost ghost_j: int;
        proof {
            Self::lemma_two_steps(&a, &s1, &s2, self, index, q);
            Self::lemma_detach_two(&a, self, index, q);
            let pb = a.lemma_path_to_root(before_index);
            a.lemma_on_path(pb, index);
            let j = choose|j: int| 0 <= j < pb.len() && pb[j] == index;
            assert(j != 0);
            Self::lemma_detach_two_path(&a, self, index, q, pb, j);
            newpath = pb.subrange(1, j) + seq![pb[0]] + pb.subrange(j + 1, pb.len() as int);
            assert(newpath[0] == if before == node_left { before_index } else { before_parent->0 }) by {
                if j > 1 {
                    assert(a.nd(pb[0]).parent == Some(pb[1]));
                    assert(newpath[0] == pb[1]);
                    assert(before != node_left) by {
                        assert(a.nd(pb[j - 1]).parent == Some(index));
                        a.lemma_node_facts(pb[j - 1]);
                        assert(a.size(pb[0]) < a.size(pb[j - 1]));
                    }
                } else {
                    assert(a.nd(pb[0]).parent == Some(index));
                    assert(newpath[0] == pb[0]);
                }
            }
            ghost_pb = pb;
            ghost_j = j;
        }
        let ghost b = *self;
        self.set_height(before_index, node_height);
        proof {
            assert forall|i: usize| #[trigger] self.occ(i) implies 0 <= self.nd(i).height < i32::MAX by {
                assert(b.occ(i));
                b.lemma_node_facts(i);
                a.lemma_node_facts(index);
            }
            Self::lemma_same_shape_wf(&b, self);
            Self::lemma_detach_two_walk(&a, &b, self, index, q, ghost_pb, ghost_j);
        }
        self.rebalance_ancestors(
            ancestor_start,
            Ghost(newpath),
            Ghost(a.nd(before_index).height as int),
            Ghost(before == node_left),
        );
        proof {
            assert(a@[q] == a.val_at(q));
            Self::lemma_free_complete_after_free(&a, self, index);
        }
        value
    }

    /// Removes `index`, which has at most one child: the child takes its
    /// place.
    fn remove_node_with_one(&mut self, index: usize) -> (r: T)
        requires
            old(self).wf(),
            old(self).occ(index),
            !(old(self).nd(index).left is Some && old(self).nd(index).right is Some),
        ensures
            final(self).wf(),
            r == old(self)@[(old(self).pos@)(index)],
            final(self)@ == old(self)@.remove((old(self).pos@)(index)),
            final(self).items@.len() == old(self).items@.len(),
            final(self).free@ == seq![index] + old(self).free@,
            forall|i: usize| #![trigger final(self).occ(i)] #![trigger old(self).occ(i)] final(self).occ(i) <==> old(self).occ(i) && i != index,
            forall|i: usize| #[trigger] final(self).occ(i) ==> final(self).nd(i).value == old(self).nd(i).value,
    {
        let ghost a = *self;
        let ghost q = (self.pos@)(index);
        proof {
            self.lemma_node_facts(index);
        }
        let (node_left, node_right, node_parent) = {
            let node = self.unwrap_occupied(index);
            (node.left, node.right, node.parent)
        };
        let child = if node_left.is_some() { node_left } else { node_right };
        proof {
            a.lemma_children_heights(index);
            Self::lemma_lone_child_leaf(&a, index);
            if let Some(c) = child {
                a.lemma_node_facts(c);
            }
            if let Some(p) = node_parent {
                a.lemma_node_facts(p);
            }
        }
        self.replace_node(index, child);
        let value = self.remove_node_from_arena(index);
        self.len = self.len - 1;
        self.order = Ghost(a.order@.remove(q));
        self.pos = Ghost(|i: usize| unshift_place((a.pos@)(i), q));
        self.lo = Ghost(|i: usize| unshift_end((a.lo@)(i), q, false));
        self.hi = Ghost(|i: usize| unshift_end((a.hi@)(i), q, false));
        let ghost newpath: Seq<usize>;
        let ghost ghost_on_left: bool;
        proof {
            assert(Self::detached_one(&a, self, index, q));
            Self::lemma_detach_one(&a, self, index, q);
            let pt = a.lemma_path_to_root(index);
            newpath = pt.drop_first();
            assert(self.up_path(newpath));
            if let Some(p) = node_parent {
                assert(pt.len() > 1 && pt[1] == p);
                assert(newpath[0] == p);
            } else {
                assert(pt.len() == 1);
            }
            Self::lemma_detach_one_walk(&a, self, index, q, pt);
            ghost_on_left = pt.len() > 1 && a.nd(pt[1]).left == Some(index);
        }
        self.rebalance_ancestors(
            node_parent,
            Ghost(newpath),
            Ghost(a.nd(index).height as int),
            Ghost(ghost_on_left),
        );
        proof {
            assert(a@[q] == a.val_at(q));
            Self::lemma_free_complete_after_free(&a, self, index);
        }
        value
    }

    /// Removes `value`. Returns false, and changes nothing, if it is not an
    /// element.
    pub fn remove(&mut self, value: &T) -> (r: bool)
        requires
            old(self).wf(),
        ensures
            final(self).wf(),
            r == old(self)@.contains(*value),
            final(self)@.to_set() == old(self)@.to_set().remove(*value),
            !r ==> final(self)@ == old(self)@ && final(self).tree_height() == old(self).tree_height(),
            r ==> final(self)@.len() == old(self)@.len() - 1,
            !r ==> *final(self) == *old(self),
            r ==> final(self).slot_count() == old(self).slot_count(),
            r ==> final(self).free_slots().len() == old(self).free_slots().len() + 1,
            r ==> final(self).free_slots().drop_first() == old(self).free_slots(),
            r ==> ({
                let f = final(self).free_slots()[0];
                &&& old(self).slot_occupied(f)
                &&& old(self).slot_element(f) == *value
                &&& !final(self).slot_occupied(f)
                &&& forall|i: usize|
                    i != f ==> (final(self).slot_occupied(i) <==> old(self).slot_occupied(i)) && (
                    old(self).slot_occupied(i) ==> final(self).slot_element(i) == old(self).slot_element(i))
            }),
    {
        proof {
            lemma_total_order::<T>();
        }
        let ghost a = *self;
        let (closest, _) = self.find_closest(value);
        let index = match closest {
            Some(index) => index,
            None => {
                proof {
                    assert(self@.to_set() =~= a@.to_set().remove(*value));
                }
                return false;
            },
        };
        let node = self.unwrap_occupied(index);
        let ghost k = (self.pos@)(index);
        proof {
            assert(self.val_at(k) == node.value);
        }
        if !matches!(value.cmp(&node.value), Ordering::Equal) {
            proof {
                assert(self.wf_node(k));
                if lt(*value, self.val_at(k)) {
                    self.lemma_splits_from_neighbours(*value, k);
                    self.lemma_splits_absent(*value, k);
                } else {
                    self.lemma_splits_from_neighbours(*value, k + 1);
                    self.lemma_splits_absent(*value, k + 1);
                }
                assert(self@.to_set() =~= a@.to_set().remove(*value));
            }
            return false;
        }
        proof {
            assert(self@[k] == *value);
        }
        self.remove_node(index);
        proof {
            lemma_remove_to_set(a@, k);
        }
        true
    }

    /// A subtree of a well-formed tree holds at least `min_nodes` of its
    /// height.
    proof fn lemma_subtree_size(&self, i: usize)
        requires
            self.wf(),
            self.occ(i),
        ensures
            self.size(i) >= min_nodes(self.nd(i).height as int),
        decreases self.size(i),
    {
        self.lemma_children_heights(i);
        assert(self.balanced_at(i));
        let n = self.nd(i);
        let hl = self.link_h(n.left);
        let hr = self.link_h(n.right);
        let sl: int = match n.left {
            Some(l) => self.size(l),
            None => 0,
        };
        let sr: int = match n.right {
            Some(r) => self.size(r),
            None => 0,
        };
        if let Some(l) = n.left {
            self.lemma_subtree_size(l);
        }
        if let Some(r) = n.right {
            self.lemma_subtree_size(r);
        }
        assert(sl >= min_nodes(hl));
        assert(sr >= min_nodes(hr));
        assert(self.size(i) == sl + sr + 1);
        let h = n.height as int;
        if h >= 2 {
            if hl >= hr {
                lemma_min_nodes_monotone(h - 2, hr);
                assert(min_nodes(h) == min_nodes(h - 1) + min_nodes(h - 2) + 1);
            } else {
                lemma_min_nodes_monotone(h - 2, hl);
                assert(min_nodes(h) == min_nodes(h - 1) + min_nodes(h - 2) + 1);
            }
        }
    }

    /// A subtree of a well-formed tree holds at most `max_nodes` of its
    /// height.
    proof fn lemma_subtree_size_max(&self, i: usize)
        requires
            self.hwf(),
            self.occ(i),
        ensures
            self.size(i) <= max_nodes(self.nd(i).height as int),
        decreases self.size(i),
    {
        self.lemma_children_heights(i);
        let n = self.nd(i);
        let h = n.height as int;
        let sl: int = match n.left {
            Some(l) => self.size(l),
            None => 0,
        };
        let sr: int = match n.right {
            Some(r) => self.size(r),
            None => 0,
        };
        if let Some(l) = n.left {
            self.lemma_subtree_size_max(l);
            lemma_max_nodes_monotone(self.nd(l).height as int, h - 1);
        }
        if let Some(r) = n.right {
            self.lemma_subtree_size_max(r);
            lemma_max_nodes_monotone(self.nd(r).height as int, h - 1);
        }
        assert(self.size(i) == sl + sr + 1);
        if h >= 1 {
            assert(max_nodes(h) == 2 * max_nodes(h - 1) + 1);
        }
    }

    /// A well-formed tree of height `h` holds at least `min_nodes(h)` and at
    /// most `max_nodes(h)` elements, so its height grows with the logarithm
    /// of its size.
    pub proof fn lemma_height_bound(&self)
        requires
            self.wf(),
        ensures
            self@.len() >= min_nodes(self.tree_height()),
            self@.len() <= max_nodes(self.tree_height()),
            self.tree_height() == -1 <==> self@.len() == 0,
    {
        if let Some(r) = self.root {
            self.lemma_node_facts(r);
            self.lemma_subtree_size(r);
            self.lemma_subtree_size_max(r);
        }
    }

    /// An in-order walk of a well-formed tree meets its elements in strictly
    /// ascending order.
    pub proof fn lemma_inorder_ascending(&self)
        requires
            self.wf(),
        ensures
            ascending(self@),
    {
    }

    /// Draining a well-formed tree in order yields each of its elements
    /// exactly once, ascending: the in-order sequence is ascending, has no
    /// repeats, and holds exactly the elements.
    pub proof fn lemma_drain_complete(&self)
        requires
            self.wf(),
        ensures
            ascending(self@),
            self@.no_duplicates(),
            self@.to_set().len() == self@.len(),
    {
        self.lemma_elements_len();
        lemma_total_order::<T>();
        assert forall|i: int, j: int| 0 <= i < self@.len() && 0 <= j < self@.len() && i != j implies self@[i] != self@[j] by {
            if i < j {
                self.lemma_lt_places(i, j);
                assert(self@[i] == self.val_at(i) && self@[j] == self.val_at(j));
            } else {
                self.lemma_lt_places(j, i);
                assert(self@[i] == self.val_at(i) && self@[j] == self.val_at(j));
            }
        }
    }

    /// The elements are distinct, so there are as many as the length.
    proof fn lemma_elements_len(&self)
        requires
            self.hwf(),
        ensures
            self@.to_set().len() == self@.len(),
    {
        lemma_total_order::<T>();
        assert(self@.no_duplicates()) by {
            assert forall|i: int, j: int| 0 <= i < self@.len() && 0 <= j < self@.len() && i != j implies self@[i] != self@[j] by {
                if i < j {
                    self.lemma_lt_places(i, j);
                    assert(self@[i] == self.val_at(i) && self@[j] == self.val_at(j));
                } else {
                    self.lemma_lt_places(j, i);
                    assert(self@[i] == self.val_at(i) && self@[j] == self.val_at(j));
                }
            }
        }
        self@.unique_seq_to_set();
    }

    /// Takes out the least element.
    fn take_first(&mut self) -> (r: Option<T>)
        requires
            old(self).wf(),
        ensures
            final(self).wf(),
            old(self)@.len() == 0 ==> r is None && final(self)@ == old(self)@,
            old(self)@.len() > 0 ==> r == Some(old(self)@[0]) && final(self)@ == old(self)@.drop_first(),
    {
        match self.first() {
            Some(index) => {
                proof {
                    assert(self.occ(self.order@[0]));
                }
                let v = self.remove_node(index);
                proof {
                    assert(old(self)@.remove(0) =~= old(self)@.drop_first());
                }
                Some(v)
            },
            None => None,
        }
    }

    /// The number of slots in the arena, free or occupied.
    pub closed spec fn slot_count(&self) -> nat {
        self.items@.len()
    }

    /// The free slots, from the head of the free list on.
    pub closed spec fn free_slots(&self) -> Seq<usize> {
        self.free@
    }

    /// Whether slot `i` holds a node.
    pub closed spec fn slot_occupied(&self, i: usize) -> bool {
        self.occ(i)
    }

    /// The element held in slot `i`.
    pub closed spec fn slot_element(&self, i: usize) -> T {
        self.nd(i).value
    }

    /// The slot that holds the element at place `k` of the ascending order.
    pub closed spec fn slot_of(&self, k: int) -> usize {
        self.order@[k]
    }

    /// The height stored in slot `i`.
    pub closed spec fn slot_height(&self, i: usize) -> int {
        self.nd(i).height as int
    }

    /// The slot of the left child of the node in slot `i`.
    pub closed spec fn left_slot(&self, i: usize) -> Option<usize> {
        self.nd(i).left
    }

    /// The slot of the right child of the node in slot `i`.
    pub closed spec fn right_slot(&self, i: usize) -> Option<usize> {
        self.nd(i).right
    }

    /// The height of the left subtree of slot `i`, -1 when there is none.
    pub open spec fn left_height(&self, i: usize) -> int {
        match self.left_slot(i) {
            Some(c) => self.slot_height(c),
            None => -1,
        }
    }

    /// The height of the right subtree of slot `i`, -1 when there is none.
    pub open spec fn right_height(&self, i: usize) -> int {
        match self.right_slot(i) {
            Some(c) => self.slot_height(c),
            None => -1,
        }
    }

    /// In a well-formed tree every node is balanced, its stored height is
    /// one more than the greater height of its subtrees, and its children
    /// are nodes too.
    pub proof fn lemma_balanced(&self)
        requires
            self.wf(),
        ensures
            forall|i: usize|
                #[trigger] self.slot_occupied(i) ==> {
                    &&& -1 <= self.left_height(i) - self.right_height(i) <= 1
                    &&& self.slot_height(i) == 1 + max_int(self.left_height(i), self.right_height(i))
                    &&& self.left_slot(i) matches Some(c) ==> self.slot_occupied(c)
                    &&& self.right_slot(i) matches Some(c) ==> self.slot_occupied(c)
                },
    {
        assert forall|i: usize| #[trigger] self.slot_occupied(i) implies {
            &&& -1 <= self.left_height(i) - self.right_height(i) <= 1
            &&& self.slot_height(i) == 1 + max_int(self.left_height(i), self.right_height(i))
            &&& self.left_slot(i) matches Some(c) ==> self.slot_occupied(c)
            &&& self.right_slot(i) matches Some(c) ==> self.slot_occupied(c)
        } by {
            self.lemma_children_heights(i);
            assert(self.balanced_at(i));
        }
    }

    /// The occupied slots hold the elements: each holds an element of the
    /// tree, each element is held by exactly one slot, and there are as many
    /// occupied slots as elements.
    pub proof fn lemma_slots_hold_elements(&self)
        requires
            self.wf(),
        ensures
            forall|i: usize| #[trigger] self.slot_occupied(i) ==> self@.contains(self.slot_element(i)),
            forall|k: int|
                0 <= k < self@.len() ==> self.slot_occupied(#[trigger] self.slot_of(k)) && self.slot_element(
                    self.slot_of(k),
                ) == self@[k],
            forall|i: usize, j: usize|
                #[trigger] self.slot_occupied(i) && #[trigger] self.slot_occupied(j) && self.slot_element(i)
                    == self.slot_element(j) ==> i == j,
            Set::new(|i: usize| self.slot_occupied(i)).finite(),
            Set::new(|i: usize| self.slot_occupied(i)).len() == self@.len(),
    {
        broadcast use vstd::seq_lib::seq_to_set_is_finite;
        lemma_total_order::<T>();
        assert forall|i: usize| #[trigger] self.slot_occupied(i) implies self@.contains(self.slot_element(i)) by {
            let k = (self.pos@)(i);
            assert(self@[k] == self.val_at(k));
        }
        assert forall|k: int| 0 <= k < self@.len() implies self.slot_occupied(#[trigger] self.slot_of(k))
            && self.slot_element(self.slot_of(k)) == self@[k] by {
            assert(self.occ(self.order@[k]));
            assert(self@[k] == self.val_at(k));
        }
        assert forall|i: usize, j: usize|
            #[trigger] self.slot_occupied(i) && #[trigger] self.slot_occupied(j) && self.slot_element(i)
                == self.slot_element(j) implies i == j by {
            let ki = (self.pos@)(i);
            let kj = (self.pos@)(j);
            if ki < kj {
                self.lemma_lt_places(ki, kj);
            } else if kj < ki {
                self.lemma_lt_places(kj, ki);
            }
        }
        let occupied = Set::new(|i: usize| self.slot_occupied(i));
        assert(occupied =~= self.order@.to_set()) by {
            assert forall|i: usize| occupied.contains(i) implies self.order@.to_set().contains(i) by {
                assert(self.order@[(self.pos@)(i)] == i);
            }
            assert forall|i: usize| self.order@.to_set().contains(i) implies occupied.contains(i) by {
                let k = choose|k: int| 0 <= k < self.order@.len() && self.order@[k] == i;
                assert(self.occ(self.order@[k]));
            }
        }
        assert(self.order@.no_duplicates()) by {
            assert forall|x: int, y: int| 0 <= x < self.order@.len() && 0 <= y < self.order@.len() && x != y implies self.order@[x] != self.order@[y] by {
                assert(self.occ(self.order@[x]) && self.occ(self.order@[y]));
            }
        }
        self.order@.unique_seq_to_set();
    }

    /// The height stored at the root, -1 for an empty tree.
    pub closed spec fn tree_height(&self) -> int {
        self.link_h(self.root)
    }

    /// The height of the tree: -1 when empty, 0 for a single node.
    pub fn height(&self) -> (r: i32)
        requires
            self.wf(),
        ensures
            r == self.tree_height(),
            r == -1 <==> self@.len() == 0,
            self@.len() >= min_nodes(r as int),
            self@.len() <= max_nodes(r as int),
    {
        proof {
            self.lemma_height_bound();
        }
        match self.root {
            None => -1,
            Some(index) => self.unwrap_occupied(index).height,
        }
    }

    /// The least element, if any.
    pub fn first_value(&self) -> (r: Option<&T>)
        requires
            self.wf(),
        ensures
            r is None <==> self@.len() == 0,
            r matches Some(v) ==> *v == self@[0],
    {
        match self.first() {
            Some(index) => {
                proof {
                    assert(self.val_at(0) == self@[0]);
                }
                Some(&self.unwrap_occupied(index).value)
            },
            None => None,
        }
    }

    /// Turns the tree into an iterator that hands out its elements in
    /// ascending order.
    pub fn into_iter(self) -> (r: IntoIter<T>)
        requires
            self.wf(),
        ensures
            r.wf(),
            r@ == self@,
    {
        IntoIter { tree: self }
    }

    /// An iterator over the elements in ascending order.
    pub fn iter(&self) -> (r: Iter<'_, T>)
        requires
            self.wf(),
        ensures
            r.wf(),
            r@ == self@,
    {
        let next = self.first();
        let r = Iter { tree: self, next };
        proof {
            if let Some(f) = next {
                assert(self.occ(self.order@[0]));
                assert((self.pos@)(f) == 0);
                assert(self@.subrange(0, self.len as int) =~= self@);
            } else {
                assert(self@ =~= Seq::<T>::empty());
            }
        }
        r
    }
}

impl<T: Ord> IntoIter<T> {
    pub closed spec fn wf(&self) -> bool {
        self.tree.wf()
    }

    /// The elements still to come, in order.
    pub closed spec fn view(&self) -> Seq<T> {
        self.tree@
    }

    /// Takes out and returns the least element left.
    pub fn next(&mut self) -> (r: Option<T>)
        requires
            old(self).wf(),
        ensures
            final(self).wf(),
            old(self)@.len() == 0 ==> r is None && final(self)@ == old(self)@,
            old(self)@.len() > 0 ==> r == Some(old(self)@[0]) && final(self)@ == old(self)@.drop_first(),
    {
        self.tree.take_first()
    }
}

impl<'a, T: Ord> Iter<'a, T> {
    pub closed spec fn wf(&self) -> bool {
        &&& self.tree.wf()
        &&& self.next matches Some(i) ==> self.tree.occ(i)
    }

    /// The elements still to come, in order.
    pub closed spec fn view(&self) -> Seq<T> {
        match self.next {
            Some(i) => self.tree@.subrange((self.tree.pos@)(i), self.tree.len as int),
            None => Seq::empty(),
        }
    }

    /// Returns the next element, and steps to its successor.
    pub fn next(&mut self) -> (r: Option<&'a T>)
        requires
            old(self).wf(),
        ensures
            final(self).wf(),
            old(self)@.len() == 0 ==> r is None && final(self)@ == old(self)@,
            old(self)@.len() > 0 ==> (r matches Some(v) && *v == old(self)@[0]) && final(self)@ == old(self)@.drop_first(),
    {
        match self.next {
            Some(index) => {
                let tree = self.tree;
                proof {
                    tree.lemma_node_facts(index);
                }
                let node = tree.unwrap_occupied(index);
                self.next = tree.after(index);
                proof {
                    let k = (tree.pos@)(index);
                    assert(tree.val_at(k) == tree@[k]);
                    if let Some(n) = self.next {
                        assert(tree.occ(tree.order@[k + 1]));
                        assert(self@ =~= old(self)@.drop_first());
                    } else {
                        assert(old(self)@.drop_first() =~= Seq::<T>::empty());
                    }
                }
                Some(&node.value)
            },
            None => None,
        }
    }
}

impl<T: Ord> crate::tree::TreeOps<T> for Tree<T> {
    open spec fn inv(&self) -> bool {
        self.wf()
    }

    open spec fn elements(&self) -> Set<T> {
        self@.to_set()
    }

    open spec fn room(&self) -> bool {
        self@.len() + 1 < i32::MAX
    }

    fn insert(&mut self, value: T) -> (r: bool) {
        Tree::insert(self, value)
    }

    fn contains(&self, value: &T) -> (r: bool) {
        Tree::contains(self, value)
    }

    fn remove(&mut self, value: &T) -> (r: bool) {
        Tree::remove(self, value)
    }

    fn len(&self) -> (r: usize) {
        proof {
            self.lemma_elements_len();
        }
        Tree::len(self)
    }
}

} // verus!
