//! A growable binary heap over an arbitrary priority rule.
//!
//! Elements live in a flat vector in the usual implicit-tree layout; the
//! comparison rule is supplied once, at construction, as a value whose
//! `ranks_above` relation the executable comparison is proved to decide.
//! Logical positions are 1-based (parent of `i` is `i / 2`, children are
//! `2 * i` and `2 * i + 1`); position `i` is stored at vector index `i - 1`.

use vstd::prelude::*;

verus! {

use core::cmp::Ordering;
use vstd::std_specs::cmp::PartialOrdSpec;

/// A priority rule: decides which of two elements must stand closer to the
/// root of the heap.
pub trait Comparator<T>: Sized {
    /// The mathematical relation that the executable comparison decides:
    /// true when `a` must stand strictly above `b`.
    spec fn ranks_above(&self, a: T, b: T) -> bool;

    /// True when the executable comparison is known to agree with
    /// `ranks_above` (a pure, deterministic comparison).
    spec fn obeys(&self) -> bool;

    /// Decide whether `a` outranks `b`.
    fn higher_priority(&self, a: &T, b: &T) -> (r: bool)
        requires
            self.obeys(),
        ensures
            r == self.ranks_above(*a, *b),
    ;
}

/// The rule is a strict weak ordering: irreflexive, asymmetric, transitive,
/// and with a transitive complement. Ties (neither direction true) are
/// allowed.
pub open spec fn strict_weak_ordering<T, C: Comparator<T>>(c: C) -> bool {
    &&& (forall|a: T| !(#[trigger] c.ranks_above(a, a)))
    &&& (forall|a: T, b: T| #[trigger] c.ranks_above(a, b) ==> !c.ranks_above(b, a))
    &&& (forall|a: T, b: T, d: T|
        #[trigger] c.ranks_above(a, b) && #[trigger] c.ranks_above(b, d) ==> c.ranks_above(a, d))
    &&& (forall|a: T, b: T, d: T|
        !(#[trigger] c.ranks_above(a, b)) && !(#[trigger] c.ranks_above(b, d))
            ==> !c.ranks_above(a, d))
}

/// The heap property over the stored sequence (0-based): no element strictly
/// outranks its parent.
pub open spec fn heap_ordered<T, C: Comparator<T>>(c: C, v: Seq<T>) -> bool {
    forall|j: int| 1 <= j < v.len() ==> !c.ranks_above(#[trigger] v[j], v[(j - 1) / 2])
}

/// The heap property everywhere except at the edge from position `h` up to
/// its parent (0-based; used while an element sifts up from `h`).
spec fn heap_ordered_except_at<T, C: Comparator<T>>(c: C, v: Seq<T>, h: int) -> bool {
    forall|j: int| 1 <= j < v.len() && j != h ==> !c.ranks_above(#[trigger] v[j], v[(j - 1) / 2])
}

/// The heap property everywhere except at the edges from the children of
/// position `h` up to `h` (0-based; used while an element sifts down at `h`).
spec fn heap_ordered_except_below<T, C: Comparator<T>>(c: C, v: Seq<T>, h: int) -> bool {
    forall|j: int|
        1 <= j < v.len() && (j - 1) / 2 != h ==> !c.ranks_above(#[trigger] v[j], v[(j - 1) / 2])
}

/// The children of position `h`, if any, do not outrank the parent of `h`:
/// the bridge that keeps the surrounding edges sound when `h` is swapped.
spec fn hole_children_bridged<T, C: Comparator<T>>(c: C, v: Seq<T>, h: int) -> bool {
    h >= 1 ==> forall|j: int|
        1 <= j < v.len() && (j - 1) / 2 == h ==> !c.ranks_above(#[trigger] v[j], v[(h - 1) / 2])
}

/// `j` lies on the path from position `h` up to the root (0-based;
/// reflexive, so `h` itself lies on it).
pub open spec fn on_root_path(h: int, j: int) -> bool
    decreases h,
{
    if h == j {
        true
    } else if h <= 0 {
        false
    } else {
        on_root_path((h - 1) / 2, j)
    }
}

/// The parent of a position on `h`'s root path is on that path too.
proof fn lemma_root_path_parent(h: int, j: int)
    requires
        on_root_path(h, j),
        j >= 1,
    ensures
        on_root_path(h, (j - 1) / 2),
    decreases h,
{
    if h == j {
        assert(on_root_path((j - 1) / 2, (j - 1) / 2));
    } else {
        lemma_root_path_parent((h - 1) / 2, j);
    }
}

/// Two positions on one root path are themselves related by ancestry.
proof fn lemma_root_paths_comparable(x: int, a: int, b: int)
    requires
        on_root_path(x, a),
        on_root_path(x, b),
    ensures
        on_root_path(a, b) || on_root_path(b, a),
    decreases x,
{
    if x == a || x == b {
    } else {
        lemma_root_paths_comparable((x - 1) / 2, a, b);
    }
}

/// Relies on `slice::swap` (reached through `Vec`'s deref): exchanges the
/// elements at the two indices and leaves every other slot unchanged.
#[verifier::external_body]
fn swap_in_vec<T>(v: &mut Vec<T>, i: usize, j: usize)
    requires
        i < old(v).len(),
        j < old(v).len(),
    ensures
        final(v)@ == old(v)@.update(i as int, old(v)@[j as int]).update(
            j as int,
            old(v)@[i as int],
        ),
{
    v.swap(i, j);
}

/// Swapping two positions of a sequence leaves its multiset of elements
/// unchanged.
proof fn lemma_swap_multiset<T>(s: Seq<T>, i: int, j: int)
    requires
        0 <= i < s.len(),
        0 <= j < s.len(),
    ensures
        s.update(i, s[j]).update(j, s[i]).to_multiset() == s.to_multiset(),
{
    broadcast use vstd::seq_lib::group_to_multiset_ensures;
    broadcast use vstd::multiset::group_multiset_axioms;

    if i == j {
        assert(s.update(i, s[j]).update(j, s[i]) =~= s);
    } else {
        assert(s.contains(s[i]));
        assert(s.contains(s[j]));
        assert(s.update(i, s[j])[j] == s[j]);
        assert(s.update(i, s[j]).update(j, s[i]).to_multiset() =~= s.to_multiset());
    }
}

/// A priority queue: a binary heap packed into a growable vector, ordered by
/// the comparison rule chosen at construction.
pub struct Heap<T, C: Comparator<T>> {
    count: usize,
    items: Vec<T>,
    comparator: C,
}

impl<T, C: Comparator<T>> View for Heap<T, C> {
    type V = Seq<T>;

    closed spec fn view(&self) -> Seq<T> {
        self.items@
    }
}

impl<T, C: Comparator<T>> Heap<T, C> {
    /// The comparison rule this heap was built with.
    pub closed spec fn ranking(&self) -> C {
        self.comparator
    }

    /// Internal shape invariant: the element count mirrors the vector length.
    pub closed spec fn inv(&self) -> bool {
        self.count == self.items@.len()
    }

    /// Well-formedness: the shape invariant, a trustworthy strict-weak-order
    /// rule, and the heap property.
    pub open spec fn wf(&self) -> bool {
        &&& self.inv()
        &&& self.ranking().obeys()
        &&& strict_weak_ordering(self.ranking())
        &&& heap_ordered(self.ranking(), self@)
    }

    /// Create an empty heap with the given comparison rule.
    pub fn new(comparator: C) -> (h: Self)
        requires
            comparator.obeys(),
            strict_weak_ordering(comparator),
        ensures
            h.wf(),
            h@ == Seq::<T>::empty(),
            h.ranking() == comparator,
    {
        Self { count: 0, items: Vec::new(), comparator }
    }

    /// The number of elements currently stored.
    pub fn len(&self) -> (n: usize)
        requires
            self.wf(),
        ensures
            n == self@.len(),
    {
        self.count
    }

    /// Whether the heap holds no elements.
    pub fn is_empty(&self) -> (e: bool)
        requires
            self.wf(),
        ensures
            e <==> self@.len() == 0,
    {
        self.len() == 0
    }

    /// The 1-based position of the parent of position `idx`.
    fn parent_idx(&self, idx: usize) -> (r: usize)
        ensures
            r == idx / 2,
    {
        idx / 2
    }

    /// The 1-based position of the left child of position `idx`.
    fn left_child_idx(&self, idx: usize) -> (r: usize)
        requires
            2 * idx <= usize::MAX,
        ensures
            r == 2 * idx,
    {
        idx * 2
    }

    /// The 1-based position of the right child of position `idx`.
    fn right_child_idx(&self, idx: usize) -> (r: usize)
        requires
            2 * idx + 1 <= usize::MAX,
        ensures
            r == 2 * idx + 1,
    {
        self.left_child_idx(idx) + 1
    }

    /// Append a value, then sift it up until it no longer outranks its
    /// parent.
    pub fn add(&mut self, value: T)
        requires
            old(self).wf(),
            old(self)@.len() < usize::MAX,
        ensures
            final(self).wf(),
            final(self).ranking() == old(self).ranking(),
            final(self)@.len() == old(self)@.len() + 1,
            final(self)@.to_multiset() == old(self)@.to_multiset().insert(value),
    {
        broadcast use vstd::seq_lib::group_to_multiset_ensures;

        self.count += 1;
        self.items.push(value);
        proof {
            let c = self.comparator;
            let w = self.items@;
            let h = w.len() - 1;
            assert forall|j: int| #![trigger w[j]] 1 <= j < w.len() && j != h implies !c.ranks_above(
                w[j],
                w[(j - 1) / 2],
            ) by {
                assert(w[j] == old(self)@[j]);
                assert(w[(j - 1) / 2] == old(self)@[(j - 1) / 2]);
            }
            assert(heap_ordered_except_at(c, w, h));
            assert(hole_children_bridged(c, w, h));
        }
        self.bubble_up(self.count);
    }

    /// Sift the element at 1-based position `idx` up toward the root while it
    /// outranks its parent.
    fn bubble_up(&mut self, idx: usize)
        requires
            old(self).count == old(self).items@.len(),
            old(self).comparator.obeys(),
            strict_weak_ordering(old(self).comparator),
            1 <= idx <= old(self).items@.len(),
            heap_ordered_except_at(old(self).comparator, old(self).items@, idx - 1),
            hole_children_bridged(old(self).comparator, old(self).items@, idx - 1),
        ensures
            final(self).count == old(self).count,
            final(self).comparator == old(self).comparator,
            final(self).items@.len() == old(self).items@.len(),
            final(self).items@.to_multiset() == old(self).items@.to_multiset(),
            heap_ordered(final(self).comparator, final(self).items@),
            forall|j: int|
                0 <= j < old(self).items@.len() && !on_root_path(idx - 1, j)
                    ==> final(self).items@[j] == old(self).items@[j],
    {
        let ghost h0: int = idx - 1;
        let mut idx = idx;
        while idx > 1
            invariant
                self.count == old(self).count,
                self.comparator == old(self).comparator,
                self.count == self.items@.len(),
                self.comparator.obeys(),
                strict_weak_ordering(self.comparator),
                1 <= idx <= self.items@.len(),
                heap_ordered_except_at(self.comparator, self.items@, idx - 1),
                hole_children_bridged(self.comparator, self.items@, idx - 1),
                self.items@.len() == old(self).items@.len(),
                self.items@.to_multiset() == old(self).items@.to_multiset(),
                on_root_path(h0, idx - 1),
                forall|j: int|
                    0 <= j < self.items@.len() && (#[trigger] self.items@[j]) != old(
                        self,
                    ).items@[j] ==> on_root_path(h0, j),
            ensures
                self.count == old(self).count,
                self.comparator == old(self).comparator,
                self.items@.len() == old(self).items@.len(),
                self.items@.to_multiset() == old(self).items@.to_multiset(),
                heap_ordered(self.comparator, self.items@),
                forall|j: int|
                    0 <= j < self.items@.len() && (#[trigger] self.items@[j]) != old(
                        self,
                    ).items@[j] ==> on_root_path(h0, j),
            decreases idx,
        {
            let parent_idx = self.parent_idx(idx);
            if self.comparator.higher_priority(&self.items[idx - 1], &self.items[parent_idx - 1]) {
                proof {
                    let c = self.comparator;
                    let v = self.items@;
                    let h = idx - 1;
                    let pp = parent_idx - 1;
                    assert(pp == (h - 1) / 2);
                    lemma_swap_multiset(v, h, pp);
                    let w = v.update(h, v[pp]).update(pp, v[h]);
                    assert forall|j: int| #![trigger w[j]] 1 <= j < w.len() && j != pp implies !c.ranks_above(
                        w[j],
                        w[(j - 1) / 2],
                    ) by {
                        let p = (j - 1) / 2;
                        if j == h {
                            assert(!c.ranks_above(v[pp], v[h]));
                        } else if p == pp {
                            if c.ranks_above(v[j], v[h]) {
                                assert(c.ranks_above(v[j], v[pp]));
                                assert(false);
                            }
                        } else if p == h {
                            assert(!c.ranks_above(v[j], v[(h - 1) / 2]));
                        } else {
                            assert(w[j] == v[j] && w[p] == v[p]);
                        }
                    }
                    assert(heap_ordered_except_at(c, w, pp));
                    if pp >= 1 {
                        let gp = (pp - 1) / 2;
                        assert forall|j: int| #![trigger w[j]] 1 <= j < w.len() && (j - 1) / 2 == pp
                            implies !c.ranks_above(w[j], w[gp]) by {
                            assert(gp < pp < h);
                            assert(w[gp] == v[gp]);
                            if j == h {
                                assert(!c.ranks_above(v[pp], v[gp]));
                            } else {
                                assert(!c.ranks_above(v[j], v[pp]));
                                assert(!c.ranks_above(v[pp], v[gp]));
                            }
                        }
                    }
                    assert(hole_children_bridged(c, w, pp));
                    lemma_root_path_parent(h0, h);
                    assert forall|j: int| #![trigger w[j]]
                        0 <= j < w.len() && w[j] != old(self).items@[j] implies on_root_path(
                        h0,
                        j,
                    ) by {
                        if j != h && j != pp {
                            assert(w[j] == v[j]);
                        }
                    }
                }
                swap_in_vec(&mut self.items, idx - 1, parent_idx - 1);
                idx = parent_idx;
            } else {
                proof {
                    let c = self.comparator;
                    let v = self.items@;
                    let h = idx - 1;
                    assert((h - 1) / 2 == parent_idx - 1);
                    assert forall|j: int| #![trigger v[j]] 1 <= j < v.len() implies !c.ranks_above(
                        v[j],
                        v[(j - 1) / 2],
                    ) by {
                        if j != h {
                            assert(!c.ranks_above(v[j], v[(j - 1) / 2]));
                        }
                    }
                }
                break ;
            }
        }
    }

    /// The 1-based position of the higher-priority child of position `idx`:
    /// the left child when the right one is absent or when neither child
    /// outranks the other, otherwise whichever outranks its sibling.
    fn smallest_child_idx(&self, idx: usize) -> (r: usize)
        requires
            self.count == self.items@.len(),
            self.comparator.obeys(),
            1 <= idx,
            2 * idx <= self.count,
        ensures
            r == 2 * idx || r == 2 * idx + 1,
            r <= self.count,
            2 * idx + 1 > self.count ==> r == 2 * idx,
            2 * idx + 1 <= self.count && self.comparator.ranks_above(
                self.items@[2 * idx],
                self.items@[2 * idx - 1],
            ) ==> r == 2 * idx + 1,
            2 * idx + 1 <= self.count && !self.comparator.ranks_above(
                self.items@[2 * idx],
                self.items@[2 * idx - 1],
            ) ==> r == 2 * idx,
    {
        let left_idx = self.left_child_idx(idx);
        if left_idx >= self.count {
            return left_idx;
        }
        let right_idx = self.right_child_idx(idx);
        if self.comparator.higher_priority(&self.items[right_idx - 1], &self.items[left_idx - 1]) {
            right_idx
        } else {
            left_idx
        }
    }

    /// Sift the element at 1-based position `idx` down toward the leaves
    /// while some child outranks it, always descending into the
    /// higher-priority child.
    fn bubble_down(&mut self, idx: usize)
        requires
            old(self).count == old(self).items@.len(),
            old(self).comparator.obeys(),
            strict_weak_ordering(old(self).comparator),
            1 <= idx,
            heap_ordered_except_below(old(self).comparator, old(self).items@, idx - 1),
            hole_children_bridged(old(self).comparator, old(self).items@, idx - 1),
        ensures
            final(self).count == old(self).count,
            final(self).comparator == old(self).comparator,
            final(self).items@.len() == old(self).items@.len(),
            final(self).items@.to_multiset() == old(self).items@.to_multiset(),
            heap_ordered(final(self).comparator, final(self).items@),
            forall|j: int|
                0 <= j < old(self).items@.len() && !on_root_path(j, idx - 1)
                    ==> final(self).items@[j] == old(self).items@[j],
            forall|j1: int, j2: int|
                0 <= j1 < old(self).items@.len() && 0 <= j2 < old(self).items@.len()
                    && final(self).items@[j1] != old(self).items@[j1] && final(self).items@[j2]
                    != old(self).items@[j2] ==> on_root_path(j1, j2) || on_root_path(j2, j1),
    {
        let ghost h0: int = idx - 1;
        let mut idx = idx;
        while idx <= self.count / 2
            invariant
                self.count == old(self).count,
                self.comparator == old(self).comparator,
                self.count == self.items@.len(),
                self.comparator.obeys(),
                strict_weak_ordering(self.comparator),
                1 <= idx,
                heap_ordered_except_below(self.comparator, self.items@, idx - 1),
                hole_children_bridged(self.comparator, self.items@, idx - 1),
                self.items@.len() == old(self).items@.len(),
                self.items@.to_multiset() == old(self).items@.to_multiset(),
                on_root_path(idx - 1, h0),
                forall|j: int|
                    0 <= j < self.items@.len() && (#[trigger] self.items@[j]) != old(
                        self,
                    ).items@[j] ==> on_root_path(j, h0) && on_root_path(idx - 1, j),
            ensures
                self.count == old(self).count,
                self.comparator == old(self).comparator,
                self.items@.len() == old(self).items@.len(),
                self.items@.to_multiset() == old(self).items@.to_multiset(),
                heap_ordered(self.comparator, self.items@),
                forall|j: int|
                    0 <= j < self.items@.len() && (#[trigger] self.items@[j]) != old(
                        self,
                    ).items@[j] ==> on_root_path(j, h0) && on_root_path(idx - 1, j),
            decreases self.count - idx,
        {
            let child_idx = self.smallest_child_idx(idx);
            if self.comparator.higher_priority(&self.items[child_idx - 1], &self.items[idx - 1]) {
                proof {
                    let c = self.comparator;
                    let v = self.items@;
                    let h = idx - 1;
                    let ch = child_idx - 1;
                    assert((ch - 1) / 2 == h);
                    lemma_swap_multiset(v, h, ch);
                    let w = v.update(h, v[ch]).update(ch, v[h]);
                    assert forall|j: int| #![trigger w[j]] 1 <= j < w.len() && (j - 1) / 2 != ch
                        implies !c.ranks_above(w[j], w[(j - 1) / 2]) by {
                        let p = (j - 1) / 2;
                        if j == ch {
                            assert(!c.ranks_above(v[h], v[ch]));
                        } else if p == h && j != ch {
                            if c.ranks_above(v[j], v[ch]) {
                                assert(false);
                            }
                        } else if j == h {
                            assert(h >= 1);
                            assert(!c.ranks_above(v[ch], v[(h - 1) / 2]));
                        } else {
                            assert(w[j] == v[j] && w[p] == v[p]);
                        }
                    }
                    assert(heap_ordered_except_below(c, w, ch));
                    assert forall|j: int| #![trigger w[j]] 1 <= j < w.len() && (j - 1) / 2 == ch
                        implies !c.ranks_above(w[j], w[(ch - 1) / 2]) by {
                        assert(h < ch < j);
                        assert(w[j] == v[j] && w[h] == v[ch]);
                        assert(!c.ranks_above(v[j], v[ch]));
                    }
                    assert(hole_children_bridged(c, w, ch));
                    assert(on_root_path(ch, h0));
                    assert forall|j: int| #![trigger w[j]]
                        0 <= j < w.len() && w[j] != old(self).items@[j] implies on_root_path(
                        j,
                        h0,
                    ) && on_root_path(ch, j) by {
                        if j != h && j != ch {
                            assert(w[j] == v[j]);
                            assert(on_root_path(ch, j));
                        } else if j == h {
                            assert(on_root_path(h, h));
                            assert(on_root_path(ch, h));
                        }
                    }
                }
                swap_in_vec(&mut self.items, idx - 1, child_idx - 1);
                idx = child_idx;
            } else {
                proof {
                    let c = self.comparator;
                    let v = self.items@;
                    let h = idx - 1;
                    let ch = child_idx - 1;
                    assert forall|j: int| #![trigger v[j]] 1 <= j < v.len() implies !c.ranks_above(
                        v[j],
                        v[(j - 1) / 2],
                    ) by {
                        if (j - 1) / 2 == h && j != ch {
                            assert(!c.ranks_above(v[ch], v[h]));
                            assert(j == 2 * idx - 1 || j == 2 * idx);
                        }
                    }
                }
                break ;
            }
        }
        proof {
            assert forall|j1: int, j2: int|
                0 <= j1 < old(self).items@.len() && 0 <= j2 < old(self).items@.len()
                    && self.items@[j1] != old(self).items@[j1] && self.items@[j2] != old(
                    self,
                ).items@[j2] implies on_root_path(j1, j2) || on_root_path(j2, j1) by {
                lemma_root_paths_comparable(idx - 1, j1, j2);
            }
        }
    }

    /// Remove and return the current top, or signal exhaustion: `None` on an
    /// empty heap, which it leaves untouched. Every element the heap held
    /// ranks no higher than the returned one.
    pub fn next(&mut self) -> (top: Option<T>)
        requires
            old(self).wf(),
        ensures
            final(self).wf(),
            final(self).ranking() == old(self).ranking(),
            old(self)@.len() == 0 ==> top == None::<T> && *final(self) == *old(self),
            old(self)@.len() > 0 ==> {
                &&& top == Some(old(self)@[0])
                &&& final(self)@.len() == old(self)@.len() - 1
                &&& final(self)@.to_multiset() == old(self)@.to_multiset().remove(old(self)@[0])
                &&& forall|j: int|
                    0 <= j < old(self)@.len() ==> !old(self).ranking().ranks_above(
                        #[trigger] old(self)@[j],
                        old(self)@[0],
                    )
            },
    {
        if self.is_empty() {
            None
        } else {
            let root = self.items.swap_remove(0);
            self.count -= 1;
            proof {
                broadcast use vstd::seq_lib::group_to_multiset_ensures;
                broadcast use vstd::multiset::group_multiset_axioms;
                broadcast use vstd::multiset::group_multiset_properties;

                let c = self.comparator;
                let v = old(self)@;
                let w = self.items@;
                assert forall|j: int| 0 <= j < v.len() implies !c.ranks_above(
                    #[trigger] v[j],
                    v[0],
                ) by {
                    lemma_root_foremost(c, v, j);
                }
                if v.len() == 1 {
                    assert(w =~= v.remove(0));
                } else {
                    let s1 = v.update(0, v.last());
                    assert(w =~= s1.remove(s1.len() - 1));
                    assert(s1[s1.len() - 1] == v.last());
                    assert(v.contains(v[0]));
                    assert(w.to_multiset() =~= v.to_multiset().remove(v[0]));
                }
                assert forall|j: int| #![trigger w[j]] 1 <= j < w.len() && (j - 1) / 2 != 0
                    implies !c.ranks_above(w[j], w[(j - 1) / 2]) by {
                    assert(w[j] == v[j] && w[(j - 1) / 2] == v[(j - 1) / 2]);
                }
                assert(heap_ordered_except_below(c, w, 0));
                assert(hole_children_bridged(c, w, 0));
            }
            self.bubble_down(1);
            Some(root)
        }
    }
}

/// In a well-ordered heap the root outranks, or ties with, every element: no
/// stored element strictly outranks the one at the root.
pub proof fn lemma_root_foremost<T, C: Comparator<T>>(c: C, v: Seq<T>, j: int)
    requires
        strict_weak_ordering(c),
        heap_ordered(c, v),
        0 <= j < v.len(),
    ensures
        !c.ranks_above(v[j], v[0]),
    decreases j,
{
    if j >= 1 {
        lemma_root_foremost(c, v, (j - 1) / 2);
    }
}

/// Sorted-extraction law: any element still stored after the top was removed
/// does not outrank that removed top; under a min-oriented rule repeated
/// extraction therefore yields a non-decreasing sequence, and under a
/// max-oriented rule a non-increasing one.
pub proof fn lemma_sorted_extraction<T, C: Comparator<T>>(h: Heap<T, C>, x: T)
    requires
        h.wf(),
        h@.len() > 0,
        h@.to_multiset().remove(h@[0]).count(x) > 0,
    ensures
        !h.ranking().ranks_above(x, h@[0]),
{
    broadcast use vstd::seq_lib::group_to_multiset_ensures;
    broadcast use vstd::multiset::group_multiset_axioms;
    broadcast use vstd::multiset::group_multiset_properties;

    assert(h@.to_multiset().count(x) > 0);
    assert(h@.contains(x));
    let j = choose|i: int| 0 <= i < h@.len() && h@[i] == x;
    lemma_root_foremost(h.ranking(), h@, j);
}

/// Successive extractions never go back up: when one heap holds exactly what
/// another held minus its top, the later top does not outrank the earlier
/// one. Draining a heap therefore yields its elements in priority order.
pub proof fn lemma_extraction_monotone<T, C: Comparator<T>>(h1: Heap<T, C>, h2: Heap<T, C>)
    requires
        h1.wf(),
        h1@.len() > 0,
        h2@.len() > 0,
        h2@.to_multiset() == h1@.to_multiset().remove(h1@[0]),
    ensures
        !h1.ranking().ranks_above(h2@[0], h1@[0]),
{
    broadcast use vstd::seq_lib::group_to_multiset_ensures;

    assert(h2@.contains(h2@[0]));
    assert(h2@.to_multiset().count(h2@[0]) > 0);
    lemma_sorted_extraction(h1, h2@[0]);
}

/// A min-oriented rule over a type's natural order: an element outranks
/// another when it is strictly smaller.
pub struct MinComparator;

impl<T: PartialOrd> Comparator<T> for MinComparator {
    open spec fn ranks_above(&self, a: T, b: T) -> bool {
        a.partial_cmp_spec(&b) == Some(Ordering::Less)
    }

    open spec fn obeys(&self) -> bool {
        T::obeys_partial_cmp_spec()
    }

    fn higher_priority(&self, a: &T, b: &T) -> (r: bool) {
        *a < *b
    }
}

/// A max-oriented rule over a type's natural order: an element outranks
/// another when it is strictly greater.
pub struct MaxComparator;

impl<T: PartialOrd> Comparator<T> for MaxComparator {
    open spec fn ranks_above(&self, a: T, b: T) -> bool {
        a.partial_cmp_spec(&b) == Some(Ordering::Greater)
    }

    open spec fn obeys(&self) -> bool {
        T::obeys_partial_cmp_spec()
    }

    fn higher_priority(&self, a: &T, b: &T) -> (r: bool) {
        *a > *b
    }
}

impl<T: Ord> Heap<T, MinComparator> {
    /// Create a new MinHeap
    pub fn new_min() -> (h: Self)
        requires
            T::obeys_partial_cmp_spec(),
            strict_weak_ordering::<T, MinComparator>(MinComparator),
        ensures
            h.wf(),
            h@ == Seq::<T>::empty(),
            h.ranking() == MinComparator,
    {
        Self::new(MinComparator)
    }
}

impl<T: Ord> Heap<T, MaxComparator> {
    /// Create a new MaxHeap
    pub fn new_max() -> (h: Self)
        requires
            T::obeys_partial_cmp_spec(),
            strict_weak_ordering::<T, MaxComparator>(MaxComparator),
        ensures
            h.wf(),
            h@ == Seq::<T>::empty(),
            h.ranking() == MaxComparator,
    {
        Self::new(MaxComparator)
    }
}

/// Factory for heaps over the natural order, smallest element first.
pub struct MinHeap;

impl MinHeap {
    /// Create a new MinHeap
    pub fn new<T: Ord>() -> (h: Heap<T, MinComparator>)
        requires
            T::obeys_partial_cmp_spec(),
            strict_weak_ordering::<T, MinComparator>(MinComparator),
        ensures
            h.wf(),
            h@ == Seq::<T>::empty(),
            h.ranking() == MinComparator,
    {
        Heap::new(MinComparator)
    }
}

/// Factory for heaps over the natural order, greatest element first.
pub struct MaxHeap;

impl MaxHeap {
    /// Create a new MaxHeap
    pub fn new<T: Ord>() -> (h: Heap<T, MaxComparator>)
        requires
            T::obeys_partial_cmp_spec(),
            strict_weak_ordering::<T, MaxComparator>(MaxComparator),
        ensures
            h.wf(),
            h@ == Seq::<T>::empty(),
            h.ranking() == MaxComparator,
    {
        Heap::new(MaxComparator)
    }
}

} // verus!
