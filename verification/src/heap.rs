//! An array-backed binary min-heap over a totally-ordered element type.
//!
//! The array `data` satisfies the heap shape: every element is greater
//! than or equal to its parent at index `(i - 1) / 2`.  Besides push and
//! pop, the heap supports removal through an index, a bulk map over all
//! elements followed by a full rebuild, and a scan that mutates the first
//! matching element and then restores the shape with one localized fix.

use vstd::prelude::*;

verus! {

broadcast use vstd::seq_lib::group_to_multiset_ensures;

/// The order the heap is built over.  `le_spec` must be total and
/// transitive; `less` is the strict comparison used by the executable
/// code, and `duplicate` produces an exact copy for snapshots.
pub trait TotalOrdered: View + Sized {
    spec fn le_spec(self, other: Self) -> bool;

    proof fn lemma_le_total(a: Self, b: Self)
        ensures
            a.le_spec(b) || b.le_spec(a),
    ;

    proof fn lemma_le_trans(a: Self, b: Self, c: Self)
        requires
            a.le_spec(b),
            b.le_spec(c),
        ensures
            a.le_spec(c),
    ;

    /// Strict order: `a.less(b)` iff `b ≤ a` does not hold.
    fn less(&self, other: &Self) -> (r: bool)
        ensures
            r == !other.le_spec(*self),
    ;

    /// A copy with the same mathematical content.
    fn duplicate(&self) -> (r: Self)
        ensures
            r@ == self@,
    ;
}

/// Index of the parent of a (positive) heap index.
pub open spec fn pidx(i: int) -> int {
    (i - 1) / 2
}

/// Every parent-child pair among the first `n` elements is ordered.
pub open spec fn heap_upto<T: TotalOrdered>(s: Seq<T>, n: int) -> bool {
    forall|c: int| 0 < c < n ==> s[pidx(c)].le_spec(#[trigger] s[c])
}

/// The whole sequence is heap-shaped.
pub open spec fn is_heap<T: TotalOrdered>(s: Seq<T>) -> bool {
    heap_upto(s, s.len() as int)
}

/// Among the first `n` elements, every parent-child pair not involving
/// index `j` is ordered, and `j`'s parent is ordered below `j`'s
/// children: the shape that one perturbed element at `j` leaves behind.
pub open spec fn heap_except_around<T: TotalOrdered>(s: Seq<T>, n: int, j: int) -> bool {
    &&& (forall|c: int|
        0 < c < n && c != j && pidx(c) != j ==> s[pidx(c)].le_spec(#[trigger] s[c]))
    &&& (0 < j ==> forall|c: int| 0 < c < n && pidx(c) == j ==> s[pidx(j)].le_spec(#[trigger] s[c]))
}

/// Among the first `n` elements, every parent-child pair is ordered
/// except possibly the one from `j`'s parent down to `j`.
pub open spec fn heap_except_above<T: TotalOrdered>(s: Seq<T>, n: int, j: int) -> bool {
    forall|c: int| 0 < c < n && c != j ==> s[pidx(c)].le_spec(#[trigger] s[c])
}

/// In a heap-shaped prefix the root is below every element: the heap
/// invariant in its user-facing form.
pub proof fn lemma_root_min<T: TotalOrdered>(s: Seq<T>, n: int, j: int)
    requires
        heap_upto(s, n),
        n <= s.len(),
        0 <= j < n,
    ensures
        s[0].le_spec(s[j]),
    decreases j,
{
    if j == 0 {
        T::lemma_le_total(s[0], s[0]);
    } else {
        lemma_root_min(s, n, pidx(j));
        T::lemma_le_trans(s[0], s[pidx(j)], s[j]);
    }
}

/// The root of a heap is less than or equal to every element.
pub proof fn lemma_heap_root_is_min<T: TotalOrdered>(s: Seq<T>, j: int)
    requires
        is_heap(s),
        0 <= j < s.len(),
    ensures
        s[0].le_spec(s[j]),
{
    lemma_root_min(s, s.len() as int, j);
}

/// Popping twice from a heap yields elements in non-decreasing order:
/// whatever heap holds the contents of `s` minus one occurrence of its
/// root, the new root is above the old one.
pub proof fn lemma_pop_order<T: TotalOrdered>(s: Seq<T>, t: Seq<T>)
    requires
        is_heap(s),
        is_heap(t),
        s.len() > 0,
        t.len() > 0,
        t.to_multiset() == s.to_multiset().remove(s[0]),
    ensures
        s[0].le_spec(t[0]),
{
    assert(t.contains(t[0]));
    assert(t.to_multiset().count(t[0]) > 0);
    assert(s.to_multiset().count(t[0]) > 0);
    assert(s.contains(t[0]));
    let j = choose|j: int| 0 <= j < s.len() && s[j] == t[0];
    lemma_root_min(s, s.len() as int, j);
}

/// Overwriting one position of a heap leaves the shape perturbed only
/// around that position.
pub proof fn lemma_update_keeps_shape<T: TotalOrdered>(s: Seq<T>, j: int, v: T)
    requires
        is_heap(s),
        0 <= j < s.len(),
    ensures
        heap_except_around(s.update(j, v), s.len() as int, j),
{
    let s2 = s.update(j, v);
    assert forall|c: int| 0 < c < s.len() && c != j && pidx(c) != j implies s2[pidx(
        c,
    )].le_spec(#[trigger] s2[c]) by {
        assert(s[pidx(c)].le_spec(s[c]));
    }
    if 0 < j {
        assert forall|c: int| 0 < c < s.len() && pidx(c) == j implies s2[pidx(j)].le_spec(
            #[trigger] s2[c],
        ) by {
            assert(s[pidx(j)].le_spec(s[j]));
            assert(s[j].le_spec(s[c]));
            T::lemma_le_trans(s[pidx(j)], s[j], s[c]);
        }
    }
}

/// Swapping two positions of a sequence keeps its contents.
pub proof fn lemma_swap_multiset<T>(s: Seq<T>, i: int, j: int)
    requires
        0 <= i < s.len(),
        0 <= j < s.len(),
    ensures
        s.update(i, s[j]).update(j, s[i]).to_multiset() == s.to_multiset(),
{
    let s1 = s.update(i, s[j]);
    let s2 = s1.update(j, s[i]);
    if i == j {
        assert(s2 =~= s);
    } else {
        assert(s1[j] == s[j]);
        assert(s1.to_multiset() == s.to_multiset().insert(s[j]).remove(s[i]));
        assert(s2.to_multiset() == s1.to_multiset().insert(s[i]).remove(s[j]));
        assert(s2.to_multiset() =~= s.to_multiset());
    }
}

pub struct MinHeap<T> {
    data: Vec<T>,
}

impl<T> View for MinHeap<T> {
    type V = Seq<T>;

    closed spec fn view(&self) -> Seq<T> {
        self.data@
    }
}

impl<T: TotalOrdered> MinHeap<T> {
    /// An empty heap.
    pub fn new() -> (r: MinHeap<T>)
        ensures
            r@ =~= Seq::<T>::empty(),
            is_heap(r@),
    {
        MinHeap { data: Vec::new() }
    }

    /// The number of elements currently held.
    pub fn len(&self) -> (r: usize)
        ensures
            r == self@.len(),
    {
        self.data.len()
    }

    /// A copy of the backing array, in heap order: element for element
    /// the same mathematical contents.
    pub fn list(&self) -> (r: Vec<T>)
        ensures
            r@.len() == self@.len(),
            forall|i: int| 0 <= i < r@.len() ==> (#[trigger] r@[i])@ == self@[i]@,
    {
        let mut out: Vec<T> = Vec::new();
        let n = self.data.len();
        let mut i: usize = 0;
        while i < n
            invariant
                i <= n,
                n == self@.len(),
                out@.len() == i,
                forall|k: int| 0 <= k < i ==> (#[trigger] out@[k])@ == self@[k]@,
            decreases n - i,
        {
            out.push(self.data[i].duplicate());
            i = i + 1;
        }
        out
    }

    /// A reference to the least element, if any.
    pub fn peek(&self) -> (r: Option<&T>)
        ensures
            self@.len() == 0 ==> r is None,
            self@.len() > 0 ==> r is Some,
            r matches Some(x) ==> *x == self@[0],
    {
        if self.data.len() == 0 {
            None
        } else {
            Some(&self.data[0])
        }
    }

    fn swap_at(&mut self, i: usize, j: usize)
        requires
            i < j,
            j < old(self)@.len(),
        ensures
            final(self)@ == old(self)@.update(i as int, old(self)@[j as int]).update(
                j as int,
                old(self)@[i as int],
            ),
            final(self)@.to_multiset() == old(self)@.to_multiset(),
            final(self)@.len() == old(self)@.len(),
    {
        proof {
            lemma_swap_multiset(self@, i as int, j as int);
        }
        let ghost s0 = self@;
        let x = self.data.remove(j);
        let y = self.data.remove(i);
        self.data.insert(i, x);
        self.data.insert(j, y);
        proof {
            assert(self@ =~= s0.update(i as int, s0[j as int]).update(j as int, s0[i as int]));
        }
    }

    /// Sift the element at `i0` down within the first `n` positions,
    /// reporting whether it moved.
    fn down(&mut self, i0: usize, n: usize) -> (moved: bool)
        requires
            n <= old(self)@.len(),
            i0 <= n,
            heap_except_around(old(self)@, n as int, i0 as int),
        ensures
            final(self)@.len() == old(self)@.len(),
            forall|k: int| n <= k < final(self)@.len() ==> final(self)@[k] == old(self)@[k],
            final(self)@.to_multiset() == old(self)@.to_multiset(),
            moved ==> heap_upto(final(self)@, n as int),
            !moved ==> final(self)@ == old(self)@,
            !moved ==> forall|c: int|
                0 < c < n && pidx(c) == i0 ==> final(self)@[i0 as int].le_spec(
                    #[trigger] final(self)@[c],
                ),
    {
        let ghost s0 = self@;
        let mut i = i0;
        loop
            invariant
                i0 <= i <= n,
                n <= self@.len(),
                self@.len() == s0.len(),
                forall|k: int| n <= k < self@.len() ==> self@[k] == s0[k],
                self@.to_multiset() == s0.to_multiset(),
                heap_except_around(self@, n as int, i as int),
                i != i0 ==> 0 < i < n && self@[pidx(i as int)].le_spec(self@[i as int]),
                i == i0 ==> self@ == s0,
            ensures
                i0 <= i <= n,
                n <= self@.len(),
                self@.len() == s0.len(),
                forall|k: int| n <= k < self@.len() ==> self@[k] == s0[k],
                self@.to_multiset() == s0.to_multiset(),
                heap_except_around(self@, n as int, i as int),
                i != i0 ==> 0 < i < n && self@[pidx(i as int)].le_spec(self@[i as int]),
                i == i0 ==> self@ == s0,
                forall|c: int|
                    0 < c < n && pidx(c) == i ==> self@[i as int].le_spec(#[trigger] self@[c]),
            decreases n - i,
        {
            if i >= n / 2 {
                proof {
                    assert forall|c: int| 0 < c < n && pidx(c) == i implies self@[i as int].le_spec(
                        #[trigger] self@[c],
                    ) by {
                        assert(c >= 2 * i + 1 >= n);
                    }
                }
                break ;
            }
            let j1 = 2 * i + 1;
            let j2 = j1 + 1;
            let mut j = j1;
            if j2 < n && self.data[j2].less(&self.data[j1]) {
                j = j2;
            }
            proof {
                // j is the smaller of the existing children of i
                if j == j1 && j2 < n {
                    T::lemma_le_total(self@[j1 as int], self@[j2 as int]);
                }
                if j == j2 {
                    T::lemma_le_total(self@[j2 as int], self@[j1 as int]);
                }
            }
            if !(self.data[j].less(&self.data[i])) {
                proof {
                    assert(self@[i as int].le_spec(self@[j as int]));
                    assert forall|c: int| 0 < c < n && pidx(c) == i implies self@[i as int].le_spec(
                        #[trigger] self@[c],
                    ) by {
                        if c != j {
                            assert(self@[j as int].le_spec(self@[c]));
                            T::lemma_le_trans(self@[i as int], self@[j as int], self@[c]);
                        }
                    }
                }
                break ;
            }
            proof {
                T::lemma_le_total(self@[i as int], self@[j as int]);
            }
            let ghost sp = self@;
            self.swap_at(i, j);
            proof {
                let si = i as int;
                let sj = j as int;
                let s2 = self@;
                assert(s2[si] == sp[sj] && s2[sj] == sp[si]);
                assert(sp[sj].le_spec(sp[si]));
                assert forall|c: int| 0 < c < n && c != sj && pidx(c) != sj implies s2[pidx(
                    c,
                )].le_spec(#[trigger] s2[c]) by {
                    if c == si {
                        // pair above the vacated slot: from the anchor at i
                        assert(0 < si);
                        assert(sp[pidx(si)].le_spec(sp[sj]));
                    } else if pidx(c) == si {
                        // the sibling of j: j was chosen as the smaller child
                        assert(sp[sj].le_spec(sp[c]));
                    } else {
                        assert(sp[pidx(c)].le_spec(sp[c]));
                    }
                }
                assert forall|c: int| 0 < c < n && pidx(c) == sj implies s2[pidx(sj)].le_spec(
                    #[trigger] s2[c],
                ) by {
                    // grandchildren keep their old values; j's pairs held in sp
                    assert(sp[sj].le_spec(sp[c]));
                }
            }
            i = j;
        }
        let moved = i > i0;
        proof {
            if moved {
                assert forall|c: int| 0 < c < n implies self@[pidx(c)].le_spec(
                    #[trigger] self@[c],
                ) by {
                    if c == i as int {
                        assert(self@[pidx(i as int)].le_spec(self@[i as int]));
                    } else if pidx(c) == i as int {
                        assert(self@[i as int].le_spec(self@[c]));
                    } else {
                        assert(self@[pidx(c)].le_spec(self@[c]));
                    }
                }
            }
        }
        moved
    }

    /// Sift the element at `j0` up; only the first `n` positions are
    /// read or written.
    fn up(&mut self, j0: usize, n: usize)
        requires
            j0 < n,
            n <= old(self)@.len(),
            heap_except_above(old(self)@, n as int, j0 as int),
            0 < j0 ==> forall|c: int|
                0 < c < n && pidx(c) == j0 ==> old(self)@[pidx(j0 as int)].le_spec(
                    #[trigger] old(self)@[c],
                ),
        ensures
            final(self)@.len() == old(self)@.len(),
            forall|k: int| n <= k < final(self)@.len() ==> final(self)@[k] == old(self)@[k],
            final(self)@.to_multiset() == old(self)@.to_multiset(),
            heap_upto(final(self)@, n as int),
    {
        let ghost s0 = self@;
        let mut j = j0;
        loop
            invariant
                j <= j0 < n,
                n <= self@.len(),
                self@.len() == s0.len(),
                forall|k: int| n <= k < self@.len() ==> self@[k] == s0[k],
                self@.to_multiset() == s0.to_multiset(),
                heap_except_above(self@, n as int, j as int),
                0 < j ==> forall|c: int|
                    0 < c < n && pidx(c) == j ==> self@[pidx(j as int)].le_spec(
                        #[trigger] self@[c],
                    ),
            ensures
                self@.len() == s0.len(),
                forall|k: int| n <= k < self@.len() ==> self@[k] == s0[k],
                self@.to_multiset() == s0.to_multiset(),
                heap_upto(self@, n as int),
            decreases j,
        {
            if j == 0 {
                proof {
                    assert forall|c: int| 0 < c < n implies self@[pidx(c)].le_spec(
                        #[trigger] self@[c],
                    ) by {
                        assert(c != 0);
                    }
                }
                break ;
            }
            let i = (j - 1) / 2;
            proof {
                assert(i as int == pidx(j as int));
                assert(i < j);
            }
            if !(self.data[j].less(&self.data[i])) {
                proof {
                    assert(self@[i as int].le_spec(self@[j as int]));
                    assert forall|c: int| 0 < c < n implies self@[pidx(c)].le_spec(
                        #[trigger] self@[c],
                    ) by {
                        if c != j as int {
                            assert(self@[pidx(c)].le_spec(self@[c]));
                        }
                    }
                }
                break ;
            }
            proof {
                T::lemma_le_total(self@[i as int], self@[j as int]);
            }
            let ghost sp = self@;
            self.swap_at(i, j);
            proof {
                let si = i as int;
                let sj = j as int;
                let s2 = self@;
                assert(sp[sj].le_spec(sp[si]));
                assert forall|c: int| 0 < c < n && c != si implies s2[pidx(c)].le_spec(
                    #[trigger] s2[c],
                ) by {
                    if c == sj {
                        // the rising element is below what it displaced
                        assert(s2[si] == sp[sj] && s2[sj] == sp[si]);
                    } else if pidx(c) == si {
                        // sibling of j: rising element is below it by transitivity
                        assert(sp[si].le_spec(sp[c]));
                        T::lemma_le_trans(sp[sj], sp[si], sp[c]);
                    } else if pidx(c) == sj {
                        // children of j now sit under the displaced parent
                        assert(sp[pidx(sj)].le_spec(sp[c]));
                    } else {
                        assert(sp[pidx(c)].le_spec(sp[c]));
                    }
                }
                if 0 < si {
                    assert forall|c: int| 0 < c < n && pidx(c) == si implies s2[pidx(
                        si,
                    )].le_spec(#[trigger] s2[c]) by {
                        assert(sp[pidx(si)].le_spec(sp[si]));
                        if c == sj {
                            assert(s2[c] == sp[si]);
                        } else {
                            assert(sp[si].le_spec(sp[c]));
                            T::lemma_le_trans(sp[pidx(si)], sp[si], sp[c]);
                        }
                    }
                }
            }
            j = i;
        }
    }

    /// Rebuild the heap shape from scratch, whatever order the backing
    /// array is in.
    fn init(&mut self)
        ensures
            final(self)@.len() == old(self)@.len(),
            final(self)@.to_multiset() == old(self)@.to_multiset(),
            is_heap(final(self)@),
    {
        let n = self.data.len();
        let mut i: usize = 1;
        while i < n
            invariant
                1 <= i,
                i <= n || n == 0,
                n == self@.len(),
                self@.to_multiset() == old(self)@.to_multiset(),
                heap_upto(self@, i as int),
            decreases n - i,
        {
            self.up(i, i + 1);
            i = i + 1;
        }
    }

    /// Build a heap holding exactly the given elements.
    pub fn from_vec(data: Vec<T>) -> (r: MinHeap<T>)
        ensures
            r@.len() == data@.len(),
            r@.to_multiset() == data@.to_multiset(),
            is_heap(r@),
    {
        let mut heap = MinHeap { data };
        heap.init();
        heap
    }

    /// Insert an element.
    pub fn push(&mut self, t: T)
        requires
            is_heap(old(self)@),
            old(self)@.len() < usize::MAX,
        ensures
            final(self)@.len() == old(self)@.len() + 1,
            final(self)@.to_multiset() == old(self)@.to_multiset().insert(t),
            is_heap(final(self)@),
    {
        let n = self.data.len();
        self.data.push(t);
        proof {
            assert forall|c: int| 0 < c < n + 1 && c != n implies self@[pidx(c)].le_spec(
                #[trigger] self@[c],
            ) by {
                assert(old(self)@[pidx(c)].le_spec(old(self)@[c]));
            }
            assert forall|c: int| 0 < c < n + 1 && pidx(c) == n implies false by {
                assert(c >= 2 * n + 1);
            }
        }
        self.up(n, n + 1);
    }

    /// Remove and return the least element, or `None` on an empty heap.
    ///
    /// Only the shape of the first `len - 1` positions is needed: the
    /// root of that prefix is what comes out.
    pub fn pop(&mut self) -> (r: Option<T>)
        requires
            old(self)@.len() == 0 || heap_upto(old(self)@, old(self)@.len() - 1),
        ensures
            old(self)@.len() == 0 ==> r is None && final(self)@ == old(self)@,
            old(self)@.len() > 0 ==> {
                &&& r == Some(old(self)@[0])
                &&& final(self)@.len() == old(self)@.len() - 1
                &&& final(self)@.to_multiset() == old(self)@.to_multiset().remove(old(self)@[0])
                &&& is_heap(final(self)@)
                &&& forall|j: int|
                    0 <= j < old(self)@.len() - 1 ==> old(self)@[0].le_spec(
                        #[trigger] old(self)@[j],
                    )
            },
    {
        if self.data.len() == 0 {
            return None;
        }
        let ghost s0 = self@;
        let n = self.data.len() - 1;
        if n > 0 {
            self.swap_at(0, n);
            proof {
                assert forall|c: int| 0 < c < n && c != 0 && pidx(c) != 0 implies self@[pidx(
                    c,
                )].le_spec(#[trigger] self@[c]) by {
                    assert(s0[pidx(c)].le_spec(s0[c]));
                }
            }
            self.down(0, n);
            proof {
                assert forall|c: int| 0 < c < n implies self@[pidx(c)].le_spec(
                    #[trigger] self@[c],
                ) by {}
            }
        }
        let ghost s2 = self@;
        let out = self.data.pop();
        proof {
            assert(self@ =~= s2.remove(n as int));
            assert(self@.to_multiset() == s2.to_multiset().remove(s2[n as int]));
            assert(s2[n as int] == s0[0]);
            assert forall|c: int| 0 < c < n implies self@[pidx(c)].le_spec(#[trigger] self@[c]) by {
                assert(s2[pidx(c)].le_spec(s2[c]));
            }
            assert forall|j: int| 0 <= j < s0.len() - 1 implies s0[0].le_spec(
                #[trigger] s0[j],
            ) by {
                lemma_root_min(s0, s0.len() - 1, j);
            }
        }
        out
    }

    /// Remove one element through index `i`: the element handed back is
    /// below every element other than the one at `i`, and the heap keeps
    /// the rest.
    pub fn remove(&mut self, i: usize) -> (r: Option<T>)
        requires
            is_heap(old(self)@),
            i < old(self)@.len(),
        ensures
            final(self)@.len() == old(self)@.len() - 1,
            is_heap(final(self)@),
            r matches Some(x) && {
                &&& old(self)@.to_multiset().count(x) > 0
                &&& final(self)@.to_multiset() == old(self)@.to_multiset().remove(x)
                &&& forall|y: T|
                    old(self)@.to_multiset().remove(old(self)@[i as int]).count(y) > 0
                        ==> x.le_spec(y)
            },
    {
        let ghost s0 = self@;
        let n = self.data.len() - 1;
        if n != i {
            self.swap_at(i, n);
            proof {
                let s1 = self@;
                assert forall|c: int| 0 < c < n && c != i && pidx(c) != i implies s1[pidx(
                    c,
                )].le_spec(#[trigger] s1[c]) by {
                    assert(s0[pidx(c)].le_spec(s0[c]));
                }
                if 0 < i {
                    assert forall|c: int| 0 < c < n && pidx(c) == i implies s1[pidx(
                        i as int,
                    )].le_spec(#[trigger] s1[c]) by {
                        assert(s0[pidx(i as int)].le_spec(s0[i as int]));
                        assert(s0[i as int].le_spec(s0[c]));
                        T::lemma_le_trans(s0[pidx(i as int)], s0[i as int], s0[c]);
                    }
                }
            }
            if !self.down(i, n) {
                proof {
                    assert forall|c: int| 0 < c < n && c != i implies self@[pidx(c)].le_spec(
                        #[trigger] self@[c],
                    ) by {}
                }
                self.up(i, n);
            }
        }
        let ghost s2 = self@;
        proof {
            assert(heap_upto(s2, n as int));
            assert(s2[n as int] == s0[i as int]);
            assert(s2.to_multiset() == s0.to_multiset());
        }
        let out = self.pop();
        proof {
            let x = s2[0];
            assert(out == Some(x));
            // x is in the original contents
            assert(s2.contains(x));
            assert(s2.to_multiset().count(x) > 0);
            // everything in the contents minus the element at i is above x
            assert(s2.remove(n as int).to_multiset() == s2.to_multiset().remove(s2[n as int]));
            assert forall|y: T| s0.to_multiset().remove(s0[i as int]).count(y) > 0 implies x.le_spec(
                y,
            ) by {
                assert(s2.remove(n as int).to_multiset().count(y) > 0);
                assert(s2.remove(n as int).contains(y));
                let p = choose|p: int| 0 <= p < s2.remove(n as int).len() && s2.remove(n as int)[p]
                    == y;
                assert(s2[p] == y);
                assert(s2[0].le_spec(s2[p]));
            }
        }
        out
    }

    /// Restore the heap shape after the element at `i` was replaced:
    /// sift down first, and if nothing moved sift up instead.
    pub fn fix(&mut self, i: usize)
        requires
            i < old(self)@.len(),
            heap_except_around(old(self)@, old(self)@.len() as int, i as int),
        ensures
            final(self)@.len() == old(self)@.len(),
            final(self)@.to_multiset() == old(self)@.to_multiset(),
            is_heap(final(self)@),
    {
        let n = self.data.len();
        if !self.down(i, n) {
            proof {
                assert forall|c: int| 0 < c < n && c != i implies self@[pidx(c)].le_spec(
                    #[trigger] self@[c],
                ) by {}
            }
            self.up(i, n);
        }
    }

    /// Map every element through `f`, then rebuild the heap shape from
    /// scratch: the bulk perturbation may be arbitrary.
    pub fn replace_with<F: Fn(T) -> T>(&mut self, f: F)
        requires
            forall|x: T| #[trigger] call_requires(f, (x,)),
        ensures
            final(self)@.len() == old(self)@.len(),
            is_heap(final(self)@),
            exists|m: Seq<T>|
                #![trigger m.to_multiset()]
                {
                    &&& m.len() == old(self)@.len()
                    &&& (forall|k: int|
                        0 <= k < m.len() ==> call_ensures(f, (old(self)@[k],), #[trigger] m[k]))
                    &&& final(self)@.to_multiset() == m.to_multiset()
                },
    {
        let ghost orig = self@;
        let ghost mut mapped = Seq::<T>::empty();
        let n = self.data.len();
        let mut i: usize = 0;
        while i < n
            invariant
                i <= n,
                n == self@.len(),
                self@.len() == orig.len(),
                mapped.len() == i,
                forall|k: int|
                    0 <= k < i ==> call_ensures(f, (orig[k],), #[trigger] mapped[k]) && self@[k]
                        == mapped[k],
                forall|k: int| i <= k < n ==> self@[k] == orig[k],
                forall|x: T| #[trigger] call_requires(f, (x,)),
            decreases n - i,
        {
            let ghost pre = self@;
            let x = self.data.remove(i);
            let y = f(x);
            self.data.insert(i, y);
            proof {
                assert(self@ =~= pre.update(i as int, self@[i as int]));
                mapped = mapped.push(self@[i as int]);
            }
            i = i + 1;
        }
        proof {
            assert(self@ =~= mapped);
        }
        self.init();
        proof {
            assert(self@.to_multiset() == mapped.to_multiset());
        }
    }

    /// Scan the elements in array order, replacing the first one that
    /// `f` marks as a match, then fix the shape around that position.
    /// Elements before the match are handed to `f` but, as `f` reports
    /// no match for them, are kept unchanged.  Returns whether a match
    /// was found.
    pub fn replace_with_any<F: Fn(T) -> (T, bool)>(&mut self, f: F) -> (found: bool)
        requires
            is_heap(old(self)@),
            forall|x: T| #[trigger] call_requires(f, (x,)),
            forall|x: T, y: T, m: bool| #[trigger] call_ensures(f, (x,), (y, m)) && !m ==> y == x,
        ensures
            final(self)@.len() == old(self)@.len(),
            is_heap(final(self)@),
            !found ==> final(self)@ == old(self)@ && forall|k: int|
                0 <= k < final(self)@.len() ==> call_ensures(
                    f,
                    (old(self)@[k],),
                    (old(self)@[k], false),
                ),
            found ==> exists|k: int, y: T|
                #![trigger call_ensures(f, (old(self)@[k],), (y, true))]
                {
                    &&& 0 <= k < old(self)@.len()
                    &&& call_ensures(f, (old(self)@[k],), (y, true))
                    &&& (forall|q: int|
                        0 <= q < k ==> call_ensures(f, (old(self)@[q],), (old(self)@[q], false)))
                    &&& final(self)@.to_multiset() == old(self)@.to_multiset().insert(y).remove(
                        old(self)@[k],
                    )
                },
    {
        let n = self.data.len();
        let mut i: usize = 0;
        while i < n
            invariant
                i <= n,
                n == self@.len(),
                self@ == old(self)@,
                is_heap(self@),
                forall|q: int|
                    0 <= q < i ==> call_ensures(f, (old(self)@[q],), (old(self)@[q], false)),
                forall|x: T| #[trigger] call_requires(f, (x,)),
                forall|x: T, y: T, m: bool| #[trigger] call_ensures(f, (x,), (y, m)) && !m ==> y
                    == x,
            decreases n - i,
        {
            let ghost pre = self@;
            let x = self.data.remove(i);
            let (y, matched) = f(x);
            let ghost yy = y;
            self.data.insert(i, y);
            proof {
                assert(self@ =~= pre.update(i as int, yy));
            }
            if matched {
                proof {
                    lemma_update_keeps_shape(pre, i as int, yy);
                    assert(pre.update(i as int, yy).to_multiset() == pre.to_multiset().insert(
                        yy,
                    ).remove(pre[i as int]));
                }
                self.fix(i);
                return true;
            }
            proof {
                assert(self@ =~= pre);
            }
            i = i + 1;
        }
        false
    }
}

impl TotalOrdered for i32 {
    open spec fn le_spec(self, other: i32) -> bool {
        self <= other
    }

    proof fn lemma_le_total(a: i32, b: i32) {
    }

    proof fn lemma_le_trans(a: i32, b: i32, c: i32) {
    }

    fn less(&self, other: &i32) -> (r: bool) {
        *self < *other
    }

    fn duplicate(&self) -> (r: i32) {
        *self
    }
}

} // verus!
