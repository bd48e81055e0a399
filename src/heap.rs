use crate::ConfigError;
use std::cmp::Ordering;
use vstd::arithmetic::div_mod::{
    lemma_div_is_ordered_by_denominator,
    lemma_fundamental_div_mod,
    lemma_mod_pos_bound,
};
use vstd::multiset::Multiset;
use vstd::prelude::*;

verus! {

broadcast use vstd::seq_lib::group_to_multiset_ensures;

/// Relies on `<[T]>::swap`: the elements at `a` and `b` trade places; it panics
/// when either index is out of bounds.
pub assume_specification<X>[ <[X]>::swap ](s: &mut [X], a: usize, b: usize)
    requires
        a < old(s)@.len(),
        b < old(s)@.len(),
    ensures
        final(s)@ == old(s)@.update(a as int, old(s)@[b as int]).update(b as int, old(s)@[a as int]),
;

/// `le` is total and transitive.
pub open spec fn is_total_preorder<T>(le: spec_fn(T, T) -> bool) -> bool {
    &&& forall|a: T, b: T| #[trigger] le(a, b) || le(b, a)
    &&& forall|a: T, b: T, c: T| #[trigger] le(a, b) && #[trigger] le(b, c) ==> le(a, c)
}

/// `f` can be called on any pair, and its answers agree with the total
/// preorder `le`: `Less` when `a` comes strictly first, `Greater` when `b` does.
pub open spec fn answers_by<T, F: Fn(&T, &T) -> Ordering>(f: F, le: spec_fn(T, T) -> bool) -> bool {
    &&& is_total_preorder(le)
    &&& forall|a: T, b: T| #[trigger] f.requires((&a, &b))
    &&& forall|a: T, b: T, r: Ordering| #[trigger]
        f.ensures((&a, &b), r) ==> ((r != Ordering::Greater) == le(a, b) && (r == Ordering::Less)
            == !le(b, a))
}

/// `f` compares by some total preorder.
pub open spec fn is_total_order<T, F: Fn(&T, &T) -> Ordering>(f: F) -> bool {
    exists|le: spec_fn(T, T) -> bool| answers_by(f, le)
}

/// Every element comes no earlier under `le` than its parent `(j - 1) / n`.
pub open spec fn is_heap<T>(s: Seq<T>, n: int, le: spec_fn(T, T) -> bool) -> bool {
    forall|j: int| 0 < j < s.len() ==> le(s[(j - 1) / n], #[trigger] s[j])
}

/// The heap order holds on every edge but the one that ends at `i`, and the
/// parent of `i` comes no later than the children of `i`.
spec fn rising_at<T>(s: Seq<T>, n: int, le: spec_fn(T, T) -> bool, i: int) -> bool {
    &&& forall|j: int| 0 < j < s.len() && j != i ==> le(s[(j - 1) / n], #[trigger] s[j])
    &&& i > 0 ==> forall|j: int|
        0 < j < s.len() && (j - 1) / n == i ==> le(s[(i - 1) / n], #[trigger] s[j])
}

/// The heap order holds on every edge but those that leave `i`, and the
/// parent of `i` comes no later than the children of `i`.
spec fn sinking_at<T>(s: Seq<T>, n: int, le: spec_fn(T, T) -> bool, i: int) -> bool {
    &&& forall|j: int| 0 < j < s.len() && (j - 1) / n != i ==> le(s[(j - 1) / n], #[trigger] s[j])
    &&& i > 0 ==> forall|j: int|
        0 < j < s.len() && (j - 1) / n == i ==> le(s[(i - 1) / n], #[trigger] s[j])
}

/// `s[m]` comes no later than `s[i]` (unless `m` is `i`) nor than any
/// `s[c]` with `lo <= c < hi`.
spec fn least_of<T>(s: Seq<T>, le: spec_fn(T, T) -> bool, i: int, m: int, lo: int, hi: int) -> bool {
    &&& m != i ==> le(s[m], s[i])
    &&& forall|c: int| lo <= c < hi ==> le(s[m], #[trigger] s[c])
}

proof fn lemma_parent_lt(j: int, n: int)
    requires
        0 < j,
        1 <= n,
    ensures
        0 <= (j - 1) / n < j,
{
    lemma_div_is_ordered_by_denominator(j - 1, 1, n);
}

/// The children of `i` are exactly the indices `i * n + 1 ..= i * n + n`.
proof fn lemma_child_range(i: int, n: int, j: int)
    requires
        0 <= i,
        0 < j,
        1 <= n,
    ensures
        ((j - 1) / n == i) == (i * n + 1 <= j <= i * n + n),
{
    lemma_fundamental_div_mod(j - 1, n);
    lemma_mod_pos_bound(j - 1, n);
    let q = (j - 1) / n;
    let r = (j - 1) % n;
    assert(j - 1 == n * q + r);
    if q == i {
        assert(i * n + 1 <= j <= i * n + n) by (nonlinear_arith)
            requires
                j - 1 == n * q + r,
                0 <= r < n,
                q == i,
        ;
    }
    if i * n + 1 <= j <= i * n + n {
        assert(q == i) by (nonlinear_arith)
            requires
                j - 1 == n * q + r,
                0 <= r < n,
                i * n + 1 <= j <= i * n + n,
                1 <= n,
        ;
    }
}

/// The first element of a heap comes no later than any element.
proof fn lemma_root_le<T>(s: Seq<T>, n: int, le: spec_fn(T, T) -> bool, j: int)
    requires
        1 <= n,
        is_total_preorder(le),
        is_heap(s, n, le),
        0 <= j < s.len(),
    ensures
        le(s[0], s[j]),
    decreases j,
{
    if j == 0 {
        assert(le(s[0], s[0]) || le(s[0], s[0]));
    } else {
        let p = (j - 1) / n;
        lemma_parent_lt(j, n);
        lemma_root_le(s, n, le, p);
        assert(le(s[p], s[j]));
    }
}

/// Swapping an element with a parent that comes strictly after it moves the
/// one edge out of order up to the parent.
proof fn lemma_rise_step<T>(s: Seq<T>, t: Seq<T>, n: int, le: spec_fn(T, T) -> bool, i: int, p: int)
    requires
        1 <= n,
        is_total_preorder(le),
        0 < i < s.len(),
        p == (i - 1) / n,
        rising_at(s, n, le, i),
        !le(s[p], s[i]),
        t == s.update(i, s[p]).update(p, s[i]),
    ensures
        rising_at(t, n, le, p),
{
    lemma_parent_lt(i, n);
    assert(le(s[i], s[p]) || le(s[p], s[i]));
    assert forall|j: int| 0 < j < t.len() && j != p implies le(t[(j - 1) / n], #[trigger] t[j]) by {
        lemma_parent_lt(j, n);
        let q = (j - 1) / n;
        if j == i {
        } else if q == i {
            assert(le(s[p], s[j]));
        } else if q == p {
            assert(le(s[p], s[j]));
        } else {
            assert(le(s[q], s[j]));
        }
    }
    if p > 0 {
        let pp = (p - 1) / n;
        lemma_parent_lt(p, n);
        assert(le(s[pp], s[p]));
        assert forall|j: int| 0 < j < t.len() && (j - 1) / n == p implies le(t[pp], #[trigger] t[j]) by {
            if j != i {
                assert(le(s[p], s[j]));
            }
        }
    }
}

/// Once the edge into `i` is in order, the whole sequence is a heap.
proof fn lemma_rise_stop<T>(s: Seq<T>, n: int, le: spec_fn(T, T) -> bool, i: int)
    requires
        rising_at(s, n, le, i),
        0 < i < s.len() ==> le(s[(i - 1) / n], s[i]),
    ensures
        is_heap(s, n, le),
{
}

/// Swapping a node with its least child moves the edges out of order down to
/// that child.
proof fn lemma_sink_step<T>(s: Seq<T>, t: Seq<T>, n: int, le: spec_fn(T, T) -> bool, i: int, m: int)
    requires
        1 <= n,
        is_total_preorder(le),
        0 <= i < m < s.len(),
        (m - 1) / n == i,
        sinking_at(s, n, le, i),
        le(s[m], s[i]),
        forall|j: int| 0 < j < s.len() && (j - 1) / n == i ==> le(s[m], #[trigger] s[j]),
        t == s.update(i, s[m]).update(m, s[i]),
    ensures
        sinking_at(t, n, le, m),
{
    assert forall|j: int| 0 < j < t.len() && (j - 1) / n != m implies le(t[(j - 1) / n], #[trigger] t[j]) by {
        lemma_parent_lt(j, n);
        let q = (j - 1) / n;
        lemma_child_range(i, n, j);
        if q == i {
            if j != m {
                assert(le(s[m], s[j]));
            }
        } else if j == i {
            assert(le(s[q], s[m]));
        } else {
            assert(le(s[q], s[j]));
        }
    }
    assert forall|j: int| 0 < j < t.len() && (j - 1) / n == m implies le(t[(m - 1) / n], #[trigger] t[j]) by {
        lemma_child_range(m, n, j);
        lemma_parent_lt(j, n);
        assert(le(s[m], s[j]));
    }
}

/// A node that comes no later than its children ends the sinking: the whole
/// sequence is a heap.
proof fn lemma_sink_stop<T>(s: Seq<T>, n: int, le: spec_fn(T, T) -> bool, i: int)
    requires
        sinking_at(s, n, le, i),
        forall|j: int| 0 < j < s.len() && (j - 1) / n == i ==> le(s[i], #[trigger] s[j]),
    ensures
        is_heap(s, n, le),
{
    assert forall|j: int| 0 < j < s.len() implies le(s[(j - 1) / n], #[trigger] s[j]) by {
        if (j - 1) / n == i {
        }
    }
}

/// `out` is what extracting until empty takes from a heap that holds `m`:
/// each element is a smallest one under `le` of what is left, and nothing is
/// left at the end.
pub open spec fn drains<T>(le: spec_fn(T, T) -> bool, m: Multiset<T>, out: Seq<T>) -> bool
    decreases out.len(),
{
    if out.len() == 0 {
        m.len() == 0
    } else {
        &&& m.contains(out[0])
        &&& forall|y: T| #[trigger] m.contains(y) ==> le(out[0], y)
        &&& drains(le, m.remove(out[0]), out.drop_first())
    }
}

/// Extracting until empty yields the elements in non-decreasing order, and
/// exactly the elements that the heap held.
pub proof fn lemma_drain_sorted<T>(le: spec_fn(T, T) -> bool, m: Multiset<T>, out: Seq<T>)
    requires
        is_total_preorder(le),
        drains(le, m, out),
    ensures
        forall|i: int, j: int| 0 <= i < j < out.len() ==> le(#[trigger] out[i], #[trigger] out[j]),
        out.to_multiset() == m,
    decreases out.len(),
{
    if out.len() > 0 {
        let rest = out.drop_first();
        lemma_drain_sorted(le, m.remove(out[0]), rest);
        assert(out =~= seq![out[0]] + rest);
        vstd::seq_lib::lemma_multiset_commutative(seq![out[0]], rest);
        assert(seq![out[0]].to_multiset() =~= Multiset::singleton(out[0]));
        assert(out.to_multiset() =~= m);
        assert forall|i: int, j: int| 0 <= i < j < out.len() implies le(
            #[trigger] out[i],
            #[trigger] out[j],
        ) by {
            if i == 0 {
                assert(out[j] == rest[j - 1]);
                assert(rest.to_multiset().contains(rest[j - 1]));
                assert(m.remove(out[0]).count(out[j]) > 0);
                assert(m.contains(out[j]));
            } else {
                assert(out[i] == rest[i - 1]);
                assert(out[j] == rest[j - 1]);
            }
        }
    } else {
        assert(out.to_multiset() =~= m);
    }
}

/// A priority queue whose every node has up to `n` children, ordered by a
/// comparator given at construction; the smallest element leaves first.
pub struct MinHeap<T, F> {
    data: Vec<T>,
    n: usize,
    order_fn: F,
}

impl<T, F: Fn(&T, &T) -> Ordering> MinHeap<T, F> {
    /// The elements that the heap holds.
    pub closed spec fn contents(&self) -> Multiset<T> {
        self.data@.to_multiset()
    }

    /// The comparator that orders the heap.
    pub closed spec fn cmp_fn(&self) -> F {
        self.order_fn
    }

    /// The number of children a node may have.
    pub closed spec fn fan_out(&self) -> nat {
        self.n as nat
    }

    /// The fan-out is positive, the comparator is a total preorder, and the
    /// elements are in heap order under every total preorder that the
    /// comparator's answers agree with.
    pub closed spec fn wf(&self) -> bool {
        &&& self.n >= 1
        &&& is_total_order(self.order_fn)
        &&& forall|le: spec_fn(T, T) -> bool| #[trigger]
            answers_by(self.order_fn, le) ==> is_heap(self.data@, self.n as int, le)
    }

    /// An empty heap ordered by `ordering` whose nodes have up to
    /// `num_children` children; a fan-out of zero is refused.
    pub fn new(ordering: F, num_children: usize) -> (r: Result<Self, ConfigError>)
        requires
            is_total_order(ordering),
        ensures
            r is Ok <==> num_children > 0,
            num_children == 0 <==> r == Err::<Self, ConfigError>(ConfigError::ZeroChildren),
            r is Ok ==> ({
                let h = r->Ok_0;
                &&& h.wf()
                &&& h.contents() =~= Multiset::empty()
                &&& h.cmp_fn() == ordering
                &&& h.fan_out() == num_children
            }),
    {
        if num_children == 0 {
            return Err(ConfigError::ZeroChildren);
        }
        Ok(MinHeap { data: Vec::new(), order_fn: ordering, n: num_children })
    }

    /// The number of elements in the heap.
    pub fn len(&self) -> (r: usize)
        ensures
            r == self.contents().len(),
    {
        self.data.len()
    }

    /// Adds `item`, then moves it up past every parent that the comparator
    /// orders strictly after it.
    pub fn insert(&mut self, item: T)
        requires
            old(self).wf(),
        ensures
            final(self).wf(),
            final(self).contents() == old(self).contents().insert(item),
            final(self).contents().len() == old(self).contents().len() + 1,
            final(self).cmp_fn() == old(self).cmp_fn(),
            final(self).fan_out() == old(self).fan_out(),
    {
        let ghost f = self.order_fn;
        let ghost n = self.n as int;
        let mut i = self.len();
        self.data.push(item);
        proof {
            let s = self.data@;
            assert(i * n >= i) by (nonlinear_arith)
                requires
                    n >= 1,
                    i >= 0,
            ;
            assert forall|le: spec_fn(T, T) -> bool| #[trigger] answers_by(f, le) implies rising_at(
                s,
                n,
                le,
                i as int,
            ) by {
                assert(is_heap(old(self).data@, n, le));
                assert forall|j: int| 0 < j < s.len() && j != i implies le(
                    s[(j - 1) / n],
                    #[trigger] s[j],
                ) by {
                    assert(s[j] == old(self).data@[j]);
                    lemma_parent_lt(j, n);
                    assert(s[(j - 1) / n] == old(self).data@[(j - 1) / n]);
                }
                assert forall|j: int| 0 < j < s.len() && (j - 1) / n == i implies le(
                    s[(i - 1) / n],
                    #[trigger] s[j],
                ) by {
                    lemma_child_range(i as int, n, j);
                }
            }
        }
        let mut done = false;
        while i > 0 && !done
            invariant
                self.n == n,
                n >= 1,
                self.order_fn == f,
                is_total_order(f),
                i < self.data@.len(),
                self.data@.to_multiset() == old(self).data@.to_multiset().insert(item),
                forall|le: spec_fn(T, T) -> bool| #[trigger]
                    answers_by(f, le) ==> rising_at(self.data@, n, le, i as int),
                done ==> forall|le: spec_fn(T, T) -> bool| #[trigger]
                    answers_by(f, le) ==> is_heap(self.data@, n, le),
            decreases i + (if done { 0int } else { 1int }),
        {
            let parent = self.parent(i);
            let o = (self.order_fn)(&self.data[i], &self.data[parent]);
            proof {
                lemma_parent_lt(i as int, n);
            }
            match o {
                Ordering::Less => {
                    let ghost s = self.data@;
                    self.data.as_mut_slice().swap(i, parent);
                    proof {
                        let t = self.data@;
                        assert(t =~= s.update(i as int, s[parent as int]).update(
                            parent as int,
                            s[i as int],
                        ));
                        assert forall|le: spec_fn(T, T) -> bool| #[trigger]
                            answers_by(f, le) implies rising_at(t, n, le, parent as int) by {
                            assert(!le(s[parent as int], s[i as int]));
                            lemma_rise_step(s, t, n, le, i as int, parent as int);
                        }
                    }
                    i = parent;
                },
                _ => {
                    proof {
                        let s = self.data@;
                        assert forall|le: spec_fn(T, T) -> bool| #[trigger]
                            answers_by(f, le) implies is_heap(s, n, le) by {
                            assert(le(s[parent as int], s[i as int]));
                            lemma_rise_stop(s, n, le, i as int);
                        }
                    }
                    done = true;
                },
            }
        }
        proof {
            if !done {
                let s = self.data@;
                assert forall|le: spec_fn(T, T) -> bool| #[trigger]
                    answers_by(f, le) implies is_heap(s, n, le) by {
                    lemma_rise_stop(s, n, le, i as int);
                }
            }
        }
    }

    /// Moves the element at `i` down past every child that the comparator
    /// orders strictly before it, always towards the least child.
    fn heapify(&mut self, i: usize)
        requires
            old(self).n >= 1,
            is_total_order(old(self).order_fn),
            forall|le: spec_fn(T, T) -> bool| #[trigger]
                answers_by(old(self).order_fn, le) ==> sinking_at(
                    old(self).data@,
                    old(self).n as int,
                    le,
                    i as int,
                ),
            i <= old(self).data@.len(),
        ensures
            forall|le: spec_fn(T, T) -> bool| #[trigger]
                answers_by(final(self).order_fn, le) ==> is_heap(
                    final(self).data@,
                    final(self).n as int,
                    le,
                ),
            final(self).data@.to_multiset() == old(self).data@.to_multiset(),
            final(self).n == old(self).n,
            final(self).order_fn == old(self).order_fn,
    {
        let ghost f = self.order_fn;
        let ghost n = self.n as int;
        let ghost start = self.data@;
        let mut i = i;
        let mut done = false;
        while !done
            invariant
                self.n == n,
                n >= 1,
                self.order_fn == f,
                is_total_order(f),
                self.data@.to_multiset() == start.to_multiset(),
                forall|le: spec_fn(T, T) -> bool| #[trigger]
                    answers_by(f, le) ==> sinking_at(self.data@, n, le, i as int),
                i <= self.data@.len(),
                done ==> forall|le: spec_fn(T, T) -> bool| #[trigger]
                    answers_by(f, le) ==> is_heap(self.data@, n, le),
            decreases self.data@.len() - i + (if done { 0int } else { 1int }),
        {
            let len = self.data.len();
            let ghost s = self.data@;
            let ghost lo = i * n + 1;
            let ghost mut hi = lo;
            let mut min = i;
            let first = i.checked_mul(self.n);
            if let Some(first) = first {
                if first < len && len - first > 1 {
                    proof {
                        assert(i <= i * n) by (nonlinear_arith)
                            requires
                                n >= 1,
                                i >= 0,
                        ;
                    }
                    let mut k: usize = 0;
                    while k < self.n && k < len - first - 1
                        invariant
                            self.data@ == s,
                            self.n == n,
                            self.order_fn == f,
                            is_total_order(f),
                            n >= 1,
                            len == s.len(),
                            first == i * n,
                            lo == first + 1,
                            first + 1 < len,
                            i < len,
                            i <= first,
                            k <= n,
                            k <= len - first - 1,
                            min == i || (first + 1 <= min < first + 1 + k),
                            min < len,
                            forall|le: spec_fn(T, T) -> bool| #[trigger]
                                answers_by(f, le) ==> least_of(
                                    s,
                                    le,
                                    i as int,
                                    min as int,
                                    lo,
                                    first + 1 + k,
                                ),
                        decreases n - k,
                    {
                        let c = self.nth_child(i, k);
                        let o = (self.order_fn)(&self.data[c], &self.data[min]);
                        let ghost old_min = min as int;
                        if let Ordering::Less = o {
                            min = c;
                        }
                        proof {
                            assert forall|le: spec_fn(T, T) -> bool| #[trigger]
                                answers_by(f, le) implies least_of(
                                s,
                                le,
                                i as int,
                                min as int,
                                lo,
                                first + 1 + k + 1,
                            ) by {
                                assert(least_of(s, le, i as int, old_min, lo, first + 1 + k));
                                assert(le(s[c as int], s[old_min]) || le(s[old_min], s[c as int]));
                                if o == Ordering::Less {
                                    assert(!le(s[old_min], s[c as int]));
                                    if old_min != i {
                                        assert(le(s[old_min], s[i as int]));
                                    }
                                    assert forall|cc: int| lo <= cc < first + 1 + k + 1 implies le(
                                        s[c as int],
                                        #[trigger] s[cc],
                                    ) by {
                                        if cc < first + 1 + k {
                                            assert(le(s[old_min], s[cc]));
                                        } else {
                                            assert(le(s[c as int], s[c as int]) || le(s[c as int], s[c as int]));
                                        }
                                    }
                                } else {
                                    assert(le(s[old_min], s[c as int]));
                                }
                            }
                        }
                        k = k + 1;
                    }
                    proof {
                        hi = first + 1 + k;
                    }
                }
            }
            proof {
                assert forall|le: spec_fn(T, T) -> bool| #[trigger] answers_by(f, le) implies forall|
                    j: int,
                | 0 < j < s.len() && (j - 1) / n == i ==> le(s[min as int], #[trigger] s[j]) by {
                    assert(least_of(s, le, i as int, min as int, lo, hi));
                    assert forall|j: int| 0 < j < s.len() && (j - 1) / n == i implies le(
                        s[min as int],
                        #[trigger] s[j],
                    ) by {
                        lemma_child_range(i as int, n, j);
                        if first is None {
                            assert(i * n > usize::MAX);
                        }
                        assert(lo <= j < hi);
                    }
                }
            }
            if min == i {
                proof {
                    assert forall|le: spec_fn(T, T) -> bool| #[trigger]
                        answers_by(f, le) implies is_heap(s, n, le) by {
                        lemma_sink_stop(s, n, le, i as int);
                    }
                }
                done = true;
            } else {
                self.data.as_mut_slice().swap(i, min);
                proof {
                    let t = self.data@;
                    let m = min as int;
                    let ii = i as int;
                    assert(t =~= s.update(ii, s[m]).update(m, s[ii]));
                    lemma_child_range(ii, n, m);
                    assert(t.to_multiset() =~= s.to_multiset());
                    assert forall|le: spec_fn(T, T) -> bool| #[trigger]
                        answers_by(f, le) implies sinking_at(t, n, le, m) by {
                        assert(least_of(s, le, ii, m, lo, hi));
                        lemma_sink_step(s, t, n, le, ii, m);
                    }
                }
                i = min;
            }
        }
    }

    /// Removes and returns the least element, or `None` when the heap is
    /// empty.
    pub fn extract(&mut self) -> (r: Option<T>)
        requires
            old(self).wf(),
        ensures
            final(self).wf(),
            final(self).cmp_fn() == old(self).cmp_fn(),
            final(self).fan_out() == old(self).fan_out(),
            r is None <==> old(self).contents().len() == 0,
            r is None ==> final(self).contents() == old(self).contents(),
            r matches Some(x) ==> {
                &&& old(self).contents().contains(x)
                &&& final(self).contents() == old(self).contents().remove(x)
                &&& final(self).contents().len() == old(self).contents().len() - 1
                &&& forall|le: spec_fn(T, T) -> bool| #[trigger]
                    answers_by(old(self).cmp_fn(), le) ==> forall|y: T| #[trigger]
                        old(self).contents().contains(y) ==> le(x, y)
            },
    {
        if self.len() == 0 {
            return None;
        }
        let ghost s = self.data@;
        let ghost n = self.n as int;
        let ghost f = self.order_fn;
        proof {
            assert forall|le: spec_fn(T, T) -> bool| #[trigger] answers_by(f, le) implies forall|
                y: T,
            | #[trigger] s.to_multiset().contains(y) ==> le(s[0], y) by {
                assert forall|y: T| #[trigger] s.to_multiset().contains(y) implies le(s[0], y) by {
                    let j = choose|j: int| 0 <= j < s.len() && s[j] == y;
                    lemma_root_le(s, n, le, j);
                }
            }
        }
        let root = self.data.swap_remove(0);
        proof {
            let t = self.data@;
            let u = s.update(0, s.last());
            assert(t =~= u.drop_last());
            assert(u.drop_last() =~= u.remove(u.len() - 1));
            assert(u.to_multiset() == s.to_multiset().insert(s.last()).remove(s[0]));
            assert(t.to_multiset() == u.to_multiset().remove(s.last()));
            assert(t.to_multiset() =~= s.to_multiset().remove(s[0]));
            assert forall|le: spec_fn(T, T) -> bool| #[trigger] answers_by(f, le) implies sinking_at(
                t,
                n,
                le,
                0,
            ) by {
                assert forall|j: int| 0 < j < t.len() && (j - 1) / n != 0 implies le(
                    t[(j - 1) / n],
                    #[trigger] t[j],
                ) by {
                    lemma_parent_lt(j, n);
                    assert(le(s[(j - 1) / n], s[j]));
                }
            }
        }
        self.heapify(0);
        Some(root)
    }

    fn parent(&self, i: usize) -> (r: usize)
        requires
            i > 0,
            self.n >= 1,
        ensures
            r == (i - 1) / self.n as int,
    {
        (i - 1) / self.n
    }

    fn nth_child(&self, parent: usize, n: usize) -> (r: usize)
        requires
            parent * self.n + n + 1 <= usize::MAX,
        ensures
            r == parent * self.n + n + 1,
    {
        parent * self.n + n + 1
    }
}

} // verus!
