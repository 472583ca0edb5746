use vstd::multiset::Multiset;
use vstd::prelude::*;

use crate::ranker::ranks_before;

verus! {

broadcast use {
    vstd::seq_lib::group_to_multiset_ensures,
    vstd::multiset::group_multiset_axioms,
};

/// `a` ranks before `b` or is `b`.
pub open spec fn no_later(a: (usize, u32), b: (usize, u32)) -> bool {
    ranks_before(a, b) || a == b
}

/// The heap order at position `j > 0`: it holds nothing that ranks after its
/// parent.
pub open spec fn heap_ok(h: Seq<(usize, u32)>, j: int) -> bool {
    no_later(h[j], h[(j - 1) / 2])
}

pub open spec fn is_heap(h: Seq<(usize, u32)>) -> bool {
    forall|j: int| 0 < j < h.len() ==> #[trigger] heap_ok(h, j)
}

/// Whether `a` ranks before `b`.
pub fn before(a: (usize, u32), b: (usize, u32)) -> (r: bool)
    ensures
        r == ranks_before(a, b),
{
    a.1 > b.1 || (a.1 == b.1 && a.0 < b.0)
}

proof fn lemma_root_is_last(h: Seq<(usize, u32)>, j: int)
    requires
        is_heap(h),
        0 <= j < h.len(),
    ensures
        no_later(h[j], h[0]),
    decreases j,
{
    if j > 0 {
        assert(heap_ok(h, j));
        lemma_root_is_last(h, (j - 1) / 2);
    }
}

/// The worst candidate is the root: anything that every candidate ranks no
/// later than is the item at the root.
proof fn lemma_worst_is_root(s: Seq<(usize, u32)>, w: (usize, u32))
    requires
        is_heap(s),
        s.len() > 0,
        s.to_multiset().contains(w),
        forall|e: (usize, u32)| s.to_multiset().contains(e) ==> no_later(e, w),
    ensures
        w == s[0],
{
    assert(s.contains(s[0]));
    assert(no_later(s[0], w));
    let j = choose|j: int| 0 <= j < s.len() && s[j] == w;
    lemma_root_is_last(s, j);
}

fn swap_items(v: &mut Vec<(usize, u32)>, i: usize, j: usize)
    requires
        i < old(v)@.len(),
        j < old(v)@.len(),
    ensures
        final(v)@ == old(v)@.update(i as int, old(v)@[j as int]).update(j as int, old(v)@[i as int]),
        final(v)@.to_multiset() == old(v)@.to_multiset(),
{
    let ghost s = v@;
    let a = v[i];
    let b = v[j];
    v.set(i, b);
    v.set(j, a);
    proof {
        vstd::seq_lib::to_multiset_update(s, i as int, b);
        let s1 = s.update(i as int, b);
        vstd::seq_lib::to_multiset_update(s1, j as int, a);
        assert(s1[j as int] == b);
        assert(v@.to_multiset() =~= s.to_multiset());
    }
}

/// Restores the heap order after position `i` took a new item that may rank
/// after its parent.
fn sift_up(v: &mut Vec<(usize, u32)>, i: usize)
    requires
        i < old(v)@.len(),
        forall|j: int| 0 < j < old(v)@.len() && j != i ==> #[trigger] heap_ok(old(v)@, j),
        i > 0 ==> forall|j: int|
            0 < j < old(v)@.len() && (j - 1) / 2 == i ==> no_later(
                #[trigger] old(v)@[j],
                old(v)@[(i - 1) / 2],
            ),
    ensures
        final(v)@.len() == old(v)@.len(),
        final(v)@.to_multiset() == old(v)@.to_multiset(),
        is_heap(final(v)@),
{
    let mut i = i;
    while i > 0 && before(v[(i - 1) / 2], v[i])
        invariant
            i < v@.len(),
            v@.len() == old(v)@.len(),
            v@.to_multiset() == old(v)@.to_multiset(),
            forall|j: int| 0 < j < v@.len() && j != i ==> #[trigger] heap_ok(v@, j),
            i > 0 ==> forall|j: int|
                0 < j < v@.len() && (j - 1) / 2 == i ==> no_later(#[trigger] v@[j], v@[(i - 1) / 2]),
        decreases i,
    {
        let p = (i - 1) / 2;
        let ghost s = v@;
        swap_items(v, i, p);
        proof {
            let t = v@;
            assert(t[p as int] == s[i as int]);
            assert(t[i as int] == s[p as int]);
            assert forall|j: int| 0 < j < t.len() && j != p implies #[trigger] heap_ok(t, j) by {
                let q = (j - 1) / 2;
                if j == i {
                } else if q == i {
                    assert(t[j] == s[j]);
                } else if q == p {
                    assert(t[j] == s[j]);
                    assert(heap_ok(s, j));
                } else {
                    assert(t[j] == s[j]);
                    assert(t[q] == s[q]);
                    assert(heap_ok(s, j));
                }
            }
            if p > 0 {
                assert(heap_ok(s, p as int));
                assert forall|j: int| 0 < j < t.len() && (j - 1) / 2 == p implies no_later(
                    #[trigger] t[j],
                    t[(p - 1) / 2],
                ) by {
                    assert(t[(p - 1) / 2] == s[(p - 1) / 2]);
                    if j != i {
                        assert(t[j] == s[j]);
                        assert(heap_ok(s, j));
                    }
                }
            }
        }
        i = p;
    }
    proof {
        if i > 0 {
            assert(heap_ok(v@, i as int));
        }
    }
}

/// Restores the heap order after position `i` took a new item that may rank
/// before one of its children.
fn sift_down(v: &mut Vec<(usize, u32)>, i: usize)
    requires
        i < old(v)@.len(),
        forall|j: int| 0 < j < old(v)@.len() && (j - 1) / 2 != i ==> #[trigger] heap_ok(old(v)@, j),
        i > 0 ==> forall|j: int|
            0 < j < old(v)@.len() && (j - 1) / 2 == i ==> no_later(
                #[trigger] old(v)@[j],
                old(v)@[(i - 1) / 2],
            ),
    ensures
        final(v)@.len() == old(v)@.len(),
        final(v)@.to_multiset() == old(v)@.to_multiset(),
        is_heap(final(v)@),
{
    let len = v.len();
    let mut i = i;
    while i < len / 2
        invariant_except_break
            i < len,
            forall|j: int| 0 < j < v@.len() && (j - 1) / 2 != i ==> #[trigger] heap_ok(v@, j),
            i > 0 ==> forall|j: int|
                0 < j < v@.len() && (j - 1) / 2 == i ==> no_later(#[trigger] v@[j], v@[(i - 1) / 2]),
        invariant
            len == v@.len(),
            v@.len() == old(v)@.len(),
            v@.to_multiset() == old(v)@.to_multiset(),
        ensures
            is_heap(v@),
        decreases len - i,
    {
        let l = 2 * i + 1;
        let r = l + 1;
        let w = if r < len && before(v[l], v[r]) {
            r
        } else {
            l
        };
        if !before(v[i], v[w]) {
            proof {
                let s = v@;
                assert forall|j: int| 0 < j < s.len() implies #[trigger] heap_ok(s, j) by {
                    if (j - 1) / 2 == i {
                        if j != w {
                            assert(j == l || j == r);
                        }
                    }
                }
            }
            break;
        }
        let ghost s = v@;
        swap_items(v, i, w);
        proof {
            let t = v@;
            let o: int = if w == l {
                r as int
            } else {
                l as int
            };
            assert(t[w as int] == s[i as int]);
            assert(t[i as int] == s[w as int]);
            assert forall|j: int| 0 < j < t.len() && (j - 1) / 2 != w implies #[trigger] heap_ok(t, j) by {
                let q = (j - 1) / 2;
                if j == w {
                } else if q == i {
                    assert(j == o);
                    assert(t[j] == s[j]);
                } else if j == i {
                    assert(t[q] == s[q]);
                } else {
                    assert(t[j] == s[j]);
                    assert(t[q] == s[q]);
                    assert(heap_ok(s, j));
                }
            }
            assert forall|j: int| 0 < j < t.len() && (j - 1) / 2 == w implies no_later(
                #[trigger] t[j],
                t[(w - 1) / 2],
            ) by {
                assert(t[j] == s[j]);
                assert(heap_ok(s, j));
            }
        }
        i = w;
    }
}

/// A binary heap of ranked candidates that keeps the one that ranks last at
/// its root, so that a bounded set of the best candidates can drop its worst
/// member cheaply.
pub struct WorstFirstHeap {
    items: Vec<(usize, u32)>,
}

impl WorstFirstHeap {
    #[verifier::type_invariant]
    spec fn inv(&self) -> bool {
        is_heap(self.items@)
    }

    /// The candidates held.
    pub closed spec fn spec_items(&self) -> Multiset<(usize, u32)> {
        self.items@.to_multiset()
    }

    pub fn new() -> (r: WorstFirstHeap)
        ensures
            r.spec_items() == Multiset::<(usize, u32)>::empty(),
    {
        let r = WorstFirstHeap { items: Vec::new() };
        proof {
            assert(r.items@ =~= Seq::<(usize, u32)>::empty());
        }
        r
    }

    pub fn len(&self) -> (r: usize)
        ensures
            r == self.spec_items().len(),
    {
        self.items.len()
    }

    /// The candidate that ranks last.
    pub fn peek_worst(&self) -> (r: (usize, u32))
        requires
            self.spec_items().len() > 0,
        ensures
            self.spec_items().contains(r),
            forall|e: (usize, u32)| self.spec_items().contains(e) ==> no_later(e, r),
    {
        proof {
            use_type_invariant(self);
            let s = self.items@;
            assert(s.contains(s[0]));
            assert forall|e: (usize, u32)| self.spec_items().contains(e) implies no_later(e, s[0]) by {
                let j = choose|j: int| 0 <= j < s.len() && s[j] == e;
                lemma_root_is_last(s, j);
            }
        }
        self.items[0]
    }

    pub fn push(&mut self, c: (usize, u32))
        ensures
            final(self).spec_items() == old(self).spec_items().insert(c),
    {
        proof {
            use_type_invariant(&*self);
        }
        let mut items: Vec<(usize, u32)> = Vec::new();
        std::mem::swap(&mut items, &mut self.items);
        let ghost s = items@;
        items.push(c);
        proof {
            assert forall|j: int| 0 < j < items@.len() && j != s.len() implies #[trigger] heap_ok(items@, j) by {
                assert(heap_ok(s, j));
            }
        }
        let last = items.len() - 1;
        sift_up(&mut items, last);
        std::mem::swap(&mut items, &mut self.items);
    }

    /// Removes and returns the candidate that ranks last.
    pub fn pop_worst(&mut self) -> (r: (usize, u32))
        requires
            old(self).spec_items().len() > 0,
        ensures
            old(self).spec_items().contains(r),
            forall|e: (usize, u32)| old(self).spec_items().contains(e) ==> no_later(e, r),
            final(self).spec_items() == old(self).spec_items().remove(r),
    {
        let w = self.peek_worst();
        proof {
            use_type_invariant(&*self);
        }
        let mut items: Vec<(usize, u32)> = Vec::new();
        std::mem::swap(&mut items, &mut self.items);
        let ghost s = items@;
        proof {
            lemma_worst_is_root(s, w);
        }
        let last = items.len() - 1;
        swap_items(&mut items, 0, last);
        let ghost t = items@;
        let popped = items.pop();
        proof {
            assert(t.drop_last().push(t.last()) =~= t);
            assert(t.last() == s[0]);
            assert(items@ =~= t.drop_last());
            assert(items@.to_multiset() =~= s.to_multiset().remove(s[0]));
        }
        if items.len() > 0 {
            proof {
                assert forall|j: int| 0 < j < items@.len() && (j - 1) / 2 != 0 implies #[trigger] heap_ok(items@, j) by {
                    assert(heap_ok(s, j));
                    assert(items@[j] == s[j]);
                    assert(items@[(j - 1) / 2] == s[(j - 1) / 2]);
                }
            }
            sift_down(&mut items, 0);
        }
        std::mem::swap(&mut items, &mut self.items);
        w
    }

    /// Replaces the candidate that ranks last by `c` and returns it.
    pub fn replace_worst(&mut self, c: (usize, u32)) -> (r: (usize, u32))
        requires
            old(self).spec_items().len() > 0,
        ensures
            old(self).spec_items().contains(r),
            forall|e: (usize, u32)| old(self).spec_items().contains(e) ==> no_later(e, r),
            final(self).spec_items() == old(self).spec_items().remove(r).insert(c),
    {
        let w = self.peek_worst();
        proof {
            use_type_invariant(&*self);
        }
        let mut items: Vec<(usize, u32)> = Vec::new();
        std::mem::swap(&mut items, &mut self.items);
        let ghost s = items@;
        proof {
            lemma_worst_is_root(s, w);
        }
        items.set(0, c);
        proof {
            vstd::seq_lib::to_multiset_update(s, 0, c);
            assert(items@.to_multiset() =~= s.to_multiset().remove(s[0]).insert(c));
            assert forall|j: int| 0 < j < items@.len() && (j - 1) / 2 != 0 implies #[trigger] heap_ok(items@, j) by {
                assert(heap_ok(s, j));
            }
        }
        sift_down(&mut items, 0);
        std::mem::swap(&mut items, &mut self.items);
        w
    }
}

} // verus!
