use vstd::multiset::Multiset;
use vstd::prelude::*;

use crate::candidates::{before, no_later, WorstFirstHeap};

verus! {

broadcast use {
    vstd::seq_lib::group_to_multiset_ensures,
    vstd::multiset::group_multiset_axioms,
};

/// A candidate is a record id paired with its order key. A larger key ranks
/// first; between equal keys the lower id ranks first.
pub open spec fn ranks_before(a: (usize, u32), b: (usize, u32)) -> bool {
    a.1 > b.1 || (a.1 == b.1 && a.0 < b.0)
}

/// How many records carry a key (records without one are never ranked).
pub open spec fn num_scored(keys: Seq<Option<u32>>) -> nat
    decreases keys.len(),
{
    if keys.len() == 0 {
        0
    } else {
        num_scored(keys.drop_last()) + if keys.last() is Some {
            1nat
        } else {
            0nat
        }
    }
}

/// Whether record `id` appears among the ranked candidates `r`.
pub open spec fn is_selected(r: Seq<(usize, u32)>, id: int) -> bool {
    exists|j: int| 0 <= j < r.len() && #[trigger] r[j].0 == id
}

pub open spec fn min_nat(a: nat, b: nat) -> nat {
    if a <= b {
        a
    } else {
        b
    }
}

/// `r` is the exact top-`k` of `keys`: the `min(k, scored)` best candidates,
/// in rank order, each carrying its own key, and nothing left out ranks above
/// anything kept.
pub open spec fn is_top_k(keys: Seq<Option<u32>>, k: nat, r: Seq<(usize, u32)>) -> bool {
    &&& r.len() == min_nat(k, num_scored(keys))
    &&& forall|j: int|
        0 <= j < r.len() ==> (#[trigger] r[j]).0 < keys.len() && keys[r[j].0 as int] == Some(
            r[j].1,
        )
    &&& forall|a: int, b: int| 0 <= a < b < r.len() ==> ranks_before(r[a], r[b])
    &&& forall|i: int|
        0 <= i < keys.len() && (#[trigger] keys[i]) is Some && !is_selected(r, i) ==> forall|
            j: int,
        |
            0 <= j < r.len() ==> ranks_before(#[trigger] r[j], (i as usize, keys[i]->0))
    &&& num_scored(keys) <= k ==> forall|i: int|
        0 <= i < keys.len() && (#[trigger] keys[i]) is Some ==> is_selected(r, i)
}

proof fn lemma_num_scored_take(keys: Seq<Option<u32>>, i: int)
    requires
        0 <= i < keys.len(),
    ensures
        num_scored(keys.take(i + 1)) == num_scored(keys.take(i)) + if keys[i] is Some {
            1nat
        } else {
            0nat
        },
{
    assert(keys.take(i + 1).drop_last() =~= keys.take(i));
}

/// `full` lists every scored record exactly once, in rank order: what a full
/// sort of all candidates produces.
pub open spec fn is_full_ranking(keys: Seq<Option<u32>>, full: Seq<(usize, u32)>) -> bool {
    &&& full.len() == num_scored(keys)
    &&& forall|j: int|
        0 <= j < full.len() ==> (#[trigger] full[j]).0 < keys.len() && keys[full[j].0 as int]
            == Some(full[j].1)
    &&& forall|a: int, b: int| 0 <= a < b < full.len() ==> ranks_before(full[a], full[b])
    &&& forall|i: int| 0 <= i < keys.len() && (#[trigger] keys[i]) is Some ==> is_selected(full, i)
}

proof fn lemma_first_difference(
    keys: Seq<Option<u32>>,
    k: nat,
    r1: Seq<(usize, u32)>,
    r2: Seq<(usize, u32)>,
    j: int,
)
    requires
        is_top_k(keys, k, r1),
        is_top_k(keys, k, r2),
        0 <= j < r1.len(),
        r1.len() == r2.len(),
        forall|m: int| 0 <= m < j ==> r1[m] == r2[m],
    ensures
        !ranks_before(r1[j], r2[j]),
{
    let x = r1[j];
    let i = x.0 as int;
    assert(keys[i] == Some(x.1));
    if ranks_before(x, r2[j]) {
        if is_selected(r2, i) {
            let q = choose|q: int| 0 <= q < r2.len() && r2[q].0 == i;
            assert(keys[r2[q].0 as int] == Some(r2[q].1));
            if q < j {
                assert(r1[q] == r2[q]);
                assert(ranks_before(r1[q], r1[j]));
            } else if q > j {
                assert(ranks_before(r2[j], r2[q]));
            }
        } else {
            assert(ranks_before(r2[j], (i as usize, keys[i]->0)));
        }
    }
}

proof fn lemma_agree_up_to(
    keys: Seq<Option<u32>>,
    k: nat,
    r1: Seq<(usize, u32)>,
    r2: Seq<(usize, u32)>,
    j: int,
)
    requires
        is_top_k(keys, k, r1),
        is_top_k(keys, k, r2),
        0 <= j <= r1.len(),
        r1.len() == r2.len(),
    ensures
        forall|m: int| 0 <= m < j ==> r1[m] == r2[m],
    decreases j,
{
    if j > 0 {
        lemma_agree_up_to(keys, k, r1, r2, j - 1);
        lemma_first_difference(keys, k, r1, r2, j - 1);
        lemma_first_difference(keys, k, r2, r1, j - 1);
    }
}

/// The top-`k` of a set of keys is unique: any two rankings that meet
/// `is_top_k` for the same keys and `k` are the same sequence.
pub proof fn lemma_top_k_unique(
    keys: Seq<Option<u32>>,
    k: nat,
    r1: Seq<(usize, u32)>,
    r2: Seq<(usize, u32)>,
)
    requires
        is_top_k(keys, k, r1),
        is_top_k(keys, k, r2),
    ensures
        r1 == r2,
{
    lemma_agree_up_to(keys, k, r1, r2, r1.len() as int);
    assert(r1 =~= r2);
}

/// Ranking agrees with sorting and slicing: for any full ranking of the scored
/// records, the top-`k` is its first `min(k, scored)` entries.
pub proof fn lemma_top_k_is_sorted_prefix(
    keys: Seq<Option<u32>>,
    k: nat,
    full: Seq<(usize, u32)>,
    r: Seq<(usize, u32)>,
)
    requires
        is_full_ranking(keys, full),
        is_top_k(keys, k, r),
    ensures
        r == full.take(min_nat(k, full.len()) as int),
{
    let m = min_nat(k, full.len());
    let pre = full.take(m as int);
    assert forall|i: int|
        0 <= i < keys.len() && (#[trigger] keys[i]) is Some && !is_selected(pre, i) implies forall|
            j: int,
        |
            0 <= j < pre.len() ==> ranks_before(#[trigger] pre[j], (i as usize, keys[i]->0)) by {
        let q = choose|q: int| 0 <= q < full.len() && full[q].0 == i;
        assert(keys[full[q].0 as int] == Some(full[q].1));
        if q < m {
            assert(pre[q].0 == i);
        }
        assert forall|j: int| 0 <= j < pre.len() implies ranks_before(
            #[trigger] pre[j],
            (i as usize, keys[i]->0),
        ) by {
            assert(ranks_before(full[j], full[q]));
        }
    }
    assert forall|i: int|
        num_scored(keys) <= k && 0 <= i < keys.len() && (#[trigger] keys[i]) is Some implies is_selected(pre, i) by {
        let q = choose|q: int| 0 <= q < full.len() && full[q].0 == i;
        assert(pre[q].0 == i);
    }
    lemma_top_k_unique(keys, k, r, pre);
}

proof fn lemma_num_scored_all(keys: Seq<Option<u32>>)
    requires
        forall|i: int| 0 <= i < keys.len() ==> (#[trigger] keys[i]) is Some,
    ensures
        num_scored(keys) == keys.len(),
    decreases keys.len(),
{
    if keys.len() > 0 {
        let rest = keys.drop_last();
        assert forall|i: int| 0 <= i < rest.len() implies (#[trigger] rest[i]) is Some by {
            assert(rest[i] == keys[i]);
        }
        lemma_num_scored_all(rest);
    }
}

/// Results come best first: along a top-`k` ranking the keys never increase.
pub proof fn lemma_top_k_keys_non_increasing(keys: Seq<Option<u32>>, k: nat, r: Seq<(usize, u32)>)
    requires
        is_top_k(keys, k, r),
    ensures
        forall|a: int, b: int| 0 <= a < b < r.len() ==> r[a].1 >= r[b].1,
{
    assert forall|a: int, b: int| 0 <= a < b < r.len() implies r[a].1 >= r[b].1 by {
        assert(ranks_before(r[a], r[b]));
    }
}

/// Nothing is returned when `k` is zero or there are no records.
pub proof fn lemma_top_k_empty(keys: Seq<Option<u32>>, k: nat, r: Seq<(usize, u32)>)
    requires
        is_top_k(keys, k, r),
        k == 0 || keys.len() == 0,
    ensures
        r.len() == 0,
{
}

/// When every record is scored and `k` is at least the number of records,
/// the ranking has one entry per record and names every record exactly once.
pub proof fn lemma_top_k_covers_all(keys: Seq<Option<u32>>, k: nat, r: Seq<(usize, u32)>)
    requires
        is_top_k(keys, k, r),
        forall|i: int| 0 <= i < keys.len() ==> (#[trigger] keys[i]) is Some,
        k >= keys.len(),
    ensures
        r.len() == keys.len(),
        forall|i: int| 0 <= i < keys.len() ==> is_selected(r, i),
        forall|a: int, b: int| 0 <= a < r.len() && 0 <= b < r.len() && a != b ==> r[a].0 != r[b].0,
{
    lemma_num_scored_all(keys);
    assert forall|i: int| 0 <= i < keys.len() implies is_selected(r, i) by {
        assert(keys[i] is Some);
    }
    assert forall|a: int, b: int| 0 <= a < r.len() && 0 <= b < r.len() && a != b implies r[a].0
        != r[b].0 by {
        if r[a].0 == r[b].0 {
            assert(keys[r[a].0 as int] == Some(r[a].1));
            assert(keys[r[b].0 as int] == Some(r[b].1));
            if a < b {
                assert(ranks_before(r[a], r[b]));
            } else {
                assert(ranks_before(r[b], r[a]));
            }
        }
    }
}

/// What the bounded heap holds after the first `n` records are scanned: the
/// best `min(k, scored)` of them, each once, with no scanned record left out
/// that ranks before one kept.
spec fn holds_best(keys: Seq<Option<u32>>, n: int, k: nat, m: Multiset<(usize, u32)>) -> bool {
    &&& m.len() == min_nat(k, num_scored(keys.take(n)))
    &&& forall|e: (usize, u32)| #[trigger] m.contains(e) ==> e.0 < n && keys[e.0 as int] == Some(e.1)
    &&& forall|e: (usize, u32)| #[trigger] m.count(e) <= 1
    &&& forall|i: int|
        0 <= i < n && (#[trigger] keys[i]) is Some && !m.contains((i as usize, keys[i]->0)) ==> forall|
            e: (usize, u32),
        | #[trigger] m.contains(e) ==> ranks_before(e, (i as usize, keys[i]->0))
    &&& num_scored(keys.take(n)) <= k ==> forall|i: int|
        0 <= i < n && (#[trigger] keys[i]) is Some ==> m.contains((i as usize, keys[i]->0))
}

/// Ranks the scored records and keeps the best `k`: `keys[i]` is the order key
/// of record `i`, or `None` where the record has no usable score. The result
/// lists `(id, key)` pairs, best first.
///
/// One pass keeps the best candidates seen so far in a heap bounded by `k`
/// whose root is the worst of them; a candidate that beats the root replaces
/// it. The kept candidates are then drained worst first and reversed.
pub fn top_k(keys: &Vec<Option<u32>>, k: usize) -> (r: Vec<(usize, u32)>)
    ensures
        is_top_k(keys@, k as nat, r@),
{
    let mut heap = WorstFirstHeap::new();
    let mut i: usize = 0;
    proof {
        assert(keys@.take(0) =~= Seq::<Option<u32>>::empty());
    }
    while i < keys.len()
        invariant
            i <= keys.len(),
            holds_best(keys@, i as int, k as nat, heap.spec_items()),
        decreases keys.len() - i,
    {
        let ghost m = heap.spec_items();
        proof {
            lemma_num_scored_take(keys@, i as int);
        }
        match keys[i] {
            Some(key) => {
                let c = (i, key);
                proof {
                    assert(!m.contains(c));
                }
                if heap.len() < k {
                    heap.push(c);
                    proof {
                        let m2 = heap.spec_items();
                        assert forall|e: (usize, u32)| #[trigger] m2.count(e) <= 1 by {
                            if e != c {
                                assert(m2.count(e) == m.count(e));
                            }
                        }
                        assert forall|j: int| 0 <= j <= i && (#[trigger] keys@[j]) is Some implies m2.contains(
                            (j as usize, keys@[j]->0),
                        ) by {
                            if j < i {
                                assert(m.contains((j as usize, keys@[j]->0)));
                            }
                        }
                    }
                } else if heap.len() > 0 {
                    let w = heap.peek_worst();
                    if before(c, w) {
                        let w2 = heap.replace_worst(c);
                        proof {
                            assert(no_later(w, w2));
                            assert(no_later(w2, w));
                            assert(w2 == w);
                            let m2 = heap.spec_items();
                            assert(m.count(w) == 1);
                            assert(!m2.contains(w));
                            assert forall|e: (usize, u32)| #[trigger] m2.count(e) <= 1 by {
                                if e != c && e != w {
                                    assert(m2.count(e) == m.count(e));
                                }
                            }
                            assert forall|e: (usize, u32)| #[trigger] m2.contains(e) implies e.0 < i + 1
                                && keys@[e.0 as int] == Some(e.1) by {
                                if e != c {
                                    assert(m.contains(e));
                                }
                            }
                            assert forall|j: int|
                                0 <= j < i + 1 && (#[trigger] keys@[j]) is Some && !m2.contains(
                                    (j as usize, keys@[j]->0),
                                ) implies forall|e: (usize, u32)| #[trigger] m2.contains(e) ==> ranks_before(
                                e,
                                (j as usize, keys@[j]->0),
                            ) by {
                                let cj = (j as usize, keys@[j]->0);
                                assert(j != i);
                                if cj != w {
                                    assert(!m.contains(cj));
                                    assert(ranks_before(w, cj));
                                }
                                assert forall|e: (usize, u32)| #[trigger] m2.contains(e) implies ranks_before(e, cj) by {
                                    if e != c {
                                        assert(m.contains(e));
                                        assert(no_later(e, w));
                                        assert(e != w);
                                        if cj != w {
                                            assert(ranks_before(e, cj));
                                        }
                                    }
                                }
                            }
                        }
                    } else {
                        proof {
                            assert(w.0 < i);
                            assert(ranks_before(w, c));
                            assert forall|e: (usize, u32)| #[trigger] m.contains(e) implies ranks_before(e, c) by {
                                assert(no_later(e, w));
                            }
                        }
                    }
                }
            },
            None => {},
        }
        proof {
            let m2 = heap.spec_items();
            assert forall|e: (usize, u32)| #[trigger] m2.contains(e) implies e.0 < i + 1 && keys@[e.0 as int]
                == Some(e.1) by {
                if m.contains(e) {
                }
            }
        }
        i += 1;
    }
    proof {
        assert(keys@.take(keys.len() as int) =~= keys@);
    }
    let ghost m0 = heap.spec_items();
    let mut worst_first: Vec<(usize, u32)> = Vec::new();
    while heap.len() > 0
        invariant
            heap.spec_items().add(worst_first@.to_multiset()) == m0,
            forall|e: (usize, u32)| #[trigger] m0.count(e) <= 1,
            forall|a: int, b: int|
                0 <= a < b < worst_first@.len() ==> ranks_before(worst_first@[b], worst_first@[a]),
            worst_first@.len() > 0 ==> forall|e: (usize, u32)|
                #[trigger] heap.spec_items().contains(e) ==> ranks_before(e, worst_first@.last()),
        decreases heap.spec_items().len(),
    {
        let ghost h = heap.spec_items();
        let ghost wf = worst_first@;
        let w = heap.pop_worst();
        worst_first.push(w);
        proof {
            let h2 = heap.spec_items();
            assert(h2.add(worst_first@.to_multiset()) =~= h.add(wf.to_multiset()));
            assert(h.count(w) <= m0.count(w));
            assert(!h2.contains(w));
            assert forall|e: (usize, u32)| #[trigger] h2.contains(e) implies ranks_before(e, w) by {
                assert(h.contains(e));
                assert(no_later(e, w));
                assert(e != w);
            }
            assert forall|a: int, b: int| 0 <= a < b < worst_first@.len() implies ranks_before(
                worst_first@[b],
                worst_first@[a],
            ) by {
                if b == wf.len() {
                    if a < wf.len() - 1 {
                        assert(ranks_before(wf.last(), wf[a]));
                    }
                } else {
                    assert(worst_first@[a] == wf[a]);
                    assert(worst_first@[b] == wf[b]);
                }
            }
        }
    }
    let n = worst_first.len();
    let mut best: Vec<(usize, u32)> = Vec::new();
    let mut t: usize = n;
    while t > 0
        invariant
            t <= n,
            n == worst_first@.len(),
            best@.len() == n - t,
            forall|q: int| 0 <= q < best@.len() ==> #[trigger] best@[q] == worst_first@[n - 1 - q],
        decreases t,
    {
        t -= 1;
        best.push(worst_first[t]);
    }
    proof {
        let wf = worst_first@;
        let b = best@;
        assert(heap.spec_items() =~= Multiset::<(usize, u32)>::empty());
        assert(b =~= wf.reverse());
        wf.lemma_reverse_to_multiset();
        assert(b.to_multiset() == m0);
        assert forall|a: int, c: int| 0 <= a < c < b.len() implies ranks_before(b[a], b[c]) by {
            assert(b[a] == wf[n - 1 - a]);
            assert(b[c] == wf[n - 1 - c]);
        }
        assert forall|j: int| 0 <= j < b.len() implies (#[trigger] b[j]).0 < keys@.len() && keys@[b[j].0 as int]
            == Some(b[j].1) by {
            assert(b.contains(b[j]));
            assert(m0.contains(b[j]));
        }
        assert forall|id: int|
            0 <= id < keys@.len() && (#[trigger] keys@[id]) is Some && !is_selected(b, id) implies forall|
                j: int,
            | 0 <= j < b.len() ==> ranks_before(#[trigger] b[j], (id as usize, keys@[id]->0)) by {
            let cid = (id as usize, keys@[id]->0);
            if m0.contains(cid) {
                assert(b.contains(cid));
                let q = choose|q: int| 0 <= q < b.len() && b[q] == cid;
                assert(b[q].0 == id);
            }
            assert forall|j: int| 0 <= j < b.len() implies ranks_before(#[trigger] b[j], cid) by {
                assert(b.contains(b[j]));
                assert(m0.contains(b[j]));
            }
        }
        assert forall|id: int|
            num_scored(keys@) <= k && 0 <= id < keys@.len() && (#[trigger] keys@[id]) is Some implies is_selected(
                b,
                id,
            ) by {
            let cid = (id as usize, keys@[id]->0);
            assert(m0.contains(cid));
            assert(b.contains(cid));
            let q = choose|q: int| 0 <= q < b.len() && b[q] == cid;
            assert(b[q].0 == id);
        }
    }
    best
}

} // verus!
