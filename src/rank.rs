use vstd::prelude::*;

use crate::index::{view_entries, Keyed};

verus! {

/// The distinct values of `s`, in the order in which each first occurs.
pub open spec fn first_seen<V>(s: Seq<(V, u8)>) -> Seq<V>
    decreases s.len(),
{
    if s.len() == 0 {
        Seq::empty()
    } else {
        let f = first_seen(s.drop_last());
        if f.contains(s.last().0) {
            f
        } else {
            f.push(s.last().0)
        }
    }
}

/// The sum of the ranks of the entries of `s` for `v`.
pub open spec fn score<V>(s: Seq<(V, u8)>, v: V) -> int
    decreases s.len(),
{
    if s.len() == 0 {
        0
    } else {
        score(s.drop_last(), v) + if s.last().0 == v {
            s.last().1 as int
        } else {
            0
        }
    }
}

/// `a` comes before `b` in the ranking of `s`: by a higher score, or by an
/// equal score and an earlier first occurrence.
pub open spec fn outranks<V>(s: Seq<(V, u8)>, a: V, b: V) -> bool {
    ||| score(s, a) > score(s, b)
    ||| score(s, a) == score(s, b) && exists|i: int, j: int|
        0 <= i < j < first_seen(s).len() && first_seen(s)[i] == a && first_seen(s)[j] == b
}

/// `r` lists every distinct value of `s` once, best ranked first.
pub open spec fn is_ranking<V>(s: Seq<(V, u8)>, r: Seq<V>) -> bool {
    &&& r.len() == first_seen(s).len()
    &&& forall|i: int| 0 <= i < first_seen(s).len() ==> r.contains(#[trigger] first_seen(s)[i])
    &&& forall|i: int, j: int| 0 <= i < j < r.len() ==> outranks(s, #[trigger] r[i], #[trigger] r[j])
}

/// The views of a list of values.
pub open spec fn views<T: View>(v: Seq<T>) -> Seq<T::V> {
    v.map_values(|t: T| t@)
}

proof fn lemma_first_seen<V>(s: Seq<(V, u8)>)
    ensures
        forall|a: int, b: int|
            0 <= a < b < first_seen(s).len() ==> first_seen(s)[a] != first_seen(s)[b],
        forall|v: V| !first_seen(s).contains(v) ==> score(s, v) == 0,
    decreases s.len(),
{
    if s.len() > 0 {
        let d = s.drop_last();
        lemma_first_seen(d);
        let f = first_seen(d);
        let fs = first_seen(s);
        assert(fs == if f.contains(s.last().0) { f } else { f.push(s.last().0) });
        assert forall|v: V| !first_seen(s).contains(v) implies score(s, v) == 0 by {
            if f.contains(v) {
                let k = choose|k: int| 0 <= k < f.len() && f[k] == v;
                assert(fs[k] == v);
            }
            if s.last().0 == v {
                if !f.contains(v) {
                    assert(fs[f.len() as int] == v);
                }
            }
            assert(!f.contains(v));
            assert(score(d, v) == 0);
        }
        assert forall|a: int, b: int| 0 <= a < b < fs.len() implies fs[a] != fs[b] by {
            if b == f.len() {
                assert(fs[a] == f[a]);
            }
        }
    }
}

/// Every distinct value of `flat`, by the sum of its ranks, highest first;
/// values with equal sums keep the order in which they first occur.
pub fn rank_entries<T: Keyed>(flat: &Vec<(T, u8)>) -> (r: Vec<T>)
    ensures
        is_ranking(view_entries(flat@), views(r@)),
{
    let ghost fv = view_entries(flat@);
    let mut ids: Vec<T> = Vec::new();
    let mut scores: Vec<u128> = Vec::new();
    let mut i: usize = 0;
    while i < flat.len()
        invariant
            i <= flat@.len(),
            fv == view_entries(flat@),
            views(ids@) == first_seen(fv.take(i as int)),
            scores@.len() == ids@.len(),
            forall|g: int|
                0 <= g < ids@.len() ==> #[trigger] scores@[g] == score(
                    fv.take(i as int),
                    ids@[g]@,
                ) && scores@[g] <= 255 * i,
        decreases flat@.len() - i,
    {
        let ghost pre = fv.take(i as int);
        let ghost cur = fv.take(i + 1);
        proof {
            assert(cur.drop_last() =~= pre);
            assert(cur.last() == (flat@[i as int].0@, flat@[i as int].1));
            lemma_first_seen(pre);
        }
        let mut g: usize = 0;
        let mut found = false;
        while g < ids.len() && !found
            invariant
                i < flat@.len(),
                g <= ids@.len(),
                found ==> g < ids@.len() && ids@[g as int]@ == flat@[i as int].0@,
                forall|h: int| 0 <= h < g ==> ids@[h]@ != flat@[i as int].0@,
            decreases ids@.len() - g, if found { 0int } else { 1int },
        {
            if ids[g].same_as(&flat[i].0) {
                found = true;
            } else {
                g += 1;
            }
        }
        let rank = flat[i].1;
        if found {
            let total = scores[g] + rank as u128;
            scores.set(g, total);
            proof {
                assert(first_seen(cur) =~= first_seen(pre)) by {
                    assert(views(ids@)[g as int] == ids@[g as int]@);
                }
                assert forall|h: int|
                    0 <= h < ids@.len() implies #[trigger] scores@[h] == score(cur, ids@[h]@)
                    && scores@[h] <= 255 * (i + 1) by {
                    if h != g {
                        assert(views(ids@)[h] == ids@[h]@);
                        assert(views(ids@)[g as int] == ids@[g as int]@);
                    }
                }
            }
        } else {
            let ghost v = flat@[i as int].0@;
            proof {
                assert(!first_seen(pre).contains(v)) by {
                    if first_seen(pre).contains(v) {
                        let k = choose|k: int| 0 <= k < first_seen(pre).len() && first_seen(pre)[k] == v;
                        assert(views(ids@)[k] == ids@[k]@);
                    }
                }
            }
            let ghost old_ids = ids@;
            let ghost old_scores = scores@;
            ids.push(flat[i].0.duplicate());
            scores.push(rank as u128);
            proof {
                assert(score(pre, v) == 0);
                assert(views(ids@) =~= first_seen(cur));
                assert forall|h: int|
                    0 <= h < ids@.len() implies #[trigger] scores@[h] == score(cur, ids@[h]@)
                    && scores@[h] <= 255 * (i + 1) by {
                    if h < ids@.len() - 1 {
                        assert(views(ids@)[h] == ids@[h]@);
                        assert(ids@[h] == old_ids[h]);
                        assert(scores@[h] == old_scores[h]);
                        assert(old_ids[h]@ != v);
                    } else {
                        assert(ids@[h]@ == v);
                    }
                }
            }
        }
        i += 1;
    }
    proof {
        assert(fv.take(i as int) =~= fv);
        lemma_first_seen(fv);
    }
    let order = order_by_score(&scores);
    let mut r: Vec<T> = Vec::new();
    let mut a: usize = 0;
    while a < order.len()
        invariant
            a <= order@.len(),
            order@.len() == scores@.len(),
            scores@.len() == ids@.len(),
            forall|k: int| 0 <= k < order@.len() ==> #[trigger] order@[k] < scores@.len(),
            r@.len() == a,
            forall|k: int| 0 <= k < a ==> #[trigger] r@[k]@ == ids@[order@[k] as int]@,
        decreases order@.len() - a,
    {
        r.push(ids[order[a]].duplicate());
        a += 1;
    }
    proof {
        let fs = first_seen(fv);
        let rv = views(r@);
        assert forall|k: int| 0 <= k < fs.len() implies rv.contains(#[trigger] fs[k]) by {
            assert(views(ids@)[k] == ids@[k]@);
            assert(listed(order@, k));
            let x = choose|x: int| 0 <= x < order@.len() && #[trigger] order@[x] == k;
            assert(rv[x] == r@[x]@);
        }
        assert forall|x: int, y: int| 0 <= x < y < rv.len() implies outranks(fv, #[trigger] rv[x], #[trigger] rv[y]) by {
            let p = order@[x] as int;
            let q = order@[y] as int;
            assert(rv[x] == r@[x]@ && rv[y] == r@[y]@);
            assert(views(ids@)[p] == ids@[p]@ && views(ids@)[q] == ids@[q]@);
            if scores@[p] == scores@[q] {
                assert(p < q);
            }
        }
    }
    r
}

/// `h` occurs in `r`.
pub open spec fn listed(r: Seq<usize>, h: int) -> bool {
    exists|k: int| 0 <= k < r.len() && #[trigger] r[k] == h
}

/// `x` comes before `y` when its score is higher, or equal with a smaller index.
pub open spec fn before(scores: Seq<u128>, x: int, y: int) -> bool {
    scores[x] > scores[y] || (scores[x] == scores[y] && x < y)
}

/// The positions of `scores`, highest score first, ties by position.
fn order_by_score(scores: &Vec<u128>) -> (r: Vec<usize>)
    ensures
        r@.len() == scores@.len(),
        forall|k: int| 0 <= k < r@.len() ==> #[trigger] r@[k] < scores@.len(),
        forall|h: int| 0 <= h < scores@.len() ==> #[trigger] listed(r@, h),
        forall|a: int, b: int| 0 <= a < b < r@.len() ==> before(scores@, #[trigger] r@[a] as int, #[trigger] r@[b] as int),
{
    let mut r: Vec<usize> = Vec::new();
    let mut g: usize = 0;
    while g < scores.len()
        invariant
            g <= scores@.len(),
            r@.len() == g,
            forall|k: int| 0 <= k < r@.len() ==> #[trigger] r@[k] < g,
            forall|h: int| 0 <= h < g ==> #[trigger] listed(r@, h),
            forall|a: int, b: int| 0 <= a < b < r@.len() ==> before(scores@, #[trigger] r@[a] as int, #[trigger] r@[b] as int),
        decreases scores@.len() - g,
    {
        let mut k: usize = 0;
        while k < r.len() && scores[r[k]] >= scores[g]
            invariant
                k <= r@.len(),
                g < scores@.len(),
                forall|j: int| 0 <= j < r@.len() ==> #[trigger] r@[j] < g,
                forall|a: int| 0 <= a < k ==> scores@[#[trigger] r@[a] as int] >= scores@[g as int],
            decreases r@.len() - k,
        {
            k += 1;
        }
        let ghost old_r = r@;
        r.insert(k, g);
        proof {
            assert forall|j: int| 0 <= j < r@.len() implies #[trigger] r@[j] < g + 1 by {
                if j < k {
                    assert(r@[j] == old_r[j]);
                } else if j > k {
                    assert(r@[j] == old_r[j - 1]);
                }
            }
            assert forall|h: int| 0 <= h < g + 1 implies #[trigger] listed(r@, h) by {
                if h == g {
                    assert(r@[k as int] == g);
                } else {
                    assert(listed(old_r, h));
                    let j = choose|j: int| 0 <= j < old_r.len() && #[trigger] old_r[j] == h;
                    if j < k {
                        assert(r@[j] == old_r[j]);
                    } else {
                        assert(r@[j + 1] == old_r[j]);
                    }
                }
            }
            assert forall|a: int, b: int| 0 <= a < b < r@.len() implies before(scores@, #[trigger] r@[a] as int, #[trigger] r@[b] as int) by {
                if b < k {
                    assert(r@[a] == old_r[a] && r@[b] == old_r[b]);
                } else if b == k {
                    assert(r@[a] == old_r[a]);
                } else if a < k {
                    assert(r@[a] == old_r[a] && r@[b] == old_r[b - 1]);
                } else if a == k {
                    assert(r@[b] == old_r[b - 1]);
                    assert(before(scores@, old_r[k as int] as int, old_r[b - 1] as int) || b - 1 == k);
                } else {
                    assert(r@[a] == old_r[a - 1] && r@[b] == old_r[b - 1]);
                }
            }
        }
        g += 1;
    }
    r
}

} // verus!
