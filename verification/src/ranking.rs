//! Ranking for the brute-force vector index: given one comparable score per
//! stored entry, select the indices of the `top_k` best entries, highest
//! score first, ties broken by insertion order.

use vstd::prelude::*;

verus! {

/// Entry `i` ranks strictly before entry `j`: a higher score wins, and an
/// equal score goes to the earlier entry.
pub open spec fn ranks_before(sc: Seq<u64>, i: int, j: int) -> bool {
    sc[i] > sc[j] || (sc[i] == sc[j] && i < j)
}

/// `ranks_before` is transitive.
proof fn lemma_ranks_before_trans(sc: Seq<u64>, i: int, j: int, k: int)
    requires
        ranks_before(sc, i, j),
        ranks_before(sc, j, k),
    ensures
        ranks_before(sc, i, k),
{
}

/// The indices of the `top_k` highest-scoring entries, in rank order:
/// descending score, ties by ascending index. Every index left out ranks
/// after every index returned.
pub fn rank_by_score(scores: &Vec<u64>, top_k: usize) -> (r: Vec<usize>)
    ensures
        r@.len() == if top_k <= scores@.len() {
            top_k as int
        } else {
            scores@.len() as int
        },
        forall|a: int| 0 <= a < r@.len() ==> ((#[trigger] r@[a]) as int) < scores@.len(),
        forall|a: int, b: int|
            0 <= a < b < r@.len() ==> ranks_before(scores@, (#[trigger] r@[a]) as int, (
            #[trigger] r@[b]) as int),
        forall|a: int, j: int|
            0 <= a < r@.len() && 0 <= j < scores@.len() && !r@.contains(j as usize)
                ==> #[trigger] ranks_before(scores@, r@[a] as int, j),
{
    let ghost sc = scores@;
    let n = scores.len();
    let mut idx: Vec<usize> = Vec::new();
    let mut v: usize = 0;
    while v < n
        invariant
            idx@.len() == v,
            v <= n,
            forall|p: int| 0 <= p < v ==> (#[trigger] idx@[p]) == p as usize,
        decreases n - v,
    {
        idx.push(v);
        v += 1;
    }
    proof {
        assert forall|w: int| 0 <= w < n implies idx@.contains(#[trigger] (w as usize)) by {
            assert(idx@[w] == w as usize);
        }
    }
    let mut i: usize = 1;
    while i < n
        invariant
            n == sc.len(),
            sc == scores@,
            idx@.len() == n,
            1 <= i <= n || (n == 0 && i == 1),
            forall|p: int| 0 <= p < n ==> ((#[trigger] idx@[p]) as int) < n,
            forall|p: int, q: int| 0 <= p < q < n ==> (#[trigger] idx@[p]) != (#[trigger] idx@[q]),
            forall|w: int| 0 <= w < n ==> idx@.contains(#[trigger] (w as usize)),
            forall|a: int, b: int|
                0 <= a < b < i ==> ranks_before(sc, (#[trigger] idx@[a]) as int, (
                #[trigger] idx@[b]) as int),
        decreases n - i,
    {
        let mut j: usize = i;
        let mut advance = true;
        while j > 0 && advance
            invariant
                n == sc.len(),
                sc == scores@,
                i < n,
                idx@.len() == n,
                j <= i,
                forall|p: int| 0 <= p < n ==> ((#[trigger] idx@[p]) as int) < n,
                forall|p: int, q: int|
                    0 <= p < q < n ==> (#[trigger] idx@[p]) != (#[trigger] idx@[q]),
                forall|w: int| 0 <= w < n ==> idx@.contains(#[trigger] (w as usize)),
                forall|a: int, b: int|
                    0 <= a < b <= i && b != j ==> ranks_before(sc, (#[trigger] idx@[a]) as int, (
                    #[trigger] idx@[b]) as int),
                forall|b: int|
                    j < b <= i ==> ranks_before(sc, idx@[j as int] as int, (
                    #[trigger] idx@[b]) as int),
                !advance && j > 0 ==> !ranks_before(
                    sc,
                    idx@[j as int] as int,
                    idx@[j as int - 1] as int,
                ),
            decreases j, (if advance {
                1int
            } else {
                0int
            }),
        {
            let upper = idx[j - 1];
            let lower = idx[j];
            if scores[lower] > scores[upper] || (scores[lower] == scores[upper] && lower < upper) {
                let ghost pre = idx@;
                let x = idx[j - 1];
                let y = idx[j];
                assert(ranks_before(sc, y as int, x as int));
                idx.set(j - 1, y);
                idx.set(j, x);
                proof {
                    assert(idx@ =~= pre.update(j as int - 1, y).update(j as int, x));
                    assert forall|w: int| 0 <= w < n implies idx@.contains(
                        #[trigger] (w as usize),
                    ) by {
                        let p = choose|p: int| 0 <= p < pre.len() && pre[p] == w as usize;
                        if p == j - 1 {
                            assert(idx@[j as int] == w as usize);
                        } else if p == j {
                            assert(idx@[j as int - 1] == w as usize);
                        } else {
                            assert(idx@[p] == w as usize);
                        }
                    }
                }
                j -= 1;
            } else {
                advance = false;
            }
        }
        proof {
            assert forall|a: int, b: int| 0 <= a < b <= i implies ranks_before(
                sc,
                (#[trigger] idx@[a]) as int,
                (#[trigger] idx@[b]) as int,
            ) by {
                if b == j as int {
                    assert(j > 0);
                    let x = idx@[j as int - 1];
                    let y = idx@[j as int];
                    assert(x != y);
                    assert(!ranks_before(sc, y as int, x as int));
                    assert(ranks_before(sc, x as int, y as int));
                    if a < j - 1 {
                        assert(ranks_before(sc, idx@[a] as int, x as int));
                        lemma_ranks_before_trans(sc, idx@[a] as int, x as int, y as int);
                    }
                }
            }
        }
        i += 1;
    }
    let mut r = idx;
    let ghost full = r@;
    if top_k < n {
        r.truncate(top_k);
        proof {
            assert(r@ =~= full.take(top_k as int));
        }
    }
    proof {
        assert forall|a: int, j2: int|
            0 <= a < r@.len() && 0 <= j2 < sc.len() && !r@.contains(j2 as usize) implies
            ranks_before(sc, (r@[a]) as int, j2) by {
            assert(full.contains(j2 as usize));
            let p = choose|p: int| 0 <= p < full.len() && full[p] == j2 as usize;
            if p < r@.len() {
                assert(r@[p] == j2 as usize);
            }
            assert(p >= r@.len());
            if a < p && 1 <= n {
                assert(ranks_before(sc, full[a] as int, full[p] as int));
            }
        }
    }
    r
}

} // verus!
