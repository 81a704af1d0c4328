use vstd::prelude::*;

use crate::db::Distance;

verus! {

/// The order key of a score. A score travels as the bit pattern of a
/// 32-bit IEEE-754 float; this key maps those patterns to `u32` so that
/// the unsigned order of keys is the total order of the encoded floats
/// (sign-magnitude made monotone: negative patterns are complemented,
/// non-negative patterns get the sign bit raised).
pub open spec fn spec_score_key(bits: u32) -> u32 {
    if bits >= 0x8000_0000 {
        !bits
    } else {
        bits ^ 0x8000_0000
    }
}

/// The rank of a score under a metric: ranks ascend from best to worst.
/// Euclidean scores are distances, so smaller scores rank first; cosine
/// and dot-product scores are similarities, so larger scores rank first.
pub open spec fn spec_rank(metric: Distance, bits: u32) -> u32 {
    match metric {
        Distance::Euclidean => spec_score_key(bits),
        Distance::Cosine => !spec_score_key(bits),
        Distance::DotProduct => !spec_score_key(bits),
    }
}

/// Computes the rank of a score under a metric.
pub fn rank_of(metric: Distance, bits: u32) -> (r: u32)
    ensures
        r == spec_rank(metric, bits),
{
    let key: u32 = if bits >= 0x8000_0000 {
        !bits
    } else {
        bits ^ 0x8000_0000
    };
    match metric {
        Distance::Euclidean => key,
        Distance::Cosine => !key,
        Distance::DotProduct => !key,
    }
}

/// Candidate `i` is retained in preference to candidate `j`: it ranks
/// strictly better, or ranks equal and was inserted earlier.
pub open spec fn prefers(metric: Distance, scores: Seq<u32>, i: int, j: int) -> bool {
    ||| spec_rank(metric, scores[i]) < spec_rank(metric, scores[j])
    ||| (spec_rank(metric, scores[i]) == spec_rank(metric, scores[j]) && i < j)
}

/// A ranked candidate `a` is kept ahead of `b`: it has the smaller rank,
/// or the same rank and the smaller storage index.
pub open spec fn pair_lt(a: (u32, usize), b: (u32, usize)) -> bool {
    ||| a.0 < b.0
    ||| (a.0 == b.0 && a.1 < b.1)
}

/// What the bounded selection returns for a candidate list `cand` whose
/// storage indices strictly ascend: at most `k` candidates, strictly
/// ordered best-first, drawn from `cand`, preferred over everything of
/// `cand` that was left out, and only full lists leave anything out.
pub open spec fn is_bounded_selection(cand: Seq<(u32, usize)>, k: int, best: Seq<(u32, usize)>)
    -> bool {
    &&& forall|m1: int, m2: int| 0 <= m1 < m2 < best.len() ==> pair_lt(best[m1], best[m2])
    &&& forall|m: int| 0 <= m < best.len() ==> cand.contains(#[trigger] best[m])
    &&& best.len() <= k
    &&& best.len() <= cand.len()
    &&& forall|q: int|
        0 <= q < cand.len() && !best.contains(#[trigger] cand[q]) ==> forall|m: int|
            0 <= m < best.len() ==> pair_lt(#[trigger] best[m], cand[q])
    &&& best.len() < k ==> forall|q: int| 0 <= q < cand.len() ==> best.contains(#[trigger] cand[q])
}

/// Retains the `k` best of a candidate list of (rank, storage index)
/// pairs, best first, through a bounded, insertion-ordered buffer: the
/// worst retained pair leaves whenever a better candidate arrives.
pub fn select_top_k(cand: &Vec<(u32, usize)>, k: usize) -> (best: Vec<(u32, usize)>)
    requires
        forall|q1: int, q2: int| 0 <= q1 < q2 < cand@.len() ==> cand@[q1].1 < cand@[q2].1,
    ensures
        is_bounded_selection(cand@, k as int, best@),
{
    if k == 0 {
        let best: Vec<(u32, usize)> = Vec::new();
        return best;
    }
    let n = cand.len();
    let mut best: Vec<(u32, usize)> = Vec::new();
    let mut m: usize = 0;
    while m < n
        invariant
            k >= 1,
            n == cand@.len(),
            0 <= m <= n,
            forall|q1: int, q2: int| 0 <= q1 < q2 < cand@.len() ==> cand@[q1].1 < cand@[q2].1,
            is_bounded_selection(cand@.subrange(0, m as int), k as int, best@),
        decreases n - m,
    {
        let ghost pre_cand = cand@.subrange(0, m as int);
        let ghost mid_cand = cand@.subrange(0, m as int + 1);
        let x = cand[m];
        proof {
            assert(mid_cand =~= pre_cand.push(x));
            assert forall|p: int| 0 <= p < best@.len() implies best@[p].1 != x.1 by {
                assert(pre_cand.contains(best@[p]));
                let q = choose|q: int| 0 <= q < pre_cand.len() && pre_cand[q] == best@[p];
                assert(cand@[q].1 < cand@[m as int].1);
            }
        }
        if best.len() < k {
            let ghost pre_best = best@;
            insert_ranked(&mut best, x);
            proof {
                lemma_selection_grow(pre_cand, k as int, pre_best, best@, x);
            }
        } else {
            let worst = best[k - 1];
            if x.0 < worst.0 || (x.0 == worst.0 && x.1 < worst.1) {
                let ghost pre_best = best@;
                best.pop();
                proof {
                    assert(best@ =~= pre_best.drop_last());
                }
                insert_ranked(&mut best, x);
                proof {
                    lemma_selection_shrink(pre_cand, k as int, pre_best, best@, x);
                }
            } else {
                proof {
                    assert forall|p: int| 0 <= p < best@.len() implies pair_lt(
                        best@[p],
                        x,
                    ) by {
                        assert(pair_lt(worst, x));
                        if p < k - 1 {
                            assert(pair_lt(best@[p], worst));
                        }
                    }
                    assert(is_bounded_selection(mid_cand, k as int, best@)) by {
                        assert forall|q: int|
                            0 <= q < mid_cand.len() && !best@.contains(#[trigger] mid_cand[q])
                            implies forall|p: int|
                                0 <= p < best@.len() ==> pair_lt(#[trigger] best@[p], mid_cand[q])
                        by {
                            if q < m {
                                assert(!best@.contains(pre_cand[q]));
                            }
                        }
                    }
                }
            }
        }
        m = m + 1;
        proof {
            assert(cand@.subrange(0, m as int) =~= mid_cand);
        }
    }
    proof {
        assert(cand@.subrange(0, n as int) =~= cand@);
    }
    best
}

/// Inserts a pair, whose index differs from every held index, at its
/// ordered position in a strictly ordered buffer.
fn insert_ranked(best: &mut Vec<(u32, usize)>, x: (u32, usize))
    requires
        forall|m1: int, m2: int|
            0 <= m1 < m2 < old(best)@.len() ==> pair_lt(old(best)@[m1], old(best)@[m2]),
        forall|m: int| 0 <= m < old(best)@.len() ==> old(best)@[m].1 != x.1,
        old(best)@.len() < usize::MAX,
    ensures
        final(best)@ == old(best)@.insert(final(best)@.index_of(x), x),
        0 <= final(best)@.index_of(x) < final(best)@.len(),
        final(best)@.len() == old(best)@.len() + 1,
        forall|m1: int, m2: int|
            0 <= m1 < m2 < final(best)@.len() ==> pair_lt(final(best)@[m1], final(best)@[m2]),
        forall|m: int| 0 <= m < old(best)@.len() ==> final(best)@.contains(old(best)@[m]),
        final(best)@.contains(x),
        forall|m: int| 0 <= m < final(best)@.len() ==> (final(best)@[m] == x || old(best)@.contains(
            final(best)@[m],
        )),
    {
    let n = best.len();
    let ghost pre = best@;
    let mut pos: usize = 0;
    while pos < n && !(x.0 < best[pos].0 || (x.0 == best[pos].0 && x.1 < best[pos].1))
        invariant
            n == best@.len(),
            best@ == pre,
            forall|m: int| 0 <= m < n ==> best@[m].1 != x.1,
            0 <= pos <= n,
            forall|m: int| 0 <= m < pos ==> pair_lt(best@[m], x),
        decreases n - pos,
    {
        proof {
            assert(pair_lt(best@[pos as int], x)) by {
                assert(best@[pos as int].1 != x.1);
            }
        }
        pos = pos + 1;
    }
    proof {
        if (pos as int) < n {
            assert(pair_lt(x, pre[pos as int]));
        }
    }
    best.insert(pos, x);
    proof {
        let post = best@;
        assert(post == pre.insert(pos as int, x));
        assert forall|m1: int, m2: int| 0 <= m1 < m2 < post.len() implies pair_lt(
            post[m1],
            post[m2],
        ) by {
            let a1 = if m1 < pos { m1 } else { m1 - 1 };
            let a2 = if m2 < pos { m2 } else { m2 - 1 };
            if m1 == pos {
                assert(pair_lt(x, pre[pos as int]));
                if a2 > pos {
                    assert(pair_lt(pre[pos as int], pre[a2]));
                }
            } else if m2 == pos {
                assert(pair_lt(pre[a1], x));
            } else if m1 < pos && m2 > pos {
                assert(pair_lt(pre[a1], pre[a2]));
            } else {
                assert(pair_lt(pre[a1], pre[a2]));
            }
        }
        assert(post.index_of(x) == pos as int) by {
            assert(post[pos as int] == x);
            assert forall|m: int| 0 <= m < post.len() && post[m] == x implies m == pos as int by {
                if m != pos {
                    let a = if m < pos { m } else { m - 1 };
                    assert(pre[a].1 != x.1);
                }
            }
            lemma_index_of_first(post, x, pos as int);
        }
        assert forall|m: int| 0 <= m < pre.len() implies post.contains(pre[m]) by {
            if m < pos {
                assert(post[m] == pre[m]);
            } else {
                assert(post[m + 1] == pre[m]);
            }
        }
        assert(post[pos as int] == x);
        assert forall|m: int| 0 <= m < post.len() implies (post[m] == x || pre.contains(
            post[m],
        )) by {
            if m < pos {
                assert(post[m] == pre[m]);
            } else if m > pos {
                assert(post[m] == pre[m - 1]);
            }
        }
    }
}

/// `index_of` picks the position of the sole occurrence.
proof fn lemma_index_of_first(s: Seq<(u32, usize)>, x: (u32, usize), p: int)
    requires
        0 <= p < s.len(),
        s[p] == x,
        forall|m: int| 0 <= m < s.len() && s[m] == x ==> m == p,
    ensures
        s.index_of(x) == p,
{
    assert(s.contains(x));
    let q = s.index_of(x);
    assert(s[q] == x);
}

/// An ordered buffer grown by one below its bound still satisfies the
/// bounded-selection contract for the candidate prefix extended by the
/// inserted pair.
proof fn lemma_selection_grow(
    pre_cand: Seq<(u32, usize)>,
    k: int,
    old_best: Seq<(u32, usize)>,
    best: Seq<(u32, usize)>,
    x: (u32, usize),
)
    requires
        is_bounded_selection(pre_cand, k, old_best),
        old_best.len() < k,
        best.len() == old_best.len() + 1,
        forall|m: int| 0 <= m < old_best.len() ==> best.contains(old_best[m]),
        best.contains(x),
        forall|m: int| 0 <= m < best.len() ==> (best[m] == x || old_best.contains(best[m])),
        forall|m1: int, m2: int| 0 <= m1 < m2 < best.len() ==> pair_lt(best[m1], best[m2]),
    ensures
        is_bounded_selection(pre_cand.push(x), k, best),
{
    let mid = pre_cand.push(x);
    assert forall|m: int| 0 <= m < best.len() implies mid.contains(#[trigger] best[m]) by {
        if best[m] == x {
            assert(mid[mid.len() - 1] == x);
        } else {
            assert(old_best.contains(best[m]));
            let q = choose|q: int| 0 <= q < old_best.len() && old_best[q] == best[m];
            assert(pre_cand.contains(best[m]));
            let p = choose|p: int| 0 <= p < pre_cand.len() && pre_cand[p] == best[m];
            assert(mid[p] == best[m]);
        }
    }
    assert forall|q: int|
        0 <= q < mid.len() && !best.contains(#[trigger] mid[q]) implies forall|m: int|
            0 <= m < best.len() ==> pair_lt(#[trigger] best[m], mid[q]) by {
        if q < pre_cand.len() {
            assert(old_best.len() < k);
            assert(old_best.contains(pre_cand[q]));
            let p = choose|p: int| 0 <= p < old_best.len() && old_best[p] == pre_cand[q];
            assert(best.contains(old_best[p]));
            assert(false);
        } else {
            assert(mid[q] == x);
            assert(best.contains(x));
            assert(false);
        }
    }
    if best.len() < k {
        assert forall|q: int| 0 <= q < mid.len() implies best.contains(#[trigger] mid[q]) by {
            if q < pre_cand.len() {
                assert(old_best.len() < k);
                assert(old_best.contains(pre_cand[q]));
                let p = choose|p: int| 0 <= p < old_best.len() && old_best[p] == pre_cand[q];
                assert(best.contains(old_best[p]));
            } else {
                assert(mid[q] == x);
            }
        }
    }
}

/// A full ordered buffer that traded its worst pair for a better arrival
/// still satisfies the bounded-selection contract for the extended
/// candidate prefix.
proof fn lemma_selection_shrink(
    pre_cand: Seq<(u32, usize)>,
    k: int,
    pre_best: Seq<(u32, usize)>,
    best: Seq<(u32, usize)>,
    x: (u32, usize),
)
    requires
        is_bounded_selection(pre_cand, k, pre_best),
        pre_best.len() == k,
        k >= 1,
        pair_lt(x, pre_best[k - 1]),
        forall|m: int| 0 <= m < pre_best.len() ==> pre_best[m].1 != x.1,
        best.len() == k,
        forall|m1: int, m2: int| 0 <= m1 < m2 < best.len() ==> pair_lt(best[m1], best[m2]),
        forall|m: int|
            0 <= m < best.len() ==> (best[m] == x || pre_best.drop_last().contains(best[m])),
        forall|m: int| 0 <= m < k - 1 ==> best.contains(pre_best.drop_last()[m]),
        best.contains(x),
    ensures
        is_bounded_selection(pre_cand.push(x), k, best),
{
    let mid = pre_cand.push(x);
    let worst = pre_best[k - 1];
    let shrunk = pre_best.drop_last();
    assert forall|m: int| 0 <= m < best.len() implies mid.contains(#[trigger] best[m]) by {
        if best[m] == x {
            assert(mid[mid.len() - 1] == x);
        } else {
            assert(shrunk.contains(best[m]));
            let a = choose|a: int| 0 <= a < shrunk.len() && shrunk[a] == best[m];
            assert(pre_best[a] == best[m]);
            assert(pre_cand.contains(pre_best[a]));
            let p = choose|p: int| 0 <= p < pre_cand.len() && pre_cand[p] == pre_best[a];
            assert(mid[p] == pre_best[a]);
        }
    }
    assert forall|m: int| 0 <= m < best.len() implies pair_lt(#[trigger] best[m], worst) by {
        if best[m] == x {
            assert(pair_lt(x, worst));
        } else {
            let a = choose|a: int| 0 <= a < shrunk.len() && shrunk[a] == best[m];
            assert(best[m] == pre_best[a] && a < k - 1);
            assert(pair_lt(pre_best[a], pre_best[k - 1]));
        }
    }
    assert forall|q: int|
        0 <= q < mid.len() && !best.contains(#[trigger] mid[q]) implies forall|m: int|
            0 <= m < best.len() ==> pair_lt(#[trigger] best[m], mid[q]) by {
        assert forall|m: int| 0 <= m < best.len() implies pair_lt(
            #[trigger] best[m],
            mid[q],
        ) by {
            if q == pre_cand.len() {
                assert(mid[q] == x);
                assert(best.contains(x));
                assert(false);
            } else {
                let c = pre_cand[q];
                assert(mid[q] == c);
                if pre_best.contains(c) {
                    let p = choose|p: int| 0 <= p < pre_best.len() && pre_best[p] == c;
                    if p < k - 1 {
                        assert(shrunk[p] == c);
                        assert(best.contains(shrunk[p]));
                        assert(false);
                    } else {
                        assert(c == worst);
                        assert(pair_lt(best[m], worst));
                    }
                } else {
                    assert(pair_lt(pre_best[k - 1], c)) by {
                        assert(!pre_best.contains(pre_cand[q]));
                    }
                    assert(pair_lt(best[m], worst));
                }
            }
        }
    }
}

} // verus!
