//! Ranking: the vertices with the highest values, best first.

use crate::config::Config;
use crate::graph::DirectedGraph;
use crate::walk::Scores;
use vstd::prelude::*;

verus! {

/// Vertex `a` is ranked before vertex `b`: it has the higher value, or the
/// same value and the lower id.
pub open spec fn ranks_before(values: Seq<u64>, a: int, b: int) -> bool {
    values[a] > values[b] || (values[a] == values[b] && a < b)
}

/// Vertex `v` has an entry in `top`.
pub open spec fn listed(top: Seq<(usize, u64)>, v: int) -> bool {
    exists|i: int| 0 <= i < top.len() && (#[trigger] top[i]).0 == v
}

/// `top` ranks the best `k` of the vertices below `seen`: it holds `k`
/// entries, or all the vertices where there are fewer; each entry pairs a
/// vertex with its value; the entries stand in ranking order; and every
/// vertex left out is ranked after every entry.
pub open spec fn ranks_best(values: Seq<u64>, seen: int, k: int, top: Seq<(usize, u64)>) -> bool {
    &&& top.len() == if k <= seen { k } else { seen }
    &&& forall|i: int|
        0 <= i < top.len() ==> (#[trigger] top[i]).0 < seen && top[i].1 == values[top[i].0 as int]
    &&& forall|i: int, j: int|
        0 <= i < j < top.len() ==> ranks_before(
            values,
            (#[trigger] top[i]).0 as int,
            (#[trigger] top[j]).0 as int,
        )
    &&& forall|i: int, v: int|
        0 <= i < top.len() && 0 <= v < seen && !#[trigger] listed(top, v) ==> ranks_before(
            values,
            (#[trigger] top[i]).0 as int,
            v,
        )
    &&& top.len() < k ==> forall|v: int| 0 <= v < seen ==> #[trigger] listed(top, v)
}

/// `top` is the ranking of the best `k` vertices by `values`.
pub open spec fn is_top_k(values: Seq<u64>, k: usize, top: Seq<(usize, u64)>) -> bool {
    ranks_best(values, values.len() as int, k as int, top)
}

/// The ranking after vertex `v` with value `score` took place `p` in
/// `before`, a ranking of at most `k` entries.
pub open spec fn placed(before: Seq<(usize, u64)>, p: int, v: usize, score: u64, k: int) -> Seq<
    (usize, u64),
> {
    let grown = before.insert(p, (v, score));
    if grown.len() > k {
        grown.drop_last()
    } else {
        grown
    }
}

proof fn lemma_placed(values: Seq<u64>, v: usize, k: int, before: Seq<(usize, u64)>, p: int)
    requires
        0 <= v < values.len(),
        ranks_best(values, v as int, k, before),
        0 <= p <= before.len(),
        p < k,
        forall|j: int| p <= j < before.len() ==> (#[trigger] before[j]).1 < values[v as int],
        p > 0 ==> before[p - 1].1 >= values[v as int],
    ensures
        ranks_best(values, v + 1, k, placed(before, p, v, values[v as int], k)),
{
    let score = values[v as int];
    let grown = before.insert(p, (v, score));
    let after = placed(before, p, v, score, k);
    // Where each entry of the new ranking comes from.
    assert forall|i: int| 0 <= i < after.len() implies (#[trigger] after[i]) == (if i < p {
        before[i]
    } else if i == p {
        (v, score)
    } else {
        before[i - 1]
    }) by {}
    // Entries ahead of the place hold at least the new value.
    assert forall|i: int| 0 <= i < p implies (#[trigger] before[i]).1 >= score by {
        if i < p - 1 {
            assert(ranks_before(values, before[i].0 as int, before[p - 1].0 as int));
        }
    }
    assert forall|i: int, j: int| 0 <= i < j < after.len() implies ranks_before(
        values,
        (#[trigger] after[i]).0 as int,
        (#[trigger] after[j]).0 as int,
    ) by {
        if i < p && j > p {
            assert(ranks_before(values, before[i].0 as int, before[j - 1].0 as int));
        } else if i < p && j < p {
            assert(ranks_before(values, before[i].0 as int, before[j].0 as int));
        } else if i > p {
            assert(ranks_before(values, before[i - 1].0 as int, before[j - 1].0 as int));
        }
    }
    // A vertex listed before is listed after, unless it was pushed out.
    assert forall|u: int| listed(before, u) && !(grown.len() > k && u == before.last().0)
        implies listed(after, u) by {
        let i = choose|i: int| 0 <= i < before.len() && (#[trigger] before[i]).0 == u;
        if i < p {
            assert(after[i].0 == u);
        } else {
            if grown.len() > k && i == before.len() - 1 {
                assert(before[i] == before.last());
            }
            assert(after[i + 1].0 == u);
        }
    }
    assert(grown[p] == (v, score));
    assert(after[p].0 == v);
    assert(listed(after, v as int));
    assert forall|i: int, u: int|
        0 <= i < after.len() && 0 <= u < v + 1 && !#[trigger] listed(after, u) implies ranks_before(
        values,
        (#[trigger] after[i]).0 as int,
        u,
    ) by {
        // Only a ranking that was full leaves a vertex out.
        assert(u != v);
        if before.len() < k {
            assert(listed(before, u));
        } else {
            let out = before.last();
            assert(out == before[k - 1]);
            assert(out.1 < score);
            if u == out.0 {
                if i < p {
                    assert(ranks_before(values, before[i].0 as int, before[k - 1].0 as int));
                } else if i > p {
                    assert(ranks_before(values, before[i - 1].0 as int, before[k - 1].0 as int));
                }
            } else {
                assert(!listed(before, u));
                assert(ranks_before(values, before[k - 1].0 as int, u));
                if i < p {
                    assert(ranks_before(values, before[i].0 as int, u));
                } else if i > p {
                    assert(ranks_before(values, before[i - 1].0 as int, u));
                }
            }
        }
    }
    if after.len() < k {
        assert forall|u: int| 0 <= u < v + 1 implies #[trigger] listed(after, u) by {
            if u < v {
                assert(listed(before, u));
            }
        }
    }
}

proof fn lemma_passed_over(values: Seq<u64>, v: usize, k: int, top: Seq<(usize, u64)>)
    requires
        0 <= v < values.len(),
        ranks_best(values, v as int, k, top),
        top.len() == k,
        k > 0 ==> top[k - 1].1 >= values[v as int],
    ensures
        ranks_best(values, v + 1, k, top),
{
    assert forall|i: int| 0 <= i < top.len() implies ranks_before(
        values,
        (#[trigger] top[i]).0 as int,
        v as int,
    ) by {
        if i < k - 1 {
            assert(ranks_before(values, top[i].0 as int, top[k - 1].0 as int));
        }
    }
}

/// A ranking holds `k` entries, or as many as there are vertices where
/// those are fewer, and runs strictly downwards: each entry has a higher
/// value than the next, or the same value and a lower id.
pub proof fn lemma_top_k_bound_and_order(values: Seq<u64>, k: usize, top: Seq<(usize, u64)>)
    requires
        is_top_k(values, k, top),
    ensures
        top.len() == if k <= values.len() { k as int } else { values.len() as int },
        forall|i: int, j: int|
            0 <= i < j < top.len() ==> (#[trigger] top[i]).1 > (#[trigger] top[j]).1 || (top[i].1
                == top[j].1 && top[i].0 < top[j].0),
{
    assert forall|i: int, j: int| 0 <= i < j < top.len() implies (#[trigger] top[i]).1 > (
    #[trigger] top[j]).1 || (top[i].1 == top[j].1 && top[i].0 < top[j].0) by {
        assert(ranks_before(values, top[i].0 as int, top[j].0 as int));
    }
}

/// Two rankings of the best `k` vertices by the same values agree up to
/// position `upto`.
proof fn lemma_rankings_agree(
    values: Seq<u64>,
    k: usize,
    a: Seq<(usize, u64)>,
    b: Seq<(usize, u64)>,
    upto: int,
)
    requires
        is_top_k(values, k, a),
        is_top_k(values, k, b),
        0 <= upto <= a.len(),
    ensures
        forall|i: int| 0 <= i < upto ==> a[i] == b[i],
    decreases upto,
{
    if upto > 0 {
        lemma_rankings_agree(values, k, a, b, upto - 1);
        let at = upto - 1;
        let x = a[at].0 as int;
        let y = b[at].0 as int;
        if x != y {
            if ranks_before(values, x, y) {
                lemma_none_ahead(values, k, a, b, at);
            } else {
                lemma_none_ahead(values, k, b, a, at);
            }
        }
    }
}

/// Where two rankings agree before position `at`, the entry of the first at
/// `at` is not ranked before that of the second.
proof fn lemma_none_ahead(
    values: Seq<u64>,
    k: usize,
    a: Seq<(usize, u64)>,
    b: Seq<(usize, u64)>,
    at: int,
)
    requires
        is_top_k(values, k, a),
        is_top_k(values, k, b),
        0 <= at < a.len(),
        forall|i: int| 0 <= i < at ==> a[i] == b[i],
    ensures
        !ranks_before(values, a[at].0 as int, b[at].0 as int),
{
    let x = a[at].0 as int;
    let y = b[at].0 as int;
    if ranks_before(values, x, y) {
        if listed(b, x) {
            let j = choose|j: int| 0 <= j < b.len() && (#[trigger] b[j]).0 == x;
            if j < at {
                assert(a[j] == b[j]);
                assert(ranks_before(values, a[j].0 as int, a[at].0 as int));
            } else if j > at {
                assert(ranks_before(values, b[at].0 as int, b[j].0 as int));
            }
        } else {
            assert(ranks_before(values, b[at].0 as int, x));
        }
    }
}

/// The values determine the ranking: two rankings of the best `k` vertices
/// by the same values are equal.
pub proof fn lemma_top_k_unique(
    values: Seq<u64>,
    k: usize,
    a: Seq<(usize, u64)>,
    b: Seq<(usize, u64)>,
)
    requires
        is_top_k(values, k, a),
        is_top_k(values, k, b),
    ensures
        a == b,
{
    lemma_rankings_agree(values, k, a, b, a.len() as int);
    assert(a =~= b);
}

/// On a graph without vertices an estimate holds no score and no walk, and
/// its ranking is empty.
pub proof fn lemma_empty_estimate(
    scores: Scores,
    per_vertex: usize,
    k: usize,
    top: Seq<(usize, u64)>,
)
    requires
        scores.estimates(0, per_vertex),
        is_top_k(scores.hits@, k, top),
    ensures
        scores.hits@.len() == 0,
        scores.walks == 0,
        top.len() == 0,
{
}

/// The best `k` vertices by `values`, best first: by descending value, and
/// among equal values by ascending id. Fewer than `k` are returned only
/// where there are fewer vertices, and then all of them.
pub fn find_top(values: &[u64], k: usize) -> (top: Vec<(usize, u64)>)
    ensures
        is_top_k(values@, k, top@),
{
    let mut top: Vec<(usize, u64)> = Vec::new();
    let mut v: usize = 0;
    while v < values.len()
        invariant
            v <= values@.len(),
            ranks_best(values@, v as int, k as int, top@),
        decreases values@.len() - v,
    {
        let score = values[v];
        let mut p: usize = top.len();
        while p > 0 && top[p - 1].1 < score
            invariant
                p <= top@.len(),
                forall|j: int| p <= j < top@.len() ==> (#[trigger] top@[j]).1 < score,
            decreases p,
        {
            p = p - 1;
        }
        if p < k {
            let ghost before = top@;
            top.insert(p, (v, score));
            if top.len() > k {
                top.pop();
            }
            proof {
                lemma_placed(values@, v, k as int, before, p as int);
            }
        } else {
            proof {
                lemma_passed_over(values@, v, k as int, top@);
            }
        }
        v = v + 1;
    }
    top
}

impl DirectedGraph {
    /// The best vertices by `values`, best first, as many as `config.top_k`
    /// asks for.
    pub fn find_top_with(&self, values: &[u64], config: &Config) -> (top: Vec<(usize, u64)>)
        ensures
            is_top_k(values@, config.top_k, top@),
    {
        find_top(values, config.top_k)
    }

    /// The five best vertices by `values`, best first.
    pub fn find_top_5(&self, values: &[u64]) -> (top: Vec<(usize, u64)>)
        ensures
            is_top_k(values@, 5, top@),
    {
        find_top(values, 5)
    }
}

} // verus!
