use vstd::prelude::*;

verus! {

/// The pairs whose first index is `i`, among indices below `n`:
/// `(i, i + 1), (i, i + 2), ..., (i, n - 1)`.
pub open spec fn pair_row(i: int, n: int) -> Seq<(usize, usize)> {
    Seq::new((n - i - 1) as nat, |d: int| (i as usize, (i + 1 + d) as usize))
}

/// All pairs whose first index is below `i`, rows in increasing order.
pub open spec fn pairs_below(i: int, n: int) -> Seq<(usize, usize)>
    decreases i,
{
    if i <= 0 {
        Seq::empty()
    } else {
        pairs_below(i - 1, n) + pair_row(i - 1, n)
    }
}

/// The canonical enumeration of the unordered pairs of `0..n`:
/// for `i` from `0`, for `j` from `i + 1`, emit `(i, j)`.
pub open spec fn canonical_pairs(n: int) -> Seq<(usize, usize)> {
    pairs_below(n, n)
}

/// The pair `(a, b)` stands somewhere in `s`.
pub open spec fn occurs(s: Seq<(usize, usize)>, a: int, b: int) -> bool {
    exists|k: int| 0 <= k < s.len() && s[k] == (a as usize, b as usize)
}

/// Strict lexicographic order on pairs.
pub open spec fn pair_lt(p: (usize, usize), q: (usize, usize)) -> bool {
    p.0 < q.0 || (p.0 == q.0 && p.1 < q.1)
}

/// Number of pairs in the first `i` rows, doubled.
proof fn lemma_pairs_below_len(i: int, n: int)
    requires
        0 <= i <= n,
    ensures
        2 * (pairs_below(i, n).len() as int) == i * (2 * n - i - 1),
    decreases i,
{
    if i > 0 {
        lemma_pairs_below_len(i - 1, n);
        assert(pair_row(i - 1, n).len() == n - i);
        assert(pairs_below(i, n).len() == pairs_below(i - 1, n).len() + (n - i));
        assert(2 * (pairs_below(i, n).len() as int) == (i - 1) * (2 * n - (i - 1) - 1) + 2 * (n - i))
            by (nonlinear_arith)
            requires
                2 * (pairs_below(i - 1, n).len() as int) == (i - 1) * (2 * n - (i - 1) - 1),
                pairs_below(i, n).len() == pairs_below(i - 1, n).len() + (n - i),
        ;
        assert((i - 1) * (2 * n - (i - 1) - 1) + 2 * (n - i) == i * (2 * n - i - 1))
            by (nonlinear_arith);
    } else {
        assert(i * (2 * n - i - 1) == 0) by (nonlinear_arith)
            requires
                i == 0,
        ;
    }
}

/// Every pair of the first `i` rows has first index below `i`, is increasing
/// and below `n`, and the pairs come in strict lexicographic order.
proof fn lemma_pairs_below_shape(i: int, n: int)
    requires
        0 <= i <= n <= usize::MAX,
    ensures
        forall|k: int|
            0 <= k < pairs_below(i, n).len() ==> (#[trigger] pairs_below(i, n)[k]).0 < i && pairs_below(
                i,
                n,
            )[k].0 < pairs_below(i, n)[k].1 < n,
        forall|k1: int, k2: int|
            0 <= k1 < k2 < pairs_below(i, n).len() ==> pair_lt(
                #[trigger] pairs_below(i, n)[k1],
                #[trigger] pairs_below(i, n)[k2],
            ),
    decreases i,
{
    if i > 0 {
        lemma_pairs_below_shape(i - 1, n);
        let prev = pairs_below(i - 1, n);
        let row = pair_row(i - 1, n);
        assert(pairs_below(i, n) == prev + row);
        assert forall|k: int| 0 <= k < pairs_below(i, n).len() implies (#[trigger] pairs_below(
            i,
            n,
        )[k]).0 < i && pairs_below(i, n)[k].0 < pairs_below(i, n)[k].1 < n by {
            if k >= prev.len() {
                assert(pairs_below(i, n)[k] == row[k - prev.len()]);
            } else {
                assert(pairs_below(i, n)[k] == prev[k]);
            }
        }
        assert forall|k1: int, k2: int| 0 <= k1 < k2 < pairs_below(i, n).len() implies pair_lt(
            #[trigger] pairs_below(i, n)[k1],
            #[trigger] pairs_below(i, n)[k2],
        ) by {
            if k1 >= prev.len() {
                assert(pairs_below(i, n)[k1] == row[k1 - prev.len()]);
                assert(pairs_below(i, n)[k2] == row[k2 - prev.len()]);
            } else if k2 >= prev.len() {
                assert(pairs_below(i, n)[k1] == prev[k1]);
                assert(pairs_below(i, n)[k2] == row[k2 - prev.len()]);
            } else {
                assert(pairs_below(i, n)[k1] == prev[k1]);
                assert(pairs_below(i, n)[k2] == prev[k2]);
            }
        }
    }
}

/// Every pair `(a, b)` with `a < i` and `a < b < n` occurs in the first `i` rows.
proof fn lemma_pairs_below_cover(i: int, n: int, a: int, b: int)
    requires
        0 <= i <= n <= usize::MAX,
        0 <= a < i,
        a < b < n,
    ensures
        exists|k: int|
            0 <= k < pairs_below(i, n).len() && #[trigger] pairs_below(i, n)[k] == (
                a as usize,
                b as usize,
            ),
    decreases i,
{
    let prev = pairs_below(i - 1, n);
    let row = pair_row(i - 1, n);
    assert(pairs_below(i, n) == prev + row);
    if a < i - 1 {
        lemma_pairs_below_cover(i - 1, n, a, b);
        let k = choose|k: int| 0 <= k < prev.len() && #[trigger] prev[k] == (a as usize, b as usize);
        assert(pairs_below(i, n)[k] == prev[k]);
    } else {
        let k = prev.len() + (b - a - 1);
        assert(pairs_below(i, n)[k] == row[b - a - 1]);
    }
}

/// The canonical enumeration of pairs of `0..n` holds `n * (n - 1) / 2` pairs,
/// each an increasing pair below `n`, in strictly increasing lexicographic
/// order (so none occurs twice), and every increasing pair below `n` occurs.
pub proof fn lemma_canonical_pairs(n: int)
    requires
        0 <= n <= usize::MAX,
    ensures
        canonical_pairs(n).len() == n * (n - 1) / 2,
        forall|k: int|
            0 <= k < canonical_pairs(n).len() ==> (#[trigger] canonical_pairs(n)[k]).0
                < canonical_pairs(n)[k].1 < n,
        forall|k1: int, k2: int|
            0 <= k1 < k2 < canonical_pairs(n).len() ==> pair_lt(
                #[trigger] canonical_pairs(n)[k1],
                #[trigger] canonical_pairs(n)[k2],
            ),
        forall|a: int, b: int| 0 <= a < b < n ==> #[trigger] occurs(canonical_pairs(n), a, b),
{
    lemma_pairs_below_len(n, n);
    assert(n * (2 * n - n - 1) == n * (n - 1)) by (nonlinear_arith);
    lemma_pairs_below_shape(n, n);
    assert forall|a: int, b: int| 0 <= a < b < n implies #[trigger] occurs(
        canonical_pairs(n),
        a,
        b,
    ) by {
        lemma_pairs_below_cover(n, n, a, b);
    }
}

/// Enumerates the unordered pairs of distinct indices below `n`, lower index
/// first, in canonical order: `get_couples(3) == [(0, 1), (0, 2), (1, 2)]`.
pub fn get_couples(n: usize) -> (res: Vec<(usize, usize)>)
    ensures
        res@ == canonical_pairs(n as int),
{
    let mut res: Vec<(usize, usize)> = Vec::new();
    let mut i: usize = 0;
    while i < n
        invariant
            i <= n,
            res@ == pairs_below(i as int, n as int),
        decreases n - i,
    {
        let mut j: usize = i;
        while j < n
            invariant
                i < n,
                i <= j <= n,
                res@ == pairs_below(i as int, n as int) + pair_row(i as int, n as int).take(
                    if j > i {
                        j - i - 1
                    } else {
                        0
                    },
                ),
            decreases n - j,
        {
            if i != j {
                res.push((i, j));
                assert(pair_row(i as int, n as int).take(j - i) == pair_row(i as int, n as int).take(
                    j - i - 1,
                ).push((i, j)));
            }
            j = j + 1;
        }
        assert(pair_row(i as int, n as int).take(n - i - 1) == pair_row(i as int, n as int));
        assert(pairs_below(i + 1, n as int) == pairs_below(i as int, n as int) + pair_row(
            i as int,
            n as int,
        ));
        i = i + 1;
    }
    res
}

} // verus!
