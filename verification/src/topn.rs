//! The top-N pruner: the final post-filter used when both an ordering and a
//! limit were pushed down. For each surviving block the ordering column's
//! extremum under the sort direction (ascending: the block's min;
//! descending: its max) ranks the block; the best `limit` blocks are kept,
//! ties broken by input position, which is segment-major block order. The
//! kept set is a safe superset of the blocks holding the true top-N rows.

use vstd::prelude::*;

use crate::meta::{find_col_stat, pair_views, spec_col_stat, BlockMeta, BlockMetaV, ColumnId};

verus! {

/// One ORDER BY item: the column and its direction.
#[derive(Clone, Copy)]
pub struct SortColumn {
    pub column: ColumnId,
    pub asc: bool,
}

/// Strict total rank order on `(key, position)` pairs: by key under the
/// sort direction, ties by position.
pub open spec fn spec_rank_lt(asc: bool, k1: i64, p1: int, k2: i64, p2: int) -> bool {
    if k1 != k2 {
        if asc {
            k1 < k2
        } else {
            k1 > k2
        }
    } else {
        p1 < p2
    }
}

/// Rank order between the entries of `keys` at positions `a` and `b`.
pub open spec fn lt_at(keys: Seq<i64>, asc: bool, a: int, b: int) -> bool
    recommends
        0 <= a < keys.len(),
        0 <= b < keys.len(),
{
    spec_rank_lt(asc, keys[a], a, keys[b], b)
}

/// `sel` is a top-`n` selection over `keys`: `min(n, |keys|)` positions in
/// strictly ascending rank order, each ranking better than every position
/// left out.
pub open spec fn spec_topn_selection(keys: Seq<i64>, asc: bool, n: int, sel: Seq<usize>) -> bool {
    &&& sel.len() == (if n <= keys.len() {
        n
    } else {
        keys.len() as int
    })
    &&& (forall|k: int| 0 <= k < sel.len() ==> (#[trigger] sel[k]) < keys.len())
    &&& (forall|k1: int, k2: int|
        0 <= k1 < k2 < sel.len() ==> lt_at(keys, asc, #[trigger] sel[k1] as int, #[trigger] sel[k2] as int))
    &&& (forall|j: usize, k: int|
        #![trigger sel.contains(j), sel[k]]
        j < keys.len() && 0 <= k < sel.len() && !sel.contains(j) ==> lt_at(
            keys,
            asc,
            sel[k] as int,
            j as int,
        ))
}

spec fn distinct_idxs(s: Seq<usize>) -> bool {
    forall|p1: int, p2: int| #![trigger s[p1], s[p2]] 0 <= p1 < p2 < s.len() ==> s[p1] != s[p2]
}

spec fn covers_idxs(s: Seq<usize>, n: int) -> bool {
    forall|v: usize| v < n ==> #[trigger] s.contains(v)
}

spec fn below_idxs(s: Seq<usize>, n: int) -> bool {
    forall|p: int| 0 <= p < s.len() ==> (#[trigger] s[p]) < n
}

fn rank_lt_exec(keys: &Vec<i64>, asc: bool, a: usize, b: usize) -> (r: bool)
    requires
        a < keys@.len(),
        b < keys@.len(),
    ensures
        r == lt_at(keys@, asc, a as int, b as int),
{
    let ka: i64 = keys[a];
    let kb: i64 = keys[b];
    if ka != kb {
        if asc {
            ka < kb
        } else {
            ka > kb
        }
    } else {
        a < b
    }
}

/// The positions of the `n` best-ranking keys, in rank order: an insertion
/// sort of all positions by `(key, position)`, truncated to `n`.
#[verifier::loop_isolation(false)]
pub fn top_n_indices(keys: &Vec<i64>, asc: bool, n: usize) -> (r: Vec<usize>)
    ensures
        spec_topn_selection(keys@, asc, n as int, r@),
{
    let len: usize = keys.len();
    let mut idxs: Vec<usize> = Vec::new();
    let mut j: usize = 0;
    while j < len
        invariant
            j <= len,
            idxs@.len() == j,
            forall|p: int| 0 <= p < j ==> (#[trigger] idxs@[p]) == p,
        decreases len - j,
    {
        idxs.push(j);
        j += 1;
    }
    assert(distinct_idxs(idxs@));
    assert(covers_idxs(idxs@, len as int)) by {
        assert forall|v: usize| v < len implies idxs@.contains(v) by {
            assert(idxs@[v as int] == v);
        };
    };
    let mut i: usize = 1;
    while i < len
        invariant
            1 <= i,
            len <= 1 || i <= len,
            idxs@.len() == len,
            distinct_idxs(idxs@),
            covers_idxs(idxs@, len as int),
            below_idxs(idxs@, len as int),
            forall|p1: int, p2: int|
                #![trigger idxs@[p1], idxs@[p2]]
                0 <= p1 < p2 < i ==> lt_at(keys@, asc, idxs@[p1] as int, idxs@[p2] as int),
        decreases len - i,
    {
        let mut k: usize = i;
        while k > 0 && rank_lt_exec(keys, asc, idxs[k], idxs[k - 1])
            invariant
                k <= i,
                idxs@.len() == len,
                distinct_idxs(idxs@),
                covers_idxs(idxs@, len as int),
                below_idxs(idxs@, len as int),
                forall|p1: int, p2: int|
                    #![trigger idxs@[p1], idxs@[p2]]
                    0 <= p1 < p2 <= i && p1 != k && p2 != k ==> lt_at(
                        keys@,
                        asc,
                        idxs@[p1] as int,
                        idxs@[p2] as int,
                    ),
                forall|p: int|
                    k < p <= i ==> lt_at(keys@, asc, idxs@[k as int] as int, (#[trigger] idxs@[p]) as int),
            decreases k,
        {
            let tmp: usize = idxs[k];
            let prev: usize = idxs[k - 1];
            let ghost before = idxs@;
            idxs[k] = prev;
            idxs[k - 1] = tmp;
            proof {
                let after = idxs@;
                assert(after =~= before.update(k as int, before[k as int - 1]).update(
                    k as int - 1,
                    before[k as int],
                ));
                assert(distinct_idxs(after)) by {
                    assert forall|p1: int, p2: int|
                        #![trigger after[p1], after[p2]]
                        0 <= p1 < p2 < after.len() implies after[p1] != after[p2] by {
                        if p1 == k - 1 && p2 == k {
                        } else if p1 == k - 1 || p1 == k {
                            assert(after[p2] == before[p2]);
                        } else if p2 == k - 1 || p2 == k {
                            assert(after[p1] == before[p1]);
                        }
                    };
                };
                assert(covers_idxs(after, len as int)) by {
                    assert forall|v: usize| v < len implies after.contains(v) by {
                        assert(before.contains(v));
                        let p = choose|p: int| 0 <= p < before.len() && before[p] == v;
                        if p == k {
                            assert(after[k as int - 1] == v);
                        } else if p == k - 1 {
                            assert(after[k as int] == v);
                        } else {
                            assert(after[p] == v);
                        }
                    };
                };
            }
            k -= 1;
        }
        proof {
            assert forall|p1: int, p2: int|
                #![trigger idxs@[p1], idxs@[p2]]
                0 <= p1 < p2 <= i implies lt_at(
                keys@,
                asc,
                idxs@[p1] as int,
                idxs@[p2] as int,
            ) by {
                if p2 == k {
                    // the hole: anything before it ranks below it
                    if k > 0 {
                        assert(!lt_at(keys@, asc, idxs@[k as int] as int, idxs@[k as int - 1] as int));
                        assert(idxs@[k as int - 1] != idxs@[k as int]);
                        assert(lt_at(keys@, asc, idxs@[k as int - 1] as int, idxs@[k as int] as int));
                        if p1 < k - 1 {
                            assert(lt_at(keys@, asc, idxs@[p1] as int, idxs@[k as int - 1] as int));
                        }
                    }
                } else if p1 == k {
                    assert(lt_at(keys@, asc, idxs@[k as int] as int, idxs@[p2] as int));
                }
            };
        }
        i += 1;
    }
    let count: usize = if n < len {
        n
    } else {
        len
    };
    let ghost full = idxs@;
    idxs.truncate(count);
    proof {
        let sel = idxs@;
        assert(sel =~= full.subrange(0, count as int));
        assert forall|p1: int, p2: int|
            #![trigger full[p1], full[p2]]
            0 <= p1 < p2 < len implies lt_at(
            keys@,
            asc,
            full[p1] as int,
            full[p2] as int,
        ) by {};
        assert forall|jj: usize, k: int|
            jj < keys@.len() && 0 <= k < sel.len() && !sel.contains(jj) implies lt_at(
            keys@,
            asc,
            sel[k] as int,
            jj as int,
        ) by {
            assert(full.contains(jj));
            let p = choose|p: int| 0 <= p < full.len() && full[p] == jj;
            if p < count {
                assert(sel[p] == jj);
                assert(sel.contains(jj));
            } else {
                assert(sel[k] == full[k]);
                assert(lt_at(keys@, asc, full[k] as int, full[p] as int));
            }
        };
    }
    idxs
}

/// The rank key of a block under the sort: ascending takes the column's
/// min, descending its max; `0` where the column has no statistics (such an
/// input is never ranked, see [`spec_rankable`]).
pub open spec fn spec_key_total(m: BlockMetaV, col: ColumnId, asc: bool) -> i64 {
    match spec_col_stat(m.col_stats, col) {
        None => 0i64,
        Some(st) => if asc {
            st.min
        } else {
            st.max
        },
    }
}

/// Whether every input block carries statistics for the sort column.
pub open spec fn spec_rankable(input: Seq<(usize, BlockMetaV)>, col: ColumnId) -> bool {
    forall|i: int| 0 <= i < input.len() ==> spec_col_stat((#[trigger] input[i]).1.col_stats, col) is Some
}

/// The rank keys of the input blocks, in input order.
pub open spec fn spec_keys_of(input: Seq<(usize, BlockMetaV)>, col: ColumnId, asc: bool) -> Seq<
    i64,
> {
    Seq::new(input.len(), |i: int| spec_key_total(input[i].1, col, asc))
}

/// What the top-N stage returns for `input`: the input unchanged when there
/// is no sort key or some block cannot be ranked; otherwise the blocks of a
/// top-`limit` selection under the first sort key, in rank order.
pub open spec fn spec_topn_output(
    sort: Seq<SortColumn>,
    limit: u64,
    input: Seq<(usize, BlockMetaV)>,
    output: Seq<(usize, BlockMetaV)>,
) -> bool {
    if sort.len() == 0 {
        output == input
    } else {
        let col = sort[0].column;
        let asc = sort[0].asc;
        if !spec_rankable(input, col) {
            output == input
        } else {
            exists|sel: Seq<usize>|
                {
                    &&& #[trigger] spec_topn_selection(
                        spec_keys_of(input, col, asc),
                        asc,
                        limit as int,
                        sel,
                    )
                    &&& output.len() == sel.len()
                    &&& forall|k: int| 0 <= k < sel.len() ==> #[trigger] output[k] == input[sel[k] as int]
                }
        }
    }
}

/// Keeps the `limit` blocks whose ordering-column ranges rank best under
/// the sort, ties broken by input position.
pub struct TopNPrunner {
    pub sort: Vec<SortColumn>,
    pub limit: u64,
}

impl TopNPrunner {
    /// A pruner for the given sort and limit.
    pub fn new(sort: Vec<SortColumn>, limit: u64) -> (r: Self)
        ensures
            r.sort@ == sort@,
            r.limit == limit,
    {
        TopNPrunner { sort, limit }
    }

    /// The conservative top-N cut of `metas` (see [`spec_topn_output`]).
    #[verifier::loop_isolation(false)]
    pub fn prune(&self, metas: Vec<(usize, BlockMeta)>) -> (r: Vec<(usize, BlockMeta)>)
        ensures
            spec_topn_output(self.sort@, self.limit, pair_views(metas@), pair_views(r@)),
    {
        if self.sort.len() == 0 {
            return metas;
        }
        let col: ColumnId = self.sort[0].column;
        let asc: bool = self.sort[0].asc;
        let ghost iv = pair_views(metas@);
        let mut keys: Vec<i64> = Vec::new();
        let mut i: usize = 0;
        while i < metas.len()
            invariant
                i <= metas@.len(),
                keys@.len() == i,
                forall|p: int|
                    0 <= p < i ==> (#[trigger] keys@[p]) == spec_key_total(iv[p].1, col, asc),
                forall|p: int| 0 <= p < i ==> spec_col_stat((#[trigger] iv[p]).1.col_stats, col) is Some,
            decreases metas@.len() - i,
        {
            match find_col_stat(&metas[i].1.col_stats, col) {
                None => {
                    proof {
                        assert(iv[i as int].1 == metas@[i as int].1@);
                        assert(spec_col_stat(iv[i as int].1.col_stats, col) is None);
                        assert(!spec_rankable(iv, col));
                    }
                    return metas;
                },
                Some(st) => {
                    keys.push(if asc {
                        st.min
                    } else {
                        st.max
                    });
                },
            }
            i += 1;
        }
        proof {
            assert(keys@ =~= spec_keys_of(iv, col, asc));
        }
        let count: usize = if self.limit < metas.len() as u64 {
            self.limit as usize
        } else {
            metas.len()
        };
        let sel: Vec<usize> = top_n_indices(&keys, asc, count);
        proof {
            assert(spec_topn_selection(keys@, asc, self.limit as int, sel@)) by {
                assert(spec_topn_selection(keys@, asc, count as int, sel@));
            };
        }
        let mut r: Vec<(usize, BlockMeta)> = Vec::new();
        let mut k: usize = 0;
        while k < sel.len()
            invariant
                k <= sel@.len(),
                r@.len() == k,
                forall|p: int| 0 <= p < k ==> #[trigger] pair_views(r@)[p] == iv[sel@[p] as int],
            decreases sel@.len() - k,
        {
            let j: usize = sel[k];
            let pair: (usize, BlockMeta) = (metas[j].0, metas[j].1.duplicate());
            let ghost prev = r@;
            r.push(pair);
            proof {
                assert(pair_views(r@)[k as int] == iv[j as int]);
                assert forall|p: int| 0 <= p < k implies #[trigger] pair_views(r@)[p] == iv[sel@[p] as int] by {
                    assert(r@[p] == prev[p]);
                    assert(pair_views(prev)[p] == iv[sel@[p] as int]);
                    assert(pair_views(r@)[p] == pair_views(prev)[p]);
                };
            }
            k += 1;
        }
        proof {
            assert(spec_topn_output(self.sort@, self.limit, iv, pair_views(r@)));
        }
        r
    }
}

/// Top-N superset, seen through block statistics: under an ascending sort,
/// every selected block's key is at most `x` for any `x` bounding a
/// dropped position's key from below — so the blocks left out can only hold
/// rows that rank no better than `limit` rows already covered by the kept
/// blocks, each of which attains its key extremum on some row. Descending
/// sorts are symmetric.
pub proof fn lemma_topn_superset(
    keys: Seq<i64>,
    asc: bool,
    n: int,
    sel: Seq<usize>,
    j: usize,
    x: i64,
)
    requires
        spec_topn_selection(keys, asc, n, sel),
        j < keys.len(),
        !sel.contains(j),
        asc ==> keys[j as int] <= x,
        !asc ==> keys[j as int] >= x,
    ensures
        forall|k: int|
            0 <= k < sel.len() ==> (if asc {
                keys[(#[trigger] sel[k]) as int] <= x
            } else {
                keys[sel[k] as int] >= x
            }),
{
    assert forall|k: int| 0 <= k < sel.len() implies (if asc {
        keys[(#[trigger] sel[k]) as int] <= x
    } else {
        keys[sel[k] as int] >= x
    }) by {
        assert(lt_at(keys, asc, sel[k] as int, j as int));
    };
}

} // verus!
