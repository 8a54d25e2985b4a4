//! The two-level pruning executor.
//!
//! A prune call fans out over the snapshot's segments and, within each kept
//! segment, over its blocks: segment summary and block statistics go through
//! the range filter, surviving blocks reserve credit at the row-limit counter,
//! and only blocks that still hold credit may consult their bloom index.
//! All of that is decision logic and lives here; the embedding program
//! performs the I/O around it — it reads each segment's metadata, fetches
//! the bloom indexes that [`BlockPruner::plan`] asks for, and hands the
//! verdicts back to [`BlockPruner::prune`].
//!
//! The decisions model one sequential schedule of the fan-out: segments in
//! snapshot order, blocks in segment order. Which blocks win the race for
//! the last limit credit is unspecified in the concurrent engine; the
//! sequential schedule is one legal outcome, and the aggregate guarantees
//! (soundness, distinctness, limit coverage) are proved of it.

use vstd::prelude::*;

use crate::limiter::{new_limiter, spec_limiter_after, LimiterPruner};
use crate::meta::{
    pair_views, seg_views, BlockMeta, BlockMetaV, ColumnId, SegmentInfo, SegmentInfoV,
    TableSnapshot,
};
use crate::pred::{
    any_consumable_eq, new_range_filter_pruner, spec_any_eq, spec_filter_seq, spec_keep_all, Pred,
};
use crate::topn::{spec_topn_output, SortColumn, TopNPrunner};

verus! {

/// Position of a segment in the snapshot.
pub type SegmentIndex = usize;

/// Position of a block in its segment.
pub type BlockIndex = usize;

/// The push-down request handed to a prune call.
pub struct PushDown {
    /// Conjoined filter expressions.
    pub filters: Vec<Pred>,
    /// Projected columns; pruning does not consume them.
    pub projection: Vec<ColumnId>,
    /// Row limit, if any.
    pub limit: Option<u64>,
    /// ORDER BY items; when non-empty, the limit is consumed only by the
    /// top-N stage, never by the row-limit counter.
    pub order_by: Vec<SortColumn>,
}

/// A block that survived the range filter and the row-limit counter. When
/// `needs_bloom` holds, its bloom index must be consulted before the block
/// is kept.
#[derive(Clone, Copy)]
pub struct BlockCandidate {
    pub segment_idx: SegmentIndex,
    pub block_idx: BlockIndex,
    pub needs_bloom: bool,
}

/// Phase-one decisions: every candidate in segment-major block order. The
/// candidates with `needs_bloom` are the only bloom reads a prune call may
/// issue, in this order.
pub struct PrunePlan {
    pub candidates: Vec<BlockCandidate>,
}

/// The limit the row-limit counter runs with: the pushed-down limit, ignored
/// when an ordering is present.
pub open spec fn spec_effective_limit(pd: Option<PushDown>) -> Option<u64> {
    match pd {
        None => None,
        Some(p) => if p.order_by.len() == 0 {
            p.limit
        } else {
            None
        },
    }
}

/// The pushed-down filters.
pub open spec fn spec_filters_of(pd: Option<PushDown>) -> Seq<Pred> {
    match pd {
        None => Seq::empty(),
        Some(p) => p.filters@,
    }
}

/// Whether the bloom stage is active: some filter carries a consumable
/// equality. Without one, the bloom pruner keeps everything and no index is
/// ever fetched.
pub open spec fn spec_bloom_active(pd: Option<PushDown>) -> bool {
    spec_any_eq(spec_filters_of(pd))
}

/// Whether the top-N stage runs: an ordering and a limit were pushed down.
pub open spec fn spec_topn_active(pd: Option<PushDown>) -> bool {
    match pd {
        None => false,
        Some(p) => p.order_by.len() > 0 && p.limit is Some,
    }
}

/// Scan of one segment's blocks from block `bi` on, with limiter credit
/// `rem`: blocks in order; stop at an exhausted limiter; keep what the range
/// filter keeps; every kept block reserves credit and is a candidate,
/// needing its bloom index only while the bloom stage is active and the
/// block has one.
pub open spec fn spec_blocks_scan(
    blocks: Seq<BlockMetaV>,
    seg: int,
    filters: Seq<Pred>,
    bloom: bool,
    rem: Option<u64>,
    bi: int,
) -> (Seq<BlockCandidate>, Option<u64>)
    decreases blocks.len() - bi,
{
    if bi < 0 || bi >= blocks.len() {
        (Seq::empty(), rem)
    } else if rem == Some(0u64) {
        (Seq::empty(), rem)
    } else {
        let b = blocks[bi];
        if spec_keep_all(filters, b.col_stats, b.row_count) {
            let rem2 = spec_limiter_after(rem, b.row_count);
            let rest = spec_blocks_scan(blocks, seg, filters, bloom, rem2, bi + 1);
            let c = BlockCandidate {
                segment_idx: seg as usize,
                block_idx: bi as usize,
                needs_bloom: bloom && b.bloom_filter_index_location is Some,
            };
            (seq![c] + rest.0, rest.1)
        } else {
            spec_blocks_scan(blocks, seg, filters, bloom, rem, bi + 1)
        }
    }
}

/// Scan of the snapshot's segments from segment `si` on: segments in order;
/// a segment whose limiter is already exhausted, or whose summary the range
/// filter drops, contributes nothing; otherwise its blocks are scanned and
/// the limiter credit they leave flows into the next segment.
pub open spec fn spec_segments_scan(
    segs: Seq<SegmentInfoV>,
    filters: Seq<Pred>,
    bloom: bool,
    rem: Option<u64>,
    si: int,
) -> (Seq<BlockCandidate>, Option<u64>)
    decreases segs.len() - si,
{
    if si < 0 || si >= segs.len() {
        (Seq::empty(), rem)
    } else {
        let s = segs[si];
        if rem == Some(0u64) {
            spec_segments_scan(segs, filters, bloom, rem, si + 1)
        } else if !spec_keep_all(filters, s.summary_col_stats, s.summary_row_count) {
            spec_segments_scan(segs, filters, bloom, rem, si + 1)
        } else {
            let br = spec_blocks_scan(s.blocks, si, filters, bloom, rem, 0);
            let rest = spec_segments_scan(segs, filters, bloom, br.1, si + 1);
            (br.0 + rest.0, rest.1)
        }
    }
}

/// All candidates of a prune call, in segment-major block order.
pub open spec fn spec_candidates(segs: Seq<SegmentInfoV>, pd: Option<PushDown>) -> Seq<
    BlockCandidate,
> {
    spec_segments_scan(
        segs,
        spec_filters_of(pd),
        spec_bloom_active(pd),
        spec_effective_limit(pd),
        0,
    ).0
}

/// How many candidates from position `ci` on need a bloom read.
pub open spec fn spec_pending_from(cands: Seq<BlockCandidate>, ci: int) -> int
    decreases cands.len() - ci,
{
    if ci < 0 || ci >= cands.len() {
        0
    } else {
        (if cands[ci].needs_bloom {
            1int
        } else {
            0int
        }) + spec_pending_from(cands, ci + 1)
    }
}

/// How many of the candidates need a bloom read: the number of bloom
/// verdicts a prune call takes.
pub open spec fn spec_pending_count(cands: Seq<BlockCandidate>) -> int {
    spec_pending_from(cands, 0)
}

/// The candidates surviving the bloom verdicts, from candidate `ci` and
/// verdict `ai` on: a candidate that needs no bloom read survives; one that
/// does survives exactly when its verdict says keep.
pub open spec fn spec_survivors(
    cands: Seq<BlockCandidate>,
    answers: Seq<bool>,
    ci: int,
    ai: int,
) -> Seq<BlockCandidate>
    decreases cands.len() - ci,
{
    if ci < 0 || ci >= cands.len() {
        Seq::empty()
    } else {
        let c = cands[ci];
        if c.needs_bloom {
            let rest = spec_survivors(cands, answers, ci + 1, ai + 1);
            if 0 <= ai < answers.len() && answers[ai] {
                seq![c] + rest
            } else {
                rest
            }
        } else {
            seq![c] + spec_survivors(cands, answers, ci + 1, ai)
        }
    }
}

/// The `(segment index, block metadata)` pairs of a candidate sequence.
pub open spec fn pairs_of(segs: Seq<SegmentInfoV>, cs: Seq<BlockCandidate>) -> Seq<
    (usize, BlockMetaV),
> {
    Seq::new(
        cs.len(),
        |k: int| (cs[k].segment_idx, segs[cs[k].segment_idx as int].blocks[cs[k].block_idx as int]),
    )
}

/// The pairs a prune call keeps before the top-N stage.
pub open spec fn spec_kept_pairs(
    segs: Seq<SegmentInfoV>,
    pd: Option<PushDown>,
    answers: Seq<bool>,
) -> Seq<(usize, BlockMetaV)> {
    pairs_of(segs, spec_survivors(spec_candidates(segs, pd), answers, 0, 0))
}

/// What a prune call returns: the kept pairs, run through the top-N stage
/// when an ordering and a limit were pushed down.
pub open spec fn spec_prune_result(
    segs: Seq<SegmentInfoV>,
    pd: Option<PushDown>,
    answers: Seq<bool>,
    result: Seq<(usize, BlockMetaV)>,
) -> bool {
    let kept = spec_kept_pairs(segs, pd, answers);
    if spec_topn_active(pd) {
        spec_topn_output(pd->Some_0.order_by@, pd->Some_0.limit->Some_0, kept, result)
    } else {
        result == kept
    }
}

/// The concurrency budget of a prune call: the configured
/// `max_concurrent_prune`, raised to at least `10`. The same semaphore
/// serves segment and block permits, and a segment task holds its permit
/// while its block tasks acquire more, so a tiny budget would deadlock;
/// `raised` tells the caller to warn about the configured value.
pub fn concurrency_budget(max_concurrent_prune: usize) -> (r: (usize, bool))
    ensures
        r.0 == if max_concurrent_prune >= 10 {
            max_concurrent_prune as int
        } else {
            10int
        },
        r.1 == (max_concurrent_prune < 10),
{
    if max_concurrent_prune >= 10 {
        (max_concurrent_prune, false)
    } else {
        (10, true)
    }
}

/// The limit the row-limit counter runs with.
pub fn effective_limit(push_down: &Option<PushDown>) -> (r: Option<u64>)
    ensures
        r == spec_effective_limit(*push_down),
{
    match push_down {
        None => None,
        Some(p) => if p.order_by.len() == 0 {
            p.limit
        } else {
            None
        },
    }
}

/// Prunes a snapshot's blocks by their statistics, according to the
/// push-downs, without reading any block data.
pub struct BlockPruner {
    pub table_snapshot: TableSnapshot,
}

impl BlockPruner {
    /// A pruner over the given table version.
    pub fn new(table_snapshot: TableSnapshot) -> (r: Self)
        ensures
            r.table_snapshot == table_snapshot,
    {
        BlockPruner { table_snapshot }
    }

    /// Phase one: from the segment metadata (one entry per snapshot
    /// segment, read by the caller) and the push-downs, decide every
    /// candidate block and which of them need a bloom read.
    #[verifier::loop_isolation(false)]
    pub fn plan(&self, segments: &Vec<SegmentInfo>, push_down: &Option<PushDown>) -> (p:
        PrunePlan)
        requires
            segments@.len() == self.table_snapshot.segments@.len(),
        ensures
            p.candidates@ == spec_candidates(seg_views(segments@), *push_down),
    {
        let ghost sv = seg_views(segments@);
        let ghost fs = spec_filters_of(*push_down);
        let ghost bl = spec_bloom_active(*push_down);
        let ghost l0 = spec_effective_limit(*push_down);
        let filters: Option<&Vec<Pred>> = match push_down {
            Some(pd) => Some(&pd.filters),
            None => None,
        };
        proof {
            assert(spec_filter_seq(filters) == fs);
        }
        let bloom: bool = any_consumable_eq(filters);
        let range_pruner = new_range_filter_pruner(filters);
        let mut limiter: LimiterPruner = new_limiter(effective_limit(push_down));
        let mut cands: Vec<BlockCandidate> = Vec::new();
        let mut si: usize = 0;
        while si < segments.len()
            invariant
                si <= segments@.len(),
                cands@ + spec_segments_scan(sv, fs, bl, limiter.remaining, si as int).0
                    == spec_segments_scan(sv, fs, bl, l0, 0).0,
                spec_segments_scan(sv, fs, bl, limiter.remaining, si as int).1
                    == spec_segments_scan(sv, fs, bl, l0, 0).1,
            decreases segments@.len() - si,
        {
            let seg = &segments[si];
            proof {
                assert(sv[si as int] == segments@[si as int]@);
            }
            if !limiter.exceeded() {
                if range_pruner.should_keep(&seg.summary.col_stats, seg.summary.row_count) {
                    let nblocks: usize = seg.blocks.len();
                    let ghost bv = sv[si as int].blocks;
                    let mut bi: usize = 0;
                    proof {
                        assert(bv.len() == nblocks);
                    }
                    while bi < nblocks && !limiter.exceeded()
                        invariant
                            bi <= nblocks,
                            cands@ + spec_blocks_scan(bv, si as int, fs, bl, limiter.remaining,
                                bi as int).0 + spec_segments_scan(sv, fs, bl, spec_blocks_scan(bv,
                                si as int, fs, bl, limiter.remaining, bi as int).1, si as int
                                + 1).0 == spec_segments_scan(sv, fs, bl, l0, 0).0,
                            spec_segments_scan(sv, fs, bl, spec_blocks_scan(bv, si as int, fs, bl,
                                limiter.remaining, bi as int).1, si as int + 1).1
                                == spec_segments_scan(sv, fs, bl, l0, 0).1,
                        decreases nblocks - bi,
                    {
                        let ghost rem0 = limiter.remaining;
                        let block = &seg.blocks[bi];
                        proof {
                            assert(bv[bi as int] == segments@[si as int].blocks@[bi as int]@);
                        }
                        if range_pruner.should_keep(&block.col_stats, block.row_count) {
                            let _granted: bool = limiter.within_limit(block.row_count);
                            let c = BlockCandidate {
                                segment_idx: si,
                                block_idx: bi,
                                needs_bloom: bloom
                                    && block.bloom_filter_index_location.is_some(),
                            };
                            let ghost prev = cands@;
                            cands.push(c);
                            proof {
                                let step = spec_blocks_scan(bv, si as int, fs, bl, rem0, bi as int);
                                let rest = spec_blocks_scan(
                                    bv,
                                    si as int,
                                    fs,
                                    bl,
                                    limiter.remaining,
                                    bi as int + 1,
                                );
                                assert(step.0 =~= seq![c] + rest.0);
                                assert(prev + step.0 =~= cands@ + rest.0);
                            }
                        } else {
                            proof {
                                assert(spec_blocks_scan(bv, si as int, fs, bl, rem0, bi as int)
                                    == spec_blocks_scan(bv, si as int, fs, bl, rem0, bi as int
                                    + 1));
                            }
                        }
                        bi += 1;
                    }
                    proof {
                        assert(spec_blocks_scan(bv, si as int, fs, bl, limiter.remaining, bi as int).0
                            =~= Seq::<BlockCandidate>::empty());
                        assert(cands@ + spec_segments_scan(sv, fs, bl, limiter.remaining, si as int
                            + 1).0 == spec_segments_scan(sv, fs, bl, l0, 0).0);
                    }
                } else {
                    proof {
                        assert(spec_segments_scan(sv, fs, bl, limiter.remaining, si as int)
                            == spec_segments_scan(sv, fs, bl, limiter.remaining, si as int + 1));
                    }
                }
            } else {
                proof {
                    assert(spec_segments_scan(sv, fs, bl, limiter.remaining, si as int)
                        == spec_segments_scan(sv, fs, bl, limiter.remaining, si as int + 1));
                }
            }
            si += 1;
        }
        proof {
            assert(cands@ + Seq::<BlockCandidate>::empty() =~= cands@);
            assert(cands@ =~= spec_candidates(sv, *push_down));
        }
        PrunePlan { candidates: cands }
    }

    /// The prune call: the phase-one decisions combined with the bloom
    /// verdicts — one per candidate that needs a bloom read, in candidate
    /// order — then the top-N stage when an ordering and a limit were
    /// pushed down. The result pairs each kept block's metadata with its
    /// segment index, in segment-major block order (rank order after the
    /// top-N stage).
    #[verifier::loop_isolation(false)]
    pub fn prune(
        &self,
        segments: &Vec<SegmentInfo>,
        push_down: &Option<PushDown>,
        bloom_keeps: &Vec<bool>,
    ) -> (r: Vec<(SegmentIndex, BlockMeta)>)
        requires
            segments@.len() == self.table_snapshot.segments@.len(),
            bloom_keeps@.len() == spec_pending_count(
                spec_candidates(seg_views(segments@), *push_down),
            ),
        ensures
            spec_prune_result(seg_views(segments@), *push_down, bloom_keeps@, pair_views(r@)),
    {
        let ghost sv = seg_views(segments@);
        let plan = self.plan(segments, push_down);
        let cands = plan.candidates;
        let ghost cv = cands@;
        let ghost answers = bloom_keeps@;
        let mut surv: Vec<BlockCandidate> = Vec::new();
        let mut ci: usize = 0;
        let mut ai: usize = 0;
        while ci < cands.len()
            invariant
                ci <= cv.len(),
                ai + spec_pending_from(cv, ci as int) == answers.len(),
                0 <= ai,
                surv@ + spec_survivors(cv, answers, ci as int, ai as int) == spec_survivors(
                    cv,
                    answers,
                    0,
                    0,
                ),
            decreases cv.len() - ci,
        {
            let c = cands[ci];
            let ghost prev = surv@;
            if c.needs_bloom {
                proof {
                    lemma_pending_nonneg(cv, ci as int + 1);
                    assert(spec_pending_from(cv, ci as int) >= 1);
                    vstd::std_specs::vec::axiom_spec_len(bloom_keeps);
                    assert(ai < answers.len() <= usize::MAX);
                }
                if bloom_keeps[ai] {
                    surv.push(c);
                    proof {
                        let rest = spec_survivors(cv, answers, ci as int + 1, ai as int + 1);
                        assert(spec_survivors(cv, answers, ci as int, ai as int) =~= seq![c]
                            + rest);
                        assert(prev + (seq![c] + rest) =~= surv@ + rest);
                    }
                } else {
                    proof {
                        assert(spec_survivors(cv, answers, ci as int, ai as int)
                            == spec_survivors(cv, answers, ci as int + 1, ai as int + 1));
                    }
                }
                ai += 1;
            } else {
                surv.push(c);
                proof {
                    let rest = spec_survivors(cv, answers, ci as int + 1, ai as int);
                    assert(spec_survivors(cv, answers, ci as int, ai as int) =~= seq![c] + rest);
                    assert(prev + (seq![c] + rest) =~= surv@ + rest);
                }
            }
            ci += 1;
        }
        proof {
            assert(surv@ + Seq::<BlockCandidate>::empty() =~= surv@);
            assert(surv@ == spec_survivors(cv, answers, 0, 0));
            assert(sv.len() == segments@.len());
            assert(segments@.len() <= usize::MAX) by {
                vstd::std_specs::vec::axiom_spec_len(segments);
            };
            assert forall|i: int| 0 <= i < sv.len() implies (#[trigger] sv[i]).blocks.len()
                <= usize::MAX by {
                assert(sv[i].blocks.len() == segments@[i].blocks@.len());
                vstd::std_specs::vec::axiom_spec_len(&segments@[i].blocks);
            };
            lemma_segments_scan_wf(
                sv,
                spec_filters_of(*push_down),
                spec_bloom_active(*push_down),
                spec_effective_limit(*push_down),
                0,
            );
            lemma_survivors_membership(cv, answers, 0, 0);
        }
        let mut kept: Vec<(SegmentIndex, BlockMeta)> = Vec::new();
        let mut k: usize = 0;
        while k < surv.len()
            invariant
                k <= surv@.len(),
                kept@.len() == k,
                forall|p: int|
                    0 <= p < k ==> #[trigger] pair_views(kept@)[p] == pairs_of(sv, surv@)[p],
            decreases surv@.len() - k,
        {
            let c: BlockCandidate = surv[k];
            proof {
                assert(exists|j: int| 0 <= j < cv.len() && surv@[k as int] == cv[j]);
                let j = choose|j: int| 0 <= j < cv.len() && surv@[k as int] == cv[j];
                assert(c.segment_idx < sv.len());
                assert(c.block_idx < sv[c.segment_idx as int].blocks.len());
                assert(sv[c.segment_idx as int] == segments@[c.segment_idx as int]@);
            }
            let ghost prev = kept@;
            let meta: BlockMeta = segments[c.segment_idx].blocks[c.block_idx].duplicate();
            kept.push((c.segment_idx, meta));
            proof {
                assert(pair_views(kept@)[k as int] == pairs_of(sv, surv@)[k as int]);
                assert forall|p: int|
                    0 <= p < k implies #[trigger] pair_views(kept@)[p] == pairs_of(sv, surv@)[p] by {
                    assert(kept@[p] == prev[p]);
                    assert(pair_views(prev)[p] == pairs_of(sv, surv@)[p]);
                    assert(pair_views(kept@)[p] == pair_views(prev)[p]);
                };
            }
            k += 1;
        }
        proof {
            assert(pair_views(kept@) =~= spec_kept_pairs(sv, *push_down, answers));
        }
        match push_down {
            Some(pd) => {
                if pd.order_by.len() > 0 && pd.limit.is_some() {
                    let mut sort: Vec<SortColumn> = Vec::new();
                    let mut oi: usize = 0;
                    while oi < pd.order_by.len()
                        invariant
                            oi <= pd.order_by@.len(),
                            sort@ =~= pd.order_by@.subrange(0, oi as int),
                        decreases pd.order_by@.len() - oi,
                    {
                        sort.push(pd.order_by[oi]);
                        oi += 1;
                    }
                    proof {
                        assert(sort@ =~= pd.order_by@);
                    }
                    let lim: u64 = pd.limit.unwrap();
                    let tp = TopNPrunner::new(sort, lim);
                    let out = tp.prune(kept);
                    proof {
                        assert(spec_topn_output(
                            pd.order_by@,
                            lim,
                            spec_kept_pairs(sv, *push_down, answers),
                            pair_views(out@),
                        ));
                    }
                    out
                } else {
                    kept
                }
            },
            None => kept,
        }
    }
}

/// Pending counts are never negative.
proof fn lemma_pending_nonneg(cands: Seq<BlockCandidate>, ci: int)
    ensures
        spec_pending_from(cands, ci) >= 0,
    decreases cands.len() - ci,
{
    if 0 <= ci < cands.len() {
        lemma_pending_nonneg(cands, ci + 1);
    }
}

/// Strict segment-major order on candidates.
pub open spec fn lex_lt(c1: BlockCandidate, c2: BlockCandidate) -> bool {
    c1.segment_idx < c2.segment_idx || (c1.segment_idx == c2.segment_idx && c1.block_idx
        < c2.block_idx)
}

/// A block scan yields candidates of this very segment, addressing real
/// blocks from `bi` on, in strictly increasing block order.
proof fn lemma_blocks_scan_wf(
    blocks: Seq<BlockMetaV>,
    seg: int,
    filters: Seq<Pred>,
    bloom: bool,
    rem: Option<u64>,
    bi: int,
)
    requires
        0 <= seg <= usize::MAX,
        0 <= bi,
        blocks.len() <= usize::MAX,
    ensures
        ({
            let cs = spec_blocks_scan(blocks, seg, filters, bloom, rem, bi).0;
            &&& forall|k: int|
                0 <= k < cs.len() ==> (#[trigger] cs[k]).segment_idx == seg && bi <= cs[k].block_idx
                    < blocks.len()
            &&& forall|k1: int, k2: int|
                #![trigger cs[k1], cs[k2]]
                0 <= k1 < k2 < cs.len() ==> cs[k1].block_idx < cs[k2].block_idx
        }),
    decreases blocks.len() - bi,
{
    if 0 <= bi < blocks.len() && rem != Some(0u64) {
        let b = blocks[bi];
        if spec_keep_all(filters, b.col_stats, b.row_count) {
            lemma_blocks_scan_wf(
                blocks,
                seg,
                filters,
                bloom,
                spec_limiter_after(rem, b.row_count),
                bi + 1,
            );
            let cs = spec_blocks_scan(blocks, seg, filters, bloom, rem, bi).0;
            let rest = spec_blocks_scan(
                blocks,
                seg,
                filters,
                bloom,
                spec_limiter_after(rem, b.row_count),
                bi + 1,
            ).0;
            assert(cs[0].segment_idx == seg && cs[0].block_idx == bi);
            assert forall|k: int|
                0 <= k < cs.len() implies (#[trigger] cs[k]).segment_idx == seg && bi
                <= cs[k].block_idx < blocks.len() by {
                if k > 0 {
                    assert(cs[k] == rest[k - 1]);
                }
            };
            assert forall|k1: int, k2: int|
                #![trigger cs[k1], cs[k2]]
                0 <= k1 < k2 < cs.len() implies cs[k1].block_idx < cs[k2].block_idx by {
                assert(cs[k2] == rest[k2 - 1]);
                if k1 > 0 {
                    assert(cs[k1] == rest[k1 - 1]);
                }
            };
        } else {
            lemma_blocks_scan_wf(blocks, seg, filters, bloom, rem, bi + 1);
            assert(spec_blocks_scan(blocks, seg, filters, bloom, rem, bi)
                == spec_blocks_scan(blocks, seg, filters, bloom, rem, bi + 1));
        }
    } else {
        assert(spec_blocks_scan(blocks, seg, filters, bloom, rem, bi).0 =~= Seq::empty());
    }
}

/// A segment scan yields candidates addressing real blocks of real
/// segments from `si` on, in strictly increasing segment-major order.
proof fn lemma_segments_scan_wf(
    segs: Seq<SegmentInfoV>,
    filters: Seq<Pred>,
    bloom: bool,
    rem: Option<u64>,
    si: int,
)
    requires
        0 <= si,
        segs.len() <= usize::MAX,
        forall|i: int| 0 <= i < segs.len() ==> (#[trigger] segs[i]).blocks.len() <= usize::MAX,
    ensures
        ({
            let cs = spec_segments_scan(segs, filters, bloom, rem, si).0;
            &&& forall|k: int|
                0 <= k < cs.len() ==> si <= (#[trigger] cs[k]).segment_idx < segs.len()
                    && cs[k].block_idx < segs[cs[k].segment_idx as int].blocks.len()
            &&& forall|k1: int, k2: int|
                #![trigger cs[k1], cs[k2]]
                0 <= k1 < k2 < cs.len() ==> lex_lt(cs[k1], cs[k2])
        }),
    decreases segs.len() - si,
{
    if 0 <= si < segs.len() {
        let s = segs[si];
        if rem == Some(0u64) {
            lemma_segments_scan_wf(segs, filters, bloom, rem, si + 1);
            assert(spec_segments_scan(segs, filters, bloom, rem, si)
                == spec_segments_scan(segs, filters, bloom, rem, si + 1));
        } else if !spec_keep_all(filters, s.summary_col_stats, s.summary_row_count) {
            lemma_segments_scan_wf(segs, filters, bloom, rem, si + 1);
            assert(spec_segments_scan(segs, filters, bloom, rem, si)
                == spec_segments_scan(segs, filters, bloom, rem, si + 1));
        } else {
            let br = spec_blocks_scan(s.blocks, si, filters, bloom, rem, 0);
            lemma_blocks_scan_wf(s.blocks, si, filters, bloom, rem, 0);
            lemma_segments_scan_wf(segs, filters, bloom, br.1, si + 1);
            let cs = spec_segments_scan(segs, filters, bloom, rem, si).0;
            let rest = spec_segments_scan(segs, filters, bloom, br.1, si + 1).0;
            assert forall|k: int|
                0 <= k < cs.len() implies si <= (#[trigger] cs[k]).segment_idx < segs.len()
                && cs[k].block_idx < segs[cs[k].segment_idx as int].blocks.len() by {
                if k < br.0.len() {
                    assert(cs[k] == br.0[k]);
                } else {
                    assert(cs[k] == rest[k - br.0.len()]);
                }
            };
            assert forall|k1: int, k2: int|
                #![trigger cs[k1], cs[k2]]
                0 <= k1 < k2 < cs.len() implies lex_lt(cs[k1], cs[k2]) by {
                if k1 < br.0.len() {
                    assert(cs[k1] == br.0[k1]);
                } else {
                    assert(cs[k1] == rest[k1 - br.0.len()]);
                }
                if k2 < br.0.len() {
                    assert(cs[k2] == br.0[k2]);
                } else {
                    assert(cs[k2] == rest[k2 - br.0.len()]);
                }
            };
        }
    } else {
        assert(spec_segments_scan(segs, filters, bloom, rem, si).0 =~= Seq::empty());
    }
}

/// Range-filter soundness at the executor: every candidate — and so every
/// block a prune call keeps — passed the range filter on its own
/// statistics. Together with [`crate::pred::lemma_prune_sound`], no block
/// whose statistics contradict a consumed predicate is ever returned.
pub proof fn lemma_candidates_range_kept(segs: Seq<SegmentInfoV>, pd: Option<PushDown>)
    requires
        segs.len() <= usize::MAX,
        forall|i: int| 0 <= i < segs.len() ==> (#[trigger] segs[i]).blocks.len() <= usize::MAX,
    ensures
        ({
            let cs = spec_candidates(segs, pd);
            forall|k: int|
                0 <= k < cs.len() ==> {
                    let b = segs[(#[trigger] cs[k]).segment_idx as int].blocks[
                        cs[k].block_idx as int
                    ];
                    spec_keep_all(spec_filters_of(pd), b.col_stats, b.row_count)
                }
        }),
{
    lemma_segments_scan_wf(
        segs,
        spec_filters_of(pd),
        spec_bloom_active(pd),
        spec_effective_limit(pd),
        0,
    );
    lemma_segments_scan_kept(
        segs,
        spec_filters_of(pd),
        spec_bloom_active(pd),
        spec_effective_limit(pd),
        0,
    );
}

proof fn lemma_blocks_scan_kept(
    blocks: Seq<BlockMetaV>,
    seg: int,
    filters: Seq<Pred>,
    bloom: bool,
    rem: Option<u64>,
    bi: int,
)
    requires
        0 <= seg <= usize::MAX,
        0 <= bi,
        blocks.len() <= usize::MAX,
    ensures
        ({
            let cs = spec_blocks_scan(blocks, seg, filters, bloom, rem, bi).0;
            forall|k: int|
                0 <= k < cs.len() ==> {
                    let b = blocks[(#[trigger] cs[k]).block_idx as int];
                    spec_keep_all(filters, b.col_stats, b.row_count)
                }
        }),
    decreases blocks.len() - bi,
{
    if 0 <= bi < blocks.len() && rem != Some(0u64) {
        let b = blocks[bi];
        if spec_keep_all(filters, b.col_stats, b.row_count) {
            let rem2 = spec_limiter_after(rem, b.row_count);
            lemma_blocks_scan_kept(blocks, seg, filters, bloom, rem2, bi + 1);
            let cs = spec_blocks_scan(blocks, seg, filters, bloom, rem, bi).0;
            let rest = spec_blocks_scan(blocks, seg, filters, bloom, rem2, bi + 1).0;
            assert(cs[0].block_idx == bi);
            assert(forall|k: int| 1 <= k < cs.len() ==> cs[k] == #[trigger] rest[k - 1]);
        } else {
            lemma_blocks_scan_kept(blocks, seg, filters, bloom, rem, bi + 1);
        }
    }
}

proof fn lemma_segments_scan_kept(
    segs: Seq<SegmentInfoV>,
    filters: Seq<Pred>,
    bloom: bool,
    rem: Option<u64>,
    si: int,
)
    requires
        0 <= si,
        segs.len() <= usize::MAX,
        forall|i: int| 0 <= i < segs.len() ==> (#[trigger] segs[i]).blocks.len() <= usize::MAX,
    ensures
        ({
            let cs = spec_segments_scan(segs, filters, bloom, rem, si).0;
            forall|k: int|
                0 <= k < cs.len() ==> {
                    let b = segs[(#[trigger] cs[k]).segment_idx as int].blocks[
                        cs[k].block_idx as int
                    ];
                    spec_keep_all(filters, b.col_stats, b.row_count)
                }
        }),
    decreases segs.len() - si,
{
    if 0 <= si < segs.len() {
        let s = segs[si];
        if rem == Some(0u64) {
            lemma_segments_scan_kept(segs, filters, bloom, rem, si + 1);
        } else if !spec_keep_all(filters, s.summary_col_stats, s.summary_row_count) {
            lemma_segments_scan_kept(segs, filters, bloom, rem, si + 1);
        } else {
            let br = spec_blocks_scan(s.blocks, si, filters, bloom, rem, 0);
            lemma_blocks_scan_kept(s.blocks, si, filters, bloom, rem, 0);
            lemma_blocks_scan_wf(s.blocks, si, filters, bloom, rem, 0);
            lemma_segments_scan_kept(segs, filters, bloom, br.1, si + 1);
            let cs = spec_segments_scan(segs, filters, bloom, rem, si).0;
            let rest = spec_segments_scan(segs, filters, bloom, br.1, si + 1).0;
            assert forall|k: int|
                0 <= k < cs.len() implies {
                let b = segs[(#[trigger] cs[k]).segment_idx as int].blocks[
                    cs[k].block_idx as int
                ];
                spec_keep_all(filters, b.col_stats, b.row_count)
            } by {
                if k < br.0.len() {
                    assert(cs[k] == br.0[k]);
                    assert(cs[k].segment_idx as int == si);
                } else {
                    assert(cs[k] == rest[k - br.0.len()]);
                }
            };
        }
    }
}

/// Every survivor is one of the candidates, taken from position `ci` on.
proof fn lemma_survivors_membership(
    cands: Seq<BlockCandidate>,
    answers: Seq<bool>,
    ci: int,
    ai: int,
)
    ensures
        ({
            let s = spec_survivors(cands, answers, ci, ai);
            forall|k: int|
                0 <= k < s.len() ==> exists|j: int|
                    ci <= j < cands.len() && (#[trigger] s[k]) == cands[j]
        }),
    decreases cands.len() - ci,
{
    if 0 <= ci < cands.len() {
        let c = cands[ci];
        let s = spec_survivors(cands, answers, ci, ai);
        if c.needs_bloom {
            lemma_survivors_membership(cands, answers, ci + 1, ai + 1);
            let rest = spec_survivors(cands, answers, ci + 1, ai + 1);
            if 0 <= ai < answers.len() && answers[ai] {
                assert(s[0] == cands[ci]);
                assert(forall|k: int| 1 <= k < s.len() ==> s[k] == #[trigger] rest[k - 1]);
            }
        } else {
            lemma_survivors_membership(cands, answers, ci + 1, ai);
            let rest = spec_survivors(cands, answers, ci + 1, ai);
            assert(s[0] == cands[ci]);
            assert(forall|k: int| 1 <= k < s.len() ==> s[k] == #[trigger] rest[k - 1]);
        }
    }
}

impl PrunePlan {
    /// How many bloom reads the plan asks for: the length of the verdict
    /// vector [`BlockPruner::prune`] takes.
    #[verifier::loop_isolation(false)]
    pub fn pending_count(&self) -> (r: usize)
        ensures
            r == spec_pending_count(self.candidates@),
    {
        let mut r: usize = 0;
        let mut ci: usize = 0;
        proof {
            lemma_pending_nonneg(self.candidates@, 0);
        }
        while ci < self.candidates.len()
            invariant
                ci <= self.candidates@.len(),
                r + spec_pending_from(self.candidates@, ci as int) == spec_pending_count(
                    self.candidates@,
                ),
                r <= ci,
            decreases self.candidates@.len() - ci,
        {
            proof {
                lemma_pending_nonneg(self.candidates@, ci as int + 1);
            }
            if self.candidates[ci].needs_bloom {
                r += 1;
            }
            ci += 1;
        }
        r
    }
}

/// Sum of the row counts of the blocks a candidate sequence addresses.
pub open spec fn spec_sum_rows(segs: Seq<SegmentInfoV>, cs: Seq<BlockCandidate>) -> int
    decreases cs.len(),
{
    if cs.len() == 0 {
        0
    } else {
        segs[cs[0].segment_idx as int].blocks[cs[0].block_idx as int].row_count
            + spec_sum_rows(segs, cs.subrange(1, cs.len() as int))
    }
}

proof fn lemma_sum_singleton(segs: Seq<SegmentInfoV>, c: BlockCandidate)
    ensures
        spec_sum_rows(segs, seq![c]) == segs[c.segment_idx as int].blocks[
            c.block_idx as int
        ].row_count,
{
    let one = seq![c];
    assert(one[0] == c);
    assert(one.subrange(1, 1) =~= Seq::<BlockCandidate>::empty());
    assert(spec_sum_rows(segs, Seq::<BlockCandidate>::empty()) == 0);
    assert(spec_sum_rows(segs, one) == segs[c.segment_idx as int].blocks[
        c.block_idx as int
    ].row_count + spec_sum_rows(segs, one.subrange(1, 1)));
}

proof fn lemma_sum_nonneg(segs: Seq<SegmentInfoV>, cs: Seq<BlockCandidate>)
    ensures
        spec_sum_rows(segs, cs) >= 0,
    decreases cs.len(),
{
    if cs.len() > 0 {
        lemma_sum_nonneg(segs, cs.subrange(1, cs.len() as int));
    }
}

proof fn lemma_sum_concat(segs: Seq<SegmentInfoV>, a: Seq<BlockCandidate>, b: Seq<BlockCandidate>)
    ensures
        spec_sum_rows(segs, a + b) == spec_sum_rows(segs, a) + spec_sum_rows(segs, b),
    decreases a.len(),
{
    if a.len() == 0 {
        assert(a + b =~= b);
    } else {
        lemma_sum_concat(segs, a.subrange(1, a.len() as int), b);
        assert((a + b).subrange(1, (a + b).len() as int) =~= a.subrange(1, a.len() as int) + b);
        assert((a + b)[0] == a[0]);
    }
}

/// A segment scan whose limiter is already exhausted keeps nothing and leaves
/// the limiter exhausted.
proof fn lemma_segments_scan_exhausted(
    segs: Seq<SegmentInfoV>,
    filters: Seq<Pred>,
    bloom: bool,
    si: int,
)
    ensures
        spec_segments_scan(segs, filters, bloom, Some(0u64), si).0 =~= Seq::empty(),
        spec_segments_scan(segs, filters, bloom, Some(0u64), si).1 == Some(0u64),
    decreases segs.len() - si,
{
    if 0 <= si < segs.len() {
        lemma_segments_scan_exhausted(segs, filters, bloom, si + 1);
    }
}

/// How a block scan spends limiter credit: credit never grows, the kept
/// blocks' rows cover everything spent, the spend is exact while credit is
/// left, and all kept blocks but possibly the last fit inside the credit.
proof fn lemma_blocks_scan_credit(
    segs: Seq<SegmentInfoV>,
    si: int,
    filters: Seq<Pred>,
    bloom: bool,
    x: u64,
    bi: int,
)
    requires
        0 <= si < segs.len(),
        segs.len() <= usize::MAX,
        0 <= bi,
        segs[si].blocks.len() <= usize::MAX,
    ensures
        ({
            let r = spec_blocks_scan(segs[si].blocks, si, filters, bloom, Some(x), bi);
            &&& r.1 is Some
            &&& r.1->Some_0 <= x
            &&& x - r.1->Some_0 <= spec_sum_rows(segs, r.0)
            &&& r.1->Some_0 > 0 ==> x - r.1->Some_0 == spec_sum_rows(segs, r.0)
            &&& r.0.len() > 0 && x > 0 ==> spec_sum_rows(segs, r.0.subrange(0, r.0.len() - 1))
                < x
        }),
    decreases segs[si].blocks.len() - bi,
{
    let blocks = segs[si].blocks;
    let r = spec_blocks_scan(blocks, si, filters, bloom, Some(x), bi);
    if 0 <= bi < blocks.len() && x > 0 {
        let b = blocks[bi];
        if spec_keep_all(filters, b.col_stats, b.row_count) {
            let rc = b.row_count;
            let c = BlockCandidate {
                segment_idx: si as usize,
                block_idx: bi as usize,
                needs_bloom: bloom && b.bloom_filter_index_location is Some,
            };
            if rc >= x {
                let rest = spec_blocks_scan(blocks, si, filters, bloom, Some(0u64), bi + 1);
                assert(rest.0 =~= Seq::empty());
                assert(r.0 =~= seq![c]);
                assert(c.segment_idx as int == si && c.block_idx as int == bi);
                lemma_sum_singleton(segs, c);
                assert(spec_sum_rows(segs, r.0) == rc);
                assert(r.0.subrange(0, r.0.len() - 1) =~= Seq::empty());
            } else {
                let x2 = (x - rc) as u64;
                lemma_blocks_scan_credit(segs, si, filters, bloom, x2, bi + 1);
                let rest = spec_blocks_scan(blocks, si, filters, bloom, Some(x2), bi + 1);
                assert(r.0 == seq![c] + rest.0);
                lemma_sum_concat(segs, seq![c], rest.0);
                assert(c.segment_idx as int == si && c.block_idx as int == bi);
                lemma_sum_singleton(segs, c);
                assert(spec_sum_rows(segs, seq![c]) == rc);
                lemma_sum_nonneg(segs, rest.0);
                if r.0.len() > 0 {
                    if rest.0.len() == 0 {
                        assert(r.0.subrange(0, r.0.len() - 1) =~= Seq::empty());
                    } else {
                        assert(r.0.subrange(0, r.0.len() - 1) =~= seq![c] + rest.0.subrange(
                            0,
                            rest.0.len() - 1,
                        ));
                        lemma_sum_concat(segs, seq![c], rest.0.subrange(0, rest.0.len() - 1));
                    }
                }
            }
        } else {
            lemma_blocks_scan_credit(segs, si, filters, bloom, x, bi + 1);
        }
    } else {
        assert(r.0 =~= Seq::empty());
    }
}

/// [`lemma_blocks_scan_credit`], lifted over the whole snapshot.
proof fn lemma_segments_scan_credit(
    segs: Seq<SegmentInfoV>,
    filters: Seq<Pred>,
    bloom: bool,
    x: u64,
    si: int,
)
    requires
        0 <= si,
        segs.len() <= usize::MAX,
        forall|i: int| 0 <= i < segs.len() ==> (#[trigger] segs[i]).blocks.len() <= usize::MAX,
    ensures
        ({
            let r = spec_segments_scan(segs, filters, bloom, Some(x), si);
            &&& r.1 is Some
            &&& r.1->Some_0 <= x
            &&& x - r.1->Some_0 <= spec_sum_rows(segs, r.0)
            &&& r.1->Some_0 > 0 ==> x - r.1->Some_0 == spec_sum_rows(segs, r.0)
            &&& r.0.len() > 0 && x > 0 ==> spec_sum_rows(segs, r.0.subrange(0, r.0.len() - 1))
                < x
        }),
    decreases segs.len() - si,
{
    let r = spec_segments_scan(segs, filters, bloom, Some(x), si);
    if 0 <= si < segs.len() {
        let s = segs[si];
        if x == 0 {
            lemma_segments_scan_exhausted(segs, filters, bloom, si);
            lemma_sum_nonneg(segs, r.0);
        } else if !spec_keep_all(filters, s.summary_col_stats, s.summary_row_count) {
            lemma_segments_scan_credit(segs, filters, bloom, x, si + 1);
        } else {
            lemma_blocks_scan_credit(segs, si, filters, bloom, x, 0);
            let br = spec_blocks_scan(s.blocks, si, filters, bloom, Some(x), 0);
            let y1 = br.1->Some_0;
            lemma_segments_scan_credit(segs, filters, bloom, y1, si + 1);
            let rest = spec_segments_scan(segs, filters, bloom, Some(y1), si + 1);
            assert(r.0 == br.0 + rest.0);
            lemma_sum_concat(segs, br.0, rest.0);
            lemma_sum_nonneg(segs, br.0);
            lemma_sum_nonneg(segs, rest.0);
            if r.0.len() > 0 && x > 0 {
                if rest.0.len() == 0 {
                    assert(r.0 =~= br.0);
                    assert(r.0.subrange(0, r.0.len() - 1) =~= br.0.subrange(0, br.0.len() - 1));
                } else {
                    if y1 == 0 {
                        lemma_segments_scan_exhausted(segs, filters, bloom, si + 1);
                        assert(rest.0.len() == 0);
                    }
                    assert(y1 > 0);
                    assert(r.0.subrange(0, r.0.len() - 1) =~= br.0 + rest.0.subrange(
                        0,
                        rest.0.len() - 1,
                    ));
                    lemma_sum_concat(segs, br.0, rest.0.subrange(0, rest.0.len() - 1));
                }
            }
        }
    } else {
        assert(r.0 =~= Seq::empty());
    }
}

/// While the limiter never ran dry, a bounded scan keeps exactly what an
/// unbounded scan keeps.
proof fn lemma_blocks_scan_agree(
    segs: Seq<SegmentInfoV>,
    si: int,
    filters: Seq<Pred>,
    bloom: bool,
    x: u64,
    bi: int,
)
    requires
        0 <= si < segs.len(),
        segs.len() <= usize::MAX,
        0 <= bi,
        segs[si].blocks.len() <= usize::MAX,
        spec_blocks_scan(segs[si].blocks, si, filters, bloom, Some(x), bi).1 != Some(0u64),
    ensures
        spec_blocks_scan(segs[si].blocks, si, filters, bloom, Some(x), bi).0
            == spec_blocks_scan(segs[si].blocks, si, filters, bloom, None, bi).0,
    decreases segs[si].blocks.len() - bi,
{
    let blocks = segs[si].blocks;
    lemma_blocks_scan_credit(segs, si, filters, bloom, x, bi);
    if 0 <= bi < blocks.len() && x > 0 {
        let b = blocks[bi];
        if spec_keep_all(filters, b.col_stats, b.row_count) {
            let rc = b.row_count;
            assert(rc < x) by {
                if rc >= x {
                    assert(spec_limiter_after(Some(x), rc) == Some(0u64));
                    assert(spec_blocks_scan(blocks, si, filters, bloom, Some(0u64), bi + 1).1
                        == Some(0u64));
                    assert(spec_blocks_scan(blocks, si, filters, bloom, Some(x), bi).1
                        == Some(0u64));
                }
            };
            lemma_blocks_scan_agree(segs, si, filters, bloom, (x - rc) as u64, bi + 1);
        } else {
            lemma_blocks_scan_agree(segs, si, filters, bloom, x, bi + 1);
        }
    }
}

/// An unbounded limiter stays unbounded through a block scan.
proof fn lemma_blocks_scan_none(
    blocks: Seq<BlockMetaV>,
    seg: int,
    filters: Seq<Pred>,
    bloom: bool,
    bi: int,
)
    ensures
        spec_blocks_scan(blocks, seg, filters, bloom, None, bi).1 is None,
    decreases blocks.len() - bi,
{
    if 0 <= bi < blocks.len() {
        let b = blocks[bi];
        if spec_keep_all(filters, b.col_stats, b.row_count) {
            lemma_blocks_scan_none(blocks, seg, filters, bloom, bi + 1);
        } else {
            lemma_blocks_scan_none(blocks, seg, filters, bloom, bi + 1);
        }
    }
}

/// [`lemma_blocks_scan_agree`], lifted over the whole snapshot.
proof fn lemma_segments_scan_agree(
    segs: Seq<SegmentInfoV>,
    filters: Seq<Pred>,
    bloom: bool,
    x: u64,
    si: int,
)
    requires
        0 <= si,
        segs.len() <= usize::MAX,
        forall|i: int| 0 <= i < segs.len() ==> (#[trigger] segs[i]).blocks.len() <= usize::MAX,
        spec_segments_scan(segs, filters, bloom, Some(x), si).1 != Some(0u64),
    ensures
        spec_segments_scan(segs, filters, bloom, Some(x), si).0 == spec_segments_scan(
            segs,
            filters,
            bloom,
            None,
            si,
        ).0,
    decreases segs.len() - si,
{
    if 0 <= si < segs.len() {
        let s = segs[si];
        if x == 0 {
            lemma_segments_scan_exhausted(segs, filters, bloom, si);
        } else if !spec_keep_all(filters, s.summary_col_stats, s.summary_row_count) {
            lemma_segments_scan_agree(segs, filters, bloom, x, si + 1);
        } else {
            let br = spec_blocks_scan(s.blocks, si, filters, bloom, Some(x), 0);
            lemma_blocks_scan_credit(segs, si, filters, bloom, x, 0);
            let y1 = br.1->Some_0;
            assert(y1 > 0) by {
                if y1 == 0 {
                    lemma_segments_scan_exhausted(segs, filters, bloom, si + 1);
                }
            };
            lemma_blocks_scan_agree(segs, si, filters, bloom, x, 0);
            lemma_segments_scan_agree(segs, filters, bloom, y1, si + 1);
            lemma_blocks_scan_none(s.blocks, si, filters, bloom, 0);
            let brn = spec_blocks_scan(s.blocks, si, filters, bloom, None, 0);
            assert(brn.1 is None);
            assert(spec_segments_scan(segs, filters, bloom, None, si).0 == brn.0
                + spec_segments_scan(segs, filters, bloom, None, si + 1).0);
        }
    }
}

/// Limit coverage, the safe-overshoot law: with a bounded limiter the kept
/// candidates' rows cover the limit, or every block an unbounded scan
/// would keep was kept — so whenever the unpruned table holds at least
/// `limit` matching rows (which all live in range-kept blocks, by
/// [`crate::pred::lemma_prune_sound`]), the kept blocks cover at least
/// `limit` rows.
pub proof fn lemma_limit_coverage(
    segs: Seq<SegmentInfoV>,
    filters: Seq<Pred>,
    bloom: bool,
    limit: u64,
)
    requires
        segs.len() <= usize::MAX,
        forall|i: int| 0 <= i < segs.len() ==> (#[trigger] segs[i]).blocks.len() <= usize::MAX,
    ensures
        ({
            let bounded = spec_segments_scan(segs, filters, bloom, Some(limit), 0).0;
            let unbounded = spec_segments_scan(segs, filters, bloom, None, 0).0;
            spec_sum_rows(segs, bounded) >= limit || bounded == unbounded
        }),
{
    lemma_segments_scan_credit(segs, filters, bloom, limit, 0);
    let r = spec_segments_scan(segs, filters, bloom, Some(limit), 0);
    if r.1->Some_0 > 0 {
        lemma_segments_scan_agree(segs, filters, bloom, limit, 0);
    }
}

/// Limit tightness: the limiter never keeps a block whose predecessors
/// already covered the limit — all kept candidates but the last fit
/// strictly inside it.
pub proof fn lemma_limit_tightness(
    segs: Seq<SegmentInfoV>,
    filters: Seq<Pred>,
    bloom: bool,
    limit: u64,
)
    requires
        segs.len() <= usize::MAX,
        forall|i: int| 0 <= i < segs.len() ==> (#[trigger] segs[i]).blocks.len() <= usize::MAX,
    ensures
        ({
            let bounded = spec_segments_scan(segs, filters, bloom, Some(limit), 0).0;
            bounded.len() > 0 ==> spec_sum_rows(segs, bounded.subrange(0, bounded.len() - 1))
                < limit
        }),
{
    lemma_segments_scan_credit(segs, filters, bloom, limit, 0);
    let bounded = spec_segments_scan(segs, filters, bloom, Some(limit), 0).0;
    if bounded.len() > 0 && limit == 0 {
        lemma_segments_scan_exhausted(segs, filters, bloom, 0);
    }
}

/// Survivors keep the candidates' strict segment-major order.
proof fn lemma_survivors_sorted(cands: Seq<BlockCandidate>, answers: Seq<bool>, ci: int, ai: int)
    requires
        forall|k1: int, k2: int|
            #![trigger cands[k1], cands[k2]]
            0 <= k1 < k2 < cands.len() ==> lex_lt(cands[k1], cands[k2]),
    ensures
        ({
            let s = spec_survivors(cands, answers, ci, ai);
            forall|k1: int, k2: int|
                #![trigger s[k1], s[k2]]
                0 <= k1 < k2 < s.len() ==> lex_lt(s[k1], s[k2])
        }),
    decreases cands.len() - ci,
{
    if 0 <= ci < cands.len() {
        let c = cands[ci];
        let s = spec_survivors(cands, answers, ci, ai);
        if c.needs_bloom {
            lemma_survivors_sorted(cands, answers, ci + 1, ai + 1);
            lemma_survivors_membership(cands, answers, ci + 1, ai + 1);
            let rest = spec_survivors(cands, answers, ci + 1, ai + 1);
            if 0 <= ai < answers.len() && answers[ai] {
                assert forall|k1: int, k2: int|
                    #![trigger s[k1], s[k2]]
                    0 <= k1 < k2 < s.len() implies lex_lt(s[k1], s[k2]) by {
                    assert(s[k2] == rest[k2 - 1]);
                    if k1 > 0 {
                        assert(s[k1] == rest[k1 - 1]);
                    } else {
                        let j = choose|j: int|
                            ci + 1 <= j < cands.len() && rest[k2 - 1] == cands[j];
                        assert(lex_lt(cands[ci as int], cands[j]));
                    }
                };
            }
        } else {
            lemma_survivors_sorted(cands, answers, ci + 1, ai);
            lemma_survivors_membership(cands, answers, ci + 1, ai);
            let rest = spec_survivors(cands, answers, ci + 1, ai);
            assert forall|k1: int, k2: int|
                #![trigger s[k1], s[k2]]
                0 <= k1 < k2 < s.len() implies lex_lt(s[k1], s[k2]) by {
                assert(s[k2] == rest[k2 - 1]);
                if k1 > 0 {
                    assert(s[k1] == rest[k1 - 1]);
                } else {
                    let j = choose|j: int| ci + 1 <= j < cands.len() && rest[k2 - 1] == cands[j];
                    assert(lex_lt(cands[ci as int], cands[j]));
                }
            };
        }
    }
}

/// No duplicates: whatever the bloom verdicts, the blocks a prune call
/// keeps address pairwise distinct `(segment, block)` pairs.
pub proof fn lemma_no_duplicates(
    segs: Seq<SegmentInfoV>,
    pd: Option<PushDown>,
    answers: Seq<bool>,
)
    requires
        segs.len() <= usize::MAX,
        forall|i: int| 0 <= i < segs.len() ==> (#[trigger] segs[i]).blocks.len() <= usize::MAX,
    ensures
        ({
            let s = spec_survivors(spec_candidates(segs, pd), answers, 0, 0);
            forall|k1: int, k2: int|
                #![trigger s[k1], s[k2]]
                0 <= k1 < k2 < s.len() ==> !(s[k1].segment_idx == s[k2].segment_idx
                    && s[k1].block_idx == s[k2].block_idx)
        }),
{
    lemma_segments_scan_wf(
        segs,
        spec_filters_of(pd),
        spec_bloom_active(pd),
        spec_effective_limit(pd),
        0,
    );
    lemma_survivors_sorted(spec_candidates(segs, pd), answers, 0, 0);
}

/// Bloom verdicts that all say keep change nothing: the survivors are
/// exactly the candidates. In particular a prune call without consumable
/// equality predicates — which issues no bloom reads — keeps every
/// candidate.
pub proof fn lemma_bloom_all_keep(cands: Seq<BlockCandidate>, answers: Seq<bool>)
    requires
        forall|x: int| 0 <= x < answers.len() ==> answers[x],
        answers.len() == spec_pending_count(cands),
    ensures
        spec_survivors(cands, answers, 0, 0) == cands,
{
    lemma_bloom_all_keep_from(cands, answers, 0, 0);
    assert(cands.subrange(0, cands.len() as int) =~= cands);
}

proof fn lemma_bloom_all_keep_from(
    cands: Seq<BlockCandidate>,
    answers: Seq<bool>,
    ci: int,
    ai: int,
)
    requires
        0 <= ci <= cands.len(),
        0 <= ai,
        forall|x: int| 0 <= x < answers.len() ==> answers[x],
        ai + spec_pending_from(cands, ci) <= answers.len(),
    ensures
        spec_survivors(cands, answers, ci, ai) == cands.subrange(ci, cands.len() as int),
    decreases cands.len() - ci,
{
    if ci < cands.len() {
        let c = cands[ci];
        lemma_pending_nonneg(cands, ci + 1);
        if c.needs_bloom {
            assert(ai < answers.len());
            lemma_bloom_all_keep_from(cands, answers, ci + 1, ai + 1);
        } else {
            lemma_bloom_all_keep_from(cands, answers, ci + 1, ai);
        }
        assert(seq![c] + cands.subrange(ci + 1, cands.len() as int) =~= cands.subrange(
            ci,
            cands.len() as int,
        ));
    } else {
        assert(cands.subrange(ci, cands.len() as int) =~= Seq::empty());
    }
}

/// An empty snapshot prunes to nothing: no candidates, no bloom reads, an
/// empty result.
pub proof fn lemma_empty_snapshot(pd: Option<PushDown>, answers: Seq<bool>)
    ensures
        spec_candidates(Seq::empty(), pd) =~= Seq::empty(),
        spec_pending_count(spec_candidates(Seq::empty(), pd)) == 0,
        spec_kept_pairs(Seq::empty(), pd, answers) =~= Seq::empty(),
{
    assert(spec_candidates(Seq::empty(), pd) =~= Seq::empty());
    assert(spec_survivors(spec_candidates(Seq::empty(), pd), answers, 0, 0) =~= Seq::empty());
}


} // verus!
