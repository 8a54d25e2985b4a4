use block_prune::executor::{concurrency_budget, effective_limit, BlockPruner, PushDown};
use block_prune::limiter::{new_limiter, LimiterPruner};
use block_prune::meta::{
    BlockMeta, ColumnStatistics, Location, SegmentInfo, Statistics, TableSnapshot,
};
use block_prune::pred::{new_range_filter_pruner, Pred, RangeFilterPruner};
use block_prune::topn::{SortColumn, TopNPrunner};

const COL_A: u32 = 1;

fn stat(min: i64, max: i64, null_count: u64) -> ColumnStatistics {
    ColumnStatistics { min, max, null_count, in_memory_size: 0 }
}

fn block(row_count: u64, stats: Vec<(u32, ColumnStatistics)>) -> BlockMeta {
    BlockMeta {
        row_count,
        col_stats: stats,
        bloom_filter_index_location: None,
        bloom_filter_index_size: 0,
    }
}

fn block_with_bloom(row_count: u64, stats: Vec<(u32, ColumnStatistics)>, path: &str) -> BlockMeta {
    BlockMeta {
        row_count,
        col_stats: stats,
        bloom_filter_index_location: Some(Location { path: String::from(path), version: 1 }),
        bloom_filter_index_size: 64,
    }
}

fn segment(summary_rows: u64, summary: Vec<(u32, ColumnStatistics)>, blocks: Vec<BlockMeta>) -> SegmentInfo {
    SegmentInfo { summary: Statistics { row_count: summary_rows, col_stats: summary }, blocks }
}

fn snapshot(n: usize) -> TableSnapshot {
    let mut segments: Vec<Location> = Vec::new();
    for i in 0..n {
        segments.push(Location { path: format!("segments/{}", i), version: 1 });
    }
    TableSnapshot { segments }
}

fn push(filters: Vec<Pred>, limit: Option<u64>, order_by: Vec<SortColumn>) -> Option<PushDown> {
    Some(PushDown { filters, projection: vec![], limit, order_by })
}

#[test]
fn empty_snapshot_returns_empty() {
    let pruner = BlockPruner::new(snapshot(0));
    let segments: Vec<SegmentInfo> = vec![];
    let plan = pruner.plan(&segments, &None);
    assert_eq!(plan.candidates.len(), 0);
    assert_eq!(plan.pending_count(), 0);
    let result = pruner.prune(&segments, &None, &vec![]);
    assert!(result.is_empty());
}

#[test]
fn no_predicates_no_limit_keeps_everything() {
    // Two segments of three blocks each: all six survive, segment-major.
    let mut segments: Vec<SegmentInfo> = Vec::new();
    for s in 0..2u64 {
        let mut blocks: Vec<BlockMeta> = Vec::new();
        for b in 0..3u64 {
            blocks.push(block(100 * s + b + 1, vec![(COL_A, stat(0, 9, 0))]));
        }
        segments.push(segment(300, vec![(COL_A, stat(0, 9, 0))], blocks));
    }
    let pruner = BlockPruner::new(snapshot(2));
    let plan = pruner.plan(&segments, &None);
    assert_eq!(plan.candidates.len(), 6);
    assert_eq!(plan.pending_count(), 0);
    let result = pruner.prune(&segments, &None, &vec![]);
    assert_eq!(result.len(), 6);
    let expected: Vec<(usize, u64)> =
        vec![(0, 1), (0, 2), (0, 3), (1, 101), (1, 102), (1, 103)];
    for (k, (seg_idx, rows)) in expected.iter().enumerate() {
        assert_eq!(result[k].0, *seg_idx);
        assert_eq!(result[k].1.row_count, *rows);
    }
}

#[test]
fn equality_predicate_prunes_by_range() {
    // a = 5: kept iff min <= 5 <= max.
    let blocks = vec![
        block(10, vec![(COL_A, stat(0, 10, 0))]),
        block(20, vec![(COL_A, stat(6, 9, 0))]),
        block(30, vec![(COL_A, stat(5, 5, 0))]),
    ];
    let segments = vec![segment(60, vec![(COL_A, stat(0, 10, 0))], blocks)];
    let pruner = BlockPruner::new(snapshot(1));
    let pd = push(vec![Pred::Eq(COL_A, 5)], None, vec![]);
    let plan = pruner.plan(&segments, &pd);
    // No block carries a bloom index, so no read is pending.
    assert_eq!(plan.pending_count(), 0);
    let result = pruner.prune(&segments, &pd, &vec![]);
    assert_eq!(result.len(), 2);
    assert_eq!((result[0].0, result[0].1.row_count), (0, 10));
    assert_eq!((result[1].0, result[1].1.row_count), (0, 30));
}

#[test]
fn contradicted_predicate_issues_no_bloom_reads() {
    // a > 100 with every max <= 50: everything is range-pruned, and the
    // plan asks for zero bloom reads even though blocks carry indexes.
    let blocks = vec![
        block_with_bloom(10, vec![(COL_A, stat(0, 50, 0))], "b0"),
        block_with_bloom(10, vec![(COL_A, stat(10, 40, 0))], "b1"),
    ];
    let segments = vec![segment(20, vec![(COL_A, stat(0, 50, 0))], blocks)];
    let pruner = BlockPruner::new(snapshot(1));
    let pd = push(vec![Pred::Gt(COL_A, 100)], None, vec![]);
    let plan = pruner.plan(&segments, &pd);
    assert_eq!(plan.candidates.len(), 0);
    assert_eq!(plan.pending_count(), 0);
    let result = pruner.prune(&segments, &pd, &vec![]);
    assert!(result.is_empty());
}

#[test]
fn limit_stops_after_coverage() {
    // limit = 100 over row counts [40, 40, 40, 40]: the first three blocks
    // cover 120 >= 100; the fourth is dropped and triggers nothing.
    let blocks = vec![
        block(40, vec![(COL_A, stat(0, 9, 0))]),
        block(40, vec![(COL_A, stat(0, 9, 0))]),
        block(40, vec![(COL_A, stat(0, 9, 0))]),
        block(40, vec![(COL_A, stat(0, 9, 0))]),
    ];
    let segments = vec![segment(160, vec![(COL_A, stat(0, 9, 0))], blocks)];
    let pruner = BlockPruner::new(snapshot(1));
    let pd = push(vec![], Some(100), vec![]);
    let plan = pruner.plan(&segments, &pd);
    assert_eq!(plan.candidates.len(), 3);
    assert_eq!(plan.pending_count(), 0);
    let result = pruner.prune(&segments, &pd, &vec![]);
    assert_eq!(result.len(), 3);
    let total: u64 = result.iter().map(|p| p.1.row_count).sum();
    assert!(total >= 100);
}

#[test]
fn order_by_bypasses_the_limit_and_topn_cuts() {
    // order_by = [a asc], limit = 2 over kept blocks with a.min
    // [9, 3, 7, 1]: the limit is bypassed (all four stay candidates) and
    // the top-N stage keeps the blocks with min 1 and min 3, in rank order.
    let blocks = vec![
        block(1, vec![(COL_A, stat(9, 20, 0))]),
        block(2, vec![(COL_A, stat(3, 20, 0))]),
        block(3, vec![(COL_A, stat(7, 20, 0))]),
        block(4, vec![(COL_A, stat(1, 20, 0))]),
    ];
    let segments = vec![segment(10, vec![(COL_A, stat(1, 20, 0))], blocks)];
    let pruner = BlockPruner::new(snapshot(1));
    let pd = push(vec![], Some(2), vec![SortColumn { column: COL_A, asc: true }]);
    assert_eq!(effective_limit(&pd), None);
    let plan = pruner.plan(&segments, &pd);
    assert_eq!(plan.candidates.len(), 4);
    let result = pruner.prune(&segments, &pd, &vec![]);
    assert_eq!(result.len(), 2);
    assert_eq!(result[0].1.row_count, 4); // the block with min 1
    assert_eq!(result[1].1.row_count, 2); // the block with min 3
}

#[test]
fn topn_descending_takes_maxes() {
    let metas = vec![
        (0usize, block(1, vec![(COL_A, stat(0, 5, 0))])),
        (0usize, block(2, vec![(COL_A, stat(0, 9, 0))])),
        (1usize, block(3, vec![(COL_A, stat(0, 7, 0))])),
    ];
    let tp = TopNPrunner::new(vec![SortColumn { column: COL_A, asc: false }], 2);
    let result = tp.prune(metas);
    assert_eq!(result.len(), 2);
    assert_eq!(result[0].1.row_count, 2); // max 9
    assert_eq!(result[1].1.row_count, 3); // max 7
}

#[test]
fn topn_breaks_ties_by_position() {
    // Equal keys: input position — segment-major block order — decides.
    let metas = vec![
        (1usize, block(1, vec![(COL_A, stat(5, 9, 0))])),
        (2usize, block(2, vec![(COL_A, stat(5, 9, 0))])),
        (3usize, block(3, vec![(COL_A, stat(5, 9, 0))])),
    ];
    let tp = TopNPrunner::new(vec![SortColumn { column: COL_A, asc: true }], 2);
    let result = tp.prune(metas);
    assert_eq!(result.len(), 2);
    assert_eq!(result[0].0, 1);
    assert_eq!(result[1].0, 2);
}

#[test]
fn topn_without_statistics_keeps_everything() {
    // A block without statistics for the sort column cannot be ranked:
    // the stage keeps the input unchanged.
    let metas = vec![
        (0usize, block(1, vec![(COL_A, stat(0, 5, 0))])),
        (0usize, block(2, vec![])),
    ];
    let tp = TopNPrunner::new(vec![SortColumn { column: COL_A, asc: true }], 1);
    let result = tp.prune(metas);
    assert_eq!(result.len(), 2);
}

#[test]
fn bloom_verdicts_drop_exactly_the_denied_blocks() {
    // An equality predicate plus per-block bloom indexes: every candidate
    // pends one read; a "definitely absent" verdict drops its block, and
    // re-running with keep-all verdicts restores the deterministic result.
    let blocks = vec![
        block_with_bloom(10, vec![(COL_A, stat(0, 10, 0))], "b0"),
        block_with_bloom(20, vec![(COL_A, stat(0, 10, 0))], "b1"),
        block_with_bloom(30, vec![(COL_A, stat(0, 10, 0))], "b2"),
    ];
    let segments = vec![segment(60, vec![(COL_A, stat(0, 10, 0))], blocks)];
    let pruner = BlockPruner::new(snapshot(1));
    let pd = push(vec![Pred::Eq(COL_A, 5)], None, vec![]);
    let plan = pruner.plan(&segments, &pd);
    assert_eq!(plan.pending_count(), 3);
    let result = pruner.prune(&segments, &pd, &vec![true, false, true]);
    assert_eq!(result.len(), 2);
    assert_eq!(result[0].1.row_count, 10);
    assert_eq!(result[1].1.row_count, 30);
    let healed = pruner.prune(&segments, &pd, &vec![true, true, true]);
    assert_eq!(healed.len(), 3);
}

#[test]
fn budget_is_raised_to_its_floor() {
    assert_eq!(concurrency_budget(1), (10, true));
    assert_eq!(concurrency_budget(0), (10, true));
    assert_eq!(concurrency_budget(10), (10, false));
    assert_eq!(concurrency_budget(64), (64, false));
}

#[test]
fn limiter_reserves_and_clips() {
    let mut limiter: LimiterPruner = new_limiter(Some(100));
    assert!(!limiter.exceeded());
    assert!(limiter.within_limit(40));
    assert!(limiter.within_limit(40));
    assert!(limiter.within_limit(40)); // clips the credit, not the block
    assert!(limiter.exceeded());
    assert!(!limiter.within_limit(1));
    let mut unbounded: LimiterPruner = new_limiter(None);
    assert!(!unbounded.exceeded());
    assert!(unbounded.within_limit(u64::MAX));
    assert!(unbounded.within_limit(u64::MAX));
}

#[test]
fn range_filter_rules() {
    let stats = vec![(COL_A, stat(10, 20, 3))];
    let keep = |p: Pred| -> bool {
        let pruner: RangeFilterPruner = new_range_filter_pruner(Some(&vec![p]));
        pruner.should_keep(&stats, 50)
    };
    assert!(keep(Pred::Eq(COL_A, 10)));
    assert!(keep(Pred::Eq(COL_A, 20)));
    assert!(!keep(Pred::Eq(COL_A, 9)));
    assert!(!keep(Pred::Eq(COL_A, 21)));
    assert!(keep(Pred::Lt(COL_A, 11)));
    assert!(!keep(Pred::Lt(COL_A, 10)));
    assert!(keep(Pred::Gt(COL_A, 19)));
    assert!(!keep(Pred::Gt(COL_A, 20)));
    assert!(keep(Pred::Le(COL_A, 10)));
    assert!(!keep(Pred::Le(COL_A, 9)));
    assert!(keep(Pred::Ge(COL_A, 20)));
    assert!(!keep(Pred::Ge(COL_A, 21)));
    assert!(keep(Pred::IsNull(COL_A)));
    assert!(keep(Pred::IsNotNull(COL_A)));
    assert!(!keep(Pred::And(
        Box::new(Pred::Eq(COL_A, 15)),
        Box::new(Pred::Gt(COL_A, 25)),
    )));
    assert!(keep(Pred::Or(
        Box::new(Pred::Eq(COL_A, 5)),
        Box::new(Pred::Eq(COL_A, 15)),
    )));
    // With nulls counted, a null row satisfies any negated comparison, so
    // negation only prunes when the column has no nulls.
    assert!(keep(Pred::Not(Box::new(Pred::Le(COL_A, 25)))));
    let keep_no_nulls = |p: Pred| -> bool {
        let stats0 = vec![(COL_A, stat(10, 20, 0))];
        let pruner: RangeFilterPruner = new_range_filter_pruner(Some(&vec![p]));
        pruner.should_keep(&stats0, 50)
    };
    assert!(!keep_no_nulls(Pred::Not(Box::new(Pred::Le(COL_A, 25)))));
    assert!(keep_no_nulls(Pred::Not(Box::new(Pred::Le(COL_A, 15)))));
    assert!(!keep_no_nulls(Pred::Not(Box::new(Pred::Ge(COL_A, 5)))));
    // Columns without statistics and unsupported expressions never prune.
    assert!(keep(Pred::Eq(99, 12345)));
    assert!(keep(Pred::Unsupported));
}

#[test]
fn range_filter_null_counts() {
    let no_nulls = vec![(COL_A, stat(0, 5, 0))];
    let all_nulls = vec![(COL_A, stat(0, 5, 8))];
    let pruner = new_range_filter_pruner(Some(&vec![Pred::IsNull(COL_A)]));
    assert!(!pruner.should_keep(&no_nulls, 8));
    assert!(pruner.should_keep(&all_nulls, 8));
    let pruner = new_range_filter_pruner(Some(&vec![Pred::IsNotNull(COL_A)]));
    assert!(pruner.should_keep(&no_nulls, 8));
    assert!(!pruner.should_keep(&all_nulls, 8));
}

#[test]
fn segment_summary_prunes_whole_segment() {
    // The first segment's summary contradicts the predicate: none of its
    // blocks is even considered; the second segment still matches.
    let seg0 = segment(10, vec![(COL_A, stat(0, 4, 0))], vec![
        block(5, vec![(COL_A, stat(0, 4, 0))]),
    ]);
    let seg1 = segment(10, vec![(COL_A, stat(0, 50, 0))], vec![
        block(7, vec![(COL_A, stat(5, 50, 0))]),
    ]);
    let segments = vec![seg0, seg1];
    let pruner = BlockPruner::new(snapshot(2));
    let pd = push(vec![Pred::Gt(COL_A, 10)], None, vec![]);
    let result = pruner.prune(&segments, &pd, &vec![]);
    assert_eq!(result.len(), 1);
    assert_eq!((result[0].0, result[0].1.row_count), (1, 7));
}

#[test]
fn results_carry_distinct_pairs() {
    let mut segments: Vec<SegmentInfo> = Vec::new();
    for _ in 0..3 {
        let blocks = vec![
            block(1, vec![(COL_A, stat(0, 9, 0))]),
            block(2, vec![(COL_A, stat(0, 9, 0))]),
        ];
        segments.push(segment(3, vec![(COL_A, stat(0, 9, 0))], blocks));
    }
    let pruner = BlockPruner::new(snapshot(3));
    let plan = pruner.plan(&segments, &None);
    let mut seen: Vec<(usize, usize)> = Vec::new();
    for c in &plan.candidates {
        let pair = (c.segment_idx, c.block_idx);
        assert!(!seen.contains(&pair));
        seen.push(pair);
    }
    assert_eq!(seen.len(), 6);
}
