//! The engine's data model: snapshot, segment and block metadata, and
//! per-column statistics. All values are plain; metadata is read-only for
//! the engine's lifetime.

use vstd::prelude::*;

verus! {

/// Identifier of a column in the table schema.
pub type ColumnId = u32;

/// Where a persisted artifact lives: an object-store path and a format
/// version.
pub struct Location {
    pub path: String,
    pub version: u64,
}

/// Spec-level image of a [`Location`].
pub struct LocationV {
    pub path: Seq<char>,
    pub version: u64,
}

impl View for Location {
    type V = LocationV;

    open spec fn view(&self) -> LocationV {
        LocationV { path: self.path@, version: self.version }
    }
}

impl Location {
    /// A copy with the same path and version.
    pub fn duplicate(&self) -> (r: Location)
        ensures
            r@ == self@,
    {
        Location { path: self.path.clone(), version: self.version }
    }
}

/// Per-column statistics of a block or of a segment summary: the closed
/// interval of logical values, the null count and the in-memory byte size.
#[derive(Clone, Copy)]
pub struct ColumnStatistics {
    pub min: i64,
    pub max: i64,
    pub null_count: u64,
    pub in_memory_size: u64,
}

/// Statistics per column id. Lookups take the first entry of a column.
pub type StatisticsOfColumns = Vec<(ColumnId, ColumnStatistics)>;

/// First statistics entry recorded for column `c`, if any.
pub open spec fn spec_col_stat(s: Seq<(ColumnId, ColumnStatistics)>, c: ColumnId) -> Option<
    ColumnStatistics,
>
    decreases s.len(),
{
    if s.len() == 0 {
        None
    } else if s[0].0 == c {
        Some(s[0].1)
    } else {
        spec_col_stat(s.subrange(1, s.len() as int), c)
    }
}

/// Looks up the statistics recorded for column `c`.
pub fn find_col_stat(s: &StatisticsOfColumns, c: ColumnId) -> (r: Option<ColumnStatistics>)
    ensures
        r == spec_col_stat(s@, c),
{
    let mut i: usize = 0;
    proof {
        assert(s@.subrange(0, s@.len() as int) =~= s@);
    }
    while i < s.len()
        invariant
            i <= s@.len(),
            spec_col_stat(s@, c) == spec_col_stat(s@.subrange(i as int, s@.len() as int), c),
        decreases s@.len() - i,
    {
        let sub = Ghost(s@.subrange(i as int, s@.len() as int));
        if s[i].0 == c {
            proof {
                assert(sub@[0] == s@[i as int]);
            }
            return Some(s[i].1);
        }
        proof {
            assert(sub@[0] == s@[i as int]);
            assert(sub@.subrange(1, sub@.len() as int) =~= s@.subrange(
                i + 1,
                s@.len() as int,
            ));
        }
        i += 1;
    }
    None
}

/// Metadata of one block: row count, per-column statistics and the optional
/// bloom-filter index descriptor `(location, size)`.
pub struct BlockMeta {
    pub row_count: u64,
    pub col_stats: StatisticsOfColumns,
    pub bloom_filter_index_location: Option<Location>,
    pub bloom_filter_index_size: u64,
}

/// Spec-level image of a [`BlockMeta`].
pub struct BlockMetaV {
    pub row_count: u64,
    pub col_stats: Seq<(ColumnId, ColumnStatistics)>,
    pub bloom_filter_index_location: Option<LocationV>,
    pub bloom_filter_index_size: u64,
}

impl View for BlockMeta {
    type V = BlockMetaV;

    open spec fn view(&self) -> BlockMetaV {
        BlockMetaV {
            row_count: self.row_count,
            col_stats: self.col_stats@,
            bloom_filter_index_location: match self.bloom_filter_index_location {
                Some(l) => Some(l@),
                None => None,
            },
            bloom_filter_index_size: self.bloom_filter_index_size,
        }
    }
}

/// A copy of a statistics table.
pub fn copy_col_stats(s: &StatisticsOfColumns) -> (r: StatisticsOfColumns)
    ensures
        r@ == s@,
{
    let mut r: StatisticsOfColumns = Vec::new();
    let mut i: usize = 0;
    while i < s.len()
        invariant
            i <= s@.len(),
            r@ =~= s@.subrange(0, i as int),
        decreases s@.len() - i,
    {
        r.push(s[i]);
        i += 1;
    }
    proof {
        assert(r@ =~= s@);
    }
    r
}

impl BlockMeta {
    /// A copy whose spec image equals this block's.
    pub fn duplicate(&self) -> (r: BlockMeta)
        ensures
            r@ == self@,
    {
        let loc: Option<Location> = match &self.bloom_filter_index_location {
            Some(l) => Some(l.duplicate()),
            None => None,
        };
        BlockMeta {
            row_count: self.row_count,
            col_stats: copy_col_stats(&self.col_stats),
            bloom_filter_index_location: loc,
            bloom_filter_index_size: self.bloom_filter_index_size,
        }
    }
}

/// Aggregated statistics of a whole segment: its total row count and the
/// statistics of each column over all its blocks.
pub struct Statistics {
    pub row_count: u64,
    pub col_stats: StatisticsOfColumns,
}

/// Metadata of one segment: its summary and its blocks, in block order.
pub struct SegmentInfo {
    pub summary: Statistics,
    pub blocks: Vec<BlockMeta>,
}

/// Spec-level image of a [`SegmentInfo`].
pub struct SegmentInfoV {
    pub summary_row_count: u64,
    pub summary_col_stats: Seq<(ColumnId, ColumnStatistics)>,
    pub blocks: Seq<BlockMetaV>,
}

impl View for SegmentInfo {
    type V = SegmentInfoV;

    open spec fn view(&self) -> SegmentInfoV {
        SegmentInfoV {
            summary_row_count: self.summary.row_count,
            summary_col_stats: self.summary.col_stats@,
            blocks: Seq::new(self.blocks@.len(), |i: int| self.blocks@[i]@),
        }
    }
}

/// Spec images of a sequence of segments.
pub open spec fn seg_views(segs: Seq<SegmentInfo>) -> Seq<SegmentInfoV> {
    Seq::new(segs.len(), |i: int| segs[i]@)
}

/// An immutable table version: the ordered segment locations.
pub struct TableSnapshot {
    pub segments: Vec<Location>,
}

/// Spec images of a pruning result: `(segment index, block metadata)` pairs.
pub open spec fn pair_views(pairs: Seq<(usize, BlockMeta)>) -> Seq<(usize, BlockMetaV)> {
    Seq::new(pairs.len(), |i: int| (pairs[i].0, pairs[i].1@))
}

} // verus!
