//! Filter predicates and the range-statistic pruner.
//!
//! A push-down filter is a conjunction of scalar expressions. The range
//! filter decides, from a block's per-column min/max and null counts alone,
//! whether the block could hold a row satisfying every expression; it drops
//! the block only when some expression is provably unsatisfiable there.

use vstd::prelude::*;

use crate::meta::{find_col_stat, spec_col_stat, ColumnId, ColumnStatistics, StatisticsOfColumns};

verus! {

/// One scalar filter expression. Comparisons are against constants of the
/// column's logical order; [`Pred::Unsupported`] stands for any expression
/// the pruner does not consume, which never prunes.
pub enum Pred {
    /// `col = v`
    Eq(ColumnId, i64),
    /// `col < v`
    Lt(ColumnId, i64),
    /// `col > v`
    Gt(ColumnId, i64),
    /// `col <= v`
    Le(ColumnId, i64),
    /// `col >= v`
    Ge(ColumnId, i64),
    /// `col IS NULL`
    IsNull(ColumnId),
    /// `col IS NOT NULL`
    IsNotNull(ColumnId),
    /// Conjunction of both operands.
    And(Box<Pred>, Box<Pred>),
    /// Disjunction of both operands.
    Or(Box<Pred>, Box<Pred>),
    /// Negation of the operand.
    Not(Box<Pred>),
    /// Anything else: cannot disprove, never prunes.
    Unsupported,
}

/// An abstract row assigns every column either a value or a null.
pub open spec fn row_total(row: Map<ColumnId, Option<i64>>) -> bool {
    forall|c: ColumnId| row.contains_key(c)
}

/// Whether `row` satisfies `p`. Comparisons are two-valued: one whose column
/// is null is false, and negation is boolean.
pub open spec fn sat(p: Pred, row: Map<ColumnId, Option<i64>>) -> bool
    decreases p,
{
    match p {
        Pred::Eq(c, v) => row[c] matches Some(x) && x == v,
        Pred::Lt(c, v) => row[c] matches Some(x) && x < v,
        Pred::Gt(c, v) => row[c] matches Some(x) && x > v,
        Pred::Le(c, v) => row[c] matches Some(x) && x <= v,
        Pred::Ge(c, v) => row[c] matches Some(x) && x >= v,
        Pred::IsNull(c) => row[c] is None,
        Pred::IsNotNull(c) => row[c] is Some,
        Pred::And(a, b) => sat(*a, row) && sat(*b, row),
        Pred::Or(a, b) => sat(*a, row) || sat(*b, row),
        Pred::Not(a) => !sat(*a, row),
        Pred::Unsupported => true,
    }
}

/// Whether an abstract row could belong to a block with statistics `s` over
/// `row_count` rows: a null only where nulls were counted, a value only
/// inside the closed min/max interval and only if some row is non-null.
pub open spec fn row_consistent(
    row: Map<ColumnId, Option<i64>>,
    s: Seq<(ColumnId, ColumnStatistics)>,
    row_count: u64,
) -> bool {
    row_total(row) && forall|c: ColumnId|
        #[trigger] spec_col_stat(s, c) matches Some(st) ==> match row[c] {
            Some(x) => st.null_count < row_count && st.min <= x && x <= st.max,
            None => st.null_count > 0,
        }
}

/// The range filter's decision for `p` — for `!p` when `neg` — against the
/// statistics `s` of a block of `row_count` rows. Negation distributes over
/// conjunction and disjunction by De Morgan and flips the comparison rules;
/// columns without statistics never prune.
pub open spec fn spec_keep(
    p: Pred,
    s: Seq<(ColumnId, ColumnStatistics)>,
    row_count: u64,
    neg: bool,
) -> bool
    decreases p,
{
    match p {
        Pred::Eq(c, v) => match spec_col_stat(s, c) {
            None => true,
            Some(st) => if !neg {
                st.min <= v && v <= st.max
            } else {
                st.null_count > 0 || st.min != v || st.max != v
            },
        },
        Pred::Lt(c, v) => match spec_col_stat(s, c) {
            None => true,
            Some(st) => if !neg {
                st.min < v
            } else {
                st.null_count > 0 || st.max >= v
            },
        },
        Pred::Gt(c, v) => match spec_col_stat(s, c) {
            None => true,
            Some(st) => if !neg {
                st.max > v
            } else {
                st.null_count > 0 || st.min <= v
            },
        },
        Pred::Le(c, v) => match spec_col_stat(s, c) {
            None => true,
            Some(st) => if !neg {
                st.min <= v
            } else {
                st.null_count > 0 || st.max > v
            },
        },
        Pred::Ge(c, v) => match spec_col_stat(s, c) {
            None => true,
            Some(st) => if !neg {
                st.max >= v
            } else {
                st.null_count > 0 || st.min < v
            },
        },
        Pred::IsNull(c) => match spec_col_stat(s, c) {
            None => true,
            Some(st) => if !neg {
                st.null_count > 0
            } else {
                st.null_count < row_count
            },
        },
        Pred::IsNotNull(c) => match spec_col_stat(s, c) {
            None => true,
            Some(st) => if !neg {
                st.null_count < row_count
            } else {
                st.null_count > 0
            },
        },
        Pred::And(a, b) => if !neg {
            spec_keep(*a, s, row_count, false) && spec_keep(*b, s, row_count, false)
        } else {
            spec_keep(*a, s, row_count, true) || spec_keep(*b, s, row_count, true)
        },
        Pred::Or(a, b) => if !neg {
            spec_keep(*a, s, row_count, false) || spec_keep(*b, s, row_count, false)
        } else {
            spec_keep(*a, s, row_count, true) && spec_keep(*b, s, row_count, true)
        },
        Pred::Not(a) => spec_keep(*a, s, row_count, !neg),
        Pred::Unsupported => true,
    }
}

/// Conjunction of pushed-down filters: keep unless some filter alone
/// disproves the block.
pub open spec fn spec_keep_all(
    filters: Seq<Pred>,
    s: Seq<(ColumnId, ColumnStatistics)>,
    row_count: u64,
) -> bool {
    forall|i: int| 0 <= i < filters.len() ==> spec_keep(filters[i], s, row_count, false)
}

/// Whether `row` satisfies every filter of the conjunction.
pub open spec fn all_sat(filters: Seq<Pred>, row: Map<ColumnId, Option<i64>>) -> bool {
    forall|i: int| 0 <= i < filters.len() ==> sat(filters[i], row)
}

/// Soundness of one decision: when the filter decides to drop — `p` itself
/// if `!neg`, its negation if `neg` — every row that could belong to the
/// block decides `p` the other way.
pub proof fn lemma_keep_sound(
    p: Pred,
    s: Seq<(ColumnId, ColumnStatistics)>,
    row_count: u64,
    neg: bool,
    row: Map<ColumnId, Option<i64>>,
)
    requires
        row_consistent(row, s, row_count),
        !spec_keep(p, s, row_count, neg),
    ensures
        sat(p, row) == neg,
    decreases p,
{
    match p {
        Pred::Eq(c, v) => {
            assert(spec_col_stat(s, c) is Some);
        },
        Pred::Lt(c, v) => {
            assert(spec_col_stat(s, c) is Some);
        },
        Pred::Gt(c, v) => {
            assert(spec_col_stat(s, c) is Some);
        },
        Pred::Le(c, v) => {
            assert(spec_col_stat(s, c) is Some);
        },
        Pred::Ge(c, v) => {
            assert(spec_col_stat(s, c) is Some);
        },
        Pred::IsNull(c) => {
            assert(spec_col_stat(s, c) is Some);
        },
        Pred::IsNotNull(c) => {
            assert(spec_col_stat(s, c) is Some);
        },
        Pred::And(a, b) => {
            if !neg {
                if !spec_keep(*a, s, row_count, false) {
                    lemma_keep_sound(*a, s, row_count, false, row);
                } else {
                    lemma_keep_sound(*b, s, row_count, false, row);
                }
            } else {
                lemma_keep_sound(*a, s, row_count, true, row);
                lemma_keep_sound(*b, s, row_count, true, row);
            }
        },
        Pred::Or(a, b) => {
            if !neg {
                lemma_keep_sound(*a, s, row_count, false, row);
                lemma_keep_sound(*b, s, row_count, false, row);
            } else {
                if !spec_keep(*a, s, row_count, true) {
                    lemma_keep_sound(*a, s, row_count, true, row);
                } else {
                    lemma_keep_sound(*b, s, row_count, true, row);
                }
            }
        },
        Pred::Not(a) => {
            lemma_keep_sound(*a, s, row_count, !neg, row);
        },
        Pred::Unsupported => {},
    }
}

/// Soundness of the range filter (no false negatives): if it drops a block,
/// no row consistent with the block's statistics satisfies the whole
/// conjunction.
pub proof fn lemma_prune_sound(
    filters: Seq<Pred>,
    s: Seq<(ColumnId, ColumnStatistics)>,
    row_count: u64,
    row: Map<ColumnId, Option<i64>>,
)
    requires
        row_consistent(row, s, row_count),
        !spec_keep_all(filters, s, row_count),
    ensures
        !all_sat(filters, row),
{
    let i = choose|i: int| 0 <= i < filters.len() && !spec_keep(filters[i], s, row_count, false);
    lemma_keep_sound(filters[i], s, row_count, false, row);
}

/// A structurally equal copy of a predicate.
pub fn clone_pred(p: &Pred) -> (r: Pred)
    ensures
        r == *p,
    decreases *p,
{
    match p {
        Pred::Eq(c, v) => Pred::Eq(*c, *v),
        Pred::Lt(c, v) => Pred::Lt(*c, *v),
        Pred::Gt(c, v) => Pred::Gt(*c, *v),
        Pred::Le(c, v) => Pred::Le(*c, *v),
        Pred::Ge(c, v) => Pred::Ge(*c, *v),
        Pred::IsNull(c) => Pred::IsNull(*c),
        Pred::IsNotNull(c) => Pred::IsNotNull(*c),
        Pred::And(a, b) => Pred::And(Box::new(clone_pred(&**a)), Box::new(clone_pred(&**b))),
        Pred::Or(a, b) => Pred::Or(Box::new(clone_pred(&**a)), Box::new(clone_pred(&**b))),
        Pred::Not(a) => Pred::Not(Box::new(clone_pred(&**a))),
        Pred::Unsupported => Pred::Unsupported,
    }
}

/// Decides keep/drop for a segment or a block from column statistics and a
/// row count. [`RangeFilterPruner::AlwaysKeep`] is the neutral pruner used
/// when no filter was pushed down; it prunes nothing.
pub enum RangeFilterPruner {
    AlwaysKeep,
    Compiled { filters: Vec<Pred> },
}

/// What [`RangeFilterPruner::should_keep`] returns.
pub open spec fn spec_pruner_keeps(
    pr: RangeFilterPruner,
    s: Seq<(ColumnId, ColumnStatistics)>,
    row_count: u64,
) -> bool {
    match pr {
        RangeFilterPruner::AlwaysKeep => true,
        RangeFilterPruner::Compiled { filters } => spec_keep_all(filters@, s, row_count),
    }
}

/// Compiles the pushed-down conjunction into a range filter pruner. With no
/// filters, the always-keep pruner is returned.
pub fn new_range_filter_pruner(filters: Option<&Vec<Pred>>) -> (r: RangeFilterPruner)
    ensures
        forall|s: Seq<(ColumnId, ColumnStatistics)>, row_count: u64|
            #[trigger] spec_pruner_keeps(r, s, row_count) == spec_keep_all(
                spec_filter_seq(filters),
                s,
                row_count,
            ),
{
    match filters {
        None => RangeFilterPruner::AlwaysKeep,
        Some(fs) => {
            if fs.len() == 0 {
                RangeFilterPruner::AlwaysKeep
            } else {
                let mut owned: Vec<Pred> = Vec::new();
                let mut i: usize = 0;
                while i < fs.len()
                    invariant
                        i <= fs@.len(),
                        owned@ =~= fs@.subrange(0, i as int),
                    decreases fs@.len() - i,
                {
                    owned.push(clone_pred(&fs[i]));
                    i += 1;
                }
                proof {
                    assert(owned@ =~= fs@);
                }
                RangeFilterPruner::Compiled { filters: owned }
            }
        },
    }
}

/// The filters a pruner was compiled from.
pub open spec fn spec_filter_seq(filters: Option<&Vec<Pred>>) -> Seq<Pred> {
    match filters {
        None => Seq::empty(),
        Some(fs) => fs@,
    }
}

fn keep_one(p: &Pred, s: &StatisticsOfColumns, row_count: u64, neg: bool) -> (r: bool)
    ensures
        r == spec_keep(*p, s@, row_count, neg),
    decreases *p,
{
    match p {
        Pred::Eq(c, v) => match find_col_stat(s, *c) {
            None => true,
            Some(st) => if !neg {
                st.min <= *v && *v <= st.max
            } else {
                st.null_count > 0 || st.min != *v || st.max != *v
            },
        },
        Pred::Lt(c, v) => match find_col_stat(s, *c) {
            None => true,
            Some(st) => if !neg {
                st.min < *v
            } else {
                st.null_count > 0 || st.max >= *v
            },
        },
        Pred::Gt(c, v) => match find_col_stat(s, *c) {
            None => true,
            Some(st) => if !neg {
                st.max > *v
            } else {
                st.null_count > 0 || st.min <= *v
            },
        },
        Pred::Le(c, v) => match find_col_stat(s, *c) {
            None => true,
            Some(st) => if !neg {
                st.min <= *v
            } else {
                st.null_count > 0 || st.max > *v
            },
        },
        Pred::Ge(c, v) => match find_col_stat(s, *c) {
            None => true,
            Some(st) => if !neg {
                st.max >= *v
            } else {
                st.null_count > 0 || st.min < *v
            },
        },
        Pred::IsNull(c) => match find_col_stat(s, *c) {
            None => true,
            Some(st) => if !neg {
                st.null_count > 0
            } else {
                st.null_count < row_count
            },
        },
        Pred::IsNotNull(c) => match find_col_stat(s, *c) {
            None => true,
            Some(st) => if !neg {
                st.null_count < row_count
            } else {
                st.null_count > 0
            },
        },
        Pred::And(a, b) => if !neg {
            keep_one(&**a, s, row_count, false) && keep_one(&**b, s, row_count, false)
        } else {
            keep_one(&**a, s, row_count, true) || keep_one(&**b, s, row_count, true)
        },
        Pred::Or(a, b) => if !neg {
            keep_one(&**a, s, row_count, false) || keep_one(&**b, s, row_count, false)
        } else {
            keep_one(&**a, s, row_count, true) && keep_one(&**b, s, row_count, true)
        },
        Pred::Not(a) => keep_one(&**a, s, row_count, !neg),
        Pred::Unsupported => true,
    }
}

impl RangeFilterPruner {
    /// Keep/drop from column statistics plus row count: `false` only when
    /// some pushed-down filter is provably unsatisfiable on the block.
    #[verifier::loop_isolation(false)]
    pub fn should_keep(&self, s: &StatisticsOfColumns, row_count: u64) -> (r: bool)
        ensures
            r == spec_pruner_keeps(*self, s@, row_count),
    {
        match self {
            RangeFilterPruner::AlwaysKeep => true,
            RangeFilterPruner::Compiled { filters } => {
                let mut i: usize = 0;
                while i < filters.len()
                    invariant
                        i <= filters@.len(),
                        forall|j: int|
                            0 <= j < i ==> spec_keep(filters@[j], s@, row_count, false),
                    decreases filters@.len() - i,
                {
                    if !keep_one(&filters[i], s, row_count, false) {
                        proof {
                            assert(!spec_keep(filters@[i as int], s@, row_count, false));
                            assert(!spec_keep_all(filters@, s@, row_count));
                        }
                        return false;
                    }
                    i += 1;
                }
                true
            },
        }
    }
}

/// Whether the bloom pruner can consume `p`: an equality, possibly nested
/// in conjunctions.
pub open spec fn spec_consumable_eq(p: Pred) -> bool
    decreases p,
{
    match p {
        Pred::Eq(_, _) => true,
        Pred::And(a, b) => spec_consumable_eq(*a) || spec_consumable_eq(*b),
        _ => false,
    }
}

/// Whether any pushed-down filter carries an equality the bloom pruner can
/// consume.
pub open spec fn spec_any_eq(filters: Seq<Pred>) -> bool {
    exists|i: int| 0 <= i < filters.len() && spec_consumable_eq(filters[i])
}

fn consumable_eq(p: &Pred) -> (r: bool)
    ensures
        r == spec_consumable_eq(*p),
    decreases *p,
{
    match p {
        Pred::Eq(_, _) => true,
        Pred::And(a, b) => consumable_eq(&**a) || consumable_eq(&**b),
        _ => false,
    }
}

/// Whether the conjunction holds an equality predicate for the bloom
/// pruner. When it does not, the bloom stage never fetches an index.
#[verifier::loop_isolation(false)]
pub fn any_consumable_eq(filters: Option<&Vec<Pred>>) -> (r: bool)
    ensures
        r == spec_any_eq(spec_filter_seq(filters)),
{
    match filters {
        None => false,
        Some(fs) => {
            let mut i: usize = 0;
            while i < fs.len()
                invariant
                    i <= fs@.len(),
                    forall|j: int| 0 <= j < i ==> !spec_consumable_eq(fs@[j]),
                decreases fs@.len() - i,
            {
                if consumable_eq(&fs[i]) {
                    proof {
                        assert(spec_consumable_eq(fs@[i as int]));
                        assert(spec_any_eq(fs@));
                    }
                    return true;
                }
                i += 1;
            }
            false
        },
    }
}

} // verus!
