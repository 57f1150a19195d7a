//! Outcomes of reclaiming target directories, and their aggregation into one
//! report.
//!
//! Each target is handled by an independent task that first measures the
//! directory's metadata size and then deletes it recursively. The task's
//! outcome is a [`ReclaimResult`]; once every task has finished, the results
//! are folded into an [`AggregateReport`]. Only successful deletions count
//! toward the bytes freed.
use vstd::prelude::*;

verus! {

/// Whether a target was removed, and if not, why.
#[derive(Clone, Debug, PartialEq, Eq)]
pub enum Outcome {
    Success,
    Failed(String),
}

/// The outcome of one reclaim task.
#[derive(Clone, Debug)]
pub struct ReclaimResult {
    pub path: String,
    /// Metadata size of the target measured just before deletion (zero where
    /// the measurement itself failed).
    pub size_bytes: u64,
    pub outcome: Outcome,
}

/// A target that could not be reclaimed.
#[derive(Clone, Debug, PartialEq, Eq)]
pub struct Failure {
    pub path: String,
    pub reason: String,
}

/// Summary of a reclaim run.
#[derive(Clone, Debug)]
pub struct AggregateReport {
    pub total_bytes_freed: u64,
    pub failures: Vec<Failure>,
}

/// Bytes freed by the successful results of `rs`.
pub open spec fn freed_sum(rs: Seq<ReclaimResult>) -> nat
    decreases rs.len(),
{
    if rs.len() == 0 {
        0
    } else {
        let last = rs.last();
        freed_sum(rs.drop_last()) + if last.outcome is Success {
            last.size_bytes as nat
        } else {
            0
        }
    }
}

/// Sum of every measured size in `rs`, whatever the outcome.
pub open spec fn size_sum(rs: Seq<ReclaimResult>) -> nat
    decreases rs.len(),
{
    if rs.len() == 0 {
        0
    } else {
        size_sum(rs.drop_last()) + rs.last().size_bytes as nat
    }
}

/// `(path, reason)` of each failed result of `rs`, in order.
pub open spec fn failures_of(rs: Seq<ReclaimResult>) -> Seq<(Seq<char>, Seq<char>)>
    decreases rs.len(),
{
    if rs.len() == 0 {
        Seq::empty()
    } else {
        let last = rs.last();
        let prev = failures_of(rs.drop_last());
        match last.outcome {
            Outcome::Success => prev,
            Outcome::Failed(reason) => prev.push((last.path@, reason@)),
        }
    }
}

/// `(path, reason)` of each entry of a failure list.
pub open spec fn failure_view(fs: Seq<Failure>) -> Seq<(Seq<char>, Seq<char>)> {
    fs.map_values(|f: Failure| (f.path@, f.reason@))
}

/// A number of bytes as the report holds it: saturated at `u64::MAX`.
pub open spec fn saturate(n: nat) -> u64 {
    if n <= u64::MAX {
        n as u64
    } else {
        u64::MAX
    }
}

/// Result of a task whose size measurement failed: deletion was not
/// attempted and nothing counts as freed.
pub fn metadata_failure(path: String, reason: String) -> (r: ReclaimResult)
    ensures
        r.path == path,
        r.size_bytes == 0,
        r.outcome == Outcome::Failed(reason),
{
    ReclaimResult { path, size_bytes: 0, outcome: Outcome::Failed(reason) }
}

/// Result of a task that measured `size` and then tried to delete the target;
/// `deleted` carries the deletion error's text, if any.
pub fn deletion_result(path: String, size: u64, deleted: Result<(), String>) -> (r: ReclaimResult)
    ensures
        r.path == path,
        r.size_bytes == size,
        deleted is Ok ==> r.outcome == Outcome::Success,
        deleted is Err ==> r.outcome == Outcome::Failed(deleted->Err_0),
{
    match deleted {
        Ok(()) => ReclaimResult { path, size_bytes: size, outcome: Outcome::Success },
        Err(reason) => ReclaimResult { path, size_bytes: size, outcome: Outcome::Failed(reason) },
    }
}

/// Folds the results of all tasks into one report: the sum of the sizes of
/// the successful ones, and each failed one with its reason, in order.
pub fn aggregate(results: &Vec<ReclaimResult>) -> (r: AggregateReport)
    ensures
        r.total_bytes_freed == saturate(freed_sum(results@)),
        failure_view(r.failures@) == failures_of(results@),
{
    let mut total: u64 = 0;
    let mut failures: Vec<Failure> = Vec::new();
    let mut i: usize = 0;
    while i < results.len()
        invariant
            i <= results@.len(),
            total == saturate(freed_sum(results@.take(i as int))),
            failure_view(failures@) == failures_of(results@.take(i as int)),
        decreases results@.len() - i,
    {
        let item = &results[i];
        proof {
            let pre = results@.take(i as int + 1);
            assert(pre.drop_last() =~= results@.take(i as int));
            assert(pre.last() == *item);
        }
        match &item.outcome {
            Outcome::Success => {
                total = total.saturating_add(item.size_bytes);
            },
            Outcome::Failed(reason) => {
                let f = Failure { path: item.path.clone(), reason: reason.clone() };
                let ghost prev = failures@;
                failures.push(f);
                assert(failure_view(failures@) =~= failure_view(prev).push(
                    (item.path@, reason@),
                ));
            },
        }
        i = i + 1;
    }
    assert(results@.take(results@.len() as int) =~= results@);
    AggregateReport { total_bytes_freed: total, failures }
}

/// Sum of a sequence of byte counts.
pub open spec fn sum_of(xs: Seq<u64>) -> nat
    decreases xs.len(),
{
    if xs.len() == 0 {
        0
    } else {
        sum_of(xs.drop_last()) + xs.last() as nat
    }
}

/// Total of the individually measured sizes shown when listing targets.
pub fn total_size(sizes: &Vec<u64>) -> (r: u64)
    ensures
        r == saturate(sum_of(sizes@)),
{
    let mut total: u64 = 0;
    let mut i: usize = 0;
    while i < sizes.len()
        invariant
            i <= sizes@.len(),
            total == saturate(sum_of(sizes@.take(i as int))),
        decreases sizes@.len() - i,
    {
        proof {
            let pre = sizes@.take(i as int + 1);
            assert(pre.drop_last() =~= sizes@.take(i as int));
        }
        total = total.saturating_add(sizes[i]);
        i = i + 1;
    }
    assert(sizes@.take(sizes@.len() as int) =~= sizes@);
    total
}

/// When every deletion succeeded, the bytes freed are the sum of all measured
/// sizes and there are no failures.
pub proof fn lemma_all_success(rs: Seq<ReclaimResult>)
    requires
        forall|i: int| 0 <= i < rs.len() ==> #[trigger] rs[i].outcome == Outcome::Success,
    ensures
        freed_sum(rs) == size_sum(rs),
        failures_of(rs).len() == 0,
    decreases rs.len(),
{
    if rs.len() > 0 {
        let p = rs.drop_last();
        assert forall|i: int| 0 <= i < p.len() implies #[trigger] p[i].outcome
            == Outcome::Success by {
            assert(p[i] == rs[i]);
        }
        lemma_all_success(p);
        assert(rs.last() == rs[rs.len() - 1]);
    }
}

/// Bytes freed never exceed the sum of the measured sizes.
pub proof fn lemma_freed_at_most_measured(rs: Seq<ReclaimResult>)
    ensures
        freed_sum(rs) <= size_sum(rs),
    decreases rs.len(),
{
    if rs.len() > 0 {
        lemma_freed_at_most_measured(rs.drop_last());
    }
}

/// The bytes freed by two batches of results add up.
pub proof fn lemma_freed_sum_append(a: Seq<ReclaimResult>, b: Seq<ReclaimResult>)
    ensures
        freed_sum(a + b) == freed_sum(a) + freed_sum(b),
    decreases b.len(),
{
    if b.len() == 0 {
        assert(a + b =~= a);
    } else {
        assert((a + b).drop_last() =~= a + b.drop_last());
        assert((a + b).last() == b.last());
        lemma_freed_sum_append(a, b.drop_last());
    }
}

/// Completion order does not change the bytes freed: results that finish
/// in either order of two batches give the same total.
pub proof fn lemma_freed_sum_order_independent(a: Seq<ReclaimResult>, b: Seq<ReclaimResult>)
    ensures
        freed_sum(a + b) == freed_sum(b + a),
{
    lemma_freed_sum_append(a, b);
    lemma_freed_sum_append(b, a);
}

} // verus!
