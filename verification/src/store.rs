//! The append-only in-memory report store.

use vstd::prelude::*;
use crate::report::{valid_report, validate, validation_outcome, ValidationError, WorkerReport};
use crate::report::ReportView;
use crate::stats::{aggregate, stats_map, views_of, StatsResponse};

verus! {

/// Holds every accepted report for the lifetime of the process. The sequence
/// only grows; reports are never updated or deleted. Every stored report has
/// passed validation.
pub struct ReportStore {
    reports: Vec<WorkerReport>,
}

impl View for ReportStore {
    type V = Seq<ReportView>;

    closed spec fn view(&self) -> Seq<ReportView> {
        views_of(self.reports@)
    }
}

impl ReportStore {
    /// Every report the store holds has passed validation.
    pub open spec fn wf(&self) -> bool {
        forall|i: int| 0 <= i < self@.len() ==> valid_report(#[trigger] self@[i])
    }

    /// An empty store.
    pub fn new() -> (store: Self)
        ensures
            store@ == Seq::<ReportView>::empty(),
            store.wf(),
    {
        let store = ReportStore { reports: Vec::new() };
        proof {
            assert(store@ =~= Seq::<ReportView>::empty());
        }
        store
    }

    /// How many reports the store holds.
    pub fn len(&self) -> (n: usize)
        ensures
            n == self@.len(),
    {
        self.reports.len()
    }

    /// Validate a candidate report and, when it is acceptable, append it to
    /// the stored sequence. A rejected report leaves the store unchanged and
    /// yields the error of its first invalid field.
    pub fn submit(&mut self, report: WorkerReport) -> (result: Result<(), ValidationError>)
        requires
            old(self).wf(),
        ensures
            final(self).wf(),
            result is Ok <==> valid_report(report@),
            result is Ok ==> final(self)@ == old(self)@.push(report@),
            result is Err ==> final(self)@ == old(self)@ && result->Err_0 == validation_outcome(
                report@,
            )->0,
    {
        match validate(&report) {
            Ok(()) => {
                self.reports.push(report);
                proof {
                    assert(self@ =~= old(self)@.push(report@));
                }
                Ok(())
            },
            Err(e) => Err(e),
        }
    }

    /// An independent copy of all currently stored reports, safe to read
    /// without touching the live store.
    pub fn snapshot(&self) -> (copy: Vec<WorkerReport>)
        ensures
            views_of(copy@) == self@,
    {
        let mut copy: Vec<WorkerReport> = Vec::new();
        let mut i: usize = 0;
        while i < self.reports.len()
            invariant
                i <= self.reports@.len(),
                views_of(copy@) =~= self@.take(i as int),
            decreases self.reports@.len() - i,
        {
            let ghost pre = copy@;
            copy.push(self.reports[i].clone());
            i += 1;
            proof {
                assert(views_of(copy@) =~= views_of(pre).push(self.reports@[i - 1]@));
                assert(views_of(copy@) =~= self@.take(i as int));
            }
        }
        proof {
            assert(self@.take(self@.len() as int) =~= self@);
        }
        copy
    }

    /// Current statistics over the trailing window ending at `now`: the
    /// stored reports are snapshotted and aggregated per pool.
    pub fn query_stats(&self, now: i64) -> (resp: StatsResponse)
        ensures
            resp.represents(stats_map(self@, now as int)),
    {
        let snap = self.snapshot();
        aggregate(&snap, now)
    }
}

} // verus!
