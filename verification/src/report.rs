//! Worker telemetry reports and the validation contract applied at ingestion.

use vstd::prelude::*;

verus! {

/// One telemetry sample from a mining worker.
///
/// Hashrate is a fixed-point integer in milli-units (thousandths), so that
/// non-negative fractional throughput values are carried exactly. The
/// timestamp is in Unix epoch seconds.
pub struct WorkerReport {
    pub worker_id: String,
    pub pool: String,
    pub hashrate_milli: i64,
    pub temperature: i32,
    pub timestamp: i64,
}

/// The mathematical content of a report: strings as character sequences and
/// numbers as unbounded integers.
pub ghost struct ReportView {
    pub worker_id: Seq<char>,
    pub pool: Seq<char>,
    pub hashrate_milli: int,
    pub temperature: int,
    pub timestamp: int,
}

impl View for WorkerReport {
    type V = ReportView;

    open spec fn view(&self) -> ReportView {
        ReportView {
            worker_id: self.worker_id@,
            pool: self.pool@,
            hashrate_milli: self.hashrate_milli as int,
            temperature: self.temperature as int,
            timestamp: self.timestamp as int,
        }
    }
}

impl Clone for WorkerReport {
    fn clone(&self) -> (res: Self)
        ensures
            res@ == self@,
    {
        WorkerReport {
            worker_id: self.worker_id.clone(),
            pool: self.pool.clone(),
            hashrate_milli: self.hashrate_milli,
            temperature: self.temperature,
            timestamp: self.timestamp,
        }
    }
}

/// Why a submitted report was rejected. Exactly one kind per invalid field;
/// validation is fail-fast, so the first failing field (in the order
/// worker id, pool, hashrate, timestamp) decides the kind.
#[derive(Clone, Copy, PartialEq, Eq, Structural, Debug)]
pub enum ValidationError {
    InvalidWorkerId,
    InvalidPool,
    InvalidHashrate,
    InvalidTimestamp,
}

/// A report is acceptable iff its identifying strings are non-empty, its
/// hashrate is non-negative and its timestamp is strictly positive.
pub open spec fn valid_report(r: ReportView) -> bool {
    &&& r.worker_id.len() > 0
    &&& r.pool.len() > 0
    &&& r.hashrate_milli >= 0
    &&& r.timestamp > 0
}

/// The outcome of validation: `None` when the report is acceptable, otherwise
/// the error for the first invalid field in validation order.
pub open spec fn validation_outcome(r: ReportView) -> Option<ValidationError> {
    if r.worker_id.len() == 0 {
        Some(ValidationError::InvalidWorkerId)
    } else if r.pool.len() == 0 {
        Some(ValidationError::InvalidPool)
    } else if r.hashrate_milli < 0 {
        Some(ValidationError::InvalidHashrate)
    } else if r.timestamp <= 0 {
        Some(ValidationError::InvalidTimestamp)
    } else {
        None
    }
}

/// Reject a malformed report before it enters the store.
pub fn validate(r: &WorkerReport) -> (result: Result<(), ValidationError>)
    ensures
        result is Ok <==> valid_report(r@),
        result is Err ==> result->Err_0 == validation_outcome(r@)->0,
{
    if r.worker_id.as_str().is_empty() {
        Err(ValidationError::InvalidWorkerId)
    } else if r.pool.as_str().is_empty() {
        Err(ValidationError::InvalidPool)
    } else if r.hashrate_milli < 0 {
        Err(ValidationError::InvalidHashrate)
    } else if r.timestamp <= 0 {
        Err(ValidationError::InvalidTimestamp)
    } else {
        Ok(())
    }
}

/// Validation independence: a report with exactly one invalid field is
/// rejected with the error kind of that field, whatever the valid fields hold.
pub proof fn lemma_validation_independence(r: ReportView)
    ensures
        r.worker_id.len() == 0 && r.pool.len() > 0 && r.hashrate_milli >= 0 && r.timestamp > 0
            ==> validation_outcome(r) == Some(ValidationError::InvalidWorkerId),
        r.worker_id.len() > 0 && r.pool.len() == 0 && r.hashrate_milli >= 0 && r.timestamp > 0
            ==> validation_outcome(r) == Some(ValidationError::InvalidPool),
        r.worker_id.len() > 0 && r.pool.len() > 0 && r.hashrate_milli < 0 && r.timestamp > 0
            ==> validation_outcome(r) == Some(ValidationError::InvalidHashrate),
        r.worker_id.len() > 0 && r.pool.len() > 0 && r.hashrate_milli >= 0 && r.timestamp <= 0
            ==> validation_outcome(r) == Some(ValidationError::InvalidTimestamp),
{
}

} // verus!
