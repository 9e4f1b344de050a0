//! The per-file outcomes of a batch and their aggregation: one outcome for
//! each file, each decided from that file's analyzer run alone, then counts,
//! failure messages, and the successful records in order.

use vstd::prelude::*;
use crate::audio::{analysis_view, lra_from_run, run_outcome, AnalysisError, AnalysisView, AnalyzerRun};
use crate::error::{type_description, FileErrorType, ProcessFileError};
use crate::text::chars_of;
use crate::utils::{record_view, records_view, RecordView};

verus! {

/// A per-file outcome as the contracts see it: the record, or the display
/// path, category and message of the failure.
pub type OutcomeView = Result<RecordView, (Seq<char>, FileErrorType, Seq<char>)>;

pub open spec fn outcome_view(o: Result<(String, i64), ProcessFileError>) -> OutcomeView {
    match o {
        Ok(e) => Ok(record_view(e)),
        Err(e) => Err((e.file_path@, e.error_type, e.message@)),
    }
}

pub open spec fn outcomes_view(v: Seq<Result<(String, i64), ProcessFileError>>) -> Seq<OutcomeView> {
    Seq::new(v.len(), |i: int| outcome_view(v[i]))
}

/// The outcome for the file shown as `display` whose analysis gave `a`.
pub open spec fn file_outcome(display: Seq<char>, a: AnalysisView) -> OutcomeView {
    match a {
        Ok(v) => Ok((display, v)),
        Err((kind, message)) => Err((display, kind, "分析失败: "@ + message)),
    }
}

/// The outcomes for `files` (each an absolute path and a display path),
/// given the analyzer run of each.
pub open spec fn outcomes_of(files: Seq<(Seq<char>, Seq<char>)>, runs: Seq<AnalyzerRun>) -> Seq<
    OutcomeView,
> {
    Seq::new(files.len(), |i: int| file_outcome(files[i].1, run_outcome(files[i].0, runs[i])))
}

pub open spec fn files_view(v: Seq<(String, String)>) -> Seq<(Seq<char>, Seq<char>)> {
    Seq::new(v.len(), |i: int| (v[i].0@, v[i].1@))
}

/// Turns the analysis of one file into its outcome: the record on success,
/// otherwise a failure that keeps the category of the analysis error.
pub fn process_single_file(display_path: &str, analysis: Result<i64, AnalysisError>) -> (r: Result<
    (String, i64),
    ProcessFileError,
>)
    ensures
        outcome_view(r) == file_outcome(display_path@, analysis_view(analysis)),
{
    match analysis {
        Ok(lra) => Ok((String::from_str(display_path), lra)),
        Err(e) => {
            let message = String::from_str("分析失败: ").concat(e.message.as_str());
            Err(ProcessFileError::new(String::from_str(display_path), message, e.kind))
        },
    }
}

/// One outcome for each file, in the order of `files`: the outcome of file
/// `i` is decided from `runs[i]` alone.
pub fn collect_outcomes(files: &Vec<(String, String)>, runs: &Vec<AnalyzerRun>) -> (r: Vec<
    Result<(String, i64), ProcessFileError>,
>)
    requires
        files.len() == runs.len(),
    ensures
        r.len() == files.len(),
        outcomes_view(r@) == outcomes_of(files_view(files@), runs@),
{
    let mut out: Vec<Result<(String, i64), ProcessFileError>> = Vec::new();
    let mut i: usize = 0;
    while i < files.len()
        invariant
            i <= files.len(),
            files.len() == runs.len(),
            out.len() == i,
            forall|k: int|
                0 <= k < i ==> outcome_view(#[trigger] out@[k]) == file_outcome(
                    files@[k].1@,
                    run_outcome(files@[k].0@, runs@[k]),
                ),
        decreases files.len() - i,
    {
        let analysis = lra_from_run(files[i].0.as_str(), &runs[i]);
        let o = process_single_file(files[i].1.as_str(), analysis);
        out.push(o);
        i = i + 1;
    }
    proof {
        assert(outcomes_view(out@) =~= outcomes_of(files_view(files@), runs@));
    }
    out
}

/// Every file gets exactly one outcome.
pub proof fn lemma_one_outcome_per_file(files: Seq<(Seq<char>, Seq<char>)>, runs: Seq<AnalyzerRun>)
    requires
        files.len() == runs.len(),
    ensures
        outcomes_of(files, runs).len() == files.len(),
{
}

/// A run that differs for one file changes no other file's outcome.
pub proof fn lemma_fault_isolation(
    files: Seq<(Seq<char>, Seq<char>)>,
    runs: Seq<AnalyzerRun>,
    other: Seq<AnalyzerRun>,
    j: int,
)
    requires
        files.len() == runs.len(),
        runs.len() == other.len(),
        forall|i: int| 0 <= i < runs.len() && i != j ==> runs[i] == other[i],
    ensures
        forall|i: int|
            0 <= i < files.len() && i != j ==> #[trigger] outcomes_of(files, runs)[i]
                == outcomes_of(files, other)[i],
{
}

/// Counts of a batch and the messages of its failures.
#[derive(Debug, Clone)]
pub struct ProcessingStats {
    pub successful: usize,
    pub failed: usize,
    pub error_messages: Vec<String>,
}

impl ProcessingStats {
    pub fn new(successful: usize, failed: usize, error_messages: Vec<String>) -> (r: Self)
        ensures
            r.successful == successful,
            r.failed == failed,
            r.error_messages@ == error_messages@,
    {
        ProcessingStats { successful, failed, error_messages }
    }

    /// Number of files processed.
    pub fn total(&self) -> (r: usize)
        requires
            self.successful + self.failed <= usize::MAX,
        ensures
            r == self.successful + self.failed,
    {
        self.successful + self.failed
    }

    /// Share of successes in hundredths of a percent, rounded down
    /// (`8333` for 15 of 18); 0 where nothing was processed.
    pub fn success_rate(&self) -> (r: u64)
        requires
            self.successful + self.failed <= usize::MAX,
        ensures
            self.successful + self.failed == 0 ==> r == 0,
            self.successful + self.failed > 0 ==> r == (self.successful * 10000) / (
            self.successful + self.failed),
    {
        let total = self.total();
        if total == 0 {
            0
        } else {
            let num: u128 = self.successful as u128 * 10000;
            assert(num <= 10000 * total) by (nonlinear_arith)
                requires
                    num == self.successful * 10000,
                    self.successful <= total,
            ;
            let rate: u128 = num / (total as u128);
            assert(rate <= 10000) by (nonlinear_arith)
                requires
                    rate as int == (num as int) / (total as int),
                    num <= 10000 * total,
                    total > 0,
            ;
            rate as u64
        }
    }

    pub fn has_failures(&self) -> (r: bool)
        ensures
            r == (self.failed > 0),
    {
        self.failed > 0
    }
}

/// How a failure is listed: `<path> [<category>]: <message>`.
pub open spec fn failure_line(path: Seq<char>, kind: FileErrorType, message: Seq<char>) -> Seq<
    char,
> {
    path + " ["@ + type_description(kind) + "]: "@ + message
}

/// The successful records of `s`, in order.
pub open spec fn successes(s: Seq<OutcomeView>) -> Seq<RecordView>
    decreases s.len(),
{
    if s.len() == 0 {
        Seq::empty()
    } else {
        match s.last() {
            Ok(e) => successes(s.drop_last()).push(e),
            Err(_) => successes(s.drop_last()),
        }
    }
}

/// The failures of `s` as listed, in order.
pub open spec fn failure_lines(s: Seq<OutcomeView>) -> Seq<Seq<char>>
    decreases s.len(),
{
    if s.len() == 0 {
        Seq::empty()
    } else {
        match s.last() {
            Ok(_) => failure_lines(s.drop_last()),
            Err((p, k, m)) => failure_lines(s.drop_last()).push(failure_line(p, k, m)),
        }
    }
}

pub open spec fn strings_view(v: Seq<String>) -> Seq<Seq<char>> {
    Seq::new(v.len(), |i: int| v[i]@)
}

/// Splits outcomes into the successful records, in order, and counts and
/// messages of the failures, in order.
pub fn analyze_results(results: Vec<Result<(String, i64), ProcessFileError>>) -> (r: (
    ProcessingStats,
    Vec<(String, i64)>,
))
    ensures
        records_view(r.1@) == successes(outcomes_view(results@)),
        strings_view(r.0.error_messages@) == failure_lines(outcomes_view(results@)),
        r.0.successful == r.1.len(),
        r.0.failed == r.0.error_messages.len(),
        r.0.successful + r.0.failed == results.len(),
{
    let ghost s = outcomes_view(results@);
    let mut ok: Vec<(String, i64)> = Vec::new();
    let mut messages: Vec<String> = Vec::new();
    let mut i: usize = 0;
    while i < results.len()
        invariant
            i <= results.len(),
            s == outcomes_view(results@),
            records_view(ok@) == successes(s.take(i as int)),
            strings_view(messages@) == failure_lines(s.take(i as int)),
            ok.len() + messages.len() == i,
        decreases results.len() - i,
    {
        proof {
            assert(s.take(i + 1).drop_last() =~= s.take(i as int));
            assert(s.take(i + 1).last() == s[i as int]);
        }
        match &results[i] {
            Ok(e) => {
                ok.push((e.0.clone(), e.1));
                proof {
                    assert(records_view(ok@) =~= successes(s.take(i + 1)));
                    assert(strings_view(messages@) =~= failure_lines(s.take(i + 1)));
                }
            },
            Err(e) => {
                let mut m = e.file_path.clone();
                m.append(" [");
                m.append(e.error_type_description());
                m.append("]: ");
                m.append(e.message.as_str());
                messages.push(m);
                proof {
                    assert(records_view(ok@) =~= successes(s.take(i + 1)));
                    assert(strings_view(messages@) =~= failure_lines(s.take(i + 1)));
                }
            },
        }
        i = i + 1;
    }
    proof {
        assert(s.take(i as int) =~= s);
    }
    let successful = ok.len();
    let failed = messages.len();
    (ProcessingStats { successful, failed, error_messages: messages }, ok)
}

} // verus!
