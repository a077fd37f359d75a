//! Batch orchestration.
//!
//! A batch names a source directory, a target directory, a list of candidate
//! file names and a uniform row-skip count.  Each file is planned here:
//! either it is skipped for an unrecognized extension, or its source and
//! output paths are derived.  The workers' outcomes are aggregated into a
//! report that isolates every failure to its own file.

use vstd::prelude::*;
use vstd::string::StringExecFns;
use crate::cell::TranscodeError;
use crate::file_ops::{FileOpsError, generate_output_file_path, has_excel_ext,
    has_excel_extension, lemma_last_index_bounds, path_extension, path_file_name, path_stem};

verus! {

/// What is to happen with one candidate file.
#[derive(Debug, Clone, PartialEq)]
pub enum FilePlan {
    /// The file does not carry a recognized spreadsheet extension; it is
    /// skipped and the batch goes on.
    Skip,
    /// The file is to be transcoded from `source_path` into `output_path`.
    Transcode { source_path: String, output_path: String },
}

/// The outcome of one file of a batch.
#[derive(Debug, Clone, PartialEq)]
pub enum FileStatus {
    /// The file was transcoded; the value is its output path.
    Processed(String),
    /// The file was skipped for an unrecognized extension.
    SkippedUnsupported,
    /// Transcoding the file failed; no sibling file is affected.
    Failed(TranscodeError),
}

/// One file's entry in the batch report.
#[derive(Debug, Clone, PartialEq)]
pub struct FileReport {
    pub name: String,
    pub status: FileStatus,
}

/// The aggregate outcome of a batch.
#[derive(Debug, Clone, PartialEq)]
pub struct BatchReport {
    pub files: Vec<FileReport>,
    /// The uniform row-skip count, echoed back as the number of deleted
    /// rows; it is not a per-file measurement.
    pub rows_deleted: usize,
    /// The packaged archive of the output directory, when packaging
    /// succeeded.
    pub archive_path: Option<String>,
}

/// The caller-facing classification of a batch report.
#[derive(Debug, Clone, Copy, PartialEq, Eq, Structural)]
pub enum BatchStatus {
    /// No candidate file was attempted at all.
    NoFilesProcessed,
    /// At least one file failed; the failures are listed per file.
    SomeFailed,
    /// Every attempted file succeeded or was skipped.
    AllSucceeded,
}

pub open spec fn is_success(r: FileReport) -> bool {
    r.status matches FileStatus::Processed(_)
}

pub open spec fn is_failure(r: FileReport) -> bool {
    r.status matches FileStatus::Failed(_)
}

pub open spec fn spec_count_successes(s: Seq<FileReport>) -> int
    decreases s.len(),
{
    if s.len() == 0 {
        0
    } else {
        spec_count_successes(s.drop_last()) + if is_success(s.last()) {
            1int
        } else {
            0int
        }
    }
}

pub open spec fn spec_count_failures(s: Seq<FileReport>) -> int
    decreases s.len(),
{
    if s.len() == 0 {
        0
    } else {
        spec_count_failures(s.drop_last()) + if is_failure(s.last()) {
            1int
        } else {
            0int
        }
    }
}

pub open spec fn spec_classify(files: Seq<FileReport>) -> BatchStatus {
    if files.len() == 0 {
        BatchStatus::NoFilesProcessed
    } else if spec_count_failures(files) > 0 {
        BatchStatus::SomeFailed
    } else {
        BatchStatus::AllSucceeded
    }
}

/// A path that carries a recognized extension has a non-empty stem.
pub proof fn lemma_excel_ext_has_stem(p: Seq<char>)
    requires
        has_excel_ext(p),
    ensures
        path_stem(p).len() > 0,
{
    assert(path_extension(p) is Some);
    lemma_last_index_bounds(path_file_name(p), '.');
}

/// Plans one candidate file of a batch: skip it for an unrecognized
/// extension, or derive the source path under `source_dir` and the output
/// path under `target_dir`.  Planning a recognized file never fails.
pub fn plan_file(source_dir: &str, file_name: &str, target_dir: &str) -> (r: Result<
    FilePlan,
    FileOpsError,
>)
    ensures
        !(r is Err),
        r matches Ok(plan) ==> match plan {
            FilePlan::Skip => !has_excel_ext(source_dir@ + "/"@ + file_name@),
            FilePlan::Transcode { source_path, output_path } => {
                &&& has_excel_ext(source_dir@ + "/"@ + file_name@)
                &&& source_path@ == source_dir@ + "/"@ + file_name@
                &&& output_path@ == target_dir@ + "/"@ + path_stem(source_dir@ + "/"@ + file_name@)
                    + ".xlsx"@
            },
        },
{
    let mut joined = String::from_str(source_dir);
    joined.append("/");
    joined.append(file_name);
    if !has_excel_extension(joined.as_str()) {
        return Ok(FilePlan::Skip);
    }
    match generate_output_file_path(joined.as_str(), target_dir) {
        Ok(out) => Ok(FilePlan::Transcode { source_path: joined, output_path: out }),
        Err(e) => {
            proof {
                lemma_excel_ext_has_stem(joined@);
                assert(false);
            }
            Err(e)
        },
    }
}

/// Counts the files of a report that were transcoded successfully.
pub fn count_successes(files: &Vec<FileReport>) -> (n: usize)
    ensures
        n == spec_count_successes(files@),
{
    let mut n: usize = 0;
    let mut i: usize = 0;
    while i < files.len()
        invariant
            i <= files.len(),
            n == spec_count_successes(files@.subrange(0, i as int)),
            n <= i,
        decreases files.len() - i,
    {
        proof {
            assert(files@.subrange(0, i as int + 1).drop_last() =~= files@.subrange(0, i as int));
            assert(files@.subrange(0, i as int + 1).last() == files@[i as int]);
        }
        match &files[i].status {
            FileStatus::Processed(_) => {
                n = n + 1;
            },
            _ => {},
        }
        i = i + 1;
    }
    proof {
        assert(files@.subrange(0, files@.len() as int) =~= files@);
    }
    n
}

/// Counts the files of a report whose transcoding failed.
pub fn count_failures(files: &Vec<FileReport>) -> (n: usize)
    ensures
        n == spec_count_failures(files@),
{
    let mut n: usize = 0;
    let mut i: usize = 0;
    while i < files.len()
        invariant
            i <= files.len(),
            n == spec_count_failures(files@.subrange(0, i as int)),
            n <= i,
        decreases files.len() - i,
    {
        proof {
            assert(files@.subrange(0, i as int + 1).drop_last() =~= files@.subrange(0, i as int));
            assert(files@.subrange(0, i as int + 1).last() == files@[i as int]);
        }
        match &files[i].status {
            FileStatus::Failed(_) => {
                n = n + 1;
            },
            _ => {},
        }
        i = i + 1;
    }
    proof {
        assert(files@.subrange(0, files@.len() as int) =~= files@);
    }
    n
}

/// Assembles the batch report from the per-file outcomes.  The reported
/// row-deletion count is the requested skip count echoed back, not a
/// measured value.
pub fn build_report(files: Vec<FileReport>, rows_to_delete: usize, archive_path: Option<String>)
    -> (r: BatchReport)
    ensures
        r.files == files,
        r.rows_deleted == rows_to_delete,
        r.archive_path == archive_path,
{
    BatchReport { files, rows_deleted: rows_to_delete, archive_path }
}

/// Classifies a report for the caller: nothing attempted, some failures, or
/// full success.
pub fn classify_report(report: &BatchReport) -> (r: BatchStatus)
    ensures
        r == spec_classify(report.files@),
{
    if report.files.len() == 0 {
        BatchStatus::NoFilesProcessed
    } else if count_failures(&report.files) > 0 {
        BatchStatus::SomeFailed
    } else {
        BatchStatus::AllSucceeded
    }
}

proof fn lemma_all_success_counts(files: Seq<FileReport>)
    requires
        forall|i: int| 0 <= i < files.len() ==> is_success(#[trigger] files[i]),
    ensures
        spec_count_failures(files) == 0,
        spec_count_successes(files) == files.len(),
    decreases files.len(),
{
    if files.len() > 0 {
        lemma_all_success_counts(files.drop_last());
    }
}

/// Law: in a batch of N files where exactly one fails, the report counts
/// N - 1 successes and exactly one failure.
pub proof fn lemma_single_failure_counts(files: Seq<FileReport>, k: int)
    requires
        0 <= k < files.len(),
        is_failure(files[k]),
        forall|i: int| 0 <= i < files.len() && i != k ==> is_success(#[trigger] files[i]),
    ensures
        spec_count_failures(files) == 1,
        spec_count_successes(files) == files.len() - 1,
        spec_classify(files) == BatchStatus::SomeFailed,
    decreases files.len(),
{
    if k == files.len() - 1 {
        lemma_all_success_counts(files.drop_last());
        assert(!is_success(files[k]));
    } else {
        lemma_single_failure_counts(files.drop_last(), k);
    }
}

} // verus!
