use xlsx_manager::batch::BatchStatus;
use xlsx_manager::batch::FilePlan;
use xlsx_manager::batch::FileReport;
use xlsx_manager::batch::FileStatus;
use xlsx_manager::batch::build_report;
use xlsx_manager::batch::classify_report;
use xlsx_manager::batch::count_failures;
use xlsx_manager::batch::count_successes;
use xlsx_manager::batch::plan_file;
use xlsx_manager::cell::TranscodeError;
use xlsx_manager::file_ops::FileOpsError;
use xlsx_manager::file_ops::filter_excel_names;
use xlsx_manager::file_ops::generate_output_file_path;
use xlsx_manager::file_ops::has_excel_extension;

#[test]
fn recognizes_spreadsheet_extensions() {
    assert!(has_excel_extension("report.xls"));
    assert!(has_excel_extension("report.xlsx"));
    assert!(has_excel_extension("dir/sub/report.xlsx"));
    assert!(!has_excel_extension("report.txt"));
    assert!(!has_excel_extension("report.XLSX"));
    assert!(!has_excel_extension("xlsx"));
    assert!(!has_excel_extension(".xlsx"));
    assert!(!has_excel_extension("dir/.xlsx"));
    assert!(!has_excel_extension("archive.xls/inner"));
    assert!(!has_excel_extension("report.xlsx.bak"));
    assert!(!has_excel_extension(""));
}

#[test]
fn filtering_keeps_spreadsheet_names_in_order() {
    let names = vec![
        String::from("b.xlsx"),
        String::from("notes.txt"),
        String::from("a.xls"),
        String::from("README"),
    ];
    let kept = filter_excel_names(&names);
    assert_eq!(kept, vec![String::from("b.xlsx"), String::from("a.xls")]);
    assert_eq!(filter_excel_names(&Vec::new()), Vec::<String>::new());
}

#[test]
fn output_path_normalizes_extension() {
    let out = generate_output_file_path("upload/job/data.xls", "upload/job/out").unwrap();
    assert_eq!(out, "upload/job/out/data.xlsx");
    let out2 = generate_output_file_path("data.xlsx", "out").unwrap();
    assert_eq!(out2, "out/data.xlsx");
}

#[test]
fn output_path_keeps_dotted_stems() {
    let out = generate_output_file_path("dir/daily.v2.xlsx", "out").unwrap();
    assert_eq!(out, "out/daily.v2.xlsx");
    let hidden = generate_output_file_path("dir/.hidden", "out").unwrap();
    assert_eq!(hidden, "out/.hidden.xlsx");
}

#[test]
fn output_path_rejects_missing_file_name() {
    let r = generate_output_file_path("upload/job/", "out");
    match r {
        Err(FileOpsError::InvalidFilePath(msg)) => {
            assert_eq!(msg, "no file name in path: upload/job/");
        },
        other => panic!("expected an invalid-path error, got {:?}", other),
    }
}

#[test]
fn plan_skips_unrecognized_files() {
    let plan = plan_file("upload/job", "notes.txt", "upload/job/out").unwrap();
    assert_eq!(plan, FilePlan::Skip);
}

#[test]
fn plan_derives_both_paths() {
    let plan = plan_file("upload/job", "data.xls", "upload/job/out").unwrap();
    assert_eq!(
        plan,
        FilePlan::Transcode {
            source_path: String::from("upload/job/data.xls"),
            output_path: String::from("upload/job/out/data.xlsx"),
        }
    );
}

fn processed(name: &str) -> FileReport {
    FileReport {
        name: String::from(name),
        status: FileStatus::Processed(String::from("out")),
    }
}

fn failed(name: &str) -> FileReport {
    FileReport {
        name: String::from(name),
        status: FileStatus::Failed(TranscodeError::OpenError(String::from(
            "no sheets found in the workbook",
        ))),
    }
}

#[test]
fn single_failure_is_isolated_in_report() {
    // Five files, one of them (the third) malformed: the report counts four
    // successes and exactly one failure, attributed to that file.
    let outcomes = vec![
        processed("a.xlsx"),
        processed("b.xlsx"),
        failed("c.xlsx"),
        processed("d.xlsx"),
        processed("e.xlsx"),
    ];
    let report = build_report(outcomes, 7, None);
    assert_eq!(count_successes(&report.files), 4);
    assert_eq!(count_failures(&report.files), 1);
    assert_eq!(classify_report(&report), BatchStatus::SomeFailed);
    let who: Vec<&FileReport> = report
        .files
        .iter()
        .filter(|f| matches!(f.status, FileStatus::Failed(_)))
        .collect();
    assert_eq!(who.len(), 1);
    assert_eq!(who[0].name, "c.xlsx");
}

#[test]
fn empty_report_counts_as_not_found() {
    let report = build_report(Vec::new(), 3, None);
    assert_eq!(classify_report(&report), BatchStatus::NoFilesProcessed);
}

#[test]
fn all_successes_classify_as_full_success() {
    let report = build_report(vec![processed("a.xlsx"), processed("b.xlsx")], 0, None);
    assert_eq!(count_successes(&report.files), 2);
    assert_eq!(count_failures(&report.files), 0);
    assert_eq!(classify_report(&report), BatchStatus::AllSucceeded);
}

#[test]
fn skipped_files_do_not_fail_the_batch() {
    let outcomes = vec![
        processed("a.xlsx"),
        FileReport { name: String::from("b.txt"), status: FileStatus::SkippedUnsupported },
    ];
    let report = build_report(outcomes, 0, None);
    assert_eq!(count_failures(&report.files), 0);
    assert_eq!(classify_report(&report), BatchStatus::AllSucceeded);
}

#[test]
fn report_echoes_skip_count_as_rows_deleted() {
    let report = build_report(vec![processed("a.xlsx")], 12, Some(String::from("out.zip")));
    assert_eq!(report.rows_deleted, 12);
    assert_eq!(report.archive_path, Some(String::from("out.zip")));
}
