use deadcode_core::cli::{exit_status, filter_bucket, output_paths, parse_args, parse_bucket_name, parse_usize, render_text, Cli};
use deadcode_core::{Bucket, Finding, Language, ScanReport};

fn args(a: &[&str]) -> Vec<String> {
    a.iter().map(|s| s.to_string()).collect()
}

fn parsed(a: &[&str]) -> Cli {
    match parse_args(&args(a)) {
        Ok(Some(c)) => c,
        Ok(None) => panic!("help"),
        Err(e) => panic!("error: {e}"),
    }
}

fn err(a: &[&str]) -> String {
    match parse_args(&args(a)) {
        Err(e) => e,
        _ => panic!("expected an error"),
    }
}

fn finding(bucket: Bucket, name: &str, file: &str, line: usize, kind: &str) -> Finding {
    Finding {
        bucket,
        language: Language::Swift,
        name: name.to_string(),
        kind: kind.to_string(),
        file: file.to_string(),
        line,
        prod_refs: 1,
        test_refs: 0,
        dynamic_refs: 0,
    }
}

fn report(findings: Vec<Finding>) -> ScanReport {
    ScanReport {
        root: "/repo".to_string(),
        code_files: 214,
        resource_files: 38,
        declarations: 1902,
        findings,
    }
}

#[test]
fn defaults_with_only_a_path() {
    let c = parsed(&["/repo"]);
    assert_eq!(c.root, "/repo");
    assert!(!c.json && !c.html && !c.write_json_file && !c.fail_on_dead);
    assert_eq!(c.out, None);
    assert_eq!(c.only, None);
    assert_eq!(c.opts.min_len, 3);
    assert!(!c.opts.include_overrides && !c.opts.include_tests);
}

#[test]
fn every_flag() {
    let c = parsed(&[
        "--json",
        "src",
        "--include-overrides",
        "--include-tests",
        "--fail-on-dead",
        "--min-len",
        "5",
        "--bucket",
        "Test-Only",
    ]);
    assert_eq!(c.root, "src");
    assert!(c.json && c.fail_on_dead && c.opts.include_overrides && c.opts.include_tests);
    assert_eq!(c.opts.min_len, 5);
    assert_eq!(c.only, Some(Bucket::TestOnly));
    assert_eq!(c.out, None);
}

#[test]
fn save_and_out_set_the_json_destination() {
    let c = parsed(&["x", "--save"]);
    assert_eq!(c.out.as_deref(), Some("deadcode-report.json"));
    assert!(c.write_json_file);
    let c = parsed(&["x", "--out", "reports/scan.json"]);
    assert_eq!(c.out.as_deref(), Some("reports/scan.json"));
    assert!(c.write_json_file);
    let c = parsed(&["x", "--out", "a.json", "--save"]);
    assert_eq!(c.out.as_deref(), Some("deadcode-report.json"));
}

#[test]
fn html_alone_writes_beside_the_default_name_without_json() {
    let c = parsed(&["x", "--html"]);
    assert!(c.html);
    assert!(!c.write_json_file);
    assert_eq!(c.out.as_deref(), Some("deadcode-report.json"));
    let c = parsed(&["x", "--html", "--out", "r/s.json"]);
    assert_eq!(c.out.as_deref(), Some("r/s.json"));
    assert!(c.write_json_file);
}

#[test]
fn help_is_not_an_error() {
    assert!(matches!(parse_args(&args(&["-h"])), Ok(None)));
    assert!(matches!(parse_args(&args(&["x", "--help", "--bogus"])), Ok(None)));
}

#[test]
fn argument_errors() {
    assert_eq!(err(&[]), "missing <path>");
    assert_eq!(err(&["--json"]), "missing <path>");
    assert_eq!(err(&["x", "--out"]), "--out needs a path");
    assert_eq!(err(&["x", "--min-len"]), "--min-len needs a number");
    assert_eq!(err(&["x", "--min-len", "-1"]), "bad --min-len value: -1");
    assert_eq!(err(&["x", "--min-len", "3a"]), "bad --min-len value: 3a");
    assert_eq!(err(&["x", "--bucket"]), "--bucket needs a value");
    assert_eq!(err(&["x", "--bucket", "Alive"]), "unknown bucket: alive");
    assert_eq!(err(&["x", "--verbose"]), "unknown flag: --verbose");
    assert_eq!(err(&["x", "y"]), "unexpected extra argument: y");
    assert_eq!(err(&["--bogus", "-h"]), "unknown flag: --bogus");
}

#[test]
fn flag_values_are_not_paths() {
    let c = parsed(&["--out", "-", "root"]);
    assert_eq!(c.out.as_deref(), Some("-"));
    assert_eq!(c.root, "root");
}

#[test]
fn bucket_names() {
    assert_eq!(parse_bucket_name("dead"), Some(Bucket::Dead));
    assert_eq!(parse_bucket_name("test-only"), Some(Bucket::TestOnly));
    assert_eq!(parse_bucket_name("testonly"), Some(Bucket::TestOnly));
    assert_eq!(parse_bucket_name("dynamic"), Some(Bucket::Dynamic));
    assert_eq!(parse_bucket_name("DEAD"), None);
    assert_eq!(parse_bucket_name(""), None);
    assert_eq!(parsed(&["x", "--bucket", "DYNAMIC"]).only, Some(Bucket::Dynamic));
}

#[test]
fn usize_parsing_matches_str_parse() {
    for s in ["0", "7", "+12", "0042", "18446744073709551615", "", "+", "-1", "1_000", " 3", "18446744073709551616", "99999999999999999999"] {
        assert_eq!(parse_usize(s), s.parse::<usize>().ok(), "{s:?}");
    }
}

#[test]
fn text_report_layout() {
    let r = report(vec![
        finding(Bucket::Dead, "OldMigrator", "App/Sources/Legacy.swift", 3, "struct"),
        finding(Bucket::Dead, "deprecatedSyncLoad", "android/src/main/java/Repo.kt", 12, "fun"),
        finding(Bucket::TestOnly, "helperUsedOnlyByTests", "App/Sources/Legacy.swift", 7, "func"),
        finding(Bucket::Dynamic, "LegacyStoryboardVC", "App/Sources/LegacyVC.swift", 2, "class"),
    ]);
    let expected = [
        "scanned 214 code files, 38 resource files, 1902 declarations",
        "",
        "== DEAD (2) — no reference anywhere — strongest candidates",
        "  App/Sources/Legacy.swift:3  [struct]  OldMigrator",
        "  android/src/main/java/Repo.kt:12  [fun]  deprecatedSyncLoad",
        "",
        "== TEST-ONLY (1) — production code never touches these",
        "  App/Sources/Legacy.swift:7  [func]  helperUsedOnlyByTests",
        "",
        "== DYNAMIC? (1) — only found in a string literal or resource file — verify before deleting",
        "  App/Sources/LegacyVC.swift:2  [class]  LegacyStoryboardVC",
        "",
        "",
    ]
    .join("\n");
    assert_eq!(render_text(&r), expected);
}

#[test]
fn text_report_when_nothing_is_flagged() {
    let mut r = report(vec![]);
    r.code_files = 0;
    r.resource_files = 10;
    r.declarations = 0;
    assert_eq!(
        render_text(&r),
        "scanned 0 code files, 10 resource files, 0 declarations\n\nnothing flagged.\n"
    );
}

#[test]
fn filtering_keeps_one_bucket_and_the_counters() {
    let r = report(vec![
        finding(Bucket::Dead, "a1", "f", 1, "func"),
        finding(Bucket::Dynamic, "b2", "f", 2, "func"),
        finding(Bucket::Dead, "c3", "f", 3, "func"),
    ]);
    let f = filter_bucket(r, Bucket::Dead);
    assert_eq!(f.declarations, 1902);
    assert_eq!(f.code_files, 214);
    let names: Vec<&str> = f.findings.iter().map(|x| x.name.as_str()).collect();
    assert_eq!(names, vec!["a1", "c3"]);
    assert_eq!(f.count(Bucket::Dead), 2);
    assert_eq!(f.count(Bucket::Dynamic), 0);
}

#[test]
fn exit_status_for_fail_on_dead() {
    let dead = report(vec![finding(Bucket::Dead, "a1", "f", 1, "func")]);
    let dynamic = report(vec![finding(Bucket::Dynamic, "a1", "f", 1, "func")]);
    let gate = parsed(&["x", "--fail-on-dead"]);
    let plain = parsed(&["x"]);
    assert_eq!(exit_status(&gate, &dead), 2);
    assert_eq!(exit_status(&gate, &dynamic), 0);
    assert_eq!(exit_status(&plain, &dead), 0);
}

#[test]
fn output_paths_follow_the_destination() {
    assert_eq!(
        output_paths("reports/scan.json", false, true, true),
        vec!["reports/scan.json".to_string(), "reports/scan.html".to_string()]
    );
    assert_eq!(output_paths("out", true, true, false), vec!["out/deadcode-report.json".to_string()]);
    assert_eq!(output_paths("out", true, false, true), vec!["out/deadcode-report.html".to_string()]);
    assert_eq!(output_paths("x.json", false, false, true), vec!["x.html".to_string()]);
    assert!(output_paths("x.json", false, false, false).is_empty());
}
