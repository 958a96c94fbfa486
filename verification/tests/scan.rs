use deadcode_core::scan::{body_of, bucket_of, is_override_decl, member_names};
use deadcode_core::{
    scan, Bucket, Finding, Language, Patterns, ScanError, ScanOptions, ScanReport, SourceFile,
};

fn file(path: &str, text: &str) -> SourceFile {
    SourceFile { path: path.to_string(), contents: Some(text.to_string()) }
}

fn run(files: Vec<SourceFile>, opts: &ScanOptions) -> Result<ScanReport, ScanError> {
    let patterns = Patterns::try_new().expect("built-in patterns compile");
    scan("/repo", &files, opts, &patterns)
}

fn summary(r: &ScanReport) -> Vec<(String, usize, String, String, Bucket, usize, usize, usize)> {
    r.findings
        .iter()
        .map(|f: &Finding| {
            (
                f.file.clone(),
                f.line,
                f.kind.clone(),
                f.name.clone(),
                f.bucket,
                f.prod_refs,
                f.test_refs,
                f.dynamic_refs,
            )
        })
        .collect()
}

fn sample() -> Vec<SourceFile> {
    vec![
        file(
            "/repo/App/Sources/LegacyVC.swift",
            "class LegacyStoryboardVC: UIViewController {}\n",
        ),
        file(
            "/repo/App/Sources/Legacy.swift",
            "struct OldMigrator {\n}\nfunc helperUsedOnlyByTests() {}\nfunc usedFunc() {}\nfunc caller() { usedFunc() }\n",
        ),
        file(
            "/repo/App/Tests/LegacyTests.swift",
            "func testIt() { helperUsedOnlyByTests() }\n",
        ),
        file(
            "/repo/App/Main.storyboard",
            "<viewController customClass=\"LegacyStoryboardVC\"/>\n",
        ),
    ]
}

#[test]
fn buckets_sample_project() {
    let r = run(sample(), &ScanOptions::default()).unwrap();
    assert_eq!(r.root, "/repo");
    assert_eq!(r.code_files, 3);
    assert_eq!(r.resource_files, 1);
    assert_eq!(r.declarations, 5);
    let s = |f: &str, l: usize, k: &str, n: &str, b: Bucket, p: usize, t: usize, d: usize| {
        (f.to_string(), l, k.to_string(), n.to_string(), b, p, t, d)
    };
    assert_eq!(
        summary(&r),
        vec![
            s("App/Sources/Legacy.swift", 1, "struct", "OldMigrator", Bucket::Dead, 1, 0, 0),
            s("App/Sources/Legacy.swift", 3, "func", "helperUsedOnlyByTests", Bucket::TestOnly, 1, 1, 0),
            s("App/Sources/Legacy.swift", 5, "func", "caller", Bucket::Dead, 1, 0, 0),
            s("App/Sources/LegacyVC.swift", 1, "class", "LegacyStoryboardVC", Bucket::Dynamic, 1, 0, 1),
        ]
    );
    assert!(r.findings.iter().all(|f| f.language == Language::Swift));
    assert_eq!(r.count(Bucket::Dead), 2);
    assert_eq!(r.count(Bucket::TestOnly), 1);
    assert_eq!(r.count(Bucket::Dynamic), 1);
    assert_eq!(r.findings.len() <= r.declarations, true);
}

#[test]
fn include_tests_scans_test_files() {
    let mut opts = ScanOptions::default();
    opts.include_tests = true;
    let r = run(sample(), &opts).unwrap();
    assert_eq!(r.declarations, 6);
    let names: Vec<&str> = r.findings.iter().map(|f| f.name.as_str()).collect();
    assert_eq!(names, vec!["OldMigrator", "helperUsedOnlyByTests", "caller", "LegacyStoryboardVC", "testIt"]);
    let t = r.findings.iter().find(|f| f.name == "testIt").unwrap();
    assert_eq!(t.bucket, Bucket::Dead);
    assert_eq!(t.file, "App/Tests/LegacyTests.swift");
    assert_eq!((t.prod_refs, t.test_refs, t.dynamic_refs), (0, 1, 0));
}

#[test]
fn no_source_files_is_an_error() {
    let files = vec![file("/repo/a.json", "{}"), file("/repo/notes.txt", "hello")];
    match run(files, &ScanOptions::default()) {
        Err(e) => {
            assert!(matches!(e, ScanError::NoSourceFiles(ref p) if p == "/repo"));
            assert_eq!(e.message(), "no .swift/.kt/.kts files found under /repo");
        }
        Ok(_) => panic!("expected an error"),
    }
}

#[test]
fn root_not_found_message() {
    let e = ScanError::RootNotFound("/nowhere".to_string());
    assert_eq!(e.message(), "path does not exist: /nowhere");
}

#[test]
fn protocol_members_are_suppressed() {
    let files = vec![file(
        "/repo/Greeter.swift",
        "protocol Greeter {\n    func greetEveryone()\n}\nfunc greetEveryone() {}\n",
    )];
    let r = run(files, &ScanOptions::default()).unwrap();
    let names: Vec<&str> = r.findings.iter().map(|f| f.name.as_str()).collect();
    assert_eq!(names, vec!["Greeter"]);
    assert_eq!(r.findings[0].kind, "protocol");
}

#[test]
fn overrides_are_suppressed_unless_included() {
    let files = vec![file("/repo/V.swift", "class V: Base {\n    override func refreshAll() {}\n}\n")];
    let r = run(files.clone(), &ScanOptions::default()).unwrap();
    assert!(r.findings.iter().all(|f| f.name != "refreshAll"));
    let mut opts = ScanOptions::default();
    opts.include_overrides = true;
    let r = run(files, &opts).unwrap();
    let f = r.findings.iter().find(|f| f.name == "refreshAll").unwrap();
    assert_eq!(f.line, 2);
    assert_eq!(f.bucket, Bucket::Dead);
}

#[test]
fn dynamic_attribute_within_three_lines_suppresses() {
    let near = "@objc\n\n\nfunc fromObjc() {}\n";
    let far = "@objc\n\n\n\nfunc notFromObjc() {}\n";
    let r = run(vec![file("/repo/A.swift", near), file("/repo/B.swift", far)], &ScanOptions::default())
        .unwrap();
    let names: Vec<&str> = r.findings.iter().map(|f| f.name.as_str()).collect();
    assert_eq!(names, vec!["notFromObjc"]);
    assert_eq!(r.findings[0].line, 5);
}

#[test]
fn short_and_noise_names_are_skipped() {
    let files = vec![file("/repo/A.swift", "func ab() {}\nfunc viewDidLoad() {}\nfunc abc() {}\n")];
    let r = run(files.clone(), &ScanOptions::default()).unwrap();
    let names: Vec<&str> = r.findings.iter().map(|f| f.name.as_str()).collect();
    assert_eq!(names, vec!["abc"]);
    assert_eq!(r.declarations, 3);
    let mut opts = ScanOptions::default();
    opts.min_len = 4;
    opts.extra_noise = vec!["nothing".to_string()];
    let r = run(files, &opts).unwrap();
    assert!(r.findings.is_empty());
}

#[test]
fn extra_noise_and_attrs_merge_with_builtins() {
    let files = vec![file(
        "/repo/A.kt",
        "fun configureCell() {}\n@MyDi\nfun provided() {}\n\n\n\nfun plainOld() {}\n",
    )];
    let mut opts = ScanOptions::default();
    opts.extra_noise = vec!["configureCell".to_string()];
    opts.extra_dynamic_attrs = vec!["@MyDi".to_string()];
    let r = run(files, &opts).unwrap();
    let names: Vec<&str> = r.findings.iter().map(|f| f.name.as_str()).collect();
    assert_eq!(names, vec!["plainOld"]);
    assert_eq!(r.findings[0].language, Language::Kotlin);
    assert_eq!(r.findings[0].kind, "fun");
}

#[test]
fn comment_mentions_do_not_count_as_uses() {
    let files = vec![file("/repo/A.swift", "func legacyHelper() {}\n// see legacyHelper\n")];
    let r = run(files, &ScanOptions::default()).unwrap();
    assert_eq!(r.findings.len(), 1);
    assert_eq!(r.findings[0].bucket, Bucket::Dead);
    assert_eq!(r.findings[0].prod_refs, 1);
}

#[test]
fn string_mentions_make_a_name_dynamic() {
    let files = vec![file("/repo/A.swift", "func tapHandler() {}\nlet sel = NSSelectorFromString(\"tapHandler\")\n")];
    let r = run(files, &ScanOptions::default()).unwrap();
    let f = r.findings.iter().find(|f| f.name == "tapHandler").unwrap();
    assert_eq!(f.bucket, Bucket::Dynamic);
    assert_eq!((f.prod_refs, f.test_refs, f.dynamic_refs), (1, 0, 1));
}

#[test]
fn repeated_files_give_one_finding_per_declaration() {
    let text = "func lonely() {}\n";
    let files = vec![file("/repo/A.swift", text), file("/repo/A.swift", text)];
    let r = run(files, &ScanOptions::default()).unwrap();
    assert_eq!(r.declarations, 2);
    // the name now occurs twice in production code, so it is not flagged
    assert!(r.findings.is_empty());
}

#[test]
fn unreadable_files_count_but_add_nothing() {
    let files = vec![
        SourceFile { path: "/repo/Broken.swift".to_string(), contents: None },
        file("/repo/A.swift", "func solo() {}\n"),
    ];
    let r = run(files, &ScanOptions::default()).unwrap();
    assert_eq!(r.code_files, 2);
    assert_eq!(r.declarations, 1);
    assert_eq!(r.findings.len(), 1);
}

#[test]
fn kotlin_enum_entries_and_properties() {
    let files = vec![file(
        "/repo/State.kt",
        "enum class State {\n    IDLE_STATE,\n    BUSY\n}\nval topLevelFlag = 1\n",
    )];
    let r = run(files, &ScanOptions::default()).unwrap();
    let got: Vec<(&str, &str, usize)> =
        r.findings.iter().map(|f| (f.name.as_str(), f.kind.as_str(), f.line)).collect();
    assert_eq!(
        got,
        vec![("IDLE_STATE", "enum entry", 2), ("BUSY", "enum entry", 3), ("topLevelFlag", "property", 5)]
    );
}

#[test]
fn protocol_body_on_the_next_line_is_suppressed() {
    let files = vec![file(
        "/repo/Greeter.swift",
        "protocol Greeter\n{\n    func greetAll()\n}\n",
    )];
    let r = run(files, &ScanOptions::default()).unwrap();
    let names: Vec<&str> = r.findings.iter().map(|f| f.name.as_str()).collect();
    assert_eq!(names, vec!["Greeter"]);
}

#[test]
fn names_starting_with_override_are_not_overrides() {
    let files = vec![file("/r/A.swift", "func overrideColor() {}\n")];
    let r = ScanOptions::default();
    let report = {
        let patterns = Patterns::try_new().unwrap();
        scan("/r", &files, &r, &patterns).unwrap()
    };
    assert_eq!(report.findings.len(), 1);
    assert_eq!(report.findings[0].name, "overrideColor");
    assert_eq!(report.findings[0].bucket, Bucket::Dead);
    assert_eq!(report.findings[0].line, 1);
}

#[test]
fn declarations_in_comments_and_strings_are_not_reported() {
    let files = vec![file(
        "/repo/A.swift",
        "/*\nfunc ghostFunc() {}\n*/\nlet s = \"\"\"\nfunc inString() {}\n\"\"\"\nfunc realFunc() {}\n",
    )];
    let r = run(files, &ScanOptions::default()).unwrap();
    let names: Vec<&str> = r.findings.iter().map(|f| f.name.as_str()).collect();
    assert_eq!(names, vec!["realFunc"]);
    assert_eq!(r.findings[0].line, 7);
}

#[test]
fn bucket_decision_from_counts() {
    assert_eq!(bucket_of(1, 0, 0, false), Some(Bucket::Dead));
    assert_eq!(bucket_of(0, 1, 0, true), Some(Bucket::Dead));
    assert_eq!(bucket_of(1, 0, 3, false), Some(Bucket::Dynamic));
    assert_eq!(bucket_of(1, 2, 0, false), Some(Bucket::TestOnly));
    assert_eq!(bucket_of(1, 1, 5, false), Some(Bucket::TestOnly));
    assert_eq!(bucket_of(1, 1, 0, true), None);
    assert_eq!(bucket_of(2, 0, 0, false), None);
    assert_eq!(bucket_of(2, 3, 0, false), None);
    assert_eq!(bucket_of(usize::MAX, usize::MAX, 0, false), None);
}

#[test]
fn override_modifier_is_a_whole_word_before_the_name() {
    let text = "    override func refreshAll() {}";
    let name = text.find("refreshAll").unwrap();
    assert!(is_override_decl(text, 0, name));
    let text = "func overrideColor() {}";
    let name = text.find("overrideColor").unwrap();
    assert!(!is_override_decl(text, 0, name));
    let text = "@overrideX func f() {}";
    assert!(!is_override_decl(text, 0, text.find("f()").unwrap()));
    assert!(!is_override_decl("override func g", 5, 2));
}

#[test]
fn protocol_body_and_member_names_from_given_matches() {
    let code = "protocol P\n{\n  func req()\n}\nrest";
    let head_end = "protocol P".len();
    let (s, e) = body_of(code, head_end).unwrap();
    assert_eq!(&code[s..e], "\n  func req()\n");
    assert_eq!(body_of("protocol P\nfunc x() {}", head_end), None);
    assert_eq!(body_of("protocol P: Q { var a: Int }", head_end), Some((15, 27)));
    let body = "\n  func req()\n  var size: Int\n";
    let caps = vec![(1, 11, Some((8, 11))), (14, 24, Some((20, 24))), (0, 0, None)];
    assert_eq!(member_names(body, &caps), vec!["req".to_string(), "size".to_string()]);
}
