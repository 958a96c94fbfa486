use deadcode_core::{Bucket, Finding, Language, ScanOptions, ScanReport, CODE_EXTS, RESOURCE_EXTS, SKIP_DIRS};

fn finding(bucket: Bucket, name: &str) -> Finding {
    Finding {
        bucket,
        language: Language::Kotlin,
        name: name.to_string(),
        kind: "fun".to_string(),
        file: "a.kt".to_string(),
        line: 1,
        prod_refs: 1,
        test_refs: 0,
        dynamic_refs: 0,
    }
}

#[test]
fn bucket_labels_and_notes() {
    assert_eq!(Bucket::ALL, [Bucket::Dead, Bucket::TestOnly, Bucket::Dynamic]);
    assert_eq!(Bucket::Dead.label(), "DEAD");
    assert_eq!(Bucket::TestOnly.label(), "TEST-ONLY");
    assert_eq!(Bucket::Dynamic.label(), "DYNAMIC?");
    assert_eq!(Bucket::Dead.note(), "no reference anywhere — strongest candidates");
    assert_eq!(Bucket::TestOnly.note(), "production code never touches these");
    assert_eq!(
        Bucket::Dynamic.note(),
        "only found in a string literal or resource file — verify before deleting"
    );
}

#[test]
fn counts_and_listings_agree() {
    let r = ScanReport {
        root: "/r".to_string(),
        code_files: 1,
        resource_files: 0,
        declarations: 4,
        findings: vec![
            finding(Bucket::Dead, "one"),
            finding(Bucket::Dynamic, "two"),
            finding(Bucket::Dead, "three"),
        ],
    };
    assert_eq!(r.count(Bucket::Dead), 2);
    assert_eq!(r.count(Bucket::TestOnly), 0);
    assert_eq!(r.count(Bucket::Dynamic), 1);
    let dead: Vec<&str> = r.in_bucket(Bucket::Dead).iter().map(|f| f.name.as_str()).collect();
    assert_eq!(dead, vec!["one", "three"]);
    assert!(r.in_bucket(Bucket::TestOnly).is_empty());
    let total: usize = Bucket::ALL.iter().map(|b| r.count(*b)).sum();
    assert_eq!(total, r.findings.len());
}

#[test]
fn default_options() {
    let o = ScanOptions::default();
    assert!(!o.include_overrides);
    assert!(!o.include_tests);
    assert_eq!(o.min_len, 3);
    assert!(o.extra_noise.is_empty() && o.extra_dynamic_attrs.is_empty() && o.extra_skip_dirs.is_empty());
}

#[test]
fn built_in_lists() {
    assert_eq!(CODE_EXTS, ["swift", "kt", "kts"]);
    assert!(RESOURCE_EXTS.contains(&"storyboard"));
    assert!(SKIP_DIRS.contains(&"Pods"));
}
