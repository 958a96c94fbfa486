//! Report types: buckets, findings, the aggregate report, scan options.
use vstd::prelude::*;
use vstd::string::StringExecFns;

verus! {

/// Confidence bucket for a finding.
#[derive(Debug, Clone, Copy, PartialEq, Eq, Structural, Hash)]
pub enum Bucket {
    /// Identifier appears exactly once in the corpus: at its own declaration.
    Dead,
    /// Declared in production code, referenced only from test files.
    TestOnly,
    /// No code reference, but the name occurs in a string literal or a
    /// resource file (storyboard, manifest, DI key, selector...).
    Dynamic,
}

pub open spec fn bucket_label(b: Bucket) -> Seq<char> {
    match b {
        Bucket::Dead => "DEAD"@,
        Bucket::TestOnly => "TEST-ONLY"@,
        Bucket::Dynamic => "DYNAMIC?"@,
    }
}

pub open spec fn bucket_note(b: Bucket) -> Seq<char> {
    match b {
        Bucket::Dead => "no reference anywhere — strongest candidates"@,
        Bucket::TestOnly => "production code never touches these"@,
        Bucket::Dynamic => "only found in a string literal or resource file — verify before deleting"@,
    }
}

impl Bucket {
    /// Every bucket, in report order.
    pub const ALL: [Bucket; 3] = [Bucket::Dead, Bucket::TestOnly, Bucket::Dynamic];

    pub fn label(self) -> (res: &'static str)
        ensures
            res@ == bucket_label(self),
    {
        match self {
            Bucket::Dead => "DEAD",
            Bucket::TestOnly => "TEST-ONLY",
            Bucket::Dynamic => "DYNAMIC?",
        }
    }

    pub fn note(self) -> (res: &'static str)
        ensures
            res@ == bucket_note(self),
    {
        match self {
            Bucket::Dead => "no reference anywhere — strongest candidates",
            Bucket::TestOnly => "production code never touches these",
            Bucket::Dynamic => {
                "only found in a string literal or resource file — verify before deleting"
            },
        }
    }
}

/// Which language a declaration came from.
#[derive(Debug, Clone, Copy, PartialEq, Eq, Structural)]
pub enum Language {
    Swift,
    Kotlin,
}

/// What a finding says, as plain values.
pub struct FindingView {
    pub bucket: Bucket,
    pub language: Language,
    pub name: Seq<char>,
    pub kind: Seq<char>,
    pub file: Seq<char>,
    pub line: usize,
    pub prod_refs: usize,
    pub test_refs: usize,
    pub dynamic_refs: usize,
}

/// One flagged declaration.
#[derive(Debug, Clone)]
pub struct Finding {
    pub bucket: Bucket,
    pub language: Language,
    /// Declaration name, e.g. `recalculateLegacyTotals`.
    pub name: String,
    /// Declaration kind as written in source: `func`, `class`, `enum entry`...
    pub kind: String,
    /// Path as given, relative to the scan root when possible.
    pub file: String,
    /// 1-based line number of the declaration.
    pub line: usize,
    /// Occurrences in non-test code (includes the declaration itself).
    pub prod_refs: usize,
    /// Occurrences in test code.
    pub test_refs: usize,
    /// Occurrences in string literals and resource files.
    pub dynamic_refs: usize,
}

impl View for Finding {
    type V = FindingView;

    open spec fn view(&self) -> FindingView {
        FindingView {
            bucket: self.bucket,
            language: self.language,
            name: self.name@,
            kind: self.kind@,
            file: self.file@,
            line: self.line,
            prod_refs: self.prod_refs,
            test_refs: self.test_refs,
            dynamic_refs: self.dynamic_refs,
        }
    }
}

pub open spec fn findings_view(fs: Seq<Finding>) -> Seq<FindingView> {
    fs.map_values(|f: Finding| f@)
}

/// Number of findings in bucket `b`.
pub open spec fn count_in(fs: Seq<FindingView>, b: Bucket) -> nat
    decreases fs.len(),
{
    if fs.len() == 0 {
        0
    } else {
        count_in(fs.drop_last(), b) + if fs.last().bucket == b {
            1nat
        } else {
            0nat
        }
    }
}

/// The findings in bucket `b`, in order.
pub open spec fn only_bucket(fs: Seq<FindingView>, b: Bucket) -> Seq<FindingView>
    decreases fs.len(),
{
    if fs.len() == 0 {
        seq![]
    } else if fs.last().bucket == b {
        only_bucket(fs.drop_last(), b).push(fs.last())
    } else {
        only_bucket(fs.drop_last(), b)
    }
}

pub struct ScanReportView {
    pub root: Seq<char>,
    pub code_files: usize,
    pub resource_files: usize,
    pub declarations: usize,
    pub findings: Seq<FindingView>,
}

/// Aggregate result of a scan.
#[derive(Debug, Clone)]
pub struct ScanReport {
    pub root: String,
    pub code_files: usize,
    pub resource_files: usize,
    /// Total declarations examined, before bucketing.
    pub declarations: usize,
    pub findings: Vec<Finding>,
}

impl View for ScanReport {
    type V = ScanReportView;

    open spec fn view(&self) -> ScanReportView {
        ScanReportView {
            root: self.root@,
            code_files: self.code_files,
            resource_files: self.resource_files,
            declarations: self.declarations,
            findings: findings_view(self.findings@),
        }
    }
}

impl ScanReport {
    pub fn count(&self, bucket: Bucket) -> (n: usize)
        ensures
            n == count_in(self@.findings, bucket),
    {
        let mut n: usize = 0;
        let mut i: usize = 0;
        while i < self.findings.len()
            invariant
                i <= self.findings@.len(),
                n == count_in(findings_view(self.findings@).take(i as int), bucket),
                n <= i,
            decreases self.findings@.len() - i,
        {
            let ghost fv = findings_view(self.findings@);
            assert(fv.take(i + 1).drop_last() =~= fv.take(i as int));
            if self.findings[i].bucket == bucket {
                n += 1;
            }
            i += 1;
        }
        assert(findings_view(self.findings@).take(i as int) =~= findings_view(self.findings@));
        n
    }

    pub fn in_bucket(&self, bucket: Bucket) -> (res: Vec<&Finding>)
        ensures
            res@.map_values(|f: &Finding| f@) == only_bucket(self@.findings, bucket),
    {
        let mut res: Vec<&Finding> = Vec::new();
        let mut i: usize = 0;
        while i < self.findings.len()
            invariant
                i <= self.findings@.len(),
                res@.map_values(|f: &Finding| f@) == only_bucket(
                    findings_view(self.findings@).take(i as int),
                    bucket,
                ),
            decreases self.findings@.len() - i,
        {
            let ghost fv = findings_view(self.findings@);
            assert(fv.take(i + 1).drop_last() =~= fv.take(i as int));
            if self.findings[i].bucket == bucket {
                let ghost before = res@;
                res.push(&self.findings[i]);
                assert(res@.map_values(|f: &Finding| f@) =~= before.map_values(|f: &Finding| f@).push(
                    self.findings@[i as int]@,
                ));
            }
            i += 1;
        }
        assert(findings_view(self.findings@).take(i as int) =~= findings_view(self.findings@));
        res
    }
}

/// Knobs for a scan, as plain values.
pub struct ScanOptionsView {
    pub include_overrides: bool,
    pub include_tests: bool,
    pub min_len: usize,
    pub extra_noise: Seq<Seq<char>>,
    pub extra_dynamic_attrs: Seq<Seq<char>>,
    pub extra_skip_dirs: Seq<Seq<char>>,
}

pub open spec fn strings_view(v: Seq<String>) -> Seq<Seq<char>> {
    v.map_values(|s: String| s@)
}

/// Knobs for a scan. `Default` matches the CLI defaults.
#[derive(Debug, Clone)]
pub struct ScanOptions {
    /// Flag `override func` / `override fun` too. These normally satisfy a
    /// superclass or framework contract.
    pub include_overrides: bool,
    /// Flag declarations that live inside test targets. XCTest and JUnit
    /// entry points are discovered by the runtime, so this is noisy.
    pub include_tests: bool,
    /// Ignore identifiers shorter than this.
    pub min_len: usize,
    /// Extra identifier names to treat as implicitly reachable, merged with
    /// the built-in noise list.
    pub extra_noise: Vec<String>,
    /// Extra attribute/annotation strings that mark a declaration as
    /// dynamically reachable, merged with the built-in list.
    pub extra_dynamic_attrs: Vec<String>,
    /// Extra directory names to skip, merged with the built-in list.
    pub extra_skip_dirs: Vec<String>,
}

impl View for ScanOptions {
    type V = ScanOptionsView;

    open spec fn view(&self) -> ScanOptionsView {
        ScanOptionsView {
            include_overrides: self.include_overrides,
            include_tests: self.include_tests,
            min_len: self.min_len,
            extra_noise: strings_view(self.extra_noise@),
            extra_dynamic_attrs: strings_view(self.extra_dynamic_attrs@),
            extra_skip_dirs: strings_view(self.extra_skip_dirs@),
        }
    }
}

impl Default for ScanOptions {
    fn default() -> (res: Self)
        ensures
            !res.include_overrides,
            !res.include_tests,
            res.min_len == 3,
            res.extra_noise@.len() == 0,
            res.extra_dynamic_attrs@.len() == 0,
            res.extra_skip_dirs@.len() == 0,
    {
        Self {
            include_overrides: false,
            include_tests: false,
            min_len: 3,
            extra_noise: Vec::new(),
            extra_dynamic_attrs: Vec::new(),
            extra_skip_dirs: Vec::new(),
        }
    }
}

pub enum ScanErrorView {
    RootNotFound(Seq<char>),
    NoSourceFiles(Seq<char>),
}

#[derive(Debug)]
pub enum ScanError {
    RootNotFound(String),
    NoSourceFiles(String),
}

impl View for ScanError {
    type V = ScanErrorView;

    open spec fn view(&self) -> ScanErrorView {
        match self {
            ScanError::RootNotFound(p) => ScanErrorView::RootNotFound(p@),
            ScanError::NoSourceFiles(p) => ScanErrorView::NoSourceFiles(p@),
        }
    }
}

pub open spec fn error_message(e: ScanErrorView) -> Seq<char> {
    match e {
        ScanErrorView::RootNotFound(p) => "path does not exist: "@ + p,
        ScanErrorView::NoSourceFiles(p) => "no .swift/.kt/.kts files found under "@ + p,
    }
}

impl ScanError {
    /// The human-readable message for this error.
    pub fn message(&self) -> (res: String)
        ensures
            res@ == error_message(self@),
    {
        match self {
            ScanError::RootNotFound(p) => String::from_str("path does not exist: ").concat(
                p.as_str(),
            ),
            ScanError::NoSourceFiles(p) => String::from_str(
                "no .swift/.kt/.kts files found under ",
            ).concat(p.as_str()),
        }
    }
}

} // verus!
