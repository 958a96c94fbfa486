//! Command-line logic: argument parsing, bucket filtering, the text report,
//! and the exit decision. Reading the arguments and writing the output are
//! left to the caller.
use vstd::prelude::*;
use vstd::string::{StringSliceAdditionalSpecFns, StringExecFns, StrSliceExecFns};
use vstd::utf8::encode_utf8;
use crate::text::{str_eq, decimal, push_decimal};
use crate::paths::{lowercase, to_lowercase, join_path, with_extension, path_join, path_with_extension};
use crate::types::{Bucket, ScanOptions, ScanOptionsView, ScanReport, ScanReportView, Finding, FindingView, findings_view, only_bucket, count_in, strings_view, bucket_label, bucket_note};

verus! {

pub const DEFAULT_REPORT_NAME: &'static str = "deadcode-report.json";

pub open spec fn is_digit(c: u8) -> bool {
    0x30 <= c && c <= 0x39
}

/// Value of a string of decimal digits.
pub open spec fn decimal_value(d: Seq<u8>) -> nat
    decreases d.len(),
{
    if d.len() == 0 {
        0
    } else {
        decimal_value(d.drop_last()) * 10 + (d.last() - 0x30) as nat
    }
}

/// The digits after an optional leading `+`.
pub open spec fn unsigned_digits(s: Seq<u8>) -> Seq<u8> {
    if s.len() > 0 && s[0] == 0x2B {
        s.skip(1)
    } else {
        s
    }
}

pub open spec fn all_digits(d: Seq<u8>) -> bool {
    forall|i: int| 0 <= i < d.len() ==> is_digit(#[trigger] d[i])
}

/// What `str::parse::<usize>` accepts: an optional `+`, then one or more
/// ASCII digits whose value fits in a `usize`.
pub open spec fn parse_usize_spec(s: Seq<u8>) -> Option<usize> {
    let d = unsigned_digits(s);
    if d.len() == 0 || !all_digits(d) {
        None
    } else if decimal_value(d) > usize::MAX {
        None
    } else {
        Some(decimal_value(d) as usize)
    }
}

proof fn lemma_decimal_step(d: Seq<u8>, i: int)
    requires
        0 <= i < d.len(),
    ensures
        decimal_value(d.take(i + 1)) == decimal_value(d.take(i)) * 10 + (d[i] - 0x30) as nat,
{
    assert(d.take(i + 1).drop_last() =~= d.take(i));
}

proof fn lemma_decimal_monotone(d: Seq<u8>, i: int, j: int)
    requires
        0 <= i <= j <= d.len(),
        all_digits(d),
    ensures
        decimal_value(d.take(i)) <= decimal_value(d.take(j)),
    decreases j - i,
{
    if i < j {
        lemma_decimal_monotone(d, i, j - 1);
        lemma_decimal_step(d, j - 1);
        assert(is_digit(d[j - 1]));
        let a = decimal_value(d.take(j - 1));
        assert(a <= a * 10) by (nonlinear_arith);
    }
}

/// Parses a decimal `usize` as `str::parse` does.
pub fn parse_usize(s: &str) -> (res: Option<usize>)
    ensures
        res == parse_usize_spec(s.spec_bytes()),
{
    let b = s.as_bytes();
    let ghost bs = s.spec_bytes();
    let start: usize = if b.len() > 0 && b[0] == 0x2B {
        1
    } else {
        0
    };
    let ghost d = unsigned_digits(bs);
    assert(d =~= bs.skip(start as int));
    if b.len() == start {
        return None;
    }
    let mut i = start;
    while i < b.len()
        invariant
            b@ == bs,
            bs == s.spec_bytes(),
            d == unsigned_digits(bs),
            d == bs.skip(start as int),
            start <= i <= bs.len(),
            forall|k: int| start <= k < i ==> is_digit(#[trigger] bs[k]),
        decreases bs.len() - i,
    {
        if !(b[i] >= 0x30 && b[i] <= 0x39) {
            assert(!all_digits(d)) by {
                assert(d[i - start] == bs[i as int]);
                assert(!is_digit(d[i - start]));
            }
            return None;
        }
        i += 1;
    }
    assert(all_digits(d)) by {
        assert forall|k: int| 0 <= k < d.len() implies is_digit(#[trigger] d[k]) by {
            assert(d[k] == bs[k + start]);
        }
    }
    let mut v: usize = 0;
    let mut j = start;
    assert(d.take(0) =~= Seq::<u8>::empty());
    while j < b.len()
        invariant
            b@ == bs,
            bs == s.spec_bytes(),
            d == unsigned_digits(bs),
            d == bs.skip(start as int),
            start <= j <= bs.len(),
            all_digits(d),
            v == decimal_value(d.take(j - start)),
        decreases bs.len() - j,
    {
        proof {
            assert(d[j - start] == bs[j as int]);
            assert(is_digit(d[j - start]));
            lemma_decimal_step(d, j - start);
        }
        let digit = (b[j] - 0x30) as usize;
        if v > (usize::MAX - digit) / 10 {
            proof {
                assert(v * 10 + digit > usize::MAX) by (nonlinear_arith)
                    requires
                        v > (usize::MAX - digit) / 10,
                        digit <= 9,
                ;
                lemma_decimal_monotone(d, j - start + 1, d.len() as int);
                assert(d.take(d.len() as int) =~= d);
            }
            return None;
        }
        proof {
            assert(v * 10 + digit <= usize::MAX) by (nonlinear_arith)
                requires
                    v <= (usize::MAX - digit) / 10,
                    digit <= 9,
            ;
        }
        v = v * 10 + digit;
        j += 1;
    }
    assert(d.take(j - start) =~= d);
    Some(v)
}

/// A parsed command line, as plain values.
pub struct CliView {
    pub root: Seq<char>,
    pub opts: ScanOptionsView,
    pub json: bool,
    pub out: Option<Seq<char>>,
    pub html: bool,
    pub write_json_file: bool,
    pub only: Option<Bucket>,
    pub fail_on_dead: bool,
}

/// A parsed command line.
pub struct Cli {
    /// Directory (or file) to scan.
    pub root: String,
    pub opts: ScanOptions,
    /// Print JSON instead of the text report.
    pub json: bool,
    /// Where to write the report files, when any are asked for.
    pub out: Option<String>,
    /// Write an HTML report beside `out`.
    pub html: bool,
    /// Write the JSON report to `out`.
    pub write_json_file: bool,
    /// Report only this bucket.
    pub only: Option<Bucket>,
    /// Exit with status 2 when a DEAD finding exists.
    pub fail_on_dead: bool,
}

pub open spec fn opt_string_view(o: Option<String>) -> Option<Seq<char>> {
    match o {
        Some(s) => Some(s@),
        None => None,
    }
}

impl View for Cli {
    type V = CliView;

    open spec fn view(&self) -> CliView {
        CliView {
            root: self.root@,
            opts: self.opts@,
            json: self.json,
            out: opt_string_view(self.out),
            html: self.html,
            write_json_file: self.write_json_file,
            only: self.only,
            fail_on_dead: self.fail_on_dead,
        }
    }
}

/// What the arguments read so far have set.
pub struct ArgState {
    pub root: Option<Seq<char>>,
    pub opts: ScanOptionsView,
    pub json: bool,
    pub out: Option<Seq<char>>,
    pub html: bool,
    pub wants_json_file: bool,
    pub only: Option<Bucket>,
    pub fail_on_dead: bool,
}

pub open spec fn default_options() -> ScanOptionsView {
    ScanOptionsView {
        include_overrides: false,
        include_tests: false,
        min_len: 3,
        extra_noise: seq![],
        extra_dynamic_attrs: seq![],
        extra_skip_dirs: seq![],
    }
}

pub open spec fn initial_state() -> ArgState {
    ArgState {
        root: None,
        opts: default_options(),
        json: false,
        out: None,
        html: false,
        wants_json_file: false,
        only: None,
        fail_on_dead: false,
    }
}

/// The bucket a lower-cased `--bucket` value names.
pub open spec fn bucket_named(lower: Seq<char>) -> Option<Bucket> {
    if lower == "dead"@ {
        Some(Bucket::Dead)
    } else if lower == "test-only"@ || lower == "testonly"@ {
        Some(Bucket::TestOnly)
    } else if lower == "dynamic"@ {
        Some(Bucket::Dynamic)
    } else {
        None
    }
}

/// The outcome once every argument has been read: the root is required,
/// and `--html` alone still writes beside the default report name.
pub open spec fn finish_args(st: ArgState) -> Result<Option<CliView>, Seq<char>> {
    match st.root {
        None => Err("missing <path>"@),
        Some(root) => Ok(
            Some(
                CliView {
                    root,
                    opts: st.opts,
                    json: st.json,
                    out: if st.html && st.out is None {
                        Some(DEFAULT_REPORT_NAME@)
                    } else {
                        st.out
                    },
                    html: st.html,
                    write_json_file: st.wants_json_file,
                    only: st.only,
                    fail_on_dead: st.fail_on_dead,
                },
            ),
        ),
    }
}

/// Reads `args` from index `i` on, in state `st`. `Ok(None)` is a request
/// for help; `Err` carries the message for the user.
pub open spec fn parse_from(args: Seq<Seq<char>>, i: int, st: ArgState) -> Result<
    Option<CliView>,
    Seq<char>,
>
    decreases args.len() - i,
{
    if i < 0 || i >= args.len() {
        finish_args(st)
    } else {
        let a = args[i];
        let has_value = i + 1 < args.len();
        if a == "-h"@ || a == "--help"@ {
            Ok(None)
        } else if a == "--json"@ {
            parse_from(args, i + 1, ArgState { json: true, ..st })
        } else if a == "--save"@ {
            parse_from(
                args,
                i + 1,
                ArgState { out: Some(DEFAULT_REPORT_NAME@), wants_json_file: true, ..st },
            )
        } else if a == "--out"@ {
            if !has_value {
                Err("--out needs a path"@)
            } else {
                parse_from(
                    args,
                    i + 2,
                    ArgState { out: Some(args[i + 1]), wants_json_file: true, ..st },
                )
            }
        } else if a == "--html"@ {
            parse_from(args, i + 1, ArgState { html: true, ..st })
        } else if a == "--include-overrides"@ {
            parse_from(
                args,
                i + 1,
                ArgState { opts: ScanOptionsView { include_overrides: true, ..st.opts }, ..st },
            )
        } else if a == "--include-tests"@ {
            parse_from(
                args,
                i + 1,
                ArgState { opts: ScanOptionsView { include_tests: true, ..st.opts }, ..st },
            )
        } else if a == "--fail-on-dead"@ {
            parse_from(args, i + 1, ArgState { fail_on_dead: true, ..st })
        } else if a == "--min-len"@ {
            if !has_value {
                Err("--min-len needs a number"@)
            } else {
                match parse_usize_spec(encode_utf8(args[i + 1])) {
                    None => Err("bad --min-len value: "@ + args[i + 1]),
                    Some(n) => parse_from(
                        args,
                        i + 2,
                        ArgState { opts: ScanOptionsView { min_len: n, ..st.opts }, ..st },
                    ),
                }
            }
        } else if a == "--bucket"@ {
            if !has_value {
                Err("--bucket needs a value"@)
            } else {
                let lower = lowercase(args[i + 1]);
                match bucket_named(lower) {
                    None => Err("unknown bucket: "@ + lower),
                    Some(b) => parse_from(args, i + 2, ArgState { only: Some(b), ..st }),
                }
            }
        } else if a.len() > 0 && a[0] == '-' {
            Err("unknown flag: "@ + a)
        } else if st.root is Some {
            Err("unexpected extra argument: "@ + a)
        } else {
            parse_from(args, i + 1, ArgState { root: Some(a), ..st })
        }
    }
}

/// The command line `args` (the program name left out) describes.
pub open spec fn parse_args_spec(args: Seq<Seq<char>>) -> Result<Option<CliView>, Seq<char>> {
    parse_from(args, 0, initial_state())
}

pub open spec fn parse_result_view(r: Result<Option<Cli>, String>) -> Result<
    Option<CliView>,
    Seq<char>,
> {
    match r {
        Ok(Some(c)) => Ok(Some(c@)),
        Ok(None) => Ok(None),
        Err(e) => Err(e@),
    }
}

/// The bucket a lower-cased `--bucket` value names, if any.
pub fn parse_bucket_name(lower: &str) -> (res: Option<Bucket>)
    ensures
        res == bucket_named(lower@),
{
    if str_eq(lower, "dead") {
        Some(Bucket::Dead)
    } else if str_eq(lower, "test-only") || str_eq(lower, "testonly") {
        Some(Bucket::TestOnly)
    } else if str_eq(lower, "dynamic") {
        Some(Bucket::Dynamic)
    } else {
        None
    }
}

pub open spec fn state_of(
    root: Option<String>,
    opts: ScanOptions,
    json: bool,
    out: Option<String>,
    html: bool,
    wants_json_file: bool,
    only: Option<Bucket>,
    fail_on_dead: bool,
) -> ArgState {
    ArgState {
        root: opt_string_view(root),
        opts: opts@,
        json,
        out: opt_string_view(out),
        html,
        wants_json_file,
        only,
        fail_on_dead,
    }
}

fn message(text: &str) -> (res: String)
    ensures
        res@ == text@,
{
    String::from_str(text)
}

fn message_with(text: &str, value: &str) -> (res: String)
    ensures
        res@ == text@ + value@,
{
    String::from_str(text).concat(value)
}

/// Parses the command line (the program name left out).
///
/// `Ok(None)` means help was asked for; `Err` holds the message to show
/// above the usage text.
pub fn parse_args(args: &Vec<String>) -> (res: Result<Option<Cli>, String>)
    ensures
        parse_result_view(res) == parse_args_spec(strings_view(args@)),
{
    let ghost av = strings_view(args@);
    let mut root: Option<String> = None;
    let mut opts = ScanOptions::default();
    let mut json = false;
    let mut out: Option<String> = None;
    let mut html = false;
    let mut wants_json_file = false;
    let mut only: Option<Bucket> = None;
    let mut fail_on_dead = false;
    assert(opts@.extra_noise =~= seq![]);
    assert(opts@.extra_dynamic_attrs =~= seq![]);
    assert(opts@.extra_skip_dirs =~= seq![]);
    assert(state_of(root, opts, json, out, html, wants_json_file, only, fail_on_dead)
        == initial_state());
    let mut i: usize = 0;
    while i < args.len()
        invariant
            i <= args@.len(),
            av == strings_view(args@),
            av.len() == args@.len(),
            parse_args_spec(av) == parse_from(
                av,
                i as int,
                state_of(root, opts, json, out, html, wants_json_file, only, fail_on_dead),
            ),
        decreases args@.len() - i,
    {
        let a = args[i].as_str();
        let has_value = i + 1 < args.len();
        assert(a@ == av[i as int]);
        if str_eq(a, "-h") || str_eq(a, "--help") {
            return Ok(None);
        } else if str_eq(a, "--json") {
            json = true;
        } else if str_eq(a, "--save") {
            out = Some(String::from_str(DEFAULT_REPORT_NAME));
            wants_json_file = true;
        } else if str_eq(a, "--out") {
            if !has_value {
                return Err(message("--out needs a path"));
            }
            i += 1;
            assert(args[i as int]@ == av[i as int]);
            out = Some(args[i].clone());
            wants_json_file = true;
        } else if str_eq(a, "--html") {
            html = true;
        } else if str_eq(a, "--include-overrides") {
            opts.include_overrides = true;
        } else if str_eq(a, "--include-tests") {
            opts.include_tests = true;
        } else if str_eq(a, "--fail-on-dead") {
            fail_on_dead = true;
        } else if str_eq(a, "--min-len") {
            if !has_value {
                return Err(message("--min-len needs a number"));
            }
            i += 1;
            let v = args[i].as_str();
            assert(v@ == av[i as int]);
            match parse_usize(v) {
                Some(n) => {
                    opts.min_len = n;
                },
                None => {
                    return Err(message_with("bad --min-len value: ", v));
                },
            }
        } else if str_eq(a, "--bucket") {
            if !has_value {
                return Err(message("--bucket needs a value"));
            }
            i += 1;
            let v = args[i].as_str();
            assert(v@ == av[i as int]);
            let lower = to_lowercase(v);
            match parse_bucket_name(lower.as_str()) {
                Some(b) => {
                    only = Some(b);
                },
                None => {
                    return Err(message_with("unknown bucket: ", lower.as_str()));
                },
            }
        } else if !a.is_empty() && a.get_char(0) == '-' {
            return Err(message_with("unknown flag: ", a));
        } else {
            if root.is_some() {
                return Err(message_with("unexpected extra argument: ", a));
            }
            root = Some(args[i].clone());
        }
        i += 1;
    }
    match root {
        None => Err(message("missing <path>")),
        Some(root) => {
            if html && out.is_none() {
                out = Some(String::from_str(DEFAULT_REPORT_NAME));
            }
            Ok(
                Some(
                    Cli {
                        root,
                        opts,
                        json,
                        out,
                        html,
                        write_json_file: wants_json_file,
                        only,
                        fail_on_dead,
                    },
                ),
            )
        },
    }
}

/// Keeps only the findings in `bucket`; the counters are left as they were.
pub fn filter_bucket(report: ScanReport, bucket: Bucket) -> (res: ScanReport)
    ensures
        res@ == (ScanReportView { findings: only_bucket(report@.findings, bucket), ..report@ }),
{
    let ScanReport { root, code_files, resource_files, declarations, findings } = report;
    let ghost fv = findings_view(findings@);
    let mut kept: Vec<Finding> = Vec::new();
    for f in it: findings
        invariant
            fv == findings_view(it.seq()),
            findings_view(kept@) == only_bucket(fv.take(it.index() as int), bucket),
    {
        let ghost k = it.index() as int;
        assert(fv.take(k + 1).drop_last() =~= fv.take(k));
        assert(fv[k] == f@);
        if f.bucket == bucket {
            let ghost before = kept@;
            kept.push(f);
            assert(findings_view(kept@) =~= findings_view(before).push(f@));
        }
    }
    assert(fv.take(fv.len() as int) =~= fv);
    ScanReport { root, code_files, resource_files, declarations, findings: kept }
}

/// One finding's line in the text report.
pub open spec fn finding_line(f: FindingView) -> Seq<char> {
    "  "@ + f.file + ":"@ + decimal(f.line as nat) + "  ["@ + f.kind + "]  "@ + f.name + "\n"@
}

pub open spec fn finding_lines(fs: Seq<FindingView>) -> Seq<char>
    decreases fs.len(),
{
    if fs.len() == 0 {
        seq![]
    } else {
        finding_lines(fs.drop_last()) + finding_line(fs.last())
    }
}

/// A bucket's part of the text report: nothing when it is empty, else a
/// heading, one line per finding and a blank line.
pub open spec fn bucket_section(r: ScanReportView, b: Bucket) -> Seq<char> {
    let n = count_in(r.findings, b);
    if n == 0 {
        seq![]
    } else {
        "== "@ + bucket_label(b) + " ("@ + decimal(n) + ") — "@ + bucket_note(b) + "\n"@
            + finding_lines(only_bucket(r.findings, b)) + "\n"@
    }
}

/// The human-readable report.
pub open spec fn text_report(r: ScanReportView) -> Seq<char> {
    "scanned "@ + decimal(r.code_files as nat) + " code files, "@ + decimal(
        r.resource_files as nat,
    ) + " resource files, "@ + decimal(r.declarations as nat) + " declarations\n\n"@
        + bucket_section(r, Bucket::Dead) + bucket_section(r, Bucket::TestOnly) + bucket_section(
        r,
        Bucket::Dynamic,
    ) + if r.findings.len() == 0 {
        "nothing flagged.\n"@
    } else {
        seq![]
    }
}

fn push_finding_line(out: &mut String, f: &Finding)
    ensures
        final(out)@ == old(out)@ + finding_line(f@),
{
    out.append("  ");
    out.append(f.file.as_str());
    out.append(":");
    push_decimal(out, f.line as u64);
    out.append("  [");
    out.append(f.kind.as_str());
    out.append("]  ");
    out.append(f.name.as_str());
    out.append("\n");
    assert(out@ =~= old(out)@ + finding_line(f@));
}

fn push_finding_lines(out: &mut String, items: &Vec<&Finding>)
    ensures
        final(out)@ == old(out)@ + finding_lines(items@.map_values(|f: &Finding| f@)),
{
    let ghost iv = items@.map_values(|f: &Finding| f@);
    let mut j: usize = 0;
    assert(old(out)@ + finding_lines(iv.take(0)) =~= old(out)@) by {
        assert(iv.take(0) =~= Seq::<FindingView>::empty());
    }
    while j < items.len()
        invariant
            j <= items@.len(),
            iv == items@.map_values(|f: &Finding| f@),
            out@ == old(out)@ + finding_lines(iv.take(j as int)),
        decreases items@.len() - j,
    {
        assert(iv.take(j + 1).drop_last() =~= iv.take(j as int));
        assert(iv[j as int] == items@[j as int]@);
        push_finding_line(out, items[j]);
        assert(out@ =~= old(out)@ + finding_lines(iv.take(j + 1)));
        j += 1;
    }
    assert(iv.take(j as int) =~= iv);
}

fn push_bucket_heading(out: &mut String, bucket: Bucket, n: usize)
    ensures
        final(out)@ == old(out)@ + ("== "@ + bucket_label(bucket) + " ("@ + decimal(n as nat)
            + ") — "@ + bucket_note(bucket) + "\n"@),
{
    out.append("== ");
    out.append(bucket.label());
    out.append(" (");
    push_decimal(out, n as u64);
    out.append(") — ");
    out.append(bucket.note());
    out.append("\n");
    assert(out@ =~= old(out)@ + ("== "@ + bucket_label(bucket) + " ("@ + decimal(n as nat)
        + ") — "@ + bucket_note(bucket) + "\n"@));
}

fn push_bucket_section(out: &mut String, report: &ScanReport, bucket: Bucket)
    ensures
        final(out)@ == old(out)@ + bucket_section(report@, bucket),
{
    let n = report.count(bucket);
    if n == 0 {
        assert(old(out)@ + bucket_section(report@, bucket) =~= old(out)@);
        return;
    }
    push_bucket_heading(out, bucket, n);
    let items = report.in_bucket(bucket);
    push_finding_lines(out, &items);
    out.append("\n");
    assert(out@ =~= old(out)@ + bucket_section(report@, bucket));
}

/// Renders the human-readable report that the command prints.
pub fn render_text(report: &ScanReport) -> (res: String)
    ensures
        res@ == text_report(report@),
{
    let mut out = String::from_str("scanned ");
    push_decimal(&mut out, report.code_files as u64);
    out.append(" code files, ");
    push_decimal(&mut out, report.resource_files as u64);
    out.append(" resource files, ");
    push_decimal(&mut out, report.declarations as u64);
    out.append(" declarations\n\n");
    let buckets = Bucket::ALL;
    push_bucket_section(&mut out, report, buckets[0]);
    push_bucket_section(&mut out, report, buckets[1]);
    push_bucket_section(&mut out, report, buckets[2]);
    if report.findings.len() == 0 {
        out.append("nothing flagged.\n");
    }
    assert(out@ =~= text_report(report@));
    out
}

/// The process exit status once the report is out: 2 when `--fail-on-dead`
/// was given and a DEAD finding exists, else 0.
pub fn exit_status(cli: &Cli, report: &ScanReport) -> (res: u8)
    ensures
        res == (if cli.fail_on_dead && count_in(report@.findings, Bucket::Dead) > 0 {
            2u8
        } else {
            0u8
        }),
{
    if cli.fail_on_dead && report.count(Bucket::Dead) > 0 {
        2
    } else {
        0
    }
}

/// The report files a run writes, in order: the JSON file when it is asked
/// for, then the HTML file. A directory destination gets the default report
/// name inside it; the HTML file is that path with the extension `html`.
pub open spec fn planned_outputs(
    dest: Seq<char>,
    dest_is_dir: bool,
    write_json: bool,
    write_html: bool,
) -> Seq<Seq<char>> {
    let base = if dest_is_dir {
        path_join(dest, DEFAULT_REPORT_NAME@)
    } else {
        dest
    };
    (if write_json {
        seq![base]
    } else {
        seq![]
    }) + (if write_html {
        seq![path_with_extension(base, "html"@)]
    } else {
        seq![]
    })
}

/// Where the report files go, for a destination that is or is not a
/// directory.
pub fn output_paths(dest: &str, dest_is_dir: bool, write_json: bool, write_html: bool) -> (res: Vec<
    String,
>)
    ensures
        strings_view(res@) == planned_outputs(dest@, dest_is_dir, write_json, write_html),
{
    let base = if dest_is_dir {
        join_path(dest, DEFAULT_REPORT_NAME)
    } else {
        String::from_str(dest)
    };
    let mut res: Vec<String> = Vec::new();
    if write_json {
        res.push(base.clone());
    }
    if write_html {
        proof {
            reveal_strlit("html");
            assert(!"html"@.contains('/') && !"html"@.contains('\\')) by {
                assert forall|i: int| 0 <= i < "html"@.len() implies "html"@[i] != '/'
                    && "html"@[i] != '\\' by {}
            }
        }
        res.push(with_extension(base.as_str(), "html"));
    }
    assert(strings_view(res@) =~= planned_outputs(dest@, dest_is_dir, write_json, write_html));
    res
}

} // verus!
