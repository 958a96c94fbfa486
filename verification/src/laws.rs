//! Properties of the scan that hold for every input: what a finding's
//! bucket and counts mean, which names never show up, and how the report
//! is ordered and counted.
use vstd::prelude::*;
use vstd::string::StringSliceAdditionalSpecFns;
use vstd::utf8::{
    decode_utf8, encode_utf8, is_char_boundary, is_continuation_byte, valid_first_scalar, valid_utf8,
};
use crate::cli::{
    ArgState, CliView, DEFAULT_REPORT_NAME, bucket_named, finish_args, initial_state, parse_args_spec, parse_from,
    parse_usize_spec,
};
use crate::html::{embedded_json, replace_bytes};
use crate::lang::{
    DECL_LEAD, KOTLIN_MODIFIERS, PROPERTY_LEAD, PatternsView, builtin_patterns, kotlin_pattern_sources,
    patterns_for, regex_captures,
};
use crate::lexer::{
    QUOTE, SLASH, STAR, block_scan, string_scan, lemma_string_scan_bounds, count_of, lemma_lex_step_bounds, lex_from, lex_step, line_end,
    min_int, pair_at, stripped_code, triple_quote_at, triple_scan, utf8_width, ident_end,
    identifiers, identifiers_from, is_ident_byte, is_ident_start, lemma_ident_end_bounds, bump, bump_all,
};
use crate::paths::{is_test_path_spec, lowercase, path_equal, path_order, relative_path};
use crate::scan::{
    DeclSite, SourceFileView, TalliesView, bytes_lt, capture_findings, classify, count_newlines,
    dedup_findings, file_language, file_scan, files_scan, finding_before, insert_sorted,
    LBRACE, RBRACE, attr_names, attr_window, has_attr_near, newline_before, body_range, brace_scan, noise_names, pass1, pattern_findings, same_declaration, scan_result, site, sort_findings,
};
use crate::text::{NL, contains_bytes, lemma_boundary_after_ascii, occurs_at};
use crate::types::{Bucket, FindingView, ScanOptionsView, count_in, only_bucket};

verus! {

/// The counts a finding carries are the evidence for its bucket: DEAD
/// names occur at most once in code and never in strings or resources,
/// TEST-ONLY names at most once in production code and otherwise only in
/// tests, DYNAMIC? names at most once in code but somewhere in strings or
/// resources.
pub open spec fn bucket_evidence(f: FindingView) -> bool {
    match f.bucket {
        Bucket::Dead => f.prod_refs + f.test_refs <= 1 && f.dynamic_refs == 0,
        Bucket::TestOnly => f.prod_refs + f.test_refs > 1 && f.prod_refs <= 1 && f.test_refs > 0,
        Bucket::Dynamic => f.prod_refs + f.test_refs <= 1 && f.dynamic_refs > 0,
    }
}

/// A finding is backed by the corpus: its counts are the name's counts in
/// the tallies, they support its bucket, and the name got past the
/// suppressions (long enough, not a noise name, not a protocol or
/// interface member).
pub open spec fn justified(f: FindingView, opts: ScanOptionsView, t: TalliesView) -> bool {
    &&& f.prod_refs == count_of(t.prod, f.name)
    &&& f.test_refs == count_of(t.test, f.name)
    &&& f.dynamic_refs == count_of(t.dynamic, f.name)
    &&& bucket_evidence(f)
    &&& encode_utf8(f.name).len() >= opts.min_len
    &&& !noise_names(opts).contains(f.name)
    &&& !t.conformance.contains(f.name)
}

pub open spec fn all_justified(s: Seq<FindingView>, opts: ScanOptionsView, t: TalliesView) -> bool {
    forall|i: int| 0 <= i < s.len() ==> justified(#[trigger] s[i], opts, t)
}

proof fn lemma_classify_justified(
    t: TalliesView,
    opts: ScanOptionsView,
    st: DeclSite,
    cap: (usize, usize, Option<(usize, usize)>),
)
    ensures
        classify(t, opts, st, cap) matches Some(f) ==> justified(f, opts, t),
{
}

proof fn lemma_capture_findings_justified(
    t: TalliesView,
    opts: ScanOptionsView,
    st: DeclSite,
    caps: Seq<(usize, usize, Option<(usize, usize)>)>,
)
    ensures
        all_justified(capture_findings(t, opts, st, caps), opts, t),
        capture_findings(t, opts, st, caps).len() <= caps.len(),
    decreases caps.len(),
{
    if caps.len() > 0 {
        lemma_capture_findings_justified(t, opts, st, caps.drop_last());
        lemma_classify_justified(t, opts, st, caps.last());
    }
}

proof fn lemma_pattern_findings_justified(
    t: TalliesView,
    opts: ScanOptionsView,
    root: Seq<char>,
    f: SourceFileView,
    language: crate::types::Language,
    in_test: bool,
    raw: Seq<char>,
    pats: Seq<(Seq<char>, Seq<char>)>,
)
    ensures
        all_justified(pattern_findings(t, opts, root, f, language, in_test, raw, pats), opts, t),
        pattern_findings(t, opts, root, f, language, in_test, raw, pats).len()
            <= crate::scan::pattern_decls(raw, pats),
    decreases pats.len(),
{
    if pats.len() > 0 {
        let prev = pattern_findings(t, opts, root, f, language, in_test, raw, pats.drop_last());
        let st = site(root, f.path, language, in_test, encode_utf8(raw), pats.last().0);
        let caps = regex_captures(pats.last().1, raw);
        lemma_pattern_findings_justified(t, opts, root, f, language, in_test, raw, pats.drop_last());
        lemma_capture_findings_justified(t, opts, st, caps);
        let cur = capture_findings(t, opts, st, caps);
        assert forall|i: int| 0 <= i < (prev + cur).len() implies justified(
            #[trigger] (prev + cur)[i],
            opts,
            t,
        ) by {
            if i < prev.len() {
                assert((prev + cur)[i] == prev[i]);
            } else {
                assert((prev + cur)[i] == cur[i - prev.len()]);
            }
        }
    }
}

pub proof fn lemma_files_scan_justified(
    t: TalliesView,
    opts: ScanOptionsView,
    root: Seq<char>,
    p: PatternsView,
    files: Seq<SourceFileView>,
)
    ensures
        all_justified(files_scan(t, opts, root, p, files).1, opts, t),
        files_scan(t, opts, root, p, files).1.len() <= files_scan(t, opts, root, p, files).0,
    decreases files.len(),
{
    if files.len() > 0 {
        lemma_files_scan_justified(t, opts, root, p, files.drop_last());
        let f = files.last();
        match f.contents {
            None => {},
            Some(raw) => match crate::scan::file_language(f.path) {
                None => {},
                Some(language) => {
                    let in_test = crate::paths::is_test_path_spec(f.path);
                    lemma_pattern_findings_justified(
                        t,
                        opts,
                        root,
                        f,
                        language,
                        in_test,
                        raw,
                        patterns_for(p, language),
                    );
                },
            },
        }
        let prev = files_scan(t, opts, root, p, files.drop_last()).1;
        let cur = file_scan(t, opts, root, p, f).1;
        assert forall|i: int| 0 <= i < (prev + cur).len() implies justified(
            #[trigger] (prev + cur)[i],
            opts,
            t,
        ) by {
            if i < prev.len() {
                assert((prev + cur)[i] == prev[i]);
            } else {
                assert((prev + cur)[i] == cur[i - prev.len()]);
            }
        }
    }
}

/// Every element of `insert_sorted(s, x)` is `x` or an element of `s`, and
/// it has one element more.
pub proof fn lemma_insert_sorted_elements(s: Seq<FindingView>, x: FindingView)
    ensures
        insert_sorted(s, x).len() == s.len() + 1,
        forall|i: int|
            0 <= i < insert_sorted(s, x).len() ==> #[trigger] insert_sorted(s, x)[i] == x
                || s.contains(insert_sorted(s, x)[i]),
    decreases s.len(),
{
    if s.len() > 0 && crate::scan::finding_before(x, s.last()) {
        lemma_insert_sorted_elements(s.drop_last(), x);
        let r = insert_sorted(s.drop_last(), x);
        assert forall|i: int| 0 <= i < r.push(s.last()).len() implies #[trigger] r.push(
            s.last(),
        )[i] == x || s.contains(r.push(s.last())[i]) by {
            if i == r.len() {
                assert(s[s.len() - 1] == s.last());
            } else {
                assert(r.push(s.last())[i] == r[i]);
                if r[i] != x {
                    let k = choose|k: int| 0 <= k < s.drop_last().len() && s.drop_last()[k] == r[i];
                    assert(s[k] == r[i]);
                }
            }
        }
    } else if s.len() > 0 {
        assert forall|i: int| 0 <= i < s.push(x).len() implies #[trigger] s.push(x)[i] == x
            || s.contains(s.push(x)[i]) by {
            if i < s.len() {
                assert(s.push(x)[i] == s[i]);
            }
        }
    }
}

/// The sort keeps the elements and the length.
pub proof fn lemma_sort_elements(s: Seq<FindingView>)
    ensures
        sort_findings(s).len() == s.len(),
        forall|i: int| 0 <= i < sort_findings(s).len() ==> s.contains(#[trigger] sort_findings(s)[i]),
    decreases s.len(),
{
    if s.len() > 0 {
        lemma_sort_elements(s.drop_last());
        let r = sort_findings(s.drop_last());
        lemma_insert_sorted_elements(r, s.last());
        assert forall|i: int| 0 <= i < sort_findings(s).len() implies s.contains(
            #[trigger] sort_findings(s)[i],
        ) by {
            let y = insert_sorted(r, s.last())[i];
            if y == s.last() {
                assert(s[s.len() - 1] == y);
            } else {
                let k = choose|k: int| 0 <= k < r.len() && r[k] == y;
                let j = choose|j: int| 0 <= j < s.drop_last().len() && s.drop_last()[j] == r[k];
                assert(s[j] == y);
            }
        }
    }
}

/// Dropping repeats keeps only elements of the input, and no more of them.
pub proof fn lemma_dedup_elements(s: Seq<FindingView>)
    ensures
        dedup_findings(s).len() <= s.len(),
        forall|i: int| 0 <= i < dedup_findings(s).len() ==> s.contains(#[trigger] dedup_findings(s)[i]),
    decreases s.len(),
{
    if s.len() > 0 {
        lemma_dedup_elements(s.drop_last());
        let d = dedup_findings(s.drop_last());
        assert forall|i: int| 0 <= i < dedup_findings(s).len() implies s.contains(
            #[trigger] dedup_findings(s)[i],
        ) by {
            let y = dedup_findings(s)[i];
            if i < d.len() {
                assert(y == d[i]);
                let j = choose|j: int| 0 <= j < s.drop_last().len() && s.drop_last()[j] == d[i];
                assert(s[j] == y);
            } else {
                assert(y == s.last());
                assert(s[s.len() - 1] == y);
            }
        }
    }
}

/// Every reported finding is backed by the corpus: its counts are the
/// name's counts over all files, they support its bucket, and its name is
/// long enough, not a noise name, and not declared in any protocol or
/// interface body.
pub proof fn law_findings_justified(
    root: Seq<char>,
    files: Seq<SourceFileView>,
    opts: ScanOptionsView,
    p: PatternsView,
)
    ensures
        match scan_result(root, files, opts, p) {
            Ok(r) => all_justified(r.findings, opts, pass1(files, p)),
            Err(_) => true,
        },
{
    let t = pass1(files, p);
    let raw = files_scan(t, opts, root, p, files).1;
    lemma_files_scan_justified(t, opts, root, p, files);
    lemma_sort_elements(raw);
    lemma_dedup_elements(sort_findings(raw));
    let out = dedup_findings(sort_findings(raw));
    assert forall|i: int| 0 <= i < out.len() implies justified(#[trigger] out[i], opts, t) by {
        let j = choose|j: int| 0 <= j < sort_findings(raw).len() && sort_findings(raw)[j] == out[i];
        let k = choose|k: int| 0 <= k < raw.len() && raw[k] == sort_findings(raw)[j];
        assert(justified(raw[k], opts, t));
    }
}

/// The count of a bucket is the number of findings listed under it.
pub proof fn law_count_is_bucket_size(fs: Seq<FindingView>, b: Bucket)
    ensures
        count_in(fs, b) == only_bucket(fs, b).len(),
    decreases fs.len(),
{
    if fs.len() > 0 {
        law_count_is_bucket_size(fs.drop_last(), b);
    }
}

/// The three bucket counts add up to the number of findings.
pub proof fn law_bucket_counts_sum(fs: Seq<FindingView>)
    ensures
        count_in(fs, Bucket::Dead) + count_in(fs, Bucket::TestOnly) + count_in(fs, Bucket::Dynamic)
            == fs.len(),
    decreases fs.len(),
{
    if fs.len() > 0 {
        law_bucket_counts_sum(fs.drop_last());
    }
}

/// The findings listed under a bucket are exactly those of the report in
/// that bucket, in report order: each is in the bucket, and each is one of
/// the report's findings.
pub proof fn law_bucket_listing(fs: Seq<FindingView>, b: Bucket)
    ensures
        forall|i: int| 0 <= i < only_bucket(fs, b).len() ==> (#[trigger] only_bucket(fs, b)[i]).bucket == b
            && fs.contains(only_bucket(fs, b)[i]),
        only_bucket(fs, b).len() <= fs.len(),
    decreases fs.len(),
{
    if fs.len() > 0 {
        law_bucket_listing(fs.drop_last(), b);
        let prev = only_bucket(fs.drop_last(), b);
        assert forall|i: int| 0 <= i < only_bucket(fs, b).len() implies (#[trigger] only_bucket(
            fs,
            b,
        )[i]).bucket == b && fs.contains(only_bucket(fs, b)[i]) by {
            if i < prev.len() {
                assert(only_bucket(fs, b)[i] == prev[i]);
                let j = choose|j: int| 0 <= j < fs.drop_last().len() && fs.drop_last()[j] == prev[i];
                assert(fs[j] == prev[i]);
            } else {
                assert(only_bucket(fs, b)[i] == fs.last());
                assert(fs[fs.len() - 1] == fs.last());
            }
        }
    }
}

/// Keeping one bucket leaves its count as it was and empties the others.
pub proof fn law_filter_counts(fs: Seq<FindingView>, b: Bucket, c: Bucket)
    ensures
        count_in(only_bucket(fs, b), c) == if b == c {
            count_in(fs, c)
        } else {
            0
        },
    decreases fs.len(),
{
    if fs.len() > 0 {
        law_filter_counts(fs.drop_last(), b, c);
        if fs.last().bucket == b {
            let prev = only_bucket(fs.drop_last(), b);
            assert(only_bucket(fs, b).drop_last() =~= prev);
        }
    }
}

proof fn lemma_parse_destination(args: Seq<Seq<char>>, i: int, st: ArgState)
    requires
        st.wants_json_file ==> st.out is Some,
    ensures
        parse_from(args, i, st) matches Ok(Some(c)) ==> ((c.html || c.write_json_file)
            ==> c.out is Some),
    decreases args.len() - i,
{
    if 0 <= i < args.len() {
        let a = args[i];
        if a == "-h"@ || a == "--help"@ {
        } else if a == "--json"@ {
            lemma_parse_destination(args, i + 1, ArgState { json: true, ..st });
        } else if a == "--save"@ {
            lemma_parse_destination(
                args,
                i + 1,
                ArgState { out: Some(DEFAULT_REPORT_NAME@), wants_json_file: true, ..st },
            );
        } else if a == "--out"@ {
            if i + 1 < args.len() {
                lemma_parse_destination(
                    args,
                    i + 2,
                    ArgState { out: Some(args[i + 1]), wants_json_file: true, ..st },
                );
            }
        } else if a == "--html"@ {
            lemma_parse_destination(args, i + 1, ArgState { html: true, ..st });
        } else if a == "--include-overrides"@ {
            lemma_parse_destination(
                args,
                i + 1,
                ArgState { opts: ScanOptionsView { include_overrides: true, ..st.opts }, ..st },
            );
        } else if a == "--include-tests"@ {
            lemma_parse_destination(
                args,
                i + 1,
                ArgState { opts: ScanOptionsView { include_tests: true, ..st.opts }, ..st },
            );
        } else if a == "--fail-on-dead"@ {
            lemma_parse_destination(args, i + 1, ArgState { fail_on_dead: true, ..st });
        } else if a == "--min-len"@ {
            if i + 1 < args.len() {
                match parse_usize_spec(encode_utf8(args[i + 1])) {
                    None => {},
                    Some(n) => {
                        lemma_parse_destination(
                            args,
                            i + 2,
                            ArgState { opts: ScanOptionsView { min_len: n, ..st.opts }, ..st },
                        );
                    },
                }
            }
        } else if a == "--bucket"@ {
            if i + 1 < args.len() {
                match bucket_named(lowercase(args[i + 1])) {
                    None => {},
                    Some(b) => {
                        lemma_parse_destination(args, i + 2, ArgState { only: Some(b), ..st });
                    },
                }
            }
        } else if a.len() > 0 && a[0] == '-' {
        } else if st.root is Some {
        } else {
            lemma_parse_destination(args, i + 1, ArgState { root: Some(a), ..st });
        }
    }
}

/// A command line that asks for a JSON or an HTML file always names where
/// it goes: `--html` alone falls back to the default report name.
pub proof fn law_files_have_destination(args: Seq<Seq<char>>)
    ensures
        parse_args_spec(args) matches Ok(Some(c)) ==> ((c.html || c.write_json_file)
            ==> c.out is Some),
{
    lemma_parse_destination(args, 0, initial_state());
}

/// The bytes of `</`.
pub open spec fn close_tag() -> Seq<u8> {
    seq![0x3Cu8, 0x2Fu8]
}

/// The bytes of `<\\/`.
pub open spec fn escaped_close() -> Seq<u8> {
    seq![0x3Cu8, 0x5Cu8, 0x2Fu8]
}

proof fn lemma_escape_keeps_first(h: Seq<u8>)
    requires
        h.len() > 0,
    ensures
        replace_bytes(h, close_tag(), escaped_close()).len() > 0,
        replace_bytes(h, close_tag(), escaped_close())[0] == h[0],
{
    let f = close_tag();
    if occurs_at(h, f, 0) {
        assert(h[0] == h.subrange(0, 2)[0]);
    }
}

proof fn lemma_escape_no_close(h: Seq<u8>)
    ensures
        forall|k: int| !occurs_at(
            #[trigger] replace_bytes(h, close_tag(), escaped_close()),
            close_tag(),
            k,
        ),
    decreases h.len(),
{
    let f = close_tag();
    let t = escaped_close();
    let r = replace_bytes(h, f, t);
    if h.len() == 0 {
        assert forall|k: int| !occurs_at(r, f, k) by {}
    } else if occurs_at(h, f, 0) {
        let rest = h.skip(2);
        lemma_escape_no_close(rest);
        let rr = replace_bytes(rest, f, t);
        assert(r == t + rr);
        assert forall|k: int| !occurs_at(r, f, k) by {
            if occurs_at(r, f, k) {
                assert(r.subrange(k, k + 2)[0] == r[k]);
                assert(r.subrange(k, k + 2)[1] == r[k + 1]);
                if k < 2 {
                    assert(r[k] == t[k]);
                    assert(r[k + 1] == t[k + 1]);
                } else if k == 2 {
                    assert(r[k] == t[2]);
                } else {
                    assert(rr.subrange(k - 3, k - 1) =~= r.subrange(k, k + 2));
                    assert(occurs_at(rr, f, k - 3));
                }
            }
        }
    } else {
        let rest = h.skip(1);
        lemma_escape_no_close(rest);
        let rr = replace_bytes(rest, f, t);
        assert(r == seq![h[0]] + rr);
        assert forall|k: int| !occurs_at(r, f, k) by {
            if occurs_at(r, f, k) {
                assert(r.subrange(k, k + 2)[0] == r[k]);
                assert(r.subrange(k, k + 2)[1] == r[k + 1]);
                if k == 0 {
                    assert(r[0] == h[0]);
                    assert(rr.len() > 0);
                    lemma_escape_keeps_first(rest);
                    assert(r[1] == rr[0]);
                    assert(rr[0] == h[1]);
                    assert(h.subrange(0, 2) =~= f);
                } else {
                    assert(rr.subrange(k - 1, k + 1) =~= r.subrange(k, k + 2));
                    assert(occurs_at(rr, f, k - 1));
                }
            }
        }
    }
}

/// The report's JSON, once embedded in the page, holds no `</`, so no
/// string in the report can close the `<script>` element that carries it.
pub proof fn law_embedded_json_cannot_close_script(json: Seq<u8>)
    ensures
        !contains_bytes(embedded_json(json), "</".spec_bytes()),
{
    reveal_strlit("</");
    reveal_strlit("<\\/");
    assert("</".spec_bytes() =~= close_tag()) by {
        vstd::utf8::is_ascii_chars_encode_utf8("</"@);
    }
    assert("<\\/".spec_bytes() =~= escaped_close()) by {
        vstd::utf8::is_ascii_chars_encode_utf8("<\\/"@);
    }
    lemma_escape_no_close(json);
}

proof fn lemma_escape_reversible(h: Seq<u8>)
    requires
        forall|k: int| !occurs_at(h, escaped_close(), k),
    ensures
        replace_bytes(replace_bytes(h, close_tag(), escaped_close()), escaped_close(), close_tag()) == h,
    decreases h.len(),
{
    let f = close_tag();
    let t = escaped_close();
    let r1 = replace_bytes(h, f, t);
    if h.len() == 0 {
        assert(r1 =~= Seq::<u8>::empty());
    } else if occurs_at(h, f, 0) {
        let rest = h.skip(2);
        assert forall|k: int| !occurs_at(rest, t, k) by {
            if occurs_at(rest, t, k) {
                assert(h.subrange(k + 2, k + 5) =~= rest.subrange(k, k + 3));
                assert(occurs_at(h, t, k + 2));
            }
        }
        lemma_escape_reversible(rest);
        let r1r = replace_bytes(rest, f, t);
        assert(r1 == t + r1r);
        assert((t + r1r).subrange(0, 3) =~= t);
        assert((t + r1r).skip(3) =~= r1r);
        assert(replace_bytes(r1, t, f) == f + replace_bytes(r1r, t, f));
        assert(h.subrange(0, 2) =~= f);
        assert(f + rest =~= h);
    } else {
        let rest = h.skip(1);
        assert forall|k: int| !occurs_at(rest, t, k) by {
            if occurs_at(rest, t, k) {
                assert(h.subrange(k + 1, k + 4) =~= rest.subrange(k, k + 3));
                assert(occurs_at(h, t, k + 1));
            }
        }
        lemma_escape_reversible(rest);
        let r1r = replace_bytes(rest, f, t);
        assert(r1 == seq![h[0]] + r1r);
        if occurs_at(r1, t, 0) {
            assert(r1.subrange(0, 3)[0] == r1[0]);
            assert(r1.subrange(0, 3)[1] == r1[1]);
            assert(r1.subrange(0, 3)[2] == r1[2]);
            assert(r1[1] == r1r[0]);
            lemma_escape_keeps_first(rest);
            assert(rest[0] == h[1]);
            assert(h[1] == 0x5Cu8);
            assert(!occurs_at(rest, f, 0)) by {
                if occurs_at(rest, f, 0) {
                    assert(rest.subrange(0, 2)[0] == rest[0]);
                }
            }
            let rest2 = rest.skip(1);
            assert(r1r == seq![rest[0]] + replace_bytes(rest2, f, t));
            assert(r1[2] == r1r[1]);
            assert(rest2.len() > 0);
            lemma_escape_keeps_first(rest2);
            assert(rest2[0] == h[2]);
            assert(r1[0] == h[0]);
            assert(r1r[1] == replace_bytes(rest2, f, t)[0]);
            assert(h[0] == t[0] && h[1] == t[1] && h[2] == t[2]);
            assert(h.subrange(0, 3) =~= t);
            assert(occurs_at(h, t, 0));
        }
        assert(r1.skip(1) =~= r1r);
        assert(replace_bytes(r1, t, f) == seq![h[0]] + replace_bytes(r1r, t, f));
        assert(seq![h[0]] + rest =~= h);
    }
}

/// Escaping loses nothing: turning each `<\\/` of the embedded JSON back
/// into `</` gives the report's JSON again, for any JSON that holds no
/// `<\\/` of its own.
pub proof fn law_embedded_json_unescapes(json: Seq<u8>)
    requires
        !contains_bytes(json, "<\\/".spec_bytes()),
    ensures
        replace_bytes(embedded_json(json), "<\\/".spec_bytes(), "</".spec_bytes()) == json,
{
    reveal_strlit("</");
    reveal_strlit("<\\/");
    assert("</".spec_bytes() =~= close_tag()) by {
        vstd::utf8::is_ascii_chars_encode_utf8("</"@);
    }
    assert("<\\/".spec_bytes() =~= escaped_close()) by {
        vstd::utf8::is_ascii_chars_encode_utf8("<\\/"@);
    }
    assert forall|k: int| !occurs_at(json, escaped_close(), k) by {
        if occurs_at(json, escaped_close(), k) {
            assert(contains_bytes(json, "<\\/".spec_bytes()));
        }
    }
    lemma_escape_reversible(json);
}

/// `path_order` orders paths totally and agrees with `path_equal`, as `Ord`
/// and `Eq` for `std::path::Path` promise.
pub open spec fn path_order_is_total() -> bool {
    &&& forall|a: Seq<char>, b: Seq<char>|
        #![trigger path_order(a, b)]
        -1 <= path_order(a, b) <= 1 && path_order(b, a) == -path_order(a, b)
    &&& forall|a: Seq<char>, b: Seq<char>, c: Seq<char>|
        #![trigger path_order(a, b), path_order(b, c)]
        path_order(a, b) <= 0 && path_order(b, c) <= 0 ==> path_order(a, c) <= 0 && (path_order(
            a,
            b,
        ) == -1 || path_order(b, c) == -1 ==> path_order(a, c) == -1)
    &&& forall|a: Seq<char>, b: Seq<char>| #[trigger] path_equal(a, b) <==> path_order(a, b) == 0
}

proof fn lemma_bytes_lt_irreflexive(a: Seq<u8>)
    ensures
        !bytes_lt(a, a),
    decreases a.len(),
{
    if a.len() > 0 {
        lemma_bytes_lt_irreflexive(a.drop_first());
    }
}

proof fn lemma_bytes_lt_asymmetric(a: Seq<u8>, b: Seq<u8>)
    ensures
        !(bytes_lt(a, b) && bytes_lt(b, a)),
    decreases a.len(),
{
    if a.len() > 0 && b.len() > 0 && a[0] == b[0] {
        lemma_bytes_lt_asymmetric(a.drop_first(), b.drop_first());
    }
}

proof fn lemma_bytes_lt_total(a: Seq<u8>, b: Seq<u8>)
    ensures
        a != b ==> bytes_lt(a, b) || bytes_lt(b, a),
    decreases a.len(),
{
    if a.len() > 0 && b.len() > 0 && a[0] == b[0] {
        lemma_bytes_lt_total(a.drop_first(), b.drop_first());
        if a.drop_first() == b.drop_first() {
            assert(a =~= seq![a[0]] + a.drop_first());
            assert(b =~= seq![b[0]] + b.drop_first());
        }
    } else if a.len() == 0 && b.len() == 0 {
        assert(a =~= b);
    }
}

proof fn lemma_bytes_lt_transitive(a: Seq<u8>, b: Seq<u8>, c: Seq<u8>)
    requires
        bytes_lt(a, b),
        bytes_lt(b, c),
    ensures
        bytes_lt(a, c),
    decreases a.len(),
{
    if a.len() > 0 && b.len() > 0 && c.len() > 0 && a[0] == b[0] && b[0] == c[0] {
        lemma_bytes_lt_transitive(a.drop_first(), b.drop_first(), c.drop_first());
    }
}

/// `x` and `y` have the same sort key: neither sorts before the other.
pub open spec fn same_key(x: FindingView, y: FindingView) -> bool {
    !finding_before(x, y) && !finding_before(y, x)
}

proof fn lemma_before_asymmetric(x: FindingView, y: FindingView)
    requires
        path_order_is_total(),
    ensures
        !(finding_before(x, y) && finding_before(y, x)),
{
    assert(path_order(y.file, x.file) == -path_order(x.file, y.file));
    lemma_bytes_lt_asymmetric(encode_utf8(x.name), encode_utf8(y.name));
}

/// Sorting before goes through any third finding: if `x` sorts before `z`,
/// it sorts before `y` or `y` sorts before `z`.
proof fn lemma_before_split(x: FindingView, y: FindingView, z: FindingView)
    requires
        path_order_is_total(),
        finding_before(x, z),
    ensures
        finding_before(x, y) || finding_before(y, z),
{
    let (ex, ey, ez) = (encode_utf8(x.name), encode_utf8(y.name), encode_utf8(z.name));
    let (oxy, oyz, oxz) = (
        path_order(x.file, y.file),
        path_order(y.file, z.file),
        path_order(x.file, z.file),
    );
    assert(path_order(y.file, x.file) == -oxy);
    assert(path_order(z.file, y.file) == -oyz);
    if !finding_before(x, y) && !finding_before(y, z) {
        assert(oxy >= 0);
        assert(oyz >= 0);
        assert(path_order(y.file, x.file) <= 0);
        assert(path_order(z.file, y.file) <= 0);
        assert(path_order(z.file, x.file) <= 0);
        assert(oxz == -path_order(z.file, x.file));
        if oxy == 0 && oyz == 0 {
            assert(x.line <= y.line);
            assert(y.line <= z.line);
            if x.line == y.line && y.line == z.line {
                lemma_bytes_lt_total(ex, ey);
                lemma_bytes_lt_total(ey, ez);
                if ex != ey && ey != ez {
                    lemma_bytes_lt_transitive(ez, ey, ex);
                    lemma_bytes_lt_asymmetric(ex, ez);
                } else if ex == ey {
                    lemma_bytes_lt_total(ez, ey);
                    lemma_bytes_lt_asymmetric(ex, ez);
                } else {
                    lemma_bytes_lt_asymmetric(ex, ez);
                }
            }
        } else {
            assert(path_order(z.file, x.file) == -1);
        }
    }
}

/// Two findings with the same sort key are at the same file (as a path) and
/// line, with the same name.
proof fn lemma_same_key(x: FindingView, y: FindingView)
    requires
        path_order_is_total(),
        same_key(x, y),
    ensures
        path_order(x.file, y.file) == 0,
        x.line == y.line,
        x.name == y.name,
{
    assert(path_order(y.file, x.file) == -path_order(x.file, y.file));
    lemma_bytes_lt_total(encode_utf8(x.name), encode_utf8(y.name));
    crate::text::lemma_encode_injective(x.name, y.name);
}

/// A repeat of a declaration has the same sort key.
proof fn lemma_repeat_same_key(x: FindingView, y: FindingView)
    requires
        path_order_is_total(),
        same_declaration(x, y),
    ensures
        same_key(x, y),
        same_declaration(y, x),
{
    assert(path_equal(x.file, y.file));
    assert(path_order(y.file, x.file) == -path_order(x.file, y.file));
    assert(path_equal(y.file, x.file));
    lemma_bytes_lt_irreflexive(encode_utf8(x.name));
}

/// No finding sorts before an earlier one.
pub open spec fn sorted_findings(s: Seq<FindingView>) -> bool {
    forall|i: int, j: int| 0 <= i < j < s.len() ==> !finding_before(#[trigger] s[j], #[trigger] s[i])
}

/// No declaration is reported twice.
pub open spec fn no_repeats(s: Seq<FindingView>) -> bool {
    forall|i: int, j: int|
        0 <= i < j < s.len() ==> !same_declaration(#[trigger] s[i], #[trigger] s[j])
}

proof fn lemma_insert_sorted_sorted(s: Seq<FindingView>, x: FindingView)
    requires
        path_order_is_total(),
        sorted_findings(s),
    ensures
        sorted_findings(insert_sorted(s, x)),
    decreases s.len(),
{
    if s.len() == 0 {
    } else if finding_before(x, s.last()) {
        let r = insert_sorted(s.drop_last(), x);
        lemma_insert_sorted_sorted(s.drop_last(), x);
        lemma_insert_sorted_elements(s.drop_last(), x);
        let out = r.push(s.last());
        assert forall|i: int, j: int| 0 <= i < j < out.len() implies !finding_before(
            #[trigger] out[j],
            #[trigger] out[i],
        ) by {
            if j < r.len() {
                assert(out[i] == r[i] && out[j] == r[j]);
            } else {
                assert(out[j] == s.last());
                assert(out[i] == r[i]);
                if r[i] == x {
                    lemma_before_asymmetric(x, s.last());
                } else {
                    let k = choose|k: int| 0 <= k < s.drop_last().len() && s.drop_last()[k] == r[i];
                    assert(s[k] == r[i]);
                    assert(s[s.len() - 1] == s.last());
                }
            }
        }
    } else {
        let out = s.push(x);
        assert forall|i: int, j: int| 0 <= i < j < out.len() implies !finding_before(
            #[trigger] out[j],
            #[trigger] out[i],
        ) by {
            if j < s.len() {
                assert(out[i] == s[i] && out[j] == s[j]);
            } else {
                assert(out[j] == x);
                assert(out[i] == s[i]);
                assert(s[s.len() - 1] == s.last());
                if finding_before(x, s[i]) {
                    lemma_before_split(x, s.last(), s[i]);
                }
            }
        }
    }
}

proof fn lemma_sort_sorted(s: Seq<FindingView>)
    requires
        path_order_is_total(),
    ensures
        sorted_findings(sort_findings(s)),
    decreases s.len(),
{
    if s.len() > 0 {
        lemma_sort_sorted(s.drop_last());
        lemma_insert_sorted_sorted(sort_findings(s.drop_last()), s.last());
    }
}

proof fn lemma_dedup_sorted_no_repeats(s: Seq<FindingView>)
    requires
        path_order_is_total(),
        sorted_findings(s),
    ensures
        sorted_findings(dedup_findings(s)),
        no_repeats(dedup_findings(s)),
    decreases s.len(),
{
    if s.len() > 0 {
        let s0 = s.drop_last();
        let x = s.last();
        assert(sorted_findings(s0)) by {
            assert forall|i: int, j: int| 0 <= i < j < s0.len() implies !finding_before(
                #[trigger] s0[j],
                #[trigger] s0[i],
            ) by {
                assert(s0[i] == s[i] && s0[j] == s[j]);
            }
        }
        lemma_dedup_sorted_no_repeats(s0);
        lemma_dedup_elements(s0);
        let d = dedup_findings(s0);
        if d.len() > 0 && same_declaration(x, d.last()) {
        } else {
            let out = d.push(x);
            assert forall|i: int| 0 <= i < d.len() implies !finding_before(x, #[trigger] d[i]) by {
                let k = choose|k: int| 0 <= k < s0.len() && s0[k] == d[i];
                assert(s[k] == d[i]);
                assert(s[s.len() - 1] == x);
            }
            assert forall|i: int, j: int| 0 <= i < j < out.len() implies !finding_before(
                #[trigger] out[j],
                #[trigger] out[i],
            ) by {
                if j < d.len() {
                    assert(out[i] == d[i] && out[j] == d[j]);
                } else {
                    assert(out[i] == d[i]);
                }
            }
            assert forall|i: int, j: int| 0 <= i < j < out.len() implies !same_declaration(
                #[trigger] out[i],
                #[trigger] out[j],
            ) by {
                if j < d.len() {
                    assert(out[i] == d[i] && out[j] == d[j]);
                } else {
                    assert(out[i] == d[i]);
                    assert(out[j] == x);
                    if same_declaration(d[i], x) {
                        lemma_repeat_same_key(d[i], x);
                        let last = d.last();
                        assert(d[d.len() - 1] == last);
                        if i < d.len() - 1 {
                            assert(!finding_before(last, d[i]));
                            assert(!finding_before(x, last));
                            if finding_before(last, x) {
                                lemma_before_split(last, d[i], x);
                            }
                            lemma_same_key(x, last);
                            assert(path_equal(x.file, last.file));
                        }
                    }
                }
            }
        }
    }
}

/// The findings come out sorted by file, line and name, with no declaration
/// reported twice, as long as paths compare as `Path`'s `Ord` promises.
pub proof fn law_findings_sorted_without_repeats(
    root: Seq<char>,
    files: Seq<SourceFileView>,
    opts: ScanOptionsView,
    p: PatternsView,
)
    requires
        path_order_is_total(),
    ensures
        match scan_result(root, files, opts, p) {
            Ok(r) => sorted_findings(r.findings) && no_repeats(r.findings),
            Err(_) => true,
        },
{
    let raw = files_scan(pass1(files, p), opts, root, p, files).1;
    lemma_sort_sorted(raw);
    lemma_dedup_sorted_no_repeats(sort_findings(raw));
}

/// Whatever the path order, no finding repeats the one just before it.
pub proof fn law_no_adjacent_repeats(
    root: Seq<char>,
    files: Seq<SourceFileView>,
    opts: ScanOptionsView,
    p: PatternsView,
)
    ensures
        match scan_result(root, files, opts, p) {
            Ok(r) => forall|i: int|
                0 < i < r.findings.len() ==> !same_declaration(
                    #[trigger] r.findings[i],
                    r.findings[i - 1],
                ),
            Err(_) => true,
        },
{
    let raw = files_scan(pass1(files, p), opts, root, p, files).1;
    lemma_dedup_adjacent(sort_findings(raw));
}

proof fn lemma_dedup_adjacent(s: Seq<FindingView>)
    ensures
        forall|i: int|
            0 < i < dedup_findings(s).len() ==> !same_declaration(
                #[trigger] dedup_findings(s)[i],
                dedup_findings(s)[i - 1],
            ),
    decreases s.len(),
{
    if s.len() > 0 {
        lemma_dedup_adjacent(s.drop_last());
        let d = dedup_findings(s.drop_last());
        if !(d.len() > 0 && same_declaration(s.last(), d.last())) {
            assert forall|i: int| 0 < i < d.push(s.last()).len() implies !same_declaration(
                #[trigger] d.push(s.last())[i],
                d.push(s.last())[i - 1],
            ) by {
                if i < d.len() {
                    assert(d.push(s.last())[i] == d[i]);
                    assert(d.push(s.last())[i - 1] == d[i - 1]);
                } else {
                    assert(d.push(s.last())[i - 1] == d[d.len() - 1]);
                }
            }
        }
    }
}

proof fn lemma_count_newlines_concat(a: Seq<u8>, b: Seq<u8>)
    ensures
        count_newlines(a + b) == count_newlines(a) + count_newlines(b),
    decreases b.len(),
{
    if b.len() == 0 {
        assert(a + b =~= a);
    } else {
        lemma_count_newlines_concat(a, b.drop_last());
        assert((a + b).drop_last() =~= a + b.drop_last());
    }
}

proof fn lemma_count_newlines_split(b: Seq<u8>, i: int, j: int, k: int)
    requires
        0 <= i <= j <= k <= b.len(),
    ensures
        count_newlines(b.subrange(i, k)) == count_newlines(b.subrange(i, j)) + count_newlines(
            b.subrange(j, k),
        ),
{
    assert(b.subrange(i, k) =~= b.subrange(i, j) + b.subrange(j, k));
    lemma_count_newlines_concat(b.subrange(i, j), b.subrange(j, k));
}

proof fn lemma_count_newlines_pair(b: Seq<u8>, i: int)
    requires
        0 <= i,
        i + 2 <= b.len(),
        b[i] != NL,
        b[i + 1] != NL,
    ensures
        count_newlines(b.subrange(i, i + 2)) == 0,
{
    lemma_count_newlines_one(b, i);
    lemma_count_newlines_one(b, i + 1);
    lemma_count_newlines_split(b, i, i + 1, i + 2);
}

proof fn lemma_count_newlines_one(b: Seq<u8>, i: int)
    requires
        0 <= i < b.len(),
    ensures
        count_newlines(b.subrange(i, i + 1)) == if b[i] == NL {
            1nat
        } else {
            0nat
        },
{
    let s = b.subrange(i, i + 1);
    assert(s.drop_last() =~= Seq::<u8>::empty());
    assert(count_newlines(s.drop_last()) == 0);
    assert(s.last() == b[i]);
}

proof fn lemma_count_newlines_prepend(x: u8, s: Seq<u8>)
    ensures
        count_newlines(seq![x] + s) == count_newlines(s) + if x == NL {
            1nat
        } else {
            0nat
        },
{
    lemma_count_newlines_concat(seq![x], s);
    assert(seq![x].drop_last() =~= Seq::<u8>::empty());
    assert(count_newlines(seq![x].drop_last()) == 0);
}

proof fn lemma_line_end_newlines(b: Seq<u8>, i: int)
    requires
        0 <= i <= b.len(),
    ensures
        i <= line_end(b, i) <= b.len(),
        count_newlines(b.subrange(i, line_end(b, i))) == 0,
    decreases b.len() - i,
{
    if i < b.len() && b[i] != NL {
        lemma_line_end_newlines(b, i + 1);
        lemma_count_newlines_one(b, i);
        lemma_count_newlines_split(b, i, i + 1, line_end(b, i));
    } else {
        assert(b.subrange(i, i) =~= Seq::<u8>::empty());
    }
}

proof fn lemma_block_scan_newlines(b: Seq<u8>, j: int, depth: nat)
    requires
        0 <= j <= b.len(),
    ensures
        j <= block_scan(b, j, depth).0 <= b.len(),
        count_newlines(block_scan(b, j, depth).1) == count_newlines(
            b.subrange(j, block_scan(b, j, depth).0),
        ),
    decreases b.len() - j,
{
    let r = block_scan(b, j, depth);
    if j >= b.len() || depth == 0 {
        assert(b.subrange(j, j) =~= Seq::<u8>::empty());
        assert(count_newlines(Seq::<u8>::empty()) == 0);
    } else if pair_at(b, j, SLASH, STAR) || pair_at(b, j, STAR, SLASH) {
        let d = if pair_at(b, j, SLASH, STAR) {
            depth + 1
        } else {
            (depth - 1) as nat
        };
        lemma_block_scan_newlines(b, j + 2, d);
        lemma_count_newlines_pair(b, j);
        lemma_count_newlines_split(b, j, j + 2, r.0);
    } else {
        lemma_block_scan_newlines(b, j + 1, depth);
        lemma_count_newlines_one(b, j);
        lemma_count_newlines_split(b, j, j + 1, r.0);
        lemma_count_newlines_prepend(NL, block_scan(b, j + 1, depth).1);
    }
}

proof fn lemma_triple_scan_newlines(b: Seq<u8>, j: int)
    requires
        0 <= j <= b.len(),
    ensures
        j <= triple_scan(b, j).0 <= b.len(),
        triple_scan(b, j).0 < b.len() ==> triple_quote_at(b, triple_scan(b, j).0),
        count_newlines(triple_scan(b, j).1) == count_newlines(b.subrange(j, triple_scan(b, j).0)),
    decreases b.len() - j,
{
    let r = triple_scan(b, j);
    if j >= b.len() || triple_quote_at(b, j) {
        assert(b.subrange(j, j) =~= Seq::<u8>::empty());
        assert(count_newlines(Seq::<u8>::empty()) == 0);
    } else {
        lemma_triple_scan_newlines(b, j + 1);
        lemma_count_newlines_one(b, j);
        lemma_count_newlines_split(b, j, j + 1, r.0);
        lemma_count_newlines_prepend(NL, triple_scan(b, j + 1).1);
    }
}

/// Newlines the step at `i` consumes and newlines it writes to the code.
pub open spec fn step_newlines(b: Seq<u8>, i: int) -> (nat, nat) {
    let s = lex_step(b, i);
    (count_newlines(b.subrange(i, s.0)), count_newlines(s.1))
}

/// On valid UTF-8 every step writes to the code as many newlines as it
/// consumed.
proof fn lemma_step_newlines(b: Seq<u8>, i: int)
    requires
        0 <= i < b.len(),
        valid_utf8(b),
    ensures
        step_newlines(b, i).1 == step_newlines(b, i).0,
{
    let len = b.len() as int;
    let s = lex_step(b, i);
    lemma_lex_step_bounds(b, i);
    assert(count_newlines(Seq::<u8>::empty()) == 0);
    if pair_at(b, i, SLASH, SLASH) {
        lemma_line_end_newlines(b, i);
    } else if pair_at(b, i, SLASH, STAR) {
        lemma_block_scan_newlines(b, i + 2, 1);
        lemma_count_newlines_pair(b, i);
        lemma_count_newlines_split(b, i, i + 2, s.0);
    } else if triple_quote_at(b, i) {
        let r = triple_scan(b, i + 3);
        lemma_triple_scan_newlines(b, i + 3);
        lemma_count_prefix_without_newline(b, i, i + 3);
        lemma_count_newlines_split(b, i, i + 3, r.0);
        lemma_count_newlines_split(b, i, r.0, s.0);
        if r.0 < len {
            lemma_count_prefix_without_newline(b, r.0, r.0 + 3);
        } else {
            assert(b.subrange(r.0, s.0) =~= Seq::<u8>::empty());
        }
    } else if b[i] == QUOTE {
        let j = string_scan(b, i + 1);
        lemma_string_scan_bounds(b, i + 1);
        lemma_count_prefix_without_newline(b, i, j);
        if j < len && b[j] == QUOTE {
            lemma_count_newlines_one(b, j);
            lemma_count_newlines_split(b, i, j, j + 1);
        }
    } else {
        let end = min_int(i + utf8_width(b[i]), len);
        assert(s.0 == end);
        if !(is_char_boundary(b, i) && is_char_boundary(b, end)) {
            lemma_code_step_without_boundaries(b, i);
        } else {
            assert(s.1 == b.subrange(i, end));
        }
    }
}

/// Where the lexer drops the bytes of a code step for want of character
/// boundaries, valid UTF-8 puts no newline among them.
proof fn lemma_code_step_without_boundaries(b: Seq<u8>, i: int)
    requires
        0 <= i < b.len(),
        !pair_at(b, i, SLASH, SLASH),
        !pair_at(b, i, SLASH, STAR),
        b[i] != QUOTE,
        !(is_char_boundary(b, i) && is_char_boundary(b, min_int(i + utf8_width(b[i]), b.len() as int))),
    ensures
        valid_utf8(b) ==> count_newlines(b.subrange(i, min_int(i + utf8_width(b[i]), b.len() as int))) == 0,
{
    let len = b.len() as int;
    let end = min_int(i + utf8_width(b[i]), len);
    let x = b[i];
    if valid_utf8(b) {
        vstd::utf8::is_char_boundary_iff_not_is_continuation_byte(b, i);
        if is_continuation_byte(x) {
            assert(utf8_width(x) == 1) by {
                assert(0x80 <= x <= 0xbf ==> !(x >> 5u8 == 0b110u8) && !(x >> 4u8 == 0b1110u8)
                    && !(x >> 3u8 == 0b11110u8)) by (bit_vector);
            }
            lemma_count_newlines_one(b, i);
        } else if x < 0x80 {
            assert(utf8_width(x) == 1);
            lemma_count_newlines_one(b, i);
            if x == NL {
                lemma_boundary_after_ascii(b, i + 1);
            }
        } else if x >> 5u8 == 0b110u8 || x >> 4u8 == 0b1110u8 || x >> 3u8 == 0b11110u8 {
            // a leading byte at a boundary: the bytes up to `end` are its continuation bytes
            let w = utf8_width(x) as int;
            assert((x >> 5u8 == 0b110u8 ==> 0xc0 <= x <= 0xdf) && (x >> 4u8 == 0b1110u8 ==> 0xe0
                <= x <= 0xef) && (x >> 3u8 == 0b11110u8 ==> 0xf0 <= x <= 0xf7)) by (bit_vector);
            assert(0xc0 <= x <= 0xdf ==> x >> 5u8 == 0b110u8) by (bit_vector);
            assert(0xe0 <= x <= 0xef ==> x >> 4u8 == 0b1110u8) by (bit_vector);
            vstd::utf8::valid_utf8_split(b, i);
            let rest = b.subrange(i, len);
            assert(valid_first_scalar(rest));
            assert(rest[0] == x);
            assert forall|k: int| i < k < end implies b[k] != NL by {
                assert(rest[k - i] == b[k]);
            }
            assert forall|k: int| i <= k <= end implies count_newlines(#[trigger] b.subrange(i, k)) == 0 by {
                lemma_count_prefix_without_newline(b, i, k);
            }
        } else {
            assert(utf8_width(x) == 1);
            lemma_count_newlines_one(b, i);
        }
    }
}

proof fn lemma_count_prefix_without_newline(b: Seq<u8>, i: int, k: int)
    requires
        0 <= i <= k <= b.len(),
        forall|m: int| i < m < k ==> b[m] != NL,
        i < k ==> b[i] != NL,
    ensures
        count_newlines(b.subrange(i, k)) == 0,
    decreases k - i,
{
    if i == k {
        assert(b.subrange(i, k) =~= Seq::<u8>::empty());
    } else {
        lemma_count_prefix_without_newline(b, i, k - 1);
        assert(b.subrange(i, k).drop_last() =~= b.subrange(i, k - 1));
    }
}

proof fn lemma_lex_newlines(b: Seq<u8>, i: int)
    requires
        0 <= i <= b.len(),
        valid_utf8(b),
    ensures
        count_newlines(lex_from(b, i).0) == count_newlines(b.subrange(i, b.len() as int)),
    decreases b.len() - i,
{
    let len = b.len() as int;
    if i >= len {
        assert(b.subrange(i, len) =~= Seq::<u8>::empty());
    } else {
        let s = lex_step(b, i);
        lemma_lex_step_bounds(b, i);
        lemma_lex_newlines(b, s.0);
        lemma_step_newlines(b, i);
        lemma_count_newlines_concat(s.1, lex_from(b, s.0).0);
        lemma_count_newlines_split(b, i, s.0, len);
    }
}

/// Stripping comments and string literals keeps every newline, so line
/// numbers computed on the source stay valid for the stripped code.
pub proof fn law_stripping_keeps_lines(s: Seq<char>)
    ensures
        count_newlines(stripped_code(encode_utf8(s))) == count_newlines(encode_utf8(s)),
{
    let b = encode_utf8(s);
    vstd::utf8::encode_utf8_valid_utf8(s);
    lemma_lex_newlines(b, 0);
    assert(b.subrange(0, b.len() as int) =~= b);
}

/// Where a finding comes from: a readable Swift or Kotlin file of the scan,
/// named by its path relative to the root, in the finding's language; not a
/// test file when test files are left out, nor for a TEST-ONLY finding.
pub open spec fn found_in(
    x: FindingView,
    f: SourceFileView,
    root: Seq<char>,
    opts: ScanOptionsView,
) -> bool {
    &&& f.contents is Some
    &&& x.file == relative_path(root, f.path)
    &&& file_language(f.path) == Some(x.language)
    &&& (x.bucket == Bucket::TestOnly ==> !is_test_path_spec(f.path))
    &&& (!opts.include_tests ==> !is_test_path_spec(f.path))
}

pub open spec fn from_some_file(
    x: FindingView,
    files: Seq<SourceFileView>,
    root: Seq<char>,
    opts: ScanOptionsView,
) -> bool {
    exists|k: int| 0 <= k < files.len() && found_in(x, #[trigger] files[k], root, opts)
}

proof fn lemma_capture_findings_site(
    t: TalliesView,
    opts: ScanOptionsView,
    st: DeclSite,
    caps: Seq<(usize, usize, Option<(usize, usize)>)>,
)
    ensures
        forall|i: int|
            0 <= i < capture_findings(t, opts, st, caps).len() ==> {
                let x = #[trigger] capture_findings(t, opts, st, caps)[i];
                &&& x.file == relative_path(st.root, st.path)
                &&& x.language == st.language
                &&& (x.bucket == Bucket::TestOnly ==> !st.in_test)
            },
    decreases caps.len(),
{
    if caps.len() > 0 {
        lemma_capture_findings_site(t, opts, st, caps.drop_last());
    }
}

proof fn lemma_pattern_findings_site(
    t: TalliesView,
    opts: ScanOptionsView,
    root: Seq<char>,
    f: SourceFileView,
    language: crate::types::Language,
    in_test: bool,
    raw: Seq<char>,
    pats: Seq<(Seq<char>, Seq<char>)>,
)
    ensures
        forall|i: int|
            0 <= i < pattern_findings(t, opts, root, f, language, in_test, raw, pats).len() ==> {
                let x = #[trigger] pattern_findings(t, opts, root, f, language, in_test, raw, pats)[i];
                &&& x.file == relative_path(root, f.path)
                &&& x.language == language
                &&& (x.bucket == Bucket::TestOnly ==> !in_test)
            },
    decreases pats.len(),
{
    if pats.len() > 0 {
        let prev = pattern_findings(t, opts, root, f, language, in_test, raw, pats.drop_last());
        let st = site(root, f.path, language, in_test, encode_utf8(raw), pats.last().0);
        let caps = regex_captures(pats.last().1, raw);
        lemma_pattern_findings_site(t, opts, root, f, language, in_test, raw, pats.drop_last());
        lemma_capture_findings_site(t, opts, st, caps);
        let cur = capture_findings(t, opts, st, caps);
        assert forall|i: int| 0 <= i < (prev + cur).len() implies {
            let x = #[trigger] (prev + cur)[i];
            &&& x.file == relative_path(root, f.path)
            &&& x.language == language
            &&& (x.bucket == Bucket::TestOnly ==> !in_test)
        } by {
            if i < prev.len() {
                assert((prev + cur)[i] == prev[i]);
            } else {
                assert((prev + cur)[i] == cur[i - prev.len()]);
            }
        }
    }
}

proof fn lemma_files_scan_provenance(
    t: TalliesView,
    opts: ScanOptionsView,
    root: Seq<char>,
    p: PatternsView,
    files: Seq<SourceFileView>,
)
    ensures
        forall|i: int|
            0 <= i < files_scan(t, opts, root, p, files).1.len() ==> from_some_file(
                #[trigger] files_scan(t, opts, root, p, files).1[i],
                files,
                root,
                opts,
            ),
    decreases files.len(),
{
    if files.len() > 0 {
        let n = files.len() - 1;
        let prev = files_scan(t, opts, root, p, files.drop_last()).1;
        let f = files.last();
        let cur = file_scan(t, opts, root, p, f).1;
        lemma_files_scan_provenance(t, opts, root, p, files.drop_last());
        match f.contents {
            None => {},
            Some(raw) => match file_language(f.path) {
                None => {},
                Some(language) => {
                    let in_test = is_test_path_spec(f.path);
                    lemma_pattern_findings_site(
                        t,
                        opts,
                        root,
                        f,
                        language,
                        in_test,
                        raw,
                        patterns_for(p, language),
                    );
                },
            },
        }
        assert forall|i: int| 0 <= i < (prev + cur).len() implies from_some_file(
            #[trigger] (prev + cur)[i],
            files,
            root,
            opts,
        ) by {
            let x = (prev + cur)[i];
            if i < prev.len() {
                assert(x == prev[i]);
                let k = choose|k: int|
                    0 <= k < files.drop_last().len() && found_in(
                        x,
                        #[trigger] files.drop_last()[k],
                        root,
                        opts,
                    );
                assert(files[k] == files.drop_last()[k]);
            } else {
                assert(x == cur[i - prev.len()]);
                assert(files[n] == f);
                assert(found_in(x, files[n], root, opts));
            }
        }
    }
}

/// Every finding comes from one of the scanned files: a readable Swift or
/// Kotlin file, which the finding names by its path relative to the root,
/// in the finding's language; a TEST-ONLY finding is declared outside the
/// test files, and without `include_tests` no finding is declared in one.
pub proof fn law_findings_come_from_scanned_files(
    root: Seq<char>,
    files: Seq<SourceFileView>,
    opts: ScanOptionsView,
    p: PatternsView,
)
    ensures
        match scan_result(root, files, opts, p) {
            Ok(r) => forall|i: int|
                0 <= i < r.findings.len() ==> from_some_file(#[trigger] r.findings[i], files, root, opts),
            Err(_) => true,
        },
{
    let t = pass1(files, p);
    let raw = files_scan(t, opts, root, p, files).1;
    lemma_files_scan_provenance(t, opts, root, p, files);
    lemma_sort_elements(raw);
    lemma_dedup_elements(sort_findings(raw));
    let out = dedup_findings(sort_findings(raw));
    assert forall|i: int| 0 <= i < out.len() implies from_some_file(#[trigger] out[i], files, root, opts) by {
        let j = choose|j: int| 0 <= j < sort_findings(raw).len() && sort_findings(raw)[j] == out[i];
        let k = choose|k: int| 0 <= k < raw.len() && raw[k] == sort_findings(raw)[j];
        assert(from_some_file(raw[k], files, root, opts));
    }
}

proof fn lemma_ident_end_shift(p: Seq<u8>, b: Seq<u8>, j: int)
    requires
        0 <= j <= b.len(),
    ensures
        ident_end(p + b, p.len() + j) == p.len() + ident_end(b, j),
    decreases b.len() - j,
{
    if j < b.len() && is_ident_byte(b[j]) {
        assert((p + b)[p.len() + j] == b[j]);
        lemma_ident_end_shift(p, b, j + 1);
    } else if j < b.len() {
        assert((p + b)[p.len() + j] == b[j]);
    }
}

/// Identifiers past a prefix are those of the rest.
proof fn lemma_identifiers_shift(p: Seq<u8>, b: Seq<u8>, j: int)
    requires
        0 <= j,
    ensures
        identifiers_from(p + b, p.len() + j) == identifiers_from(b, j),
    decreases b.len() + 4 - j,
{
    let x = p + b;
    if j < b.len() {
        assert(x[p.len() + j] == b[j]);
        if is_ident_start(b[j]) {
            lemma_ident_end_bounds(b, j + 1);
            lemma_ident_end_shift(p, b, j + 1);
            let k = ident_end(b, j + 1);
            assert(x.subrange(p.len() + j, p.len() + k) =~= b.subrange(j, k));
            lemma_identifiers_shift(p, b, k);
        } else {
            lemma_identifiers_shift(p, b, j + utf8_width(b[j]));
        }
    }
}

/// Within the first part, an identifier run stops no later than a
/// separator byte that cannot continue it.
/// Within the first part, an identifier run stops no later than a
/// separator whose first byte cannot continue it.
proof fn lemma_ident_end_prefix(a: Seq<u8>, s: Seq<u8>, b: Seq<u8>, k: int)
    requires
        0 <= k <= a.len(),
        s.len() > 0,
        !is_ident_byte(s[0]),
    ensures
        ident_end(a + s + b, k) == ident_end(a, k),
    decreases a.len() - k,
{
    let x = a + s + b;
    if k < a.len() {
        assert(x[k] == a[k]);
        if is_ident_byte(a[k]) {
            lemma_ident_end_prefix(a, s, b, k + 1);
        }
    } else {
        assert(x[k] == s[0]);
    }
}

/// The lead byte of a well-formed scalar gives, through `utf8_width`, the
/// scalar's length.
proof fn lemma_width_of_first_scalar(bytes: Seq<u8>)
    requires
        valid_first_scalar(bytes),
    ensures
        bytes.len() >= 1,
        utf8_width(bytes[0]) == vstd::utf8::length_of_first_scalar(bytes),
        utf8_width(bytes[0]) <= bytes.len(),
{
    let x = bytes[0];
    assert((0x00 <= x <= 0x7f ==> x < 0x80) && (0xc0 <= x <= 0xdf ==> x >> 5u8 == 0b110u8 && x
        >= 0x80) && (0xe0 <= x <= 0xef ==> x >> 4u8 == 0b1110u8 && x >= 0x80 && x >> 5u8
        != 0b110u8) && (0xf0 <= x <= 0xf7 ==> x >> 3u8 == 0b11110u8 && x >= 0x80 && x >> 5u8
        != 0b110u8 && x >> 4u8 != 0b1110u8)) by (bit_vector);
}

/// In valid UTF-8 the character starting at a boundary ends at a boundary
/// no later than the end, `utf8_width` of its first byte further on.
proof fn lemma_width_at_boundary(a: Seq<u8>, i: int)
    requires
        valid_utf8(a),
        0 <= i < a.len(),
        is_char_boundary(a, i),
    ensures
        i + utf8_width(a[i]) <= a.len(),
        is_char_boundary(a, i + utf8_width(a[i])),
{
    vstd::utf8::valid_utf8_split(a, i);
    let rest = a.subrange(i, a.len() as int);
    assert(valid_first_scalar(rest));
    assert(rest[0] == a[i]);
    lemma_width_of_first_scalar(rest);
    let w = vstd::utf8::length_of_first_scalar(rest);
    if i + w < a.len() {
        let pop = vstd::utf8::pop_first_scalar(rest);
        assert(vstd::utf8::valid_utf8(pop));
        assert(pop.len() > 0);
        assert(valid_first_scalar(pop));
        assert(pop[0] == a[i + w]);
        assert(!is_continuation_byte(a[i + w]));
        vstd::utf8::is_char_boundary_iff_not_is_continuation_byte(a, i + w);
    } else {
        vstd::utf8::is_char_boundary_start_end_of_seq(a);
    }
}

/// The lead byte of a character's UTF-8 encoding gives, through
/// `utf8_width` (what `utf8_len` computes), the length of that encoding.
pub proof fn law_lead_byte_gives_length(c: char)
    ensures
        encode_utf8(seq![c]).len() >= 1,
        utf8_width(encode_utf8(seq![c])[0]) == encode_utf8(seq![c]).len(),
{
    let s = encode_utf8(seq![c]);
    vstd::utf8::encode_utf8_first_scalar(seq![c]);
    assert(encode_utf8(seq![c].drop_first()) =~= Seq::<u8>::empty());
    assert(s =~= vstd::utf8::encode_scalar(c as u32));
    lemma_width_of_first_scalar(s);
}

/// `c` can be part of an identifier: an ASCII letter, digit or `_`.
pub open spec fn continues_identifier(c: char) -> bool {
    (c as u32) < 0x80 && is_ident_byte(c as u8)
}

/// The encoding of a character that cannot be part of an identifier starts
/// with a byte that cannot either, and that byte spans the whole encoding.
proof fn lemma_separator_bytes(c: char)
    requires
        !continues_identifier(c),
    ensures
        encode_utf8(seq![c]).len() > 0,
        !is_ident_byte(encode_utf8(seq![c])[0]),
        utf8_width(encode_utf8(seq![c])[0]) == encode_utf8(seq![c]).len(),
{
    let s = encode_utf8(seq![c]);
    law_lead_byte_gives_length(c);
    vstd::utf8::encode_utf8_first_scalar(seq![c]);
    let x = s[0];
    if x <= 0x7f {
        assert(vstd::utf8::decode_first_scalar(s) == (x & 0x7F) as u32);
        assert(x <= 0x7f ==> (x & 0x7F) == x) by (bit_vector);
        assert(c as u32 == x as u32);
        assert((c as u32) < 0x80);
        assert(c as u8 == x);
    } else {
        assert(!is_continuation_byte(x));
        assert(x >= 0xc0);
    }
}

proof fn lemma_identifiers_prefix(a: Seq<u8>, s: Seq<u8>, b: Seq<u8>, i: int)
    requires
        valid_utf8(a),
        0 <= i <= a.len(),
        is_char_boundary(a, i),
        s.len() > 0,
        !is_ident_byte(s[0]),
        utf8_width(s[0]) == s.len(),
    ensures
        identifiers_from(a + s + b, i) == identifiers_from(a, i) + identifiers_from(b, 0),
    decreases a.len() - i,
{
    let x = a + s + b;
    if i == a.len() {
        assert(x[i] == s[0]);
        assert(x =~= (a + s) + b);
        lemma_identifiers_shift(a + s, b, 0);
        assert(identifiers_from(a, i) =~= Seq::<Seq<char>>::empty());
        assert(identifiers_from(a, i) + identifiers_from(b, 0) =~= identifiers_from(b, 0));
    } else {
        assert(x[i] == a[i]);
        if is_ident_start(a[i]) {
            lemma_ident_end_bounds(a, i + 1);
            lemma_ident_end_prefix(a, s, b, i + 1);
            let j = ident_end(a, i + 1);
            assert(a[j - 1] <= 0x7f);
            lemma_boundary_after_ascii(a, j);
            assert(x.subrange(i, j) =~= a.subrange(i, j));
            lemma_identifiers_prefix(a, s, b, j);
            assert(identifiers_from(x, i) == seq![decode_utf8(a.subrange(i, j))] + identifiers_from(x, j));
            assert(identifiers_from(a, i) == seq![decode_utf8(a.subrange(i, j))] + identifiers_from(a, j));
            assert(seq![decode_utf8(a.subrange(i, j))] + (identifiers_from(a, j) + identifiers_from(b, 0))
                =~= (seq![decode_utf8(a.subrange(i, j))] + identifiers_from(a, j)) + identifiers_from(b, 0));
        } else {
            lemma_width_at_boundary(a, i);
            lemma_identifiers_prefix(a, s, b, i + utf8_width(a[i]));
        }
    }
}

proof fn lemma_bump_all_concat(m: Map<Seq<char>, usize>, x: Seq<Seq<char>>, y: Seq<Seq<char>>)
    ensures
        bump_all(m, x + y) == bump_all(bump_all(m, x), y),
    decreases x.len(),
{
    if x.len() == 0 {
        assert(x + y =~= y);
    } else {
        assert((x + y).drop_first() =~= x.drop_first() + y);
        assert((x + y)[0] == x[0]);
        lemma_bump_all_concat(bump(m, x[0]), x.drop_first(), y);
    }
}

/// Tallying is additive over a corpus: the identifiers of two texts joined
/// by any character that cannot be part of an identifier are those of the
/// first followed by those of the second, so tallying the joined text counts
/// what tallying the two in turn counts.
pub proof fn law_tally_adds_up(a: Seq<char>, b: Seq<char>, sep: char, m: Map<Seq<char>, usize>)
    requires
        !continues_identifier(sep),
    ensures
        identifiers(encode_utf8(a + seq![sep] + b)) == identifiers(encode_utf8(a)) + identifiers(
            encode_utf8(b),
        ),
        bump_all(m, identifiers(encode_utf8(a + seq![sep] + b))) == bump_all(
            bump_all(m, identifiers(encode_utf8(a))),
            identifiers(encode_utf8(b)),
        ),
{
    let s = encode_utf8(seq![sep]);
    lemma_separator_bytes(sep);
    crate::text::lemma_encode_concat(a, seq![sep]);
    crate::text::lemma_encode_concat(a + seq![sep], b);
    assert(encode_utf8(a + seq![sep] + b) == encode_utf8(a) + s + encode_utf8(b));
    vstd::utf8::encode_utf8_valid_utf8(a);
    vstd::utf8::is_char_boundary_start_end_of_seq(encode_utf8(a));
    lemma_identifiers_prefix(encode_utf8(a), s, encode_utf8(b), 0);
    lemma_bump_all_concat(m, identifiers(encode_utf8(a)), identifiers(encode_utf8(b)));
}

/// Number of bytes equal to `x` in `s`.
pub open spec fn count_byte(s: Seq<u8>, x: u8) -> nat
    decreases s.len(),
{
    if s.len() == 0 {
        0
    } else {
        count_byte(s.drop_last(), x) + if s.last() == x {
            1nat
        } else {
            0nat
        }
    }
}

/// Opening minus closing braces in `b[i..k]`.
pub open spec fn brace_balance(b: Seq<u8>, i: int, k: int) -> int {
    count_byte(b.subrange(i, k), LBRACE) - count_byte(b.subrange(i, k), RBRACE)
}

proof fn lemma_brace_balance_step(b: Seq<u8>, i: int, k: int)
    requires
        0 <= i <= k < b.len(),
    ensures
        brace_balance(b, i, k + 1) == brace_balance(b, i, k) + (if b[k] == LBRACE {
            1int
        } else {
            0int
        }) - (if b[k] == RBRACE {
            1int
        } else {
            0int
        }),
{
    assert(b.subrange(i, k + 1).drop_last() =~= b.subrange(i, k));
    assert(b.subrange(i, k + 1).last() == b[k]);
}

proof fn lemma_brace_scan_balance(b: Seq<u8>, i: int, s: int, d: nat)
    requires
        0 <= s <= i <= b.len(),
        d >= 1,
        d == 1 + brace_balance(b, s, i),
        forall|k: int| s <= k <= i ==> 1 + brace_balance(b, s, k) >= 1,
    ensures
        ({
            let j = brace_scan(b, i, d);
            ||| (s < j <= b.len() && b[j - 1] == RBRACE && 1 + brace_balance(b, s, j) == 0
                && forall|k: int| s <= k < j ==> 1 + brace_balance(b, s, k) >= 1)
            ||| (j == b.len() && forall|k: int| s <= k <= b.len() ==> 1 + brace_balance(b, s, k)
                >= 1)
        }),
    decreases b.len() - i,
{
    if i < b.len() {
        lemma_brace_balance_step(b, s, i);
        if b[i] == LBRACE {
            lemma_brace_scan_balance(b, i + 1, s, d + 1);
        } else if b[i] == RBRACE {
            if d == 1 {
                assert(brace_scan(b, i + 1, 0) == i + 1);
            } else {
                lemma_brace_scan_balance(b, i + 1, s, (d - 1) as nat);
            }
        } else {
            lemma_brace_scan_balance(b, i + 1, s, d);
        }
    }
}

proof fn lemma_header_end_at_least(b: Seq<u8>, i: int)
    requires
        0 <= i <= b.len(),
    ensures
        i <= crate::scan::header_end(b, i) <= b.len(),
    decreases b.len() - i,
{
    if i < b.len() && b[i] != LBRACE && b[i] != NL {
        lemma_header_end_at_least(b, i + 1);
    }
}

proof fn lemma_skip_blank_at_least(b: Seq<u8>, i: int)
    requires
        0 <= i <= b.len(),
    ensures
        i <= crate::scan::skip_blank(b, i) <= b.len(),
    decreases b.len() - i,
{
    if i < b.len() && crate::scan::is_blank(b[i]) {
        lemma_skip_blank_at_least(b, i + 1);
    }
}

/// A protocol or interface body ends at the `}` that balances its `{`: the
/// bytes between the body's start and end hold as many `{` as `}`, and no
/// prefix of them closes more than it opens. When no `}` balances it, the
/// body runs on to the end and no prefix of the rest closes the `{`.
pub proof fn law_body_ends_at_balancing_brace(b: Seq<u8>, head_end: int, s: int, e: int)
    requires
        0 <= head_end <= b.len(),
        body_range(b, head_end) == Some((s, e)),
    ensures
        (e < b.len() && b[e] == RBRACE && count_byte(b.subrange(s, e), LBRACE) == count_byte(
            b.subrange(s, e),
            RBRACE,
        ) && forall|k: int|
            s <= k <= e ==> count_byte(#[trigger] b.subrange(s, k), LBRACE) >= count_byte(
                b.subrange(s, k),
                RBRACE,
            )) || (forall|k: int|
            s <= k <= b.len() ==> count_byte(#[trigger] b.subrange(s, k), LBRACE) >= count_byte(
                b.subrange(s, k),
                RBRACE,
            )),
{
    let i = crate::scan::brace_pos(b, head_end);
    lemma_header_end_at_least(b, head_end);
    lemma_skip_blank_at_least(b, crate::scan::header_end(b, head_end));
    assert(0 <= i);
    assert(count_byte(Seq::<u8>::empty(), LBRACE) == 0 && count_byte(Seq::<u8>::empty(), RBRACE)
        == 0);
    assert(i < b.len());
    assert(s == i + 1);
    lemma_brace_scan_balance(b, s, s, 1);
    let j = brace_scan(b, s, 1);
    if s < j <= b.len() && b[j - 1] == RBRACE && 1 + brace_balance(b, s, j) == 0 {
        assert(e == j - 1);
        lemma_brace_balance_step(b, s, j - 1);
        assert forall|k: int| s <= k <= e implies count_byte(#[trigger] b.subrange(s, k), LBRACE)
            >= count_byte(b.subrange(s, k), RBRACE) by {
            assert(1 + brace_balance(b, s, k) >= 1);
        }
    } else {
        assert forall|k: int| s <= k <= b.len() implies count_byte(#[trigger] b.subrange(s, k), LBRACE)
            >= count_byte(b.subrange(s, k), RBRACE) by {
            assert(1 + brace_balance(b, s, k) >= 1);
        }
    }
}

proof fn lemma_newline_before_count(b: Seq<u8>, j: int, n: nat)
    requires
        j <= b.len(),
    ensures
        newline_before(b, j, n) matches Some(p) ==> 0 <= p < j && count_newlines(b.subrange(p, j))
            == n + 1,
    decreases j,
{
    if j > 0 {
        lemma_count_newlines_one(b, j - 1);
        if b[j - 1] == NL {
            if n > 0 {
                lemma_newline_before_count(b, j - 1, (n - 1) as nat);
                if let Some(p) = newline_before(b, j - 1, (n - 1) as nat) {
                    lemma_count_newlines_split(b, p, j - 1, j);
                }
            }
        } else {
            lemma_newline_before_count(b, j - 1, n);
            if let Some(p) = newline_before(b, j - 1, n) {
                lemma_count_newlines_split(b, p, j - 1, j);
            }
        }
    }
}

proof fn lemma_line_end_is(b: Seq<u8>, d: int, e: int)
    requires
        0 <= d <= e <= b.len(),
        forall|m: int| d <= m < e ==> b[m] != NL,
        e == b.len() || b[e] == NL,
    ensures
        line_end(b, d) == e,
    decreases e - d,
{
    if d < e {
        lemma_line_end_is(b, d + 1, e);
    }
}

/// A declaration is never reported when one of the dynamic attributes
/// (built-in or extra) occurs on its own line or on one of the three lines
/// above it: for an attribute occurrence at `k` that ends by the end `e` of
/// the declaration's line and has at most three line breaks between it and
/// the declaration, the attribute is found near the declaration and the
/// match gives no finding.
pub proof fn law_attribute_near_declaration_suppresses(
    t: TalliesView,
    opts: ScanOptionsView,
    st: DeclSite,
    cap: (usize, usize, Option<(usize, usize)>),
    a: int,
    k: int,
    e: int,
)
    requires
        0 <= a < attr_names(opts).len(),
        cap.0 <= e <= st.content.len(),
        forall|m: int| cap.0 <= m < e ==> st.content[m] != NL,
        e == st.content.len() || st.content[e] == NL,
        0 <= k,
        k + encode_utf8(attr_names(opts)[a]).len() <= e,
        occurs_at(st.content, encode_utf8(attr_names(opts)[a]), k),
        k < cap.0 ==> count_newlines(st.content.subrange(k, cap.0 as int)) <= 3,
    ensures
        has_attr_near(st.content, cap.0 as int, attr_names(opts)),
        classify(t, opts, st, cap) is None,
{
    let b = st.content;
    let d = cap.0 as int;
    let attr = encode_utf8(attr_names(opts)[a]);
    lemma_line_end_is(b, d, e);
    lemma_newline_before_count(b, d, 3);
    let w = attr_window(b, d).0;
    if let Some(p) = newline_before(b, d, 3) {
        if k < d && p > k {
            lemma_count_newlines_split(b, k, p, d);
        }
        assert(w <= k);
    } else {
        assert(w == 0);
    }
    let sub = b.subrange(w, e);
    assert(sub.subrange(k - w, k - w + attr.len()) =~= b.subrange(k, k + attr.len()));
    assert(occurs_at(sub, attr, k - w));
    assert(contains_bytes(sub, attr));
    assert(attr_window(b, d) == (w, e));
}

/// Text with no `/`, `*` or line break, which can neither open nor close a
/// comment.
pub open spec fn plain_text(c: Seq<u8>) -> bool {
    forall|m: int| 0 <= m < c.len() ==> c[m] != SLASH && c[m] != STAR && c[m] != NL
}

/// `n` block comments nested one inside the other, each level's body being
/// `fill`, the next level, and `fill` again.
pub open spec fn nested_comment(n: nat, fill: Seq<u8>) -> Seq<u8>
    decreases n,
{
    if n == 0 {
        seq![]
    } else {
        seq![SLASH, STAR] + fill + nested_comment((n - 1) as nat, fill) + fill + seq![STAR, SLASH]
    }
}

proof fn lemma_block_scan_plain(x: Seq<u8>, k: int, d: nat, fill: Seq<u8>)
    requires
        0 <= k,
        k + fill.len() <= x.len(),
        x.subrange(k, k + fill.len()) == fill,
        plain_text(fill),
        d >= 1,
    ensures
        block_scan(x, k, d) == block_scan(x, k + fill.len(), d),
    decreases fill.len(),
{
    if fill.len() > 0 {
        assert(x[k] == fill[0]);
        let rest = fill.drop_first();
        assert(x.subrange(k + 1, k + 1 + rest.len()) =~= rest);
        lemma_block_scan_plain(x, k + 1, d, rest);
    }
}

proof fn lemma_block_scan_nested(x: Seq<u8>, j: int, d: nat, n: nat, fill: Seq<u8>)
    requires
        0 <= j,
        j + nested_comment(n, fill).len() <= x.len(),
        x.subrange(j, j + nested_comment(n, fill).len()) == nested_comment(n, fill),
        plain_text(fill),
        d >= 1,
    ensures
        block_scan(x, j, d) == block_scan(x, j + nested_comment(n, fill).len(), d),
    decreases n,
{
    if n > 0 {
        let inner = nested_comment((n - 1) as nat, fill);
        let c = nested_comment(n, fill);
        let f = fill.len() as int;
        let il = inner.len() as int;
        assert(c.len() == 4 + 2 * f + il);
        let sub = x.subrange(j, j + c.len());
        assert(x[j] == sub[0] && sub[0] == SLASH);
        assert(x[j + 1] == sub[1] && sub[1] == STAR);
        assert(pair_at(x, j, SLASH, STAR));
        assert(x.subrange(j + 2, j + 2 + f) =~= sub.subrange(2, 2 + f));
        assert(sub.subrange(2, 2 + f) =~= fill);
        lemma_block_scan_plain(x, j + 2, d + 1, fill);
        assert(x.subrange(j + 2 + f, j + 2 + f + il) =~= sub.subrange(2 + f, 2 + f + il));
        assert(sub.subrange(2 + f, 2 + f + il) =~= inner);
        lemma_block_scan_nested(x, j + 2 + f, d + 1, (n - 1) as nat, fill);
        assert(x.subrange(j + 2 + f + il, j + 2 + 2 * f + il) =~= sub.subrange(2 + f + il, 2 + 2 * f
            + il));
        assert(sub.subrange(2 + f + il, 2 + 2 * f + il) =~= fill);
        lemma_block_scan_plain(x, j + 2 + f + il, d + 1, fill);
        let q = j + 2 + 2 * f + il;
        assert(x[q] == sub[2 + 2 * f + il] && sub[2 + 2 * f + il] == STAR);
        assert(x[q + 1] == sub[3 + 2 * f + il] && sub[3 + 2 * f + il] == SLASH);
        assert(!pair_at(x, q, SLASH, STAR));
        assert(pair_at(x, q, STAR, SLASH));
    }
}

/// Block comments nest: a comment holding comments nested to any depth is
/// removed as a whole. The lexer's step at its start ends right after the
/// `*/` that closes it and writes nothing, so the stripped code and the
/// string contents from there are those from just past the comment.
pub proof fn law_nested_comment_removed_whole(x: Seq<u8>, i: int, n: nat, fill: Seq<u8>)
    requires
        n >= 1,
        plain_text(fill),
        0 <= i,
        i + nested_comment(n, fill).len() <= x.len(),
        x.subrange(i, i + nested_comment(n, fill).len()) == nested_comment(n, fill),
    ensures
        lex_step(x, i) == (i + nested_comment(n, fill).len(), Seq::<u8>::empty(), Seq::<u8>::empty()),
        lex_from(x, i) == lex_from(x, i + nested_comment(n, fill).len()),
{
    let c = nested_comment(n, fill);
    let inner = nested_comment((n - 1) as nat, fill);
    let f = fill.len() as int;
    let il = inner.len() as int;
    let sub = x.subrange(i, i + c.len());
    assert(c.len() == 4 + 2 * f + il);
    assert(x[i] == sub[0] && sub[0] == SLASH);
    assert(x[i + 1] == sub[1] && sub[1] == STAR);
    assert(!pair_at(x, i, SLASH, SLASH));
    assert(pair_at(x, i, SLASH, STAR));
    assert(x.subrange(i + 2, i + 2 + f) =~= sub.subrange(2, 2 + f));
    assert(sub.subrange(2, 2 + f) =~= fill);
    lemma_block_scan_plain(x, i + 2, 1, fill);
    assert(x.subrange(i + 2 + f, i + 2 + f + il) =~= sub.subrange(2 + f, 2 + f + il));
    assert(sub.subrange(2 + f, 2 + f + il) =~= inner);
    lemma_block_scan_nested(x, i + 2 + f, 1, (n - 1) as nat, fill);
    assert(x.subrange(i + 2 + f + il, i + 2 + 2 * f + il) =~= sub.subrange(2 + f + il, 2 + 2 * f + il));
    assert(sub.subrange(2 + f + il, 2 + 2 * f + il) =~= fill);
    lemma_block_scan_plain(x, i + 2 + f + il, 1, fill);
    let q = i + 2 + 2 * f + il;
    assert(x[q] == sub[2 + 2 * f + il] && sub[2 + 2 * f + il] == STAR);
    assert(x[q + 1] == sub[3 + 2 * f + il] && sub[3 + 2 * f + il] == SLASH);
    assert(!pair_at(x, q, SLASH, STAR));
    assert(pair_at(x, q, STAR, SLASH));
    assert(block_scan(x, q + 2, 0) == (q + 2, Seq::<u8>::empty()));
    lemma_lex_step_bounds(x, i);
    assert(lex_from(x, i) == (Seq::<u8>::empty() + lex_from(x, q + 2).0, Seq::<u8>::empty()
        + lex_from(x, q + 2).1));
    assert(Seq::<u8>::empty() + lex_from(x, q + 2).0 =~= lex_from(x, q + 2).0);
    assert(Seq::<u8>::empty() + lex_from(x, q + 2).1 =~= lex_from(x, q + 2).1);
}

/// `w` occurs somewhere in `s`.
pub open spec fn mentions(s: Seq<char>, w: Seq<char>) -> bool {
    exists|k: int| 0 <= k && k + w.len() <= s.len() && #[trigger] s.subrange(k, k + w.len()) == w
}

/// `src` is `lead`, then `modifiers`, then more.
pub open spec fn starts_with_modifiers(src: Seq<char>, lead: Seq<char>, modifiers: Seq<char>) -> bool {
    &&& lead.len() + modifiers.len() <= src.len()
    &&& src.subrange(0, lead.len() as int) == lead
    &&& src.subrange(lead.len() as int, (lead.len() + modifiers.len()) as int) == modifiers
}

/// The Kotlin declaration patterns for `fun`, `class`, `interface`, `object`
/// and properties accept the Kotlin modifiers: each starts with its line
/// lead followed by `KOTLIN_MODIFIERS`, which offers `data`, `sealed`,
/// `abstract`, `suspend`, `companion`, `lateinit` and `override`. The
/// built-in patterns the scan uses for Kotlin are these.
pub proof fn law_kotlin_patterns_take_kotlin_modifiers()
    ensures
        forall|i: int|
            0 <= i < kotlin_pattern_sources().len() && (kotlin_pattern_sources()[i].0 == "fun"@
                || kotlin_pattern_sources()[i].0 == "class"@ || kotlin_pattern_sources()[i].0
                == "interface"@ || kotlin_pattern_sources()[i].0 == "object"@
                || kotlin_pattern_sources()[i].0 == "property"@) ==> (starts_with_modifiers(
                #[trigger] kotlin_pattern_sources()[i].1,
                DECL_LEAD@,
                KOTLIN_MODIFIERS@,
            ) || starts_with_modifiers(kotlin_pattern_sources()[i].1, PROPERTY_LEAD@, KOTLIN_MODIFIERS@)),
        mentions(KOTLIN_MODIFIERS@, "data"@),
        mentions(KOTLIN_MODIFIERS@, "sealed"@),
        mentions(KOTLIN_MODIFIERS@, "abstract"@),
        mentions(KOTLIN_MODIFIERS@, "suspend"@),
        mentions(KOTLIN_MODIFIERS@, "companion"@),
        mentions(KOTLIN_MODIFIERS@, "lateinit"@),
        mentions(KOTLIN_MODIFIERS@, "override"@),
        builtin_patterns().kotlin == kotlin_pattern_sources(),
{
    let s = kotlin_pattern_sources();
    let m = KOTLIN_MODIFIERS@;
    reveal_strlit("fun");
    reveal_strlit("class");
    reveal_strlit("interface");
    reveal_strlit("object");
    reveal_strlit("typealias");
    reveal_strlit("property");
    reveal_strlit("enum entry");
    assert forall|i: int|
        0 <= i < s.len() && (s[i].0 == "fun"@ || s[i].0 == "class"@ || s[i].0 == "interface"@
            || s[i].0 == "object"@ || s[i].0 == "property"@) implies (starts_with_modifiers(
        #[trigger] s[i].1,
        DECL_LEAD@,
        m,
    ) || starts_with_modifiers(s[i].1, PROPERTY_LEAD@, m)) by {
        assert(s[4].0 == "typealias"@);
        assert(s[6].0 == "enum entry"@);
        if i == 4 {
            assert("typealias"@.len() == 9);
            assert("typealias"@ != "fun"@ && "typealias"@ != "class"@ && "typealias"@ != "interface"@
                && "typealias"@ != "object"@ && "typealias"@ != "property"@) by {
                assert("typealias"@[0] != "fun"@[0]);
                assert("typealias"@[0] != "class"@[0]);
                assert("typealias"@[0] != "interface"@[0]);
                assert("typealias"@[0] != "object"@[0]);
                assert("typealias"@[0] != "property"@[0]);
            }
        } else if i == 6 {
            assert("enum entry"@ != "fun"@ && "enum entry"@ != "class"@ && "enum entry"@
                != "interface"@ && "enum entry"@ != "object"@ && "enum entry"@ != "property"@) by {
                assert("enum entry"@[0] != "fun"@[0]);
                assert("enum entry"@[0] != "class"@[0]);
                assert("enum entry"@[0] != "interface"@[0]);
                assert("enum entry"@[0] != "object"@[0]);
                assert("enum entry"@[0] != "property"@[0]);
            }
        } else {
            let lead = if i == 5 {
                PROPERTY_LEAD@
            } else {
                DECL_LEAD@
            };
            let src = s[i].1;
            assert(src.subrange(0, lead.len() as int) =~= lead);
            assert(src.subrange(lead.len() as int, (lead.len() + m.len()) as int) =~= m);
        }
    }
    reveal_strlit(r"(?:public|private|internal|protected|open|abstract|sealed|data|inline|suspend|external|expect|actual|value|inner|companion|const|lateinit|operator|infix|tailrec|override|@\w+(?:\([^)]*\))?)");
    reveal_strlit("data");
    reveal_strlit("sealed");
    reveal_strlit("abstract");
    reveal_strlit("suspend");
    reveal_strlit("companion");
    reveal_strlit("lateinit");
    reveal_strlit("override");
    assert(m.subrange(58, 58int + "data"@.len()) =~= "data"@);
    assert(mentions(m, "data"@));
    assert(m.subrange(51, 51int + "sealed"@.len()) =~= "sealed"@);
    assert(mentions(m, "sealed"@));
    assert(m.subrange(42, 42int + "abstract"@.len()) =~= "abstract"@);
    assert(mentions(m, "abstract"@));
    assert(m.subrange(70, 70int + "suspend"@.len()) =~= "suspend"@);
    assert(mentions(m, "suspend"@));
    assert(m.subrange(113, 113int + "companion"@.len()) =~= "companion"@);
    assert(mentions(m, "companion"@));
    assert(m.subrange(129, 129int + "lateinit"@.len()) =~= "lateinit"@);
    assert(mentions(m, "lateinit"@));
    assert(m.subrange(161, 161int + "override"@.len()) =~= "override"@);
    assert(mentions(m, "override"@));
}

/// Reading a command line that parses from `i` on, with more arguments
/// appended, reaches the end of the original arguments in the state that
/// finishes the original parse.
proof fn lemma_parse_prefix(args: Seq<Seq<char>>, tail: Seq<Seq<char>>, i: int, st: ArgState) -> (fin:
    ArgState)
    requires
        0 <= i <= args.len(),
        parse_from(args, i, st) matches Ok(Some(_)),
    ensures
        parse_from(args, i, st) == finish_args(fin),
        parse_from(args + tail, i, st) == parse_from(args + tail, args.len() as int, fin),
    decreases args.len() - i,
{
    let x = args + tail;
    if i == args.len() {
        st
    } else {
        let a = args[i];
        assert(x[i] == a);
        if i + 1 < args.len() {
            assert(x[i + 1] == args[i + 1]);
        }
        if a == "-h"@ || a == "--help"@ {
            st
        } else if a == "--json"@ {
            lemma_parse_prefix(args, tail, i + 1, ArgState { json: true, ..st })
        } else if a == "--save"@ {
            lemma_parse_prefix(
                args,
                tail,
                i + 1,
                ArgState { out: Some(DEFAULT_REPORT_NAME@), wants_json_file: true, ..st },
            )
        } else if a == "--out"@ {
            lemma_parse_prefix(
                args,
                tail,
                i + 2,
                ArgState { out: Some(args[i + 1]), wants_json_file: true, ..st },
            )
        } else if a == "--html"@ {
            lemma_parse_prefix(args, tail, i + 1, ArgState { html: true, ..st })
        } else if a == "--include-overrides"@ {
            lemma_parse_prefix(
                args,
                tail,
                i + 1,
                ArgState { opts: ScanOptionsView { include_overrides: true, ..st.opts }, ..st },
            )
        } else if a == "--include-tests"@ {
            lemma_parse_prefix(
                args,
                tail,
                i + 1,
                ArgState { opts: ScanOptionsView { include_tests: true, ..st.opts }, ..st },
            )
        } else if a == "--fail-on-dead"@ {
            lemma_parse_prefix(args, tail, i + 1, ArgState { fail_on_dead: true, ..st })
        } else if a == "--min-len"@ {
            let n = parse_usize_spec(encode_utf8(args[i + 1]))->0;
            lemma_parse_prefix(
                args,
                tail,
                i + 2,
                ArgState { opts: ScanOptionsView { min_len: n, ..st.opts }, ..st },
            )
        } else if a == "--bucket"@ {
            let b = bucket_named(lowercase(args[i + 1]))->0;
            lemma_parse_prefix(args, tail, i + 2, ArgState { only: Some(b), ..st })
        } else {
            lemma_parse_prefix(args, tail, i + 1, ArgState { root: Some(a), ..st })
        }
    }
}

/// The flags this law speaks of differ from each other and from the other
/// flags the parser knows.
proof fn lemma_flags_distinct()
    ensures
        ({
            let flags = seq![
                "-h"@,
                "--help"@,
                "--json"@,
                "--save"@,
                "--out"@,
                "--html"@,
                "--include-overrides"@,
                "--include-tests"@,
                "--fail-on-dead"@,
                "--min-len"@,
                "--bucket"@,
            ];
            forall|p: int, q: int| 0 <= p < q < flags.len() ==> flags[p] != flags[q]
        }),
        "--json"@.len() > 0 && "--json"@[0] == '-',
{
    reveal_strlit("-h");
    reveal_strlit("--help");
    reveal_strlit("--json");
    reveal_strlit("--save");
    reveal_strlit("--out");
    reveal_strlit("--html");
    reveal_strlit("--include-overrides");
    reveal_strlit("--include-tests");
    reveal_strlit("--fail-on-dead");
    reveal_strlit("--min-len");
    reveal_strlit("--bucket");
    let flags = seq![
        "-h"@,
        "--help"@,
        "--json"@,
        "--save"@,
        "--out"@,
        "--html"@,
        "--include-overrides"@,
        "--include-tests"@,
        "--fail-on-dead"@,
        "--min-len"@,
        "--bucket"@,
    ];
    assert forall|p: int, q: int| 0 <= p < q < flags.len() implies flags[p] != flags[q] by {
        if flags[p].len() == flags[q].len() {
            assert(flags[p][2] != flags[q][2] || flags[p][3] != flags[q][3]);
        }
    }
}

/// A switch sets its own option and nothing else: appending
/// `--include-tests`, `--include-overrides`, `--fail-on-dead` or `--json` to
/// a command line that parses gives the same command line with just that
/// option turned on.
pub proof fn law_switches_set_only_their_option(args: Seq<Seq<char>>)
    ensures
        parse_args_spec(args) matches Ok(Some(c)) ==> {
            &&& parse_args_spec(args.push("--include-tests"@)) == Ok::<Option<CliView>, Seq<char>>(
                Some(CliView { opts: ScanOptionsView { include_tests: true, ..c.opts }, ..c }),
            )
            &&& parse_args_spec(args.push("--include-overrides"@)) == Ok::<
                Option<CliView>,
                Seq<char>,
            >(Some(CliView { opts: ScanOptionsView { include_overrides: true, ..c.opts }, ..c }))
            &&& parse_args_spec(args.push("--fail-on-dead"@)) == Ok::<Option<CliView>, Seq<char>>(
                Some(CliView { fail_on_dead: true, ..c }),
            )
            &&& parse_args_spec(args.push("--json"@)) == Ok::<Option<CliView>, Seq<char>>(
                Some(CliView { json: true, ..c }),
            )
        },
{
    if parse_args_spec(args) is Ok && parse_args_spec(args)->Ok_0 is Some {
        let c = parse_args_spec(args)->Ok_0->Some_0;
        lemma_flags_distinct();
        let flags = seq![
            "-h"@,
            "--help"@,
            "--json"@,
            "--save"@,
            "--out"@,
            "--html"@,
            "--include-overrides"@,
            "--include-tests"@,
            "--fail-on-dead"@,
            "--min-len"@,
            "--bucket"@,
        ];
        assert(flags[7] != flags[0] && flags[7] != flags[1] && flags[7] != flags[2] && flags[7]
            != flags[3] && flags[7] != flags[4] && flags[7] != flags[5] && flags[7] != flags[6]);
        assert(flags[6] != flags[0] && flags[6] != flags[1] && flags[6] != flags[2] && flags[6]
            != flags[3] && flags[6] != flags[4] && flags[6] != flags[5]);
        assert(flags[8] != flags[0] && flags[8] != flags[1] && flags[8] != flags[2] && flags[8]
            != flags[3] && flags[8] != flags[4] && flags[8] != flags[5] && flags[8] != flags[6]
            && flags[8] != flags[7]);
        assert(flags[2] != flags[0] && flags[2] != flags[1]);
        let n = args.len() as int;
        let f1 = "--include-tests"@;
        let x1 = args + seq![f1];
        let fin1 = lemma_parse_prefix(args, seq![f1], 0, initial_state());
        assert(args.push(f1) =~= x1);
        assert(x1[n] == f1);
        let st1 = ArgState { opts: ScanOptionsView { include_tests: true, ..fin1.opts }, ..fin1 };
        assert(parse_from(x1, n, fin1) == parse_from(x1, n + 1, st1));
        assert(parse_from(x1, n + 1, st1) == finish_args(st1));
        let f2 = "--include-overrides"@;
        let x2 = args + seq![f2];
        let fin2 = lemma_parse_prefix(args, seq![f2], 0, initial_state());
        assert(args.push(f2) =~= x2);
        assert(x2[n] == f2);
        let st2 = ArgState { opts: ScanOptionsView { include_overrides: true, ..fin2.opts }, ..fin2 };
        assert(parse_from(x2, n, fin2) == parse_from(x2, n + 1, st2));
        assert(parse_from(x2, n + 1, st2) == finish_args(st2));
        let f3 = "--fail-on-dead"@;
        let x3 = args + seq![f3];
        let fin3 = lemma_parse_prefix(args, seq![f3], 0, initial_state());
        assert(args.push(f3) =~= x3);
        assert(x3[n] == f3);
        let st3 = ArgState { fail_on_dead: true, ..fin3 };
        assert(parse_from(x3, n, fin3) == parse_from(x3, n + 1, st3));
        assert(parse_from(x3, n + 1, st3) == finish_args(st3));
        let f4 = "--json"@;
        let x4 = args + seq![f4];
        let fin4 = lemma_parse_prefix(args, seq![f4], 0, initial_state());
        assert(args.push(f4) =~= x4);
        assert(x4[n] == f4);
        let st4 = ArgState { json: true, ..fin4 };
        assert(parse_from(x4, n, fin4) == parse_from(x4, n + 1, st4));
        assert(parse_from(x4, n + 1, st4) == finish_args(st4));
    }
}

} // verus!
