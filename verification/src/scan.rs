//! The scan itself: tallying a set of source and resource files, extracting
//! declarations, and bucketing them by how they are referenced.
use vstd::prelude::*;
use vstd::string::{StringSliceAdditionalSpecFns, StringExecFns};
use vstd::utf8::{encode_utf8, decode_utf8, is_char_boundary};
use vstd::hash_map::StringHashMap;
use vstd::hash_set::StringHashSet;
use vstd::slice::slice_subrange;
use crate::text::{NL, bytes_at, occurs_at, byte_slice, contains_bytes, contains_slice, str_eq, lemma_concat_to_set, lemma_push_to_set};
use crate::lexer::{line_end, min_int, max_int, in_code, is_ident_byte, is_ident_char, code_positions};
use crate::lexer::{stripped_code, string_contents, identifiers, bump_all, count_of, counts_fit, occurrences, split_code_and_strings, tally, lemma_bump_all, lemma_identifier_count, lemma_lex_len, lemma_counts_determine_map};
use crate::lang::{Pattern, Patterns, PatternsView, regex_captures, regex_matches, valid_range, well_formed_captures, language_for_ext, language_of_ext, patterns_for, NOISE, DYNAMIC_ATTRS};
use crate::paths::{path_extension, ext_of, is_test_file, is_test_path_spec, relative_path, relative_to, path_order, path_equal, compare_paths, paths_equal};
use crate::laws::{lemma_files_scan_justified, lemma_sort_elements, lemma_dedup_elements};
use crate::types::{strings_view, Bucket, Language, Finding, FindingView, ScanOptions, ScanOptionsView, ScanReport, ScanReportView, ScanError, ScanErrorView, findings_view};

verus! {

broadcast use vstd::utf8::group_utf8_lib;

pub const LBRACE: u8 = 0x7B;

pub const RBRACE: u8 = 0x7D;

/// First position at or after `i` holding `{` or a newline, or the end.
pub open spec fn header_end(b: Seq<u8>, i: int) -> int
    decreases b.len() - i,
{
    if i < 0 || i >= b.len() || b[i] == LBRACE || b[i] == NL {
        i
    } else {
        header_end(b, i + 1)
    }
}

pub open spec fn is_blank(c: u8) -> bool {
    c == 0x20 || c == 0x09 || c == 0x0D || c == NL
}

/// First position at or after `i` that is not a space, tab or line break,
/// or the end.
pub open spec fn skip_blank(b: Seq<u8>, i: int) -> int
    decreases b.len() - i,
{
    if i < 0 || i >= b.len() || !is_blank(b[i]) {
        i
    } else {
        skip_blank(b, i + 1)
    }
}

/// Where the body's `{` of a header ending at `i` must be: the first `{` on
/// the rest of the header line or, when the line ends without one, the
/// first byte that is not blank after it.
pub open spec fn brace_pos(b: Seq<u8>, i: int) -> int {
    let e = header_end(b, i);
    if 0 <= e < b.len() && b[e] == NL {
        skip_blank(b, e)
    } else {
        e
    }
}

/// Position after the `}` that closes `depth` open braces, scanning from
/// `i`, or the end.
pub open spec fn brace_scan(b: Seq<u8>, i: int, depth: nat) -> int
    decreases b.len() - i,
{
    if i < 0 || i >= b.len() || depth == 0 {
        i
    } else if b[i] == LBRACE {
        brace_scan(b, i + 1, depth + 1)
    } else if b[i] == RBRACE {
        brace_scan(b, i + 1, (depth - 1) as nat)
    } else {
        brace_scan(b, i + 1, depth)
    }
}

/// The byte range of the `{ ... }` body that follows a header ending at
/// `head_end`, on the same line or after line breaks, when there is one and
/// both ends are character boundaries.
pub open spec fn body_range(b: Seq<u8>, head_end: int) -> Option<(int, int)> {
    let i = brace_pos(b, head_end);
    if i >= b.len() || b[i] != LBRACE {
        None
    } else {
        let start = i + 1;
        let j = brace_scan(b, start, 1);
        let end = min_int(max_int(j - 1, start), b.len() as int);
        if is_char_boundary(b, start) && is_char_boundary(b, end) {
            Some((start, end))
        } else {
            None
        }
    }
}

/// The text of capture group 1 of each capture that has one.
pub open spec fn group_names(caps: Seq<(usize, usize, Option<(usize, usize)>)>, hay: Seq<u8>) -> Seq<
    Seq<char>,
>
    decreases caps.len(),
{
    if caps.len() == 0 {
        seq![]
    } else {
        let prev = group_names(caps.drop_last(), hay);
        match caps.last().2 {
            Some(g) => prev.push(decode_utf8(hay.subrange(g.0 as int, g.1 as int))),
            None => prev,
        }
    }
}

/// Names declared in the body that follows a protocol/interface header.
pub open spec fn body_names(b: Seq<u8>, head_end: int, member: Seq<char>) -> Seq<Seq<char>> {
    match body_range(b, head_end) {
        Some(r) => {
            let body = b.subrange(r.0, r.1);
            group_names(regex_captures(member, decode_utf8(body)), body)
        },
        None => seq![],
    }
}

pub open spec fn heads_names(heads: Seq<(usize, usize)>, b: Seq<u8>, member: Seq<char>) -> Seq<
    Seq<char>,
>
    decreases heads.len(),
{
    if heads.len() == 0 {
        seq![]
    } else {
        heads_names(heads.drop_last(), b, member) + body_names(b, heads.last().1 as int, member)
    }
}

/// Names declared inside `protocol` / `interface` bodies of `code`.
pub open spec fn conformance_names(code: Seq<char>, p: PatternsView) -> Set<Seq<char>> {
    heads_names(regex_matches(p.conformance_head, code), encode_utf8(code), p.conformance_member).to_set()
}

proof fn lemma_header_end_bounds(b: Seq<u8>, i: int)
    requires
        0 <= i <= b.len(),
    ensures
        i <= header_end(b, i) <= b.len(),
    decreases b.len() - i,
{
    if i < b.len() && b[i] != LBRACE && b[i] != NL {
        lemma_header_end_bounds(b, i + 1);
    }
}

proof fn lemma_brace_scan_bounds(b: Seq<u8>, i: int, depth: nat)
    requires
        0 <= i <= b.len(),
    ensures
        i <= brace_scan(b, i, depth) <= b.len(),
    decreases b.len() - i,
{
    if i < b.len() && depth > 0 {
        if b[i] == LBRACE {
            lemma_brace_scan_bounds(b, i + 1, depth + 1);
        } else if b[i] == RBRACE {
            lemma_brace_scan_bounds(b, i + 1, (depth - 1) as nat);
        } else {
            lemma_brace_scan_bounds(b, i + 1, depth);
        }
    }
}

/// The body range of a protocol/interface header, computed as the scanner
/// does it.
fn find_body(b: &[u8], head_end: usize) -> (res: Option<(usize, usize)>)
    requires
        head_end <= b@.len(),
        b@.len() <= isize::MAX,
    ensures
        match res {
            Some(r) => {
                &&& brace_pos(b@, head_end as int) < b@.len()
                &&& b@[brace_pos(b@, head_end as int)] == LBRACE
                &&& r.0 == brace_pos(b@, head_end as int) + 1
                &&& r.1 == min_int(max_int(brace_scan(b@, r.0 as int, 1) - 1, r.0 as int), b@.len() as int)
                &&& r.0 <= r.1 <= b@.len()
            },
            None => brace_pos(b@, head_end as int) >= b@.len() || b@[brace_pos(
                b@,
                head_end as int,
            )] != LBRACE,
        },
{
    let mut i = head_end;
    while i < b.len() && b[i] != LBRACE && b[i] != NL
        invariant
            head_end <= i <= b@.len(),
            header_end(b@, i as int) == header_end(b@, head_end as int),
        decreases b@.len() - i,
    {
        i += 1;
    }
    if i < b.len() && b[i] == NL {
        let ghost e = i as int;
        while i < b.len() && (b[i] == 0x20 || b[i] == 0x09 || b[i] == 0x0D || b[i] == NL)
            invariant
                e <= i <= b@.len(),
                skip_blank(b@, i as int) == skip_blank(b@, e),
            decreases b@.len() - i,
        {
            i += 1;
        }
    }
    assert(i == brace_pos(b@, head_end as int));
    if i >= b.len() || b[i] != LBRACE {
        return None;
    }
    let body_start = i + 1;
    let mut depth: usize = 1;
    i = body_start;
    while i < b.len() && depth > 0
        invariant
            body_start <= i <= b@.len(),
            b@.len() <= isize::MAX,
            depth <= i + 1,
            brace_scan(b@, i as int, depth as nat) == brace_scan(b@, body_start as int, 1),
        decreases b@.len() - i,
    {
        if b[i] == LBRACE {
            depth += 1;
        } else if b[i] == RBRACE {
            depth -= 1;
        }
        i += 1;
    }
    let pre = if i > 0 {
        i - 1
    } else {
        0
    };
    let widened = if pre > body_start {
        pre
    } else {
        body_start
    };
    let body_end = if widened < b.len() {
        widened
    } else {
        b.len()
    };
    Some((body_start, body_end))
}

/// The body of a protocol/interface header ending at `head_end`, as a byte
/// range of `code`.
pub fn body_of(code: &str, head_end: usize) -> (res: Option<(usize, usize)>)
    requires
        head_end <= code.spec_bytes().len(),
        code.spec_bytes().len() <= isize::MAX,
    ensures
        match res {
            Some(r) => body_range(code.spec_bytes(), head_end as int) == Some((r.0 as int, r.1 as int)),
            None => body_range(code.spec_bytes(), head_end as int) is None,
        },
{
    let b = code.as_bytes();
    match find_body(b, head_end) {
        Some((body_start, body_end)) => {
            if code.is_char_boundary(body_start) && code.is_char_boundary(body_end) {
                Some((body_start, body_end))
            } else {
                None
            }
        },
        None => None,
    }
}

/// The names that the member pattern's matches `caps` capture in `body`.
pub fn member_names(body: &str, caps: &Vec<(usize, usize, Option<(usize, usize)>)>) -> (res: Vec<
    String,
>)
    requires
        crate::lang::well_formed_captures(caps@, body.spec_bytes()),
    ensures
        strings_view(res@) == group_names(caps@, body.spec_bytes()),
{
    let ghost bb = body.spec_bytes();
    let mut res: Vec<String> = Vec::new();
    let mut c: usize = 0;
    while c < caps.len()
        invariant
            c <= caps@.len(),
            bb == body.spec_bytes(),
            crate::lang::well_formed_captures(caps@, bb),
            strings_view(res@) == group_names(caps@.take(c as int), bb),
        decreases caps@.len() - c,
    {
        assert(caps@.take(c + 1).drop_last() =~= caps@.take(c as int));
        match caps[c].2 {
            Some((gs, ge)) => {
                assert(valid_range(bb, caps@[c as int].0, caps@[c as int].1));
                assert(valid_range(bb, gs, ge));
                let name = byte_slice(body, gs, ge);
                let ghost before = res@;
                res.push(name.to_owned());
                assert(strings_view(res@) =~= strings_view(before).push(name@));
            },
            None => {},
        }
        c += 1;
    }
    assert(caps@.take(c as int) =~= caps@);
    res
}

/// Collect names declared inside `protocol` / `interface` bodies.
pub fn collect_conformance_names(code: &str, patterns: &Patterns, out: &mut StringHashSet)
    requires
        code.spec_bytes().len() <= isize::MAX,
    ensures
        final(out)@ == old(out)@ + conformance_names(code@, patterns@),
{
    let b = code.as_bytes();
    let ghost bs = code.spec_bytes();
    let heads = patterns.conformance_head.matches(code);
    let ghost member = patterns@.conformance_member;
    let mut h: usize = 0;
    while h < heads.len()
        invariant
            b@ == bs,
            bs == code.spec_bytes(),
            bs == encode_utf8(code@),
            bs.len() <= isize::MAX,
            h <= heads@.len(),
            heads@ == regex_matches(patterns@.conformance_head, code@),
            crate::lang::well_formed_matches(heads@, bs),
            member == patterns@.conformance_member,
            out@ == old(out)@ + heads_names(heads@.take(h as int), bs, member).to_set(),
        decreases heads@.len() - h,
    {
        let ghost before = out@;
        assert(heads@.take(h + 1).drop_last() =~= heads@.take(h as int));
        assert(valid_range(bs, heads@[h as int].0, heads@[h as int].1));
        let head_end = heads[h].1;
        match body_of(code, head_end) {
            Some((body_start, body_end)) => {
                let body = byte_slice(code, body_start, body_end);
                let caps = patterns.conformance_member.captures(body);
                let names = member_names(body, &caps);
                let ghost bb = body.spec_bytes();
                let ghost nv = strings_view(names@);
                let mut c: usize = 0;
                while c < names.len()
                    invariant
                        c <= names@.len(),
                        nv == strings_view(names@),
                        out@ == before + nv.take(c as int).to_set(),
                    decreases names@.len() - c,
                {
                    assert(nv.take(c + 1) =~= nv.take(c as int).push(names@[c as int]@));
                    proof {
                        lemma_push_to_set(nv.take(c as int), names@[c as int]@);
                    }
                    out.insert(names[c].clone());
                    assert(out@ =~= before + nv.take(c + 1).to_set());
                    c += 1;
                }
                assert(nv.take(c as int) =~= nv);
                assert(body@ == decode_utf8(bs.subrange(body_start as int, body_end as int)));
                assert(heads_names(heads@.take(h + 1), bs, member) == heads_names(heads@.take(h as int), bs, member) + group_names(caps@, bb));
                proof {
                    lemma_concat_to_set(heads_names(heads@.take(h as int), bs, member), group_names(caps@, bb));
                }
                assert(out@ =~= old(out)@ + heads_names(heads@.take(h + 1), bs, member).to_set());
            },
            None => {
                assert(heads_names(heads@.take(h + 1), bs, member) =~= heads_names(heads@.take(h as int), bs, member));
            },
        }
        h += 1;
    }
    assert(heads@.take(h as int) =~= heads@);
}

/// Position of the newline that is the `n`-th (from 0) found scanning
/// backwards from just before `j`.
pub open spec fn newline_before(b: Seq<u8>, j: int, n: nat) -> Option<int>
    decreases j,
{
    if j <= 0 {
        None
    } else if b[j - 1] == NL {
        if n == 0 {
            Some(j - 1)
        } else {
            newline_before(b, j - 1, (n - 1) as nat)
        }
    } else {
        newline_before(b, j - 1, n)
    }
}

/// The declaration line plus the three lines above it: from the fourth
/// newline before `decl_start` (or the start) to the end of its line.
pub open spec fn attr_window(b: Seq<u8>, decl_start: int) -> (int, int) {
    (
        match newline_before(b, decl_start, 3) {
            Some(p) => p,
            None => 0,
        },
        line_end(b, decl_start),
    )
}

/// One of `attrs` occurs in the window around the declaration.
pub open spec fn has_attr_near(b: Seq<u8>, decl_start: int, attrs: Seq<Seq<char>>) -> bool {
    let w = attr_window(b, decl_start);
    exists|i: int|
        0 <= i < attrs.len() && contains_bytes(b.subrange(w.0, w.1), encode_utf8(#[trigger] attrs[i]))
}

proof fn lemma_newline_before_bounds(b: Seq<u8>, j: int, n: nat)
    requires
        j <= b.len(),
    ensures
        newline_before(b, j, n) matches Some(p) ==> 0 <= p < j,
    decreases j,
{
    if j > 0 {
        if b[j - 1] == NL {
            if n > 0 {
                lemma_newline_before_bounds(b, j - 1, (n - 1) as nat);
            }
        } else {
            lemma_newline_before_bounds(b, j - 1, n);
        }
    }
}

/// Start of the window: the fourth newline before `decl_start`, or 0.
fn window_start(b: &[u8], decl_start: usize) -> (res: usize)
    requires
        decl_start <= b@.len(),
    ensures
        res == match newline_before(b@, decl_start as int, 3) {
            Some(p) => p,
            None => 0,
        },
        res <= decl_start,
{
    proof {
        lemma_newline_before_bounds(b@, decl_start as int, 3);
    }
    let mut j = decl_start;
    let mut found: usize = 0;
    while j > 0
        invariant
            j <= decl_start <= b@.len(),
            found <= 3,
            newline_before(b@, decl_start as int, 3) == newline_before(b@, j as int, (3 - found) as nat),
        decreases j,
    {
        if b[j - 1] == NL {
            if found == 3 {
                return j - 1;
            }
            found += 1;
        }
        j -= 1;
    }
    0
}

/// Attributes often sit on their own line above the declaration, so look at
/// the declaration line plus the three lines above it.
pub fn has_dynamic_attr(content: &str, decl_start: usize, attrs: &Vec<&str>) -> (res: bool)
    requires
        decl_start <= content.spec_bytes().len(),
    ensures
        res == has_attr_near(
            content.spec_bytes(),
            decl_start as int,
            attrs@.map_values(|a: &str| a@),
        ),
{
    let b = content.as_bytes();
    let ghost bs = content.spec_bytes();
    let start = window_start(b, decl_start);
    let mut end = decl_start;
    while end < b.len() && b[end] != NL
        invariant
            b@ == bs,
            decl_start <= end <= bs.len(),
            line_end(bs, end as int) == line_end(bs, decl_start as int),
        decreases bs.len() - end,
    {
        end += 1;
    }
    assert(end == line_end(bs, end as int));
    assert(end == attr_window(bs, decl_start as int).1);
    let window = slice_subrange(b, start, end);
    let ghost av = attrs@.map_values(|a: &str| a@);
    let mut i: usize = 0;
    while i < attrs.len()
        invariant
            i <= attrs@.len(),
            av == attrs@.map_values(|a: &str| a@),
            bs == content.spec_bytes(),
            start == attr_window(bs, decl_start as int).0,
            end == attr_window(bs, decl_start as int).1,
            start <= end <= bs.len(),
            window@ == bs.subrange(start as int, end as int),
            forall|t: int| 0 <= t < i ==> !contains_bytes(window@, encode_utf8(#[trigger] av[t])),
        decreases attrs@.len() - i,
    {
        if contains_slice(window, attrs[i].as_bytes()) {
            assert(av[i as int] == attrs@[i as int]@);
            assert(contains_bytes(window@, encode_utf8(av[i as int])));
            assert(window@ == bs.subrange(attr_window(bs, decl_start as int).0, attr_window(bs, decl_start as int).1));
            return true;
        }
        i += 1;
    }
    false
}

/// Number of newlines in `s`.
pub open spec fn count_newlines(s: Seq<u8>) -> nat
    decreases s.len(),
{
    if s.len() == 0 {
        0
    } else {
        count_newlines(s.drop_last()) + if s.last() == NL {
            1nat
        } else {
            0nat
        }
    }
}

/// 1-based line number of byte offset `pos`.
fn line_number(b: &[u8], pos: usize) -> (res: usize)
    requires
        pos <= b@.len(),
        b@.len() <= isize::MAX,
    ensures
        res == count_newlines(b@.subrange(0, pos as int)) + 1,
{
    let mut n: usize = 0;
    let mut i: usize = 0;
    while i < pos
        invariant
            i <= pos <= b@.len(),
            n == count_newlines(b@.subrange(0, i as int)),
            n <= i,
        decreases pos - i,
    {
        assert(b@.subrange(0, i + 1).drop_last() =~= b@.subrange(0, i as int));
        if b[i] == NL {
            n += 1;
        }
        i += 1;
    }
    n + 1
}

/// A file found by the directory walk, as plain values.
pub struct SourceFileView {
    pub path: Seq<char>,
    pub contents: Option<Seq<char>>,
}

/// A file found by the directory walk, with its text when it could be read.
#[derive(Debug, Clone)]
pub struct SourceFile {
    pub path: String,
    pub contents: Option<String>,
}

impl View for SourceFile {
    type V = SourceFileView;

    open spec fn view(&self) -> SourceFileView {
        SourceFileView {
            path: self.path@,
            contents: match self.contents {
                Some(c) => Some(c@),
                None => None,
            },
        }
    }
}

pub open spec fn files_view(fs: Seq<SourceFile>) -> Seq<SourceFileView> {
    fs.map_values(|f: SourceFile| f@)
}

/// The language a path's extension names, if any.
pub open spec fn file_language(path: Seq<char>) -> Option<Language> {
    match path_extension(path) {
        Some(e) => language_of_ext(e),
        None => None,
    }
}

pub fn language_of_path(path: &str) -> (res: Option<Language>)
    ensures
        res == file_language(path@),
{
    match ext_of(path) {
        Some(e) => language_for_ext(e),
        None => None,
    }
}

/// Number of code files (Swift or Kotlin by extension) among `files`.
pub open spec fn count_code_files(files: Seq<SourceFileView>) -> nat
    decreases files.len(),
{
    if files.len() == 0 {
        0
    } else {
        count_code_files(files.drop_last()) + if file_language(files.last().path) is Some {
            1nat
        } else {
            0nat
        }
    }
}

/// Bytes of a file's text, 0 when it could not be read.
pub open spec fn file_bytes(f: SourceFileView) -> nat {
    match f.contents {
        Some(c) => encode_utf8(c).len(),
        None => 0,
    }
}

/// Total size of the input: the bytes of every file plus one per file.
pub open spec fn input_size(files: Seq<SourceFileView>) -> nat
    decreases files.len(),
{
    if files.len() == 0 {
        0
    } else {
        input_size(files.drop_last()) + file_bytes(files.last()) + 1
    }
}

/// The frequency maps and conformance names gathered in the first pass.
pub struct TalliesView {
    pub prod: Map<Seq<char>, usize>,
    pub test: Map<Seq<char>, usize>,
    pub dynamic: Map<Seq<char>, usize>,
    pub conformance: Set<Seq<char>>,
}

pub open spec fn empty_tallies() -> TalliesView {
    TalliesView {
        prod: Map::empty(),
        test: Map::empty(),
        dynamic: Map::empty(),
        conformance: Set::empty(),
    }
}

/// What one file adds to the tallies: a code file's identifiers go to the
/// production or the test map, its string literals to the dynamic map, and
/// its protocol/interface member names to the conformance set; a resource
/// file's identifiers go to the dynamic map; an unreadable file adds nothing.
pub open spec fn tally_file(t: TalliesView, f: SourceFileView, p: PatternsView) -> TalliesView {
    match f.contents {
        None => t,
        Some(raw) => {
            let b = encode_utf8(raw);
            if file_language(f.path) is Some {
                let code = stripped_code(b);
                let strs = string_contents(b);
                let in_test = is_test_path_spec(f.path);
                TalliesView {
                    prod: if in_test {
                        t.prod
                    } else {
                        bump_all(t.prod, identifiers(code))
                    },
                    test: if in_test {
                        bump_all(t.test, identifiers(code))
                    } else {
                        t.test
                    },
                    dynamic: bump_all(t.dynamic, identifiers(strs)),
                    conformance: t.conformance + conformance_names(decode_utf8(code), p),
                }
            } else {
                TalliesView {
                    prod: t.prod,
                    test: t.test,
                    dynamic: bump_all(t.dynamic, identifiers(b)),
                    conformance: t.conformance,
                }
            }
        },
    }
}

/// The tallies of all files, in order.
pub open spec fn pass1(files: Seq<SourceFileView>, p: PatternsView) -> TalliesView
    decreases files.len(),
{
    if files.len() == 0 {
        empty_tallies()
    } else {
        tally_file(pass1(files.drop_last(), p), files.last(), p)
    }
}

pub open spec fn tallies_bounded(t: TalliesView, n: nat) -> bool {
    forall|k: Seq<char>|
        #![trigger count_of(t.prod, k)]
        #![trigger count_of(t.test, k)]
        #![trigger count_of(t.dynamic, k)]
        count_of(t.prod, k) <= n && count_of(t.test, k) <= n && count_of(t.dynamic, k) <= n
}

proof fn lemma_bump_bound(m: Map<Seq<char>, usize>, b: Seq<u8>, n: nat)
    requires
        forall|k: Seq<char>| #[trigger] count_of(m, k) <= n,
        n + b.len() <= usize::MAX,
    ensures
        counts_fit(m, identifiers(b)),
        forall|k: Seq<char>| #[trigger] count_of(bump_all(m, identifiers(b)), k) <= n + b.len(),
{
    assert forall|k: Seq<char>| #[trigger] count_of(m, k) + occurrences(identifiers(b), k) <= usize::MAX by {
        lemma_identifier_count(b, k);
    }
    lemma_bump_all(m, identifiers(b));
    assert forall|k: Seq<char>| #[trigger] count_of(bump_all(m, identifiers(b)), k) <= n + b.len() by {
        lemma_identifier_count(b, k);
        assert(count_of(m, k) <= n);
    }
}

proof fn lemma_tally_file_bounded(t: TalliesView, f: SourceFileView, p: PatternsView, n: nat)
    requires
        tallies_bounded(t, n),
        n + file_bytes(f) <= usize::MAX,
    ensures
        tallies_bounded(tally_file(t, f, p), n + file_bytes(f)),
{
    match f.contents {
        None => {},
        Some(raw) => {
            let b = encode_utf8(raw);
            assert forall|k: Seq<char>| #[trigger] count_of(t.prod, k) <= n by {}
            assert forall|k: Seq<char>| #[trigger] count_of(t.test, k) <= n by {}
            assert forall|k: Seq<char>| #[trigger] count_of(t.dynamic, k) <= n by {}
            if file_language(f.path) is Some {
                lemma_lex_len(b);
                lemma_bump_bound(t.prod, stripped_code(b), n);
                lemma_bump_bound(t.test, stripped_code(b), n);
                lemma_bump_bound(t.dynamic, string_contents(b), n);
            } else {
                lemma_bump_bound(t.dynamic, b, n);
            }
        },
    }
}

/// The tallies being built by the first pass.
struct Tallies {
    prod: StringHashMap<usize>,
    test: StringHashMap<usize>,
    dynamic: StringHashMap<usize>,
    conformance: StringHashSet,
}

impl View for Tallies {
    type V = TalliesView;

    closed spec fn view(&self) -> TalliesView {
        TalliesView {
            prod: self.prod@,
            test: self.test@,
            dynamic: self.dynamic@,
            conformance: self.conformance@,
        }
    }
}

/// Adds one file to the tallies.
fn tally_one(t: &mut Tallies, f: &SourceFile, patterns: &Patterns, Ghost(n): Ghost<nat>)
    requires
        tallies_bounded(old(t)@, n),
        n + file_bytes(f@) <= usize::MAX,
        file_bytes(f@) <= isize::MAX,
    ensures
        final(t)@ == tally_file(old(t)@, f@, patterns@),
        tallies_bounded(final(t)@, n + file_bytes(f@)),
{
    proof {
        lemma_tally_file_bounded(old(t)@, f@, patterns@, n);
    }
    match &f.contents {
        None => {},
        Some(raw) => {
            let ghost b = encode_utf8(raw@);
            proof {
                lemma_lex_len(b);
                assert forall|k: Seq<char>| #[trigger] count_of(old(t)@.prod, k) <= n by {}
                assert forall|k: Seq<char>| #[trigger] count_of(old(t)@.test, k) <= n by {}
                assert forall|k: Seq<char>| #[trigger] count_of(old(t)@.dynamic, k) <= n by {}
            }
            if language_of_path(f.path.as_str()).is_some() {
                let (code, strings) = split_code_and_strings(raw.as_str());
                proof {
                    lemma_bump_bound(old(t)@.prod, stripped_code(b), n);
                    lemma_bump_bound(old(t)@.test, stripped_code(b), n);
                    lemma_bump_bound(old(t)@.dynamic, string_contents(b), n);
                    vstd::utf8::encode_utf8_decode_utf8(code@);
                }
                collect_conformance_names(code.as_str(), patterns, &mut t.conformance);
                if is_test_file(f.path.as_str()) {
                    let ghost m0 = t.test@;
                    tally(code.as_str(), &mut t.test);
                    proof {
                        lemma_counts_determine_map(t.test@, m0, identifiers(stripped_code(b)));
                    }
                } else {
                    let ghost m0 = t.prod@;
                    tally(code.as_str(), &mut t.prod);
                    proof {
                        lemma_counts_determine_map(t.prod@, m0, identifiers(stripped_code(b)));
                    }
                }
                let ghost m1 = t.dynamic@;
                tally(strings.as_str(), &mut t.dynamic);
                proof {
                    lemma_counts_determine_map(t.dynamic@, m1, identifiers(string_contents(b)));
                }
            } else {
                proof {
                    lemma_bump_bound(old(t)@.dynamic, b, n);
                }
                let ghost m1 = t.dynamic@;
                tally(raw.as_str(), &mut t.dynamic);
                proof {
                    lemma_counts_determine_map(t.dynamic@, m1, identifiers(b));
                }
            }
        },
    }
}

proof fn lemma_input_size_prefix(files: Seq<SourceFileView>, i: int)
    requires
        0 <= i < files.len(),
    ensures
        input_size(files.take(i + 1)) == input_size(files.take(i)) + file_bytes(files[i]) + 1,
        input_size(files.take(i + 1)) <= input_size(files),
    decreases files.len(),
{
    assert(files.take(i + 1).drop_last() =~= files.take(i));
    if i + 1 == files.len() {
        assert(files.take(i + 1) =~= files);
    } else {
        lemma_input_size_prefix(files.drop_last(), i);
        assert(files.drop_last().take(i + 1) =~= files.take(i + 1));
        assert(files.drop_last().take(i) =~= files.take(i));
    }
}

/// First pass: tallies of every file, in order.
fn tally_files(files: &Vec<SourceFile>, patterns: &Patterns) -> (t: Tallies)
    requires
        2 * input_size(files_view(files@)) <= usize::MAX,
    ensures
        t@ == pass1(files_view(files@), patterns@),
        tallies_bounded(t@, input_size(files_view(files@))),
{
    let ghost fv = files_view(files@);
    let mut t = Tallies {
        prod: StringHashMap::new(),
        test: StringHashMap::new(),
        dynamic: StringHashMap::new(),
        conformance: StringHashSet::new(),
    };
    assert(t@ == empty_tallies());
    assert(fv.take(0) =~= Seq::<SourceFileView>::empty());
    let mut i: usize = 0;
    while i < files.len()
        invariant
            fv == files_view(files@),
            2 * input_size(fv) <= usize::MAX,
            i <= files@.len(),
            t@ == pass1(fv.take(i as int), patterns@),
            tallies_bounded(t@, input_size(fv.take(i as int))),
        decreases files@.len() - i,
    {
        proof {
            lemma_input_size_prefix(fv, i as int);
            assert(fv[i as int] == files@[i as int]@);
            assert(fv.take(i + 1).drop_last() =~= fv.take(i as int));
            assert(fv.take(i + 1).last() == fv[i as int]);
        }
        tally_one(&mut t, &files[i], patterns, Ghost(input_size(fv.take(i as int))));
        i += 1;
    }
    assert(fv.take(i as int) =~= fv);
    t
}

/// Built-in noise names followed by the extra ones.
pub open spec fn noise_names(opts: ScanOptionsView) -> Seq<Seq<char>> {
    NOISE@.map_values(|s: &'static str| s@) + opts.extra_noise
}

/// Built-in dynamic attributes followed by the extra ones.
pub open spec fn attr_names(opts: ScanOptionsView) -> Seq<Seq<char>> {
    DYNAMIC_ATTRS@.map_values(|s: &'static str| s@) + opts.extra_dynamic_attrs
}

/// The bucket for a declaration's reference counts, if it is flagged at all.
pub open spec fn bucket_for(prod: nat, test: nat, dynamic: nat, in_test: bool) -> Option<Bucket> {
    if prod + test > 1 {
        if !in_test && prod <= 1 && test > 0 {
            Some(Bucket::TestOnly)
        } else {
            None
        }
    } else if dynamic > 0 {
        Some(Bucket::Dynamic)
    } else {
        Some(Bucket::Dead)
    }
}

/// Where a declaration was found.
pub struct DeclSite {
    pub root: Seq<char>,
    pub path: Seq<char>,
    pub language: Language,
    pub in_test: bool,
    pub content: Seq<u8>,
    pub kind: Seq<char>,
}

/// `w` occurs at `k` in `b` as a whole word: not next to an identifier byte.
pub open spec fn word_at(b: Seq<u8>, w: Seq<u8>, k: int) -> bool {
    &&& occurs_at(b, w, k)
    &&& (k == 0 || !is_ident_byte(b[k - 1]))
    &&& (k + w.len() == b.len() || !is_ident_byte(b[k + w.len()]))
}

/// `w` occurs in `b` as a whole word.
pub open spec fn has_word(b: Seq<u8>, w: Seq<u8>) -> bool {
    exists|k: int| word_at(b, w, k)
}

/// The matched text in front of the declared name: indentation, modifiers
/// and the declaration keyword.
pub open spec fn decl_prefix(b: Seq<u8>, start: int, name_start: int) -> Seq<u8> {
    if 0 <= start <= name_start <= b.len() {
        b.subrange(start, name_start)
    } else {
        seq![]
    }
}

/// Whether `w` occurs in `hay` as a whole word.
fn has_word_slice(hay: &[u8], w: &[u8]) -> (res: bool)
    ensures
        res == has_word(hay@, w@),
{
    if w.len() > hay.len() {
        assert forall|k: int| !word_at(hay@, w@, k) by {}
        return false;
    }
    let last = hay.len() - w.len();
    let mut k: usize = 0;
    loop
        invariant
            w@.len() <= hay@.len(),
            last == hay@.len() - w@.len(),
            k <= last,
            forall|t: int| 0 <= t < k ==> !word_at(hay@, w@, t),
        decreases last - k,
    {
        if bytes_at(hay, w, k) {
            let before_ok = k == 0 || !is_ident_char(hay[k - 1]);
            let after_ok = k + w.len() == hay.len() || !is_ident_char(hay[k + w.len()]);
            if before_ok && after_ok {
                assert(word_at(hay@, w@, k as int));
                return true;
            }
        }
        if k == last {
            assert forall|t: int| !word_at(hay@, w@, t) by {
                if 0 <= t < k {
                }
            }
            return false;
        }
        k += 1;
    }
}

/// The bucket for a declaration's counts, if it is flagged at all.
pub fn bucket_of(prod: usize, test: usize, dynamic: usize, in_test: bool) -> (res: Option<Bucket>)
    ensures
        res == bucket_for(prod as nat, test as nat, dynamic as nat, in_test),
{
    let many = prod > 1 || test > 1 || (prod == 1 && test == 1);
    if many {
        if !in_test && prod <= 1 && test > 0 {
            Some(Bucket::TestOnly)
        } else {
            None
        }
    } else if dynamic > 0 {
        Some(Bucket::Dynamic)
    } else {
        Some(Bucket::Dead)
    }
}

/// Whether the matched text of `content` from `start` to the declared name
/// at `name_start` carries the `override` modifier.
pub fn is_override_decl(content: &str, start: usize, name_start: usize) -> (res: bool)
    ensures
        res == has_word(decl_prefix(content.spec_bytes(), start as int, name_start as int), "override".spec_bytes()),
{
    let bytes = content.as_bytes();
    let prefix = if start <= name_start && name_start <= bytes.len() {
        slice_subrange(bytes, start, name_start)
    } else {
        &bytes[0..0]
    };
    assert(prefix@ == decl_prefix(content.spec_bytes(), start as int, name_start as int));
    has_word_slice(prefix, "override".as_bytes())
}

/// The finding for one pattern match, if the declaration is flagged: it is
/// skipped when its name is not in code (inside a comment or a string
/// literal), is too short or a noise name, is a protocol or interface
/// member, carries the `override` modifier (unless those are included), or
/// carries a dynamic attribute; otherwise its reference counts decide the
/// bucket.
pub open spec fn classify(
    t: TalliesView,
    opts: ScanOptionsView,
    site: DeclSite,
    cap: (usize, usize, Option<(usize, usize)>),
) -> Option<FindingView> {
    match cap.2 {
        None => None,
        Some(g) => {
            let b = site.content;
            let name_bytes = b.subrange(g.0 as int, g.1 as int);
            let name = decode_utf8(name_bytes);
            if !in_code(b, g.0 as int) {
                None
            } else if encode_utf8(name).len() < opts.min_len || noise_names(opts).contains(name) {
                None
            } else if t.conformance.contains(name) {
                None
            } else if !opts.include_overrides && has_word(
                decl_prefix(b, cap.0 as int, g.0 as int),
                "override".spec_bytes(),
            ) {
                None
            } else if has_attr_near(b, cap.0 as int, attr_names(opts)) {
                None
            } else {
                let prod = count_of(t.prod, name);
                let test = count_of(t.test, name);
                let dynamic = count_of(t.dynamic, name);
                match bucket_for(prod, test, dynamic, site.in_test) {
                    None => None,
                    Some(bucket) => Some(
                        FindingView {
                            bucket,
                            language: site.language,
                            name,
                            kind: site.kind,
                            file: relative_path(site.root, site.path),
                            line: (count_newlines(b.subrange(0, cap.0 as int)) + 1) as usize,
                            prod_refs: prod as usize,
                            test_refs: test as usize,
                            dynamic_refs: dynamic as usize,
                        },
                    ),
                }
            }
        },
    }
}

/// Findings for a sequence of matches of one pattern, in order.
pub open spec fn capture_findings(
    t: TalliesView,
    opts: ScanOptionsView,
    site: DeclSite,
    caps: Seq<(usize, usize, Option<(usize, usize)>)>,
) -> Seq<FindingView>
    decreases caps.len(),
{
    if caps.len() == 0 {
        seq![]
    } else {
        let prev = capture_findings(t, opts, site, caps.drop_last());
        match classify(t, opts, site, caps.last()) {
            Some(f) => prev.push(f),
            None => prev,
        }
    }
}

/// Whether `name` is one of `list`.
fn listed(list: &Vec<&str>, name: &str) -> (res: bool)
    ensures
        res == list@.map_values(|s: &str| s@).contains(name@),
{
    let ghost lv = list@.map_values(|s: &str| s@);
    let mut i: usize = 0;
    while i < list.len()
        invariant
            i <= list@.len(),
            lv == list@.map_values(|s: &str| s@),
            forall|t: int| 0 <= t < i ==> lv[t] != name@,
        decreases list@.len() - i,
    {
        if str_eq(list[i], name) {
            assert(lv[i as int] == name@);
            return true;
        }
        i += 1;
    }
    assert forall|t: int| 0 <= t < lv.len() implies lv[t] != name@ by {}
    false
}

pub open spec fn str_views(v: Seq<&str>) -> Seq<Seq<char>> {
    v.map_values(|s: &str| s@)
}

/// The built-in list followed by the extra entries, borrowed.
fn merged_list<'a>(builtin: &[&'static str], extra: &'a Vec<String>) -> (res: Vec<&'a str>)
    ensures
        str_views(res@) == builtin@.map_values(|s: &'static str| s@) + extra@.map_values(
            |s: String| s@,
        ),
{
    let mut res: Vec<&'a str> = Vec::new();
    let mut i: usize = 0;
    while i < builtin.len()
        invariant
            i <= builtin@.len(),
            res@.len() == i,
            str_views(res@) == builtin@.map_values(|s: &'static str| s@).take(i as int),
        decreases builtin@.len() - i,
    {
        let ghost before = res@;
        res.push(builtin[i]);
        assert forall|k: int| 0 <= k < i + 1 implies str_views(res@)[k] == builtin@.map_values(
            |s: &'static str| s@,
        ).take(i + 1)[k] by {
            if k < i {
                assert(res@[k] == before[k]);
                assert(str_views(before)[k] == builtin@.map_values(|s: &'static str| s@).take(
                    i as int,
                )[k]);
            }
        }
        assert(str_views(res@) =~= builtin@.map_values(|s: &'static str| s@).take(i + 1));
        i += 1;
    }
    assert(builtin@.map_values(|s: &'static str| s@).take(i as int) =~= builtin@.map_values(
        |s: &'static str| s@,
    ));
    assert(extra@.map_values(|s: String| s@).take(0) =~= Seq::<Seq<char>>::empty());
    assert(builtin@.map_values(|s: &'static str| s@) + Seq::<Seq<char>>::empty() =~= builtin@.map_values(
        |s: &'static str| s@,
    ));
    let mut j: usize = 0;
    while j < extra.len()
        invariant
            j <= extra@.len(),
            res@.len() == builtin@.len() + j,
            str_views(res@) == builtin@.map_values(|s: &'static str| s@) + extra@.map_values(
                |s: String| s@,
            ).take(j as int),
        decreases extra@.len() - j,
    {
        let ghost before = res@;
        let ghost head = builtin@.map_values(|s: &'static str| s@);
        let ghost tail = extra@.map_values(|s: String| s@);
        res.push(extra[j].as_str());
        assert forall|k: int| 0 <= k < res@.len() implies str_views(res@)[k] == (head + tail.take(
            j + 1,
        ))[k] by {
            if k < before.len() {
                assert(res@[k] == before[k]);
                assert(str_views(before)[k] == (head + tail.take(j as int))[k]);
            }
        }
        assert(str_views(res@) =~= builtin@.map_values(|s: &'static str| s@) + extra@.map_values(
            |s: String| s@,
        ).take(j + 1));
        j += 1;
    }
    assert(extra@.map_values(|s: String| s@).take(j as int) =~= extra@.map_values(
        |s: String| s@,
    ));
    res
}

pub open spec fn site(
    root: Seq<char>,
    path: Seq<char>,
    language: Language,
    in_test: bool,
    content: Seq<u8>,
    kind: Seq<char>,
) -> DeclSite {
    DeclSite { root, path, language, in_test, content, kind }
}

/// Everything a declaration's classification reads besides its match.
struct ScanContext<'a> {
    tallies: Tallies,
    opts: &'a ScanOptions,
    noise: Vec<&'a str>,
    attrs: Vec<&'a str>,
    root: &'a str,
}

impl<'a> ScanContext<'a> {
    spec fn wf(&self, n: nat) -> bool {
        &&& str_views(self.noise@) == noise_names(self.opts@)
        &&& str_views(self.attrs@) == attr_names(self.opts@)
        &&& tallies_bounded(self.tallies@, n)
        &&& 2 * n <= usize::MAX
    }
}

fn count_for(map: &StringHashMap<usize>, name: &str) -> (res: usize)
    ensures
        res == count_of(map@, name@),
{
    match map.get(name) {
        Some(v) => *v,
        None => 0,
    }
}

/// The finding for one match, computed as `classify` describes.
fn classify_capture(
    ctx: &ScanContext,
    path: &str,
    language: Language,
    in_test: bool,
    content: &str,
    kind: &str,
    cap: (usize, usize, Option<(usize, usize)>),
    code: &Vec<bool>,
    Ghost(n): Ghost<nat>,
) -> (res: Option<Finding>)
    requires
        ctx.wf(n),
        code@.len() == content.spec_bytes().len(),
        forall|p: int| 0 <= p < code@.len() ==> code@[p] == in_code(content.spec_bytes(), p),
        valid_range(content.spec_bytes(), cap.0, cap.1),
        cap.2 matches Some(g) ==> valid_range(content.spec_bytes(), g.0, g.1),
        content.spec_bytes().len() <= isize::MAX,
    ensures
        match res {
            Some(f) => classify(
                ctx.tallies@,
                ctx.opts@,
                site(ctx.root@, path@, language, in_test, content.spec_bytes(), kind@),
                cap,
            ) == Some(f@),
            None => classify(
                ctx.tallies@,
                ctx.opts@,
                site(ctx.root@, path@, language, in_test, content.spec_bytes(), kind@),
                cap,
            ) is None,
        },
{
    let ghost b = content.spec_bytes();
    let (gs, ge) = match cap.2 {
        Some(g) => g,
        None => {
            return None;
        },
    };
    if gs >= code.len() || !code[gs] {
        proof {
            crate::lexer::lemma_in_code_within(b, 0, gs as int);
        }
        return None;
    }
    let name = byte_slice(content, gs, ge);
    if name.len() < ctx.opts.min_len || listed(&ctx.noise, name) {
        return None;
    }
    if ctx.tallies.conformance.contains(name) {
        return None;
    }
    let bytes = content.as_bytes();
    if !ctx.opts.include_overrides && is_override_decl(content, cap.0, gs) {
        return None;
    }
    if has_dynamic_attr(content, cap.0, &ctx.attrs) {
        return None;
    }
    proof {
        assert(count_of(ctx.tallies@.prod, name@) <= n);
        assert(count_of(ctx.tallies@.test, name@) <= n);
        assert(count_of(ctx.tallies@.dynamic, name@) <= n);
    }
    let prod = count_for(&ctx.tallies.prod, name);
    let test = count_for(&ctx.tallies.test, name);
    let dynamic = count_for(&ctx.tallies.dynamic, name);
    let bucket = match bucket_of(prod, test, dynamic, in_test) {
        Some(bucket) => bucket,
        None => {
            return None;
        },
    };
    let line = line_number(bytes, cap.0);
    Some(
        Finding {
            bucket,
            language,
            name: name.to_owned(),
            kind: String::from_str(kind),
            file: relative_to(ctx.root, path),
            line,
            prod_refs: prod,
            test_refs: test,
            dynamic_refs: dynamic,
        },
    )
}

/// Classifies every match of one pattern in one file.
fn scan_pattern(
    ctx: &ScanContext,
    path: &str,
    language: Language,
    in_test: bool,
    content: &str,
    kind: &str,
    pattern: &Pattern,
    code: &Vec<bool>,
    findings: &mut Vec<Finding>,
    decls: &mut usize,
    Ghost(n): Ghost<nat>,
)
    requires
        ctx.wf(n),
        code@.len() == content.spec_bytes().len(),
        forall|p: int| 0 <= p < code@.len() ==> code@[p] == in_code(content.spec_bytes(), p),
        content.spec_bytes().len() <= isize::MAX,
        *old(decls) + 2 * (content.spec_bytes().len() + 1) <= usize::MAX,
    ensures
        findings_view(final(findings)@) == findings_view(old(findings)@) + capture_findings(
            ctx.tallies@,
            ctx.opts@,
            site(ctx.root@, path@, language, in_test, content.spec_bytes(), kind@),
            regex_captures(pattern@, content@),
        ),
        *final(decls) == *old(decls) + regex_captures(pattern@, content@).len(),
        regex_captures(pattern@, content@).len() <= 2 * (content.spec_bytes().len() + 1),
{
    let caps = pattern.captures(content);
    let ghost st = site(ctx.root@, path@, language, in_test, content.spec_bytes(), kind@);
    let mut c: usize = 0;
    while c < caps.len()
        invariant
            c <= caps@.len(),
            ctx.wf(n),
            caps@ == regex_captures(pattern@, content@),
            well_formed_captures(caps@, content.spec_bytes()),
            code@.len() == content.spec_bytes().len(),
            forall|p: int| 0 <= p < code@.len() ==> code@[p] == in_code(content.spec_bytes(), p),
            content.spec_bytes().len() <= isize::MAX,
            *old(decls) + 2 * (content.spec_bytes().len() + 1) <= usize::MAX,
            st == site(ctx.root@, path@, language, in_test, content.spec_bytes(), kind@),
            *decls == *old(decls) + c,
            findings_view(findings@) == findings_view(old(findings)@) + capture_findings(
                ctx.tallies@,
                ctx.opts@,
                st,
                caps@.take(c as int),
            ),
        decreases caps@.len() - c,
    {
        assert(caps@.take(c + 1).drop_last() =~= caps@.take(c as int));
        assert(caps@.take(c + 1).last() == caps@[c as int]);
        assert(valid_range(content.spec_bytes(), caps@[c as int].0, caps@[c as int].1));
        *decls = *decls + 1;
        let ghost before = findings@;
        match classify_capture(ctx, path, language, in_test, content, kind, caps[c], code, Ghost(n)) {
            Some(f) => {
                findings.push(f);
                assert(findings_view(findings@) =~= findings_view(before).push(f@));
            },
            None => {},
        }
        c += 1;
    }
    assert(caps@.take(c as int) =~= caps@);
}

/// Findings of each pattern in turn, on one file's text.
pub open spec fn pattern_findings(
    t: TalliesView,
    opts: ScanOptionsView,
    root: Seq<char>,
    f: SourceFileView,
    language: Language,
    in_test: bool,
    raw: Seq<char>,
    pats: Seq<(Seq<char>, Seq<char>)>,
) -> Seq<FindingView>
    decreases pats.len(),
{
    if pats.len() == 0 {
        seq![]
    } else {
        pattern_findings(t, opts, root, f, language, in_test, raw, pats.drop_last())
            + capture_findings(
            t,
            opts,
            site(root, f.path, language, in_test, encode_utf8(raw), pats.last().0),
            regex_captures(pats.last().1, raw),
        )
    }
}

/// Number of matches of all patterns on one file's text.
pub open spec fn pattern_decls(raw: Seq<char>, pats: Seq<(Seq<char>, Seq<char>)>) -> nat
    decreases pats.len(),
{
    if pats.len() == 0 {
        0
    } else {
        pattern_decls(raw, pats.drop_last()) + regex_captures(pats.last().1, raw).len()
    }
}

/// Declarations examined and findings for one file: none for an unreadable
/// file, a resource file, or a test file unless those are included.
pub open spec fn file_scan(
    t: TalliesView,
    opts: ScanOptionsView,
    root: Seq<char>,
    p: PatternsView,
    f: SourceFileView,
) -> (nat, Seq<FindingView>) {
    match f.contents {
        None => (0, seq![]),
        Some(raw) => match file_language(f.path) {
            None => (0, seq![]),
            Some(language) => {
                let in_test = is_test_path_spec(f.path);
                if in_test && !opts.include_tests {
                    (0, seq![])
                } else {
                    let pats = patterns_for(p, language);
                    (
                        pattern_decls(raw, pats),
                        pattern_findings(t, opts, root, f, language, in_test, raw, pats),
                    )
                }
            },
        },
    }
}

/// Declarations examined and findings over all files, in order.
pub open spec fn files_scan(
    t: TalliesView,
    opts: ScanOptionsView,
    root: Seq<char>,
    p: PatternsView,
    files: Seq<SourceFileView>,
) -> (nat, Seq<FindingView>)
    decreases files.len(),
{
    if files.len() == 0 {
        (0, seq![])
    } else {
        let prev = files_scan(t, opts, root, p, files.drop_last());
        let cur = file_scan(t, opts, root, p, files.last());
        (prev.0 + cur.0, prev.1 + cur.1)
    }
}

/// The larger number of patterns of the two languages.
pub open spec fn max_patterns(p: PatternsView) -> nat {
    if p.swift.len() >= p.kotlin.len() {
        p.swift.len()
    } else {
        p.kotlin.len()
    }
}

proof fn lemma_decl_budget(d: nat, k: nat, m: nat, len: nat, size: nat)
    requires
        d <= (2 * m + 2) * size,
        k <= m,
    ensures
        d + 2 * (len + 1) * k <= (2 * m + 2) * (size + len + 1),
        k < m ==> d + 2 * (len + 1) * k + 2 * (len + 1) <= (2 * m + 2) * (size + len + 1),
{
    assert((2 * m + 2) * (size + len + 1) == (2 * m + 2) * size + 2 * (len + 1) * m + 2 * (len
        + 1)) by (nonlinear_arith);
    assert(2 * (len + 1) * k <= 2 * (len + 1) * m) by (nonlinear_arith)
        requires
            k <= m,
    ;
    if k < m {
        assert(2 * (len + 1) * k + 2 * (len + 1) <= 2 * (len + 1) * m) by (nonlinear_arith)
            requires
                k + 1 <= m,
        ;
    }
}

/// Classifies the declarations of one file.
fn scan_one(
    ctx: &ScanContext,
    patterns: &Patterns,
    f: &SourceFile,
    findings: &mut Vec<Finding>,
    decls: &mut usize,
    Ghost(n): Ghost<nat>,
    Ghost(size): Ghost<nat>,
)
    requires
        ctx.wf(n),
        file_bytes(f@) <= isize::MAX,
        *old(decls) <= (2 * max_patterns(patterns@) + 2) * size,
        (2 * max_patterns(patterns@) + 2) * (size + file_bytes(f@) + 1) <= usize::MAX,
    ensures
        findings_view(final(findings)@) == findings_view(old(findings)@) + file_scan(
            ctx.tallies@,
            ctx.opts@,
            ctx.root@,
            patterns@,
            f@,
        ).1,
        *final(decls) == *old(decls) + file_scan(ctx.tallies@, ctx.opts@, ctx.root@, patterns@, f@).0,
        *final(decls) <= (2 * max_patterns(patterns@) + 2) * (size + file_bytes(f@) + 1),
{
    let ghost m = max_patterns(patterns@);
    proof {
        assert((2 * m + 2) * size <= (2 * m + 2) * (size + file_bytes(f@) + 1)) by (nonlinear_arith);
    }
    let raw = match &f.contents {
        Some(c) => c,
        None => {
            assert(findings_view(findings@) =~= findings_view(findings@) + Seq::<FindingView>::empty());
            return;
        },
    };
    let language = match language_of_path(f.path.as_str()) {
        Some(l) => l,
        None => {
            assert(findings_view(findings@) =~= findings_view(findings@) + Seq::<FindingView>::empty());
            return;
        },
    };
    let in_test = is_test_file(f.path.as_str());
    if in_test && !ctx.opts.include_tests {
        assert(findings_view(findings@) =~= findings_view(findings@) + Seq::<FindingView>::empty());
        return;
    }
    let code = code_positions(raw.as_str());
    let pats = patterns.for_language(language);
    let ghost pv = patterns_for(patterns@, language);
    let ghost len = file_bytes(f@);
    let ghost d0 = *decls;
    let ghost f0 = findings_view(findings@);
    assert(pv.len() <= m);
    assert(pats@.len() == pv.len());
    assert(pv.take(0) =~= Seq::<(Seq<char>, Seq<char>)>::empty());
    let mut k: usize = 0;
    while k < pats.len()
        invariant
            k <= pats@.len(),
            ctx.wf(n),
            pv == patterns_for(patterns@, language),
            pv == crate::lang::kinds_view(pats@),
            pats@.len() == pv.len(),
            pv.len() <= m,
            m == max_patterns(patterns@),
            f.contents == Some(*raw),
            code@.len() == encode_utf8(raw@).len(),
            forall|p: int| 0 <= p < code@.len() ==> code@[p] == in_code(encode_utf8(raw@), p),
            len == file_bytes(f@),
            len == encode_utf8(raw@).len(),
            len <= isize::MAX,
            d0 <= (2 * m + 2) * size,
            (2 * m + 2) * (size + len + 1) <= usize::MAX,
            *decls == d0 + pattern_decls(raw@, pv.take(k as int)),
            pattern_decls(raw@, pv.take(k as int)) <= 2 * (len + 1) * k,
            findings_view(findings@) == f0 + pattern_findings(
                ctx.tallies@,
                ctx.opts@,
                ctx.root@,
                f@,
                language,
                in_test,
                raw@,
                pv.take(k as int),
            ),
        decreases pats@.len() - k,
    {
        proof {
            lemma_decl_budget(d0 as nat, k as nat, m, len, size);
            assert(pv.take(k + 1).drop_last() =~= pv.take(k as int));
            assert(pv.take(k + 1).last() == pv[k as int]);
            assert(pv[k as int] == (pats@[k as int].0@, pats@[k as int].1@));
        }
        let (kind, pattern) = &pats[k];
        let ghost before = findings_view(findings@);
        let ghost dk = *decls;
        scan_pattern(ctx, f.path.as_str(), language, in_test, raw.as_str(), kind, pattern, &code, findings, decls, Ghost(n));
        proof {
            assert(encode_utf8(raw@) == encode_utf8(raw@));
            assert(regex_captures(pattern@, raw@).len() <= 2 * (len + 1));
            assert(pattern_decls(raw@, pv.take(k + 1)) <= 2 * (len + 1) * (k + 1)) by (nonlinear_arith)
                requires
                    pattern_decls(raw@, pv.take(k + 1)) == pattern_decls(raw@, pv.take(k as int))
                        + regex_captures(pattern@, raw@).len(),
                    pattern_decls(raw@, pv.take(k as int)) <= 2 * (len + 1) * k,
                    regex_captures(pattern@, raw@).len() <= 2 * (len + 1),
            ;
            assert(f0 + (pattern_findings(ctx.tallies@, ctx.opts@, ctx.root@, f@, language, in_test, raw@, pv.take(k as int)) + capture_findings(ctx.tallies@, ctx.opts@, site(ctx.root@, f@.path, language, in_test, encode_utf8(raw@), pv.take(k + 1).last().0), regex_captures(pv.take(k + 1).last().1, raw@)))
                =~= before + capture_findings(ctx.tallies@, ctx.opts@, site(ctx.root@, f.path@, language, in_test, encode_utf8(raw@), kind@), regex_captures(pattern@, raw@)));
        }
        k += 1;
    }
    proof {
        assert(pv.take(k as int) =~= pv);
        lemma_decl_budget(d0 as nat, k as nat, m, len, size);
    }
}

/// Lexicographic order of byte strings (the order of `str`).
pub open spec fn bytes_lt(a: Seq<u8>, b: Seq<u8>) -> bool
    decreases a.len(),
{
    if a.len() == 0 {
        b.len() > 0
    } else if b.len() == 0 {
        false
    } else if a[0] != b[0] {
        a[0] < b[0]
    } else {
        bytes_lt(a.drop_first(), b.drop_first())
    }
}

fn bytes_less(a: &[u8], b: &[u8]) -> (res: bool)
    ensures
        res == bytes_lt(a@, b@),
{
    let mut i: usize = 0;
    assert(a@.skip(0) =~= a@);
    assert(b@.skip(0) =~= b@);
    while i < a.len() && i < b.len() && a[i] == b[i]
        invariant
            i <= a@.len(),
            i <= b@.len(),
            bytes_lt(a@, b@) == bytes_lt(a@.skip(i as int), b@.skip(i as int)),
        decreases a@.len() - i,
    {
        assert(a@.skip(i as int).drop_first() =~= a@.skip(i + 1));
        assert(b@.skip(i as int).drop_first() =~= b@.skip(i + 1));
        i += 1;
    }
    assert(a@.skip(i as int).len() == a@.len() - i);
    assert(b@.skip(i as int).len() == b@.len() - i);
    if i == a.len() {
        i < b.len()
    } else if i == b.len() {
        false
    } else {
        assert(a@.skip(i as int)[0] == a@[i as int]);
        assert(b@.skip(i as int)[0] == b@[i as int]);
        a[i] < b[i]
    }
}

/// `x` sorts strictly before `y`: by file, then line, then name.
pub open spec fn finding_before(x: FindingView, y: FindingView) -> bool {
    let o = path_order(x.file, y.file);
    o == -1 || (o == 0 && (x.line < y.line || (x.line == y.line && bytes_lt(
        encode_utf8(x.name),
        encode_utf8(y.name),
    ))))
}

/// `x` inserted into `s` after every element it does not sort before.
pub open spec fn insert_sorted(s: Seq<FindingView>, x: FindingView) -> Seq<FindingView>
    decreases s.len(),
{
    if s.len() == 0 {
        seq![x]
    } else if finding_before(x, s.last()) {
        insert_sorted(s.drop_last(), x).push(s.last())
    } else {
        s.push(x)
    }
}

/// The stable sort of `s` by file, line and name.
pub open spec fn sort_findings(s: Seq<FindingView>) -> Seq<FindingView>
    decreases s.len(),
{
    if s.len() == 0 {
        seq![]
    } else {
        insert_sorted(sort_findings(s.drop_last()), s.last())
    }
}

/// `a` repeats `b`: same name, same file (as paths), same line.
pub open spec fn same_declaration(a: FindingView, b: FindingView) -> bool {
    a.name == b.name && path_equal(a.file, b.file) && a.line == b.line
}

/// `s` with each element dropped that repeats the last one kept.
pub open spec fn dedup_findings(s: Seq<FindingView>) -> Seq<FindingView>
    decreases s.len(),
{
    if s.len() == 0 {
        seq![]
    } else {
        let d = dedup_findings(s.drop_last());
        if d.len() > 0 && same_declaration(s.last(), d.last()) {
            d
        } else {
            d.push(s.last())
        }
    }
}

fn before(x: &Finding, y: &Finding) -> (res: bool)
    ensures
        res == finding_before(x@, y@),
{
    let o = compare_paths(x.file.as_str(), y.file.as_str());
    o == -1 || (o == 0 && (x.line < y.line || (x.line == y.line && bytes_less(
        x.name.as_str().as_bytes(),
        y.name.as_str().as_bytes(),
    ))))
}

proof fn lemma_insert_at(s: Seq<FindingView>, x: FindingView, p: int)
    requires
        0 <= p <= s.len(),
        forall|q: int| p <= q < s.len() ==> finding_before(x, #[trigger] s[q]),
        p == 0 || !finding_before(x, s[p - 1]),
    ensures
        insert_sorted(s, x) == s.insert(p, x),
    decreases s.len(),
{
    if s.len() == 0 {
        assert(s.insert(p, x) =~= seq![x]);
    } else if finding_before(x, s.last()) {
        assert(p < s.len());
        lemma_insert_at(s.drop_last(), x, p);
        assert(s.drop_last().insert(p, x).push(s.last()) =~= s.insert(p, x));
    } else {
        assert(p == s.len());
        assert(s.push(x) =~= s.insert(p, x));
    }
}

/// Stable insertion sort by file, line and name.
fn sort_by_location(v: Vec<Finding>) -> (res: Vec<Finding>)
    ensures
        findings_view(res@) == sort_findings(findings_view(v@)),
{
    let ghost vv = findings_view(v@);
    let mut out: Vec<Finding> = Vec::new();
    assert(vv.take(0) =~= Seq::<FindingView>::empty());
    for x in it: v
        invariant
            vv == findings_view(it.seq()),
            findings_view(out@) == sort_findings(vv.take(it.index() as int)),
    {
        let ghost i = it.index() as int;
        assert(vv[i] == x@);
        let ghost ov = findings_view(out@);
        let mut p = out.len();
        while p > 0 && before(&x, &out[p - 1])
            invariant
                p <= out@.len(),
                ov == findings_view(out@),
                forall|q: int| p <= q < ov.len() ==> finding_before(x@, #[trigger] ov[q]),
            decreases p,
        {
            p -= 1;
        }
        proof {
            lemma_insert_at(ov, x@, p as int);
            assert(vv.take(i + 1).drop_last() =~= vv.take(i));
            assert(vv.take(i + 1).last() == x@);
        }
        out.insert(p, x);
        assert(findings_view(out@) =~= ov.insert(p as int, x@));
    }
    assert(vv.take(vv.len() as int) =~= vv);
    out
}

fn same(a: &Finding, b: &Finding) -> (res: bool)
    ensures
        res == same_declaration(a@, b@),
{
    str_eq(a.name.as_str(), b.name.as_str()) && paths_equal(a.file.as_str(), b.file.as_str())
        && a.line == b.line
}

/// Drops each finding that repeats the last one kept.
fn dedup_by_location(v: Vec<Finding>) -> (res: Vec<Finding>)
    ensures
        findings_view(res@) == dedup_findings(findings_view(v@)),
{
    let ghost vv = findings_view(v@);
    let mut out: Vec<Finding> = Vec::new();
    assert(vv.take(0) =~= Seq::<FindingView>::empty());
    for x in it: v
        invariant
            vv == findings_view(it.seq()),
            findings_view(out@) == dedup_findings(vv.take(it.index() as int)),
    {
        let ghost i = it.index() as int;
        assert(vv[i] == x@);
        proof {
            assert(vv.take(i + 1).drop_last() =~= vv.take(i));
            assert(vv.take(i + 1).last() == x@);
        }
        let n = out.len();
        if n > 0 && same(&x, &out[n - 1]) {
        } else {
            let ghost ov = findings_view(out@);
            out.push(x);
            assert(findings_view(out@) =~= ov.push(x@));
        }
    }
    assert(vv.take(vv.len() as int) =~= vv);
    out
}

/// The report a scan gives for `files` (as listed by a directory walk of
/// `root`, each with its text when it could be read): an error when none is
/// a Swift or Kotlin file; otherwise the file counts, the declarations
/// examined, and the findings sorted by location with repeats dropped.
pub open spec fn scan_result(
    root: Seq<char>,
    files: Seq<SourceFileView>,
    opts: ScanOptionsView,
    p: PatternsView,
) -> Result<ScanReportView, ScanErrorView> {
    let code = count_code_files(files);
    if code == 0 {
        Err(ScanErrorView::NoSourceFiles(root))
    } else {
        let t = pass1(files, p);
        let r = files_scan(t, opts, root, p, files);
        Ok(
            ScanReportView {
                root,
                code_files: code as usize,
                resource_files: (files.len() - code) as usize,
                declarations: r.0 as usize,
                findings: dedup_findings(sort_findings(r.1)),
            },
        )
    }
}

proof fn lemma_count_code_files_le(files: Seq<SourceFileView>)
    ensures
        count_code_files(files) <= files.len(),
    decreases files.len(),
{
    if files.len() > 0 {
        lemma_count_code_files_le(files.drop_last());
    }
}

proof fn lemma_scan_step(
    t: TalliesView,
    opts: ScanOptionsView,
    root: Seq<char>,
    p: PatternsView,
    fv: Seq<SourceFileView>,
    i: int,
    m: nat,
    total: nat,
)
    requires
        0 <= i < fv.len(),
        total == input_size(fv),
        (2 * m + 2) * total <= usize::MAX,
    ensures
        files_scan(t, opts, root, p, fv.take(i + 1)) == (
            files_scan(t, opts, root, p, fv.take(i)).0 + file_scan(t, opts, root, p, fv[i]).0,
            files_scan(t, opts, root, p, fv.take(i)).1 + file_scan(t, opts, root, p, fv[i]).1,
        ),
        input_size(fv.take(i + 1)) == input_size(fv.take(i)) + file_bytes(fv[i]) + 1,
        (2 * m + 2) * input_size(fv.take(i + 1)) <= usize::MAX,
        file_bytes(fv[i]) <= isize::MAX,
{
    lemma_input_size_prefix(fv, i);
    assert(fv.take(i + 1).drop_last() =~= fv.take(i));
    assert(fv.take(i + 1).last() == fv[i]);
    assert((2 * m + 2) * input_size(fv.take(i + 1)) <= (2 * m + 2) * total) by (nonlinear_arith)
        requires
            input_size(fv.take(i + 1)) <= total,
    ;
    assert(file_bytes(fv[i]) <= isize::MAX) by (nonlinear_arith)
        requires
            file_bytes(fv[i]) <= input_size(fv.take(i + 1)),
            input_size(fv.take(i + 1)) <= total,
            (2 * m + 2) * total <= usize::MAX,
    ;
}

/// Scan the files found under `root` for dead-code candidates.
pub fn scan(root: &str, files: &Vec<SourceFile>, opts: &ScanOptions, patterns: &Patterns) -> (res:
    Result<ScanReport, ScanError>)
    requires
        (2 * max_patterns(patterns@) + 2) * input_size(files_view(files@)) <= usize::MAX,
    ensures
        match res {
            Ok(r) => scan_result(root@, files_view(files@), opts@, patterns@) == Ok::<
                ScanReportView,
                ScanErrorView,
            >(r@) && r.findings@.len() <= r.declarations,
            Err(e) => scan_result(root@, files_view(files@), opts@, patterns@) == Err::<
                ScanReportView,
                ScanErrorView,
            >(e@),
        },
{
    let ghost fv = files_view(files@);
    let ghost m = max_patterns(patterns@);
    let ghost total = input_size(fv);
    let mut code_files: usize = 0;
    let mut i: usize = 0;
    assert(fv.take(0) =~= Seq::<SourceFileView>::empty());
    while i < files.len()
        invariant
            fv == files_view(files@),
            i <= files@.len(),
            code_files == count_code_files(fv.take(i as int)),
            code_files <= i,
        decreases files@.len() - i,
    {
        assert(fv.take(i + 1).drop_last() =~= fv.take(i as int));
        assert(fv.take(i + 1).last() == files@[i as int]@);
        if language_of_path(files[i].path.as_str()).is_some() {
            code_files += 1;
        }
        i += 1;
    }
    assert(fv.take(i as int) =~= fv);
    if code_files == 0 {
        return Err(ScanError::NoSourceFiles(String::from_str(root)));
    }
    let resource_files = files.len() - code_files;
    proof {
        assert(2 * total <= (2 * m + 2) * total) by (nonlinear_arith);
    }
    let tallies = tally_files(files, patterns);
    let noise = merged_list(NOISE.as_slice(), &opts.extra_noise);
    let attrs = merged_list(DYNAMIC_ATTRS.as_slice(), &opts.extra_dynamic_attrs);
    let ctx = ScanContext { tallies, opts, noise, attrs, root };
    assert(ctx.wf(total));
    let mut findings: Vec<Finding> = Vec::new();
    let mut declarations: usize = 0;
    let mut i: usize = 0;
    assert(findings_view(findings@) =~= Seq::<FindingView>::empty());
    while i < files.len()
        invariant
            fv == files_view(files@),
            ctx.wf(total),
            ctx.opts == opts,
            ctx.root == root,
            total == input_size(fv),
            m == max_patterns(patterns@),
            (2 * m + 2) * total <= usize::MAX,
            i <= files@.len(),
            declarations == files_scan(ctx.tallies@, opts@, root@, patterns@, fv.take(i as int)).0,
            findings_view(findings@) == files_scan(ctx.tallies@, opts@, root@, patterns@, fv.take(i as int)).1,
            declarations <= (2 * m + 2) * input_size(fv.take(i as int)),
        decreases files@.len() - i,
    {
        proof {
            lemma_scan_step(ctx.tallies@, opts@, root@, patterns@, fv, i as int, m, total);
            assert(fv[i as int] == files@[i as int]@);
        }
        scan_one(&ctx, patterns, &files[i], &mut findings, &mut declarations, Ghost(total), Ghost(input_size(fv.take(i as int))));
        i += 1;
    }
    assert(fv.take(i as int) =~= fv);
    let sorted = sort_by_location(findings);
    let kept = dedup_by_location(sorted);
    proof {
        lemma_count_code_files_le(fv);
        let raw = files_scan(ctx.tallies@, opts@, root@, patterns@, fv).1;
        lemma_files_scan_justified(ctx.tallies@, opts@, root@, patterns@, fv);
        lemma_sort_elements(raw);
        lemma_dedup_elements(sort_findings(raw));
    }
    Ok(
        ScanReport {
            root: String::from_str(root),
            code_files,
            resource_files,
            declarations,
            findings: kept,
        },
    )
}

} // verus!
