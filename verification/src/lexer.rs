//! Comment and string-literal stripping, and identifier tallying.
//!
//! Everything here works on the UTF-8 bytes of the input, as the scanner
//! positions are byte offsets. The specifications are given over
//! `Seq<u8>`; an output `String` is described by its UTF-8 encoding.
use vstd::prelude::*;
use vstd::utf8::*;
use vstd::string::{StringSliceAdditionalSpecFns, StringExecFns};

use vstd::hash_map::StringHashMap;
use crate::text::{NL, push_newline, append_range, byte_slice, lemma_boundary_after_ascii, lemma_boundary_of_non_continuation};

verus! {

broadcast use vstd::utf8::group_utf8_lib;

pub const SLASH: u8 = 0x2F;

pub const STAR: u8 = 0x2A;

pub const QUOTE: u8 = 0x22;

pub const BACKSLASH: u8 = 0x5C;

pub const UNDERSCORE: u8 = 0x5F;

/// Byte width of the UTF-8 sequence that starts with `first`; 1 for a byte
/// that cannot start a multi-byte sequence.
pub open spec fn utf8_width(first: u8) -> nat {
    if first < 0x80 {
        1
    } else if first >> 5u8 == 0b110u8 {
        2
    } else if first >> 4u8 == 0b1110u8 {
        3
    } else if first >> 3u8 == 0b11110u8 {
        4
    } else {
        1
    }
}

pub open spec fn min_int(a: int, b: int) -> int {
    if a <= b {
        a
    } else {
        b
    }
}

pub open spec fn max_int(a: int, b: int) -> int {
    if a >= b {
        a
    } else {
        b
    }
}

/// `x` followed by `y` starts at `i`.
pub open spec fn pair_at(b: Seq<u8>, i: int, x: u8, y: u8) -> bool {
    0 <= i && i + 1 < b.len() && b[i] == x && b[i + 1] == y
}

/// A `"""` delimiter starts at `i`.
pub open spec fn triple_quote_at(b: Seq<u8>, i: int) -> bool {
    0 <= i && i + 2 < b.len() && b[i] == QUOTE && b[i + 1] == QUOTE && b[i + 2] == QUOTE
}

/// First position at or after `i` that holds a newline, or the end.
pub open spec fn line_end(b: Seq<u8>, i: int) -> int
    decreases b.len() - i,
{
    if i < 0 || i >= b.len() || b[i] == NL {
        i
    } else {
        line_end(b, i + 1)
    }
}

/// Scans a (nestable) block comment body from `j` with `depth` comments
/// open: the position after the comment and the newlines it held.
pub open spec fn block_scan(b: Seq<u8>, j: int, depth: nat) -> (int, Seq<u8>)
    decreases b.len() - j,
{
    if j < 0 || j >= b.len() || depth == 0 {
        (j, seq![])
    } else if pair_at(b, j, SLASH, STAR) {
        block_scan(b, j + 2, depth + 1)
    } else if pair_at(b, j, STAR, SLASH) {
        block_scan(b, j + 2, (depth - 1) as nat)
    } else {
        let r = block_scan(b, j + 1, depth);
        (r.0, if b[j] == NL {
            seq![NL] + r.1
        } else {
            r.1
        })
    }
}

/// Scans a `"""` literal body from `j`: the position of the closing
/// delimiter (or the end, for a literal left open) and the newlines it held.
pub open spec fn triple_scan(b: Seq<u8>, j: int) -> (int, Seq<u8>)
    decreases b.len() - j,
{
    if j < 0 || j >= b.len() || triple_quote_at(b, j) {
        (j, seq![])
    } else {
        let r = triple_scan(b, j + 1);
        (r.0, if b[j] == NL {
            seq![NL] + r.1
        } else {
            r.1
        })
    }
}

/// Scans an ordinary literal body from `j`, a backslash skipping the byte
/// after it unless that byte is a newline: the position of the closing
/// quote, of the newline that ends an open literal, or the end.
pub open spec fn string_scan(b: Seq<u8>, j: int) -> int
    decreases b.len() + 1 - j,
{
    if j < 0 || j >= b.len() || b[j] == QUOTE || b[j] == NL {
        j
    } else if b[j] == BACKSLASH && j + 1 < b.len() && b[j + 1] != NL {
        string_scan(b, j + 2)
    } else {
        string_scan(b, j + 1)
    }
}

/// The bytes `start..end` (each clamped to the input) followed by a newline,
/// when both ends are character boundaries; nothing otherwise.
pub open spec fn slice_piece(b: Seq<u8>, start: int, end: int) -> Seq<u8> {
    let s = min_int(start, b.len() as int);
    let e = min_int(end, b.len() as int);
    if s <= e && is_char_boundary(b, s) && is_char_boundary(b, e) {
        b.subrange(s, e).push(NL)
    } else {
        seq![]
    }
}

/// One step of the lexer at `i` (with `0 <= i < b.len()`): the next
/// position, the bytes it adds to the code, and those it adds to the
/// string contents.
pub open spec fn lex_step(b: Seq<u8>, i: int) -> (int, Seq<u8>, Seq<u8>) {
    let len = b.len() as int;
    if pair_at(b, i, SLASH, SLASH) {
        (line_end(b, i), seq![], seq![])
    } else if pair_at(b, i, SLASH, STAR) {
        let r = block_scan(b, i + 2, 1);
        (r.0, r.1, seq![])
    } else if triple_quote_at(b, i) {
        let r = triple_scan(b, i + 3);
        (min_int(r.0 + 3, len), r.1, slice_piece(b, i + 3, r.0))
    } else if b[i] == QUOTE {
        let j = string_scan(b, i + 1);
        (if j < len && b[j] == QUOTE {
            j + 1
        } else {
            j
        }, seq![], slice_piece(b, i + 1, j))
    } else {
        let end = min_int(i + utf8_width(b[i]), len);
        (max_int(end, i + 1), if is_char_boundary(b, i) && is_char_boundary(b, end) {
            b.subrange(i, end)
        } else {
            seq![]
        }, seq![])
    }
}

/// Code bytes and string-literal bytes produced from position `i` on.
pub open spec fn lex_from(b: Seq<u8>, i: int) -> (Seq<u8>, Seq<u8>)
    decreases b.len() - i,
{
    if i < 0 || i >= b.len() {
        (seq![], seq![])
    } else {
        let s = lex_step(b, i);
        proof {
            lemma_lex_step_bounds(b, i);
        }
        let rest = lex_from(b, s.0);
        (s.1 + rest.0, s.2 + rest.1)
    }
}

/// The source with comments and string literals removed (newlines inside
/// removed comments and `"""` literals kept).
pub open spec fn stripped_code(b: Seq<u8>) -> Seq<u8> {
    lex_from(b, 0).0
}

/// The contents of every string literal, each followed by a newline.
pub open spec fn string_contents(b: Seq<u8>) -> Seq<u8> {
    lex_from(b, 0).1
}

pub proof fn lemma_line_end_bounds(b: Seq<u8>, i: int)
    requires
        0 <= i <= b.len(),
    ensures
        i <= line_end(b, i) <= b.len(),
    decreases b.len() - i,
{
    if i < b.len() && b[i] != NL {
        lemma_line_end_bounds(b, i + 1);
    }
}

pub proof fn lemma_block_scan_bounds(b: Seq<u8>, j: int, depth: nat)
    requires
        0 <= j <= b.len(),
    ensures
        j <= block_scan(b, j, depth).0 <= b.len(),
    decreases b.len() - j,
{
    if j >= b.len() || depth == 0 {
    } else if pair_at(b, j, SLASH, STAR) {
        lemma_block_scan_bounds(b, j + 2, depth + 1);
    } else if pair_at(b, j, STAR, SLASH) {
        lemma_block_scan_bounds(b, j + 2, (depth - 1) as nat);
    } else {
        lemma_block_scan_bounds(b, j + 1, depth);
    }
}

pub proof fn lemma_triple_scan_bounds(b: Seq<u8>, j: int)
    requires
        0 <= j,
    ensures
        j <= triple_scan(b, j).0,
        j <= b.len() ==> triple_scan(b, j).0 <= b.len(),
    decreases b.len() - j,
{
    if j >= b.len() || triple_quote_at(b, j) {
    } else {
        lemma_triple_scan_bounds(b, j + 1);
    }
}

pub proof fn lemma_string_scan_bounds(b: Seq<u8>, j: int)
    requires
        0 <= j <= b.len(),
    ensures
        j <= string_scan(b, j) <= b.len(),
        forall|k: int| j <= k < string_scan(b, j) ==> b[k] != NL,
        string_scan(b, j) < b.len() ==> b[string_scan(b, j)] == QUOTE || b[string_scan(b, j)]
            == NL,
    decreases b.len() + 1 - j,
{
    if j >= b.len() || b[j] == QUOTE || b[j] == NL {
    } else if b[j] == BACKSLASH && j + 1 < b.len() && b[j + 1] != NL {
        lemma_string_scan_bounds(b, j + 2);
    } else {
        lemma_string_scan_bounds(b, j + 1);
    }
}

/// Each lexer step moves forward and stays within the input.
pub proof fn lemma_lex_step_bounds(b: Seq<u8>, i: int)
    requires
        0 <= i < b.len(),
    ensures
        i < lex_step(b, i).0 <= b.len(),
{
    if pair_at(b, i, SLASH, SLASH) {
        lemma_line_end_bounds(b, i + 1);
    } else if pair_at(b, i, SLASH, STAR) {
        lemma_block_scan_bounds(b, i + 2, 1);
    } else if triple_quote_at(b, i) {
        lemma_triple_scan_bounds(b, i + 3);
    } else if b[i] == QUOTE {
        lemma_string_scan_bounds(b, i + 1);
    } else {
    }
}

pub fn utf8_len(first: u8) -> (n: usize)
    ensures
        n == utf8_width(first),
        1 <= n <= 4,
{
    if first < 0x80 {
        1
    } else if first >> 5 == 0b110 {
        2
    } else if first >> 4 == 0b1110 {
        3
    } else if first >> 3 == 0b11110 {
        4
    } else {
        1
    }
}

fn skip_line(b: &[u8], i: usize) -> (j: usize)
    requires
        i <= b@.len(),
    ensures
        j == line_end(b@, i as int),
{
    let mut j = i;
    while j < b.len() && b[j] != NL
        invariant
            i <= j <= b@.len(),
            line_end(b@, j as int) == line_end(b@, i as int),
        decreases b@.len() - j,
    {
        j += 1;
    }
    j
}

fn skip_block(b: &[u8], start: usize, code: &mut String) -> (j: usize)
    requires
        start <= b@.len(),
        b@.len() <= isize::MAX,
    ensures
        j == block_scan(b@, start as int, 1).0,
        encode_utf8(final(code)@) == encode_utf8(old(code)@) + block_scan(b@, start as int, 1).1,
{
    let mut j = start;
    let mut depth: usize = 1;
    while j < b.len() && depth > 0
        invariant
            start <= j <= b@.len(),
            b@.len() <= isize::MAX,
            depth <= j + 1,
            block_scan(b@, start as int, 1).0 == block_scan(b@, j as int, depth as nat).0,
            encode_utf8(old(code)@) + block_scan(b@, start as int, 1).1 == encode_utf8(code@)
                + block_scan(b@, j as int, depth as nat).1,
        decreases b@.len() - j,
    {
        if b[j] == SLASH && j + 1 < b.len() && b[j + 1] == STAR {
            depth += 1;
            j += 2;
        } else if b[j] == STAR && j + 1 < b.len() && b[j + 1] == SLASH {
            depth -= 1;
            j += 2;
        } else {
            if b[j] == NL {
                let ghost before = encode_utf8(code@);
                push_newline(code);
                assert(block_scan(b@, j as int, depth as nat).1 == seq![NL] + block_scan(
                    b@,
                    j + 1,
                    depth as nat,
                ).1);
                assert(before + (seq![NL] + block_scan(b@, j + 1, depth as nat).1) =~= before.push(
                    NL,
                ) + block_scan(b@, j + 1, depth as nat).1);
            }
            j += 1;
        }
    }
    j
}

fn skip_triple(b: &[u8], start: usize, code: &mut String) -> (j: usize)
    requires
        start <= b@.len(),
        b@.len() <= isize::MAX,
    ensures
        j == triple_scan(b@, start as int).0,
        start <= j <= b@.len(),
        encode_utf8(final(code)@) == encode_utf8(old(code)@) + triple_scan(b@, start as int).1,
{
    let mut j = start;
    while j < b.len() && !(j + 2 < b.len() && b[j] == QUOTE && b[j + 1] == QUOTE && b[j + 2]
        == QUOTE)
        invariant
            start <= j <= b@.len(),
            b@.len() <= isize::MAX,
            triple_scan(b@, start as int).0 == triple_scan(b@, j as int).0,
            encode_utf8(old(code)@) + triple_scan(b@, start as int).1 == encode_utf8(code@)
                + triple_scan(b@, j as int).1,
        decreases b@.len() - j,
    {
        if b[j] == NL {
            let ghost before = encode_utf8(code@);
            push_newline(code);
            assert(before + (seq![NL] + triple_scan(b@, j + 1).1) =~= before.push(NL)
                + triple_scan(b@, j + 1).1);
        }
        j += 1;
    }
    proof {
        lemma_triple_scan_bounds(b@, j as int);
    }
    j
}

fn skip_string(b: &[u8], start: usize) -> (j: usize)
    requires
        start <= b@.len(),
        b@.len() <= isize::MAX,
    ensures
        j == string_scan(b@, start as int),
        start <= j <= b@.len(),
{
    let mut j = start;
    while j < b.len() && b[j] != QUOTE && b[j] != NL
        invariant
            start <= j <= b@.len(),
            b@.len() <= isize::MAX,
            string_scan(b@, start as int) == string_scan(b@, j as int),
        decreases b@.len() - j,
    {
        if b[j] == BACKSLASH && j + 1 < b.len() && b[j + 1] != NL {
            j += 1;
        }
        j += 1;
    }
    j
}

/// Appends `src[start..end]` and a newline to `out` when both clamped ends
/// are character boundaries.
pub fn push_slice(out: &mut String, src: &str, start: usize, end: usize)
    requires
        src.spec_bytes().len() <= isize::MAX,
    ensures
        encode_utf8(final(out)@) == encode_utf8(old(out)@) + slice_piece(
            src.spec_bytes(),
            start as int,
            end as int,
        ),
{
    let len = src.len();
    let s = if start < len {
        start
    } else {
        len
    };
    let e = if end < len {
        end
    } else {
        len
    };
    assert(s == min_int(start as int, src.spec_bytes().len() as int));
    assert(e == min_int(end as int, src.spec_bytes().len() as int));
    if s <= e && src.is_char_boundary(s) && src.is_char_boundary(e) {
        append_range(out, src, s, e);
        push_newline(out);
        assert(encode_utf8(old(out)@) + src.spec_bytes().subrange(s as int, e as int).push(NL)
            =~= (encode_utf8(old(out)@) + src.spec_bytes().subrange(s as int, e as int)).push(NL));
    } else {
        assert(encode_utf8(old(out)@) + seq![] =~= encode_utf8(old(out)@));
    }
}

/// Split source into (code with comments and string literals removed,
/// the extracted string-literal contents).
///
/// Newlines inside removed regions are preserved so line numbers computed on
/// the original text stay valid: a block comment or a `"""` literal keeps
/// its newlines, and an ordinary literal left open ends before the newline.
pub fn split_code_and_strings(src: &str) -> (res: (String, String))
    requires
        src.spec_bytes().len() <= isize::MAX,
    ensures
        encode_utf8(res.0@) == stripped_code(src.spec_bytes()),
        encode_utf8(res.1@) == string_contents(src.spec_bytes()),
{
    let b = src.as_bytes();
    let ghost bs = src.spec_bytes();
    let mut code = String::new();
    let mut strings = String::new();
    let mut i: usize = 0;
    while i < b.len()
        invariant
            b@ == bs,
            bs == src.spec_bytes(),
            bs.len() <= isize::MAX,
            i <= bs.len(),
            stripped_code(bs) == encode_utf8(code@) + lex_from(bs, i as int).0,
            string_contents(bs) == encode_utf8(strings@) + lex_from(bs, i as int).1,
        decreases bs.len() - i,
    {
        let ghost c0 = encode_utf8(code@);
        let ghost s0 = encode_utf8(strings@);
        let ghost step = lex_step(bs, i as int);
        proof {
            lemma_lex_step_bounds(bs, i as int);
        }
        let next: usize;
        if b[i] == SLASH && i + 1 < b.len() && b[i + 1] == SLASH {
            next = skip_line(b, i);
        } else if b[i] == SLASH && i + 1 < b.len() && b[i + 1] == STAR {
            next = skip_block(b, i + 2, &mut code);
        } else if b[i] == QUOTE && i + 2 < b.len() && b[i + 1] == QUOTE && b[i + 2] == QUOTE {
            let j = skip_triple(b, i + 3, &mut code);
            push_slice(&mut strings, src, i + 3, j);
            next = if j + 3 < b.len() {
                j + 3
            } else {
                b.len()
            };
        } else if b[i] == QUOTE {
            proof {
                lemma_string_scan_bounds(bs, i + 1);
            }
            let j = skip_string(b, i + 1);
            push_slice(&mut strings, src, i + 1, j);
            next = if j < b.len() && b[j] == QUOTE {
                j + 1
            } else {
                j
            };
        } else {
            let n = utf8_len(b[i]);
            let end = if i + n < src.len() {
                i + n
            } else {
                src.len()
            };
            if src.is_char_boundary(i) && src.is_char_boundary(end) {
                append_range(&mut code, src, i, end);
            } else {
                assert(c0 + seq![] =~= c0);
            }
            next = if end > i + 1 {
                end
            } else {
                i + 1
            };
        }
        assert(next == step.0);
        assert(encode_utf8(code@) == c0 + step.1);
        assert(encode_utf8(strings@) == s0 + step.2);
        assert(c0 + (step.1 + lex_from(bs, next as int).0) =~= (c0 + step.1) + lex_from(
            bs,
            next as int,
        ).0);
        assert(s0 + (step.2 + lex_from(bs, next as int).1) =~= (s0 + step.2) + lex_from(
            bs,
            next as int,
        ).1);
        i = next;
    }
    assert(encode_utf8(code@) + seq![] =~= encode_utf8(code@));
    assert(encode_utf8(strings@) + seq![] =~= encode_utf8(strings@));
    (code, strings)
}

/// The lexer's step at `i` keeps its bytes as code: it starts no comment
/// and no string literal.
pub open spec fn is_code_step(b: Seq<u8>, i: int) -> bool {
    !pair_at(b, i, SLASH, SLASH) && !pair_at(b, i, SLASH, STAR) && b[i] != QUOTE
}

/// Position `p` starts a character the lexer, walking from `i`, keeps as
/// code: it is outside every comment and string literal.
pub open spec fn in_code_from(b: Seq<u8>, i: int, p: int) -> bool
    decreases b.len() - i,
{
    if i < 0 || i >= b.len() || p < i {
        false
    } else {
        let s = lex_step(b, i);
        proof {
            lemma_lex_step_bounds(b, i);
        }
        if p < s.0 {
            p == i && is_code_step(b, i)
        } else {
            in_code_from(b, s.0, p)
        }
    }
}

/// Position `p` of `b` is in code, outside comments and string literals.
pub open spec fn in_code(b: Seq<u8>, p: int) -> bool {
    in_code_from(b, 0, p)
}

/// Only positions inside the input can be in code.
pub proof fn lemma_in_code_within(b: Seq<u8>, i: int, p: int)
    ensures
        in_code_from(b, i, p) ==> 0 <= p < b.len(),
    decreases b.len() - i,
{
    if 0 <= i < b.len() && p >= i {
        lemma_lex_step_bounds(b, i);
        if p >= lex_step(b, i).0 {
            lemma_in_code_within(b, lex_step(b, i).0, p);
        }
    }
}

/// Where the lexer's step at `i` ends.
fn step_end(b: &[u8], i: usize) -> (r: usize)
    requires
        i < b@.len(),
        b@.len() <= isize::MAX,
    ensures
        r == lex_step(b@, i as int).0,
{
    let ghost bs = b@;
    proof {
        lemma_lex_step_bounds(bs, i as int);
    }
    if b[i] == SLASH && i + 1 < b.len() && b[i + 1] == SLASH {
        skip_line(b, i)
    } else if b[i] == SLASH && i + 1 < b.len() && b[i + 1] == STAR {
        let mut scratch = String::new();
        skip_block(b, i + 2, &mut scratch)
    } else if b[i] == QUOTE && i + 2 < b.len() && b[i + 1] == QUOTE && b[i + 2] == QUOTE {
        let mut scratch = String::new();
        let j = skip_triple(b, i + 3, &mut scratch);
        if j + 3 < b.len() {
            j + 3
        } else {
            b.len()
        }
    } else if b[i] == QUOTE {
        proof {
            lemma_string_scan_bounds(bs, i + 1);
        }
        let j = skip_string(b, i + 1);
        if j < b.len() && b[j] == QUOTE {
            j + 1
        } else {
            j
        }
    } else {
        let n = utf8_len(b[i]);
        let end = if i + n < b.len() {
            i + n
        } else {
            b.len()
        };
        if end > i + 1 {
            end
        } else {
            i + 1
        }
    }
}

/// For each byte offset of `src`, whether it starts a character of code,
/// outside comments and string literals.
pub fn code_positions(src: &str) -> (m: Vec<bool>)
    requires
        src.spec_bytes().len() <= isize::MAX,
    ensures
        m@.len() == src.spec_bytes().len(),
        forall|p: int| 0 <= p < m@.len() ==> m@[p] == in_code(src.spec_bytes(), p),
{
    let b = src.as_bytes();
    let ghost bs = src.spec_bytes();
    let mut m: Vec<bool> = Vec::new();
    let mut k: usize = 0;
    while k < b.len()
        invariant
            b@ == bs,
            k <= bs.len(),
            m@.len() == k,
            forall|p: int| 0 <= p < k ==> !m@[p],
        decreases bs.len() - k,
    {
        m.push(false);
        k += 1;
    }
    let mut i: usize = 0;
    while i < b.len()
        invariant
            b@ == bs,
            bs.len() <= isize::MAX,
            i <= bs.len(),
            m@.len() == bs.len(),
            forall|p: int| 0 <= p < i ==> m@[p] == in_code_from(bs, 0, p),
            forall|p: int| i <= p < bs.len() ==> !m@[p],
            forall|p: int| i <= p < bs.len() ==> in_code_from(bs, 0, p) == in_code_from(bs, i as int, p),
        decreases bs.len() - i,
    {
        proof {
            lemma_lex_step_bounds(bs, i as int);
        }
        let e = step_end(b, i);
        let code = !(b[i] == SLASH && i + 1 < b.len() && b[i + 1] == SLASH) && !(b[i] == SLASH && i + 1
            < b.len() && b[i + 1] == STAR) && b[i] != QUOTE;
        assert(code == is_code_step(bs, i as int));
        assert forall|p: int| i <= p < bs.len() implies in_code_from(bs, i as int, p) == (if p < e {
            p == i && code
        } else {
            in_code_from(bs, e as int, p)
        }) by {}
        m.set(i, code);
        i = e;
    }
    m
}

pub open spec fn is_ascii_alpha(c: u8) -> bool {
    (0x41 <= c && c <= 0x5A) || (0x61 <= c && c <= 0x7A)
}

pub open spec fn is_ascii_digit(c: u8) -> bool {
    0x30 <= c && c <= 0x39
}

/// A byte that can start an identifier: `_` or an ASCII letter.
pub open spec fn is_ident_start(c: u8) -> bool {
    c == UNDERSCORE || is_ascii_alpha(c)
}

/// A byte that can continue an identifier: `_`, an ASCII letter or digit.
pub open spec fn is_ident_byte(c: u8) -> bool {
    c == UNDERSCORE || is_ascii_alpha(c) || is_ascii_digit(c)
}

/// Whether `c` can continue an identifier.
pub fn is_ident_char(c: u8) -> (res: bool)
    ensures
        res == is_ident_byte(c),
{
    c == UNDERSCORE || (c >= 0x41 && c <= 0x5A) || (c >= 0x61 && c <= 0x7A) || (c >= 0x30 && c
        <= 0x39)
}

/// End of the run of identifier bytes starting at `i`.
pub open spec fn ident_end(b: Seq<u8>, i: int) -> int
    decreases b.len() - i,
{
    if 0 <= i < b.len() && is_ident_byte(b[i]) {
        ident_end(b, i + 1)
    } else {
        i
    }
}

/// Identifiers of `b` from position `i` on, in order of occurrence. A byte
/// that cannot start one is skipped together with the rest of its UTF-8
/// sequence.
pub open spec fn identifiers_from(b: Seq<u8>, i: int) -> Seq<Seq<char>>
    decreases b.len() + 4 - i,
{
    if i < 0 || i >= b.len() {
        seq![]
    } else if is_ident_start(b[i]) {
        let j = ident_end(b, i + 1);
        proof {
            lemma_ident_end_bounds(b, i + 1);
        }
        seq![decode_utf8(b.subrange(i, j))] + identifiers_from(b, j)
    } else {
        identifiers_from(b, i + utf8_width(b[i]))
    }
}

/// Every identifier-like token of `b`, in order of occurrence.
pub open spec fn identifiers(b: Seq<u8>) -> Seq<Seq<char>> {
    identifiers_from(b, 0)
}

/// Number of times `k` occurs in `s`.
pub open spec fn occurrences<A>(s: Seq<A>, k: A) -> nat
    decreases s.len(),
{
    if s.len() == 0 {
        0
    } else {
        (if s[0] == k {
            1nat
        } else {
            0nat
        }) + occurrences(s.drop_first(), k)
    }
}

/// The count held for `k`, 0 when absent.
pub open spec fn count_of(m: Map<Seq<char>, usize>, k: Seq<char>) -> nat {
    if m.contains_key(k) {
        m[k] as nat
    } else {
        0
    }
}

/// `m` with one more occurrence of `k`.
pub open spec fn bump(m: Map<Seq<char>, usize>, k: Seq<char>) -> Map<Seq<char>, usize> {
    m.insert(k, (count_of(m, k) + 1) as usize)
}

/// `m` with one more occurrence of each element of `ks`.
pub open spec fn bump_all(m: Map<Seq<char>, usize>, ks: Seq<Seq<char>>) -> Map<
    Seq<char>,
    usize,
>
    decreases ks.len(),
{
    if ks.len() == 0 {
        m
    } else {
        bump_all(bump(m, ks[0]), ks.drop_first())
    }
}

/// No count of `m` overflows when the occurrences of `ks` are added.
pub open spec fn counts_fit(m: Map<Seq<char>, usize>, ks: Seq<Seq<char>>) -> bool {
    forall|k: Seq<char>| #[trigger] count_of(m, k) + occurrences(ks, k) <= usize::MAX
}

pub proof fn lemma_ident_end_bounds(b: Seq<u8>, i: int)
    requires
        0 <= i <= b.len(),
    ensures
        i <= ident_end(b, i) <= b.len(),
        forall|k: int| i <= k < ident_end(b, i) ==> is_ident_byte(#[trigger] b[k]),
        ident_end(b, i) < b.len() ==> !is_ident_byte(b[ident_end(b, i)]),
    decreases b.len() - i,
{
    if i < b.len() && is_ident_byte(b[i]) {
        lemma_ident_end_bounds(b, i + 1);
    }
}

/// Adding the occurrences of `ks` one by one gives the old count plus the
/// number of occurrences, and nothing else changes.
pub proof fn lemma_bump_all(m: Map<Seq<char>, usize>, ks: Seq<Seq<char>>)
    requires
        counts_fit(m, ks),
    ensures
        forall|k: Seq<char>| #[trigger]
            bump_all(m, ks).contains_key(k) <==> (m.contains_key(k) || ks.contains(k)),
        forall|k: Seq<char>| #[trigger]
            count_of(bump_all(m, ks), k) == count_of(m, k) + occurrences(ks, k),
    decreases ks.len(),
{
    if ks.len() > 0 {
        let m1 = bump(m, ks[0]);
        assert forall|k: Seq<char>| #[trigger]
            count_of(m1, k) + occurrences(ks.drop_first(), k) <= usize::MAX by {
            assert(count_of(m, k) + occurrences(ks, k) <= usize::MAX);
        }
        lemma_bump_all(m1, ks.drop_first());
        assert(bump_all(m, ks) == bump_all(m1, ks.drop_first()));
        assert(count_of(m, ks[0]) + occurrences(ks, ks[0]) <= usize::MAX);
        assert forall|k: Seq<char>| #[trigger]
            bump_all(m, ks).contains_key(k) <==> (m.contains_key(k) || ks.contains(k)) by {
            assert(bump_all(m1, ks.drop_first()).contains_key(k) <==> (m1.contains_key(k)
                || ks.drop_first().contains(k)));
            if ks.drop_first().contains(k) {
                let t = choose|t: int| 0 <= t < ks.drop_first().len() && ks.drop_first()[t] == k;
                assert(ks[t + 1] == k);
            }
            if ks.contains(k) && k != ks[0] {
                let t = choose|t: int| 0 <= t < ks.len() && ks[t] == k;
                assert(t > 0);
                assert(ks.drop_first()[t - 1] == k);
            }
            if k == ks[0] {
                assert(ks.contains(k));
            }
        }
        assert forall|k: Seq<char>| #[trigger]
            count_of(bump_all(m, ks), k) == count_of(m, k) + occurrences(ks, k) by {
            assert(count_of(bump_all(m1, ks.drop_first()), k) == count_of(m1, k) + occurrences(
                ks.drop_first(),
                k,
            ));
            assert(occurrences(ks, k) == (if ks[0] == k {
                1nat
            } else {
                0nat
            }) + occurrences(ks.drop_first(), k));
            if k == ks[0] {
                assert(count_of(m1, k) == count_of(m, k) + 1);
            } else {
                assert(count_of(m1, k) == count_of(m, k));
            }
        }
    } else {
        assert forall|k: Seq<char>| #[trigger]
            bump_all(m, ks).contains_key(k) <==> (m.contains_key(k) || ks.contains(k)) by {
            if ks.contains(k) {
                let t = choose|t: int| 0 <= t < ks.len() && ks[t] == k;
            }
        }
    }
}

/// Count every identifier-like token in `text` into `map`.
///
/// One pass over the corpus, so scan cost is linear in total bytes rather
/// than (declarations x bytes).
pub fn tally(text: &str, map: &mut StringHashMap<usize>)
    requires
        text.spec_bytes().len() <= isize::MAX,
        counts_fit(old(map)@, identifiers(text.spec_bytes())),
    ensures
        forall|k: Seq<char>| #[trigger]
            final(map)@.contains_key(k) <==> (old(map)@.contains_key(k) || identifiers(
                text.spec_bytes(),
            ).contains(k)),
        forall|k: Seq<char>| #[trigger]
            count_of(final(map)@, k) == count_of(old(map)@, k) + occurrences(
                identifiers(text.spec_bytes()),
                k,
            ),
{
    let b = text.as_bytes();
    let ghost bs = text.spec_bytes();
    let ghost all = identifiers(bs);
    proof {
        lemma_bump_all(old(map)@, all);
    }
    let mut i: usize = 0;
    while i < b.len()
        invariant
            b@ == bs,
            bs == text.spec_bytes(),
            bs.len() <= isize::MAX,
            i <= bs.len() + 4,
            valid_utf8(bs),
            bump_all(old(map)@, all) == bump_all(map@, identifiers_from(bs, i as int)),
            counts_fit(map@, identifiers_from(bs, i as int)),
        decreases bs.len() + 4 - i,
    {
        let c = b[i];
        if c == UNDERSCORE || (c >= 0x41 && c <= 0x5A) || (c >= 0x61 && c <= 0x7A) {
            let start = i;
            i += 1;
            while i < b.len() && (b[i] == UNDERSCORE || (b[i] >= 0x41 && b[i] <= 0x5A) || (b[i]
                >= 0x61 && b[i] <= 0x7A) || (b[i] >= 0x30 && b[i] <= 0x39))
                invariant
                    b@ == bs,
                    start < i <= bs.len(),
                    ident_end(bs, i as int) == ident_end(bs, start + 1),
                    forall|k: int| start <= k < i ==> is_ident_byte(#[trigger] bs[k]),
                decreases bs.len() - i,
            {
                i += 1;
            }
            let ghost rest = identifiers_from(bs, i as int);
            let ghost key = decode_utf8(bs.subrange(start as int, i as int));
            assert(identifiers_from(bs, start as int) == seq![key] + rest);
            proof {
                lemma_boundary_of_non_continuation(bs, start as int);
                lemma_boundary_after_ascii(bs, i as int);
            }
            let word = byte_slice(text, start, i);
            let current = match map.get(word) {
                Some(v) => *v,
                None => 0,
            };
            let ghost m0 = map@;
            assert((seq![key] + rest)[0] == key);
            assert((seq![key] + rest).drop_first() =~= rest);
            assert(count_of(m0, key) + occurrences(seq![key] + rest, key) <= usize::MAX);
            assert(current == count_of(m0, key));
            map.insert(word.to_owned(), current + 1);
            assert(map@ == bump(m0, key));
            assert forall|k: Seq<char>| #[trigger]
                count_of(map@, k) + occurrences(rest, k) <= usize::MAX by {
                assert(count_of(m0, k) + occurrences(seq![key] + rest, k) <= usize::MAX);
            }
        } else {
            i += utf8_len(c);
        }
    }
    assert(identifiers_from(bs, i as int) =~= Seq::<Seq<char>>::empty());
}

pub proof fn lemma_block_scan_len(b: Seq<u8>, j: int, depth: nat)
    requires
        0 <= j <= b.len(),
    ensures
        block_scan(b, j, depth).1.len() <= block_scan(b, j, depth).0 - j,
    decreases b.len() - j,
{
    if j >= b.len() || depth == 0 {
    } else if pair_at(b, j, SLASH, STAR) {
        lemma_block_scan_len(b, j + 2, depth + 1);
    } else if pair_at(b, j, STAR, SLASH) {
        lemma_block_scan_len(b, j + 2, (depth - 1) as nat);
    } else {
        lemma_block_scan_len(b, j + 1, depth);
    }
}

pub proof fn lemma_triple_scan_len(b: Seq<u8>, j: int)
    requires
        0 <= j,
    ensures
        triple_scan(b, j).1.len() <= triple_scan(b, j).0 - j,
    decreases b.len() - j,
{
    if j >= b.len() || triple_quote_at(b, j) {
    } else {
        lemma_triple_scan_len(b, j + 1);
    }
}

/// Neither output of a lexer step is longer than the input it consumed.
pub proof fn lemma_lex_step_len(b: Seq<u8>, i: int)
    requires
        0 <= i < b.len(),
    ensures
        lex_step(b, i).1.len() <= lex_step(b, i).0 - i,
        lex_step(b, i).2.len() <= lex_step(b, i).0 - i,
{
    lemma_lex_step_bounds(b, i);
    if pair_at(b, i, SLASH, SLASH) {
    } else if pair_at(b, i, SLASH, STAR) {
        lemma_block_scan_len(b, i + 2, 1);
    } else if triple_quote_at(b, i) {
        lemma_triple_scan_len(b, i + 3);
        lemma_triple_scan_bounds(b, i + 3);
    } else if b[i] == QUOTE {
        lemma_string_scan_bounds(b, i + 1);
    } else {
    }
}

pub proof fn lemma_lex_from_len(b: Seq<u8>, i: int)
    requires
        0 <= i <= b.len(),
    ensures
        lex_from(b, i).0.len() <= b.len() - i,
        lex_from(b, i).1.len() <= b.len() - i,
    decreases b.len() - i,
{
    if i < b.len() {
        lemma_lex_step_bounds(b, i);
        lemma_lex_step_len(b, i);
        lemma_lex_from_len(b, lex_step(b, i).0);
    }
}

/// Stripping comments and pulling out literals never lengthens the input.
pub proof fn lemma_lex_len(b: Seq<u8>)
    ensures
        stripped_code(b).len() <= b.len(),
        string_contents(b).len() <= b.len(),
{
    lemma_lex_from_len(b, 0);
}

pub proof fn lemma_identifiers_from_len(b: Seq<u8>, i: int)
    requires
        0 <= i,
    ensures
        identifiers_from(b, i).len() <= if i <= b.len() {
            b.len() - i
        } else {
            0
        },
    decreases b.len() + 4 - i,
{
    if i >= b.len() {
    } else if is_ident_start(b[i]) {
        lemma_ident_end_bounds(b, i + 1);
        lemma_identifiers_from_len(b, ident_end(b, i + 1));
    } else {
        lemma_identifiers_from_len(b, i + utf8_width(b[i]));
    }
}

pub proof fn lemma_occurrences_le_len<A>(s: Seq<A>, k: A)
    ensures
        occurrences(s, k) <= s.len(),
    decreases s.len(),
{
    if s.len() > 0 {
        lemma_occurrences_le_len(s.drop_first(), k);
    }
}

/// No identifier occurs more often in `b` than `b` has bytes.
pub proof fn lemma_identifier_count(b: Seq<u8>, k: Seq<char>)
    ensures
        occurrences(identifiers(b), k) <= b.len(),
{
    lemma_identifiers_from_len(b, 0);
    lemma_occurrences_le_len(identifiers(b), k);
}

/// The map `tally` leaves behind is `bump_all` of the identifiers.
pub proof fn lemma_counts_determine_map(
    m: Map<Seq<char>, usize>,
    old_m: Map<Seq<char>, usize>,
    ks: Seq<Seq<char>>,
)
    requires
        counts_fit(old_m, ks),
        forall|k: Seq<char>| #[trigger]
            m.contains_key(k) <==> (old_m.contains_key(k) || ks.contains(k)),
        forall|k: Seq<char>| #[trigger] count_of(m, k) == count_of(old_m, k) + occurrences(ks, k),
    ensures
        m == bump_all(old_m, ks),
{
    lemma_bump_all(old_m, ks);
    let r = bump_all(old_m, ks);
    assert forall|k: Seq<char>| #[trigger] m.contains_key(k) implies m[k] == r[k] by {
        assert(count_of(m, k) == count_of(r, k));
    }
    assert(m =~= r);
}

} // verus!
