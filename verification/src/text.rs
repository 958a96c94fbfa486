//! Byte-level string helpers: UTF-8 facts, slicing by byte offsets,
//! appending to a `String` tracked by its encoding, substring search.
use vstd::prelude::*;
use vstd::utf8::*;
use vstd::string::{StringSliceAdditionalSpecFns, StringExecFns};

verus! {

broadcast use vstd::utf8::group_utf8_lib;

pub const NL: u8 = 0x0A;

/// UTF-8 encoding distributes over concatenation.
pub proof fn lemma_encode_concat(a: Seq<char>, b: Seq<char>)
    ensures
        encode_utf8(a + b) == encode_utf8(a) + encode_utf8(b),
    decreases a.len(),
{
    if a.len() == 0 {
        assert(a + b =~= b);
        assert(encode_utf8(a) + encode_utf8(b) =~= encode_utf8(b));
    } else {
        lemma_encode_concat(a.drop_first(), b);
        assert((a + b).drop_first() =~= a.drop_first() + b);
        assert((a + b)[0] == a[0]);
        assert(encode_scalar(a[0] as u32) + (encode_utf8(a.drop_first()) + encode_utf8(b))
            =~= (encode_scalar(a[0] as u32) + encode_utf8(a.drop_first())) + encode_utf8(b));
    }
}

pub proof fn lemma_encode_newline()
    ensures
        encode_utf8(seq!['\n']) == seq![NL],
{
    let s = seq!['\n'];
    assert(is_ascii_chars(s));
    vstd::utf8::is_ascii_chars_encode_utf8(s);
    assert(encode_utf8(s) =~= seq![NL]);
}

/// Appends a newline to `out`.
pub fn push_newline(out: &mut String)
    ensures
        encode_utf8(final(out)@) == encode_utf8(old(out)@).push(NL),
{
    let nl = "\n";
    proof {
        reveal_strlit("\n");
        lemma_encode_newline();
        lemma_encode_concat(old(out)@, nl@);
    }
    out.append(nl);
    assert(nl@ == seq!['\n']);
    assert(out@ == old(out)@ + nl@);
    assert(encode_utf8(out@) == encode_utf8(old(out)@) + seq![NL]);
    assert(encode_utf8(old(out)@) + seq![NL] =~= encode_utf8(old(out)@).push(NL));
}

/// In valid UTF-8 a byte that is not a continuation byte starts a character.
pub proof fn lemma_boundary_of_non_continuation(b: Seq<u8>, i: int)
    requires
        valid_utf8(b),
        0 <= i < b.len(),
        !is_continuation_byte(b[i]),
    ensures
        is_char_boundary(b, i),
{
    vstd::utf8::is_char_boundary_iff_not_is_continuation_byte(b, i);
}

/// In valid UTF-8 the position right after an ASCII byte is a boundary.
pub proof fn lemma_boundary_after_ascii(b: Seq<u8>, j: int)
    requires
        valid_utf8(b),
        0 < j <= b.len(),
        b[j - 1] <= 0x7f,
    ensures
        is_char_boundary(b, j),
    decreases b.len(),
{
    let w = length_of_first_scalar(b);
    let rest = pop_first_scalar(b);
    assert(valid_first_scalar(b));
    assert(rest.len() == b.len() - w);
    if j - 1 < w {
        if w == 1 {
            assert(is_char_boundary(rest, 0));
            assert(is_char_boundary(b, j));
        } else {
            assert(false);
        }
    } else {
        assert(rest[j - w - 1] == b[j - 1]);
        lemma_boundary_after_ascii(rest, j - w);
        assert(is_char_boundary(b, j));
    }
}

/// A boundary of `b` below `e` is a boundary of `b[..e]`.
pub proof fn lemma_boundary_in_prefix(b: Seq<u8>, s: int, e: int)
    requires
        valid_utf8(b),
        0 <= s <= e <= b.len(),
        is_char_boundary(b, s),
        is_char_boundary(b, e),
    ensures
        valid_utf8(b.subrange(0, e)),
        is_char_boundary(b.subrange(0, e), s),
{
    vstd::utf8::valid_utf8_split(b, e);
    let p = b.subrange(0, e);
    if s == e {
        vstd::utf8::is_char_boundary_start_end_of_seq(p);
        assert(p.len() == e);
    } else {
        vstd::utf8::is_char_boundary_iff_not_is_continuation_byte(b, s);
        vstd::utf8::is_char_boundary_iff_not_is_continuation_byte(p, s);
    }
}

/// The substring of `src` between two byte offsets that are boundaries.
pub fn byte_slice<'a>(src: &'a str, start: usize, end: usize) -> (r: &'a str)
    requires
        start <= end <= src.spec_bytes().len(),
        is_char_boundary(src.spec_bytes(), start as int),
        is_char_boundary(src.spec_bytes(), end as int),
    ensures
        r.spec_bytes() == src.spec_bytes().subrange(start as int, end as int),
        r@ == decode_utf8(src.spec_bytes().subrange(start as int, end as int)),
{
    proof {
        lemma_boundary_in_prefix(src.spec_bytes(), start as int, end as int);
    }
    let (left, _) = src.split_at(end);
    let (_, piece) = left.split_at(start);
    assert(piece.spec_bytes() =~= src.spec_bytes().subrange(start as int, end as int));
    piece
}

/// Appends `src[start..end]` to `out`.
pub fn append_range(out: &mut String, src: &str, start: usize, end: usize)
    requires
        start <= end <= src.spec_bytes().len(),
        is_char_boundary(src.spec_bytes(), start as int),
        is_char_boundary(src.spec_bytes(), end as int),
    ensures
        encode_utf8(final(out)@) == encode_utf8(old(out)@) + src.spec_bytes().subrange(
            start as int,
            end as int,
        ),
{
    let piece = byte_slice(src, start, end);
    proof {
        lemma_encode_concat(old(out)@, piece@);
    }
    out.append(piece);
}

/// Two strings are equal exactly when their encodings are.
pub proof fn lemma_encode_injective(a: Seq<char>, b: Seq<char>)
    ensures
        (encode_utf8(a) == encode_utf8(b)) <==> (a == b),
{
    if encode_utf8(a) == encode_utf8(b) {
        vstd::utf8::encode_utf8_decode_utf8(a);
        vstd::utf8::encode_utf8_decode_utf8(b);
    }
}

/// Byte-wise equality of two byte sequences.
pub fn bytes_eq(a: &[u8], b: &[u8]) -> (res: bool)
    ensures
        res == (a@ == b@),
{
    if a.len() != b.len() {
        return false;
    }
    let mut i: usize = 0;
    while i < a.len()
        invariant
            a@.len() == b@.len(),
            i <= a@.len(),
            forall|k: int| 0 <= k < i ==> a@[k] == b@[k],
        decreases a@.len() - i,
    {
        if a[i] != b[i] {
            return false;
        }
        i += 1;
    }
    assert(a@ =~= b@);
    true
}

/// String equality.
pub fn str_eq(a: &str, b: &str) -> (res: bool)
    ensures
        res == (a@ == b@),
{
    let r = bytes_eq(a.as_bytes(), b.as_bytes());
    proof {
        lemma_encode_injective(a@, b@);
    }
    r
}

/// `needle` occurs in `hay` at byte offset `k`.
pub open spec fn occurs_at(hay: Seq<u8>, needle: Seq<u8>, k: int) -> bool {
    0 <= k && k + needle.len() <= hay.len() && hay.subrange(k, k + needle.len()) == needle
}

/// `needle` occurs somewhere in `hay`.
pub open spec fn contains_bytes(hay: Seq<u8>, needle: Seq<u8>) -> bool {
    exists|k: int| occurs_at(hay, needle, k)
}

/// Whether `needle` occurs at byte offset `k` of `hay`.
pub fn bytes_at(hay: &[u8], needle: &[u8], k: usize) -> (res: bool)
    ensures
        res == occurs_at(hay@, needle@, k as int),
{
    if k > hay.len() || needle.len() > hay.len() - k {
        return false;
    }
    let mut i: usize = 0;
    while i < needle.len()
        invariant
            k + needle@.len() <= hay@.len(),
            hay@.len() == hay.len(),
            i <= needle@.len(),
            forall|t: int| 0 <= t < i ==> hay@[k + t] == needle@[t],
        decreases needle@.len() - i,
    {
        if hay[k + i] != needle[i] {
            assert(hay@.subrange(k as int, k + needle@.len())[i as int] != needle@[i as int]);
            return false;
        }
        i += 1;
    }
    assert(hay@.subrange(k as int, k + needle@.len()) =~= needle@);
    true
}

/// Substring search over bytes.
pub fn contains_slice(hay: &[u8], needle: &[u8]) -> (res: bool)
    ensures
        res == contains_bytes(hay@, needle@),
{
    if needle.len() > hay.len() {
        assert(!contains_bytes(hay@, needle@));
        return false;
    }
    let last = hay.len() - needle.len();
    let mut k: usize = 0;
    loop
        invariant
            needle@.len() <= hay@.len(),
            last == hay@.len() - needle@.len(),
            k <= last,
            forall|t: int| 0 <= t < k ==> !occurs_at(hay@, needle@, t),
        decreases last - k,
    {
        if bytes_at(hay, needle, k) {
            return true;
        }
        if k == last {
            assert forall|t: int| !occurs_at(hay@, needle@, t) by {
                if 0 <= t < k {
                }
            }
            return false;
        }
        k += 1;
    }
}

/// The elements of `a + b` are those of `a` and those of `b`.
pub proof fn lemma_concat_to_set<A>(a: Seq<A>, b: Seq<A>)
    ensures
        (a + b).to_set() == a.to_set() + b.to_set(),
{
    assert forall|x: A| (a + b).to_set().contains(x) <==> (a.to_set() + b.to_set()).contains(x) by {
        if (a + b).contains(x) {
            let i = choose|i: int| 0 <= i < (a + b).len() && (a + b)[i] == x;
            if i < a.len() {
                assert(a[i] == x);
            } else {
                assert(b[i - a.len()] == x);
            }
        }
        if a.contains(x) {
            let i = choose|i: int| 0 <= i < a.len() && a[i] == x;
            assert((a + b)[i] == x);
        }
        if b.contains(x) {
            let i = choose|i: int| 0 <= i < b.len() && b[i] == x;
            assert((a + b)[a.len() + i] == x);
        }
    }
    assert((a + b).to_set() =~= a.to_set() + b.to_set());
}

/// The elements of `s.push(x)` are those of `s` and `x`.
pub proof fn lemma_push_to_set<A>(s: Seq<A>, x: A)
    ensures
        s.push(x).to_set() == s.to_set().insert(x),
{
    lemma_concat_to_set(s, seq![x]);
    assert(s.push(x) =~= s + seq![x]);
    assert(seq![x].to_set() =~= Set::empty().insert(x)) by {
        assert(seq![x][0] == x);
    }
    assert(s.to_set() + seq![x].to_set() =~= s.to_set().insert(x));
}

/// The character of a decimal digit.
pub open spec fn digit_char(d: nat) -> char {
    (0x30 + d) as char
}

/// `n` written in decimal, as `Display` writes it.
pub open spec fn decimal(n: nat) -> Seq<char>
    decreases n,
{
    if n < 10 {
        seq![digit_char(n)]
    } else {
        decimal(n / 10).push(digit_char(n % 10))
    }
}

fn digit_str(d: u64) -> (res: &'static str)
    requires
        d < 10,
    ensures
        res@ == seq![digit_char(d as nat)],
{
    proof {
        reveal_strlit("0");
        reveal_strlit("1");
        reveal_strlit("2");
        reveal_strlit("3");
        reveal_strlit("4");
        reveal_strlit("5");
        reveal_strlit("6");
        reveal_strlit("7");
        reveal_strlit("8");
        reveal_strlit("9");
    }
    match d {
        0 => "0",
        1 => "1",
        2 => "2",
        3 => "3",
        4 => "4",
        5 => "5",
        6 => "6",
        7 => "7",
        8 => "8",
        _ => "9",
    }
}

/// Appends `n` in decimal.
pub fn push_decimal(out: &mut String, n: u64)
    ensures
        final(out)@ == old(out)@ + decimal(n as nat),
    decreases n,
{
    if n >= 10 {
        push_decimal(out, n / 10);
    }
    out.append(digit_str(n % 10));
    proof {
        if n >= 10 {
            assert(old(out)@ + decimal(n as nat) =~= old(out)@ + decimal((n / 10) as nat) + seq![
                digit_char((n % 10) as nat),
            ]);
        } else {
            assert(n % 10 == n);
        }
    }
}

} // verus!
