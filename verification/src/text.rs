//! Byte-level text utilities over UTF-8 string slices.

use vstd::prelude::*;
use vstd::string::StringSliceAdditionalSpecFns;
use vstd::utf8::*;

verus! {

broadcast use vstd::utf8::group_utf8_lib;

/// A position right after an ASCII byte of valid UTF-8 is a character boundary.
pub proof fn lemma_boundary_after_ascii(bytes: Seq<u8>, j: int)
    requires
        valid_utf8(bytes),
        0 <= j < bytes.len(),
        bytes[j] < 0x80,
    ensures
        is_char_boundary(bytes, j + 1),
{
    is_char_boundary_iff_not_is_continuation_byte(bytes, j);
    let suffix = bytes.subrange(j, bytes.len() as int);
    assert(valid_utf8(suffix));
    assert(suffix[0] == bytes[j]);
    let rest = pop_first_scalar(suffix);
    assert(length_of_first_scalar(suffix) == 1);
    if j + 1 < bytes.len() {
        assert(valid_utf8(rest));
        assert(rest.len() > 0);
        assert(rest[0] == bytes[j + 1]);
        assert(valid_first_scalar(rest));
        assert(!is_continuation_byte(bytes[j + 1]));
    }
}

/// The sub-slice of `s` between the byte offsets `from` and `to`.
pub fn str_slice<'a>(s: &'a str, from: usize, to: usize) -> (r: &'a str)
    requires
        from <= to <= s.spec_bytes().len(),
        is_char_boundary(s.spec_bytes(), from as int),
        is_char_boundary(s.spec_bytes(), to as int),
    ensures
        r.spec_bytes() == s.spec_bytes().subrange(from as int, to as int),
{
    let ghost bytes = s.spec_bytes();
    proof {
        assert(valid_utf8(bytes));
    }
    let (head, _) = s.split_at(to);
    proof {
        let hb = head.spec_bytes();
        assert(hb =~= bytes.subrange(0, to as int));
        assert(valid_utf8(hb));
        if from < to {
            assert(hb[from as int] == bytes[from as int]);
            is_char_boundary_iff_not_is_continuation_byte(bytes, from as int);
            is_char_boundary_iff_not_is_continuation_byte(hb, from as int);
        } else {
            assert(is_char_boundary(hb, hb.len() as int));
        }
    }
    let (_, r) = head.split_at(from);
    r
}


/// Byte value of a line feed.
pub open spec fn line_feed() -> u8 {
    0x0a
}

/// Byte value of a carriage return.
pub open spec fn carriage_return() -> u8 {
    0x0d
}

/// The first offset at or after `i` that holds a line feed, or the length of `b`.
pub open spec fn next_newline(b: Seq<u8>, i: int) -> int
    decreases b.len() - i,
{
    if i >= b.len() {
        b.len() as int
    } else if b[i] == line_feed() {
        i
    } else {
        next_newline(b, i + 1)
    }
}

pub proof fn lemma_next_newline_bounds(b: Seq<u8>, i: int)
    requires
        0 <= i,
    ensures
        i <= b.len() ==> i <= next_newline(b, i) <= b.len(),
        i > b.len() ==> next_newline(b, i) == b.len(),
        next_newline(b, i) < b.len() ==> b[next_newline(b, i)] == line_feed(),
    decreases b.len() - i,
{
    if i < b.len() && b[i] != line_feed() {
        lemma_next_newline_bounds(b, i + 1);
    }
}

/// The line that starts at byte offset `start`: the bytes up to the next line
/// feed, without a carriage return that directly precedes that line feed.
pub open spec fn line_at(b: Seq<u8>, start: int) -> Seq<u8> {
    let end = next_newline(b, start);
    let raw = b.subrange(start, end);
    if end < b.len() && raw.len() > 0 && raw.last() == carriage_return() {
        raw.drop_last()
    } else {
        raw
    }
}

/// The lines of `b` from byte offset `start` on. A final line feed ends the
/// last line and starts no new one.
pub open spec fn lines_from(b: Seq<u8>, start: int) -> Seq<Seq<u8>>
    decreases b.len() + 1 - start,
    via lines_from_decreases
{
    if start < 0 || start >= b.len() {
        Seq::empty()
    } else {
        seq![line_at(b, start)] + lines_from(b, next_newline(b, start) + 1)
    }
}

#[via_fn]
proof fn lines_from_decreases(b: Seq<u8>, start: int) {
    if 0 <= start < b.len() {
        lemma_next_newline_bounds(b, start);
    }
}

/// The lines of a text given by its bytes.
pub open spec fn text_lines(b: Seq<u8>) -> Seq<Seq<u8>> {
    lines_from(b, 0)
}

/// The bytes of each string in a sequence of string slices.
pub open spec fn bytes_of(v: Seq<&str>) -> Seq<Seq<u8>> {
    Seq::new(v.len(), |i: int| v[i].spec_bytes())
}

/// Splits `s` into its lines, as `str::lines` does: lines end at a line feed,
/// a carriage return right before that line feed is dropped, and a final line
/// feed does not start an empty last line.
pub fn split_lines<'a>(s: &'a str) -> (r: Vec<&'a str>)
    ensures
        bytes_of(r@) == text_lines(s.spec_bytes()),
{
    let bytes = s.as_bytes();
    let n = bytes.len();
    let ghost sb = s.spec_bytes();
    proof {
        assert(valid_utf8(sb));
        assert(is_char_boundary(sb, 0));
    }
    let mut result: Vec<&'a str> = Vec::new();
    let mut start: usize = 0;
    while start < n
        invariant
            bytes@ == sb,
            sb == s.spec_bytes(),
            n == sb.len(),
            valid_utf8(sb),
            start <= n,
            is_char_boundary(sb, start as int),
            bytes_of(result@) + lines_from(sb, start as int) == text_lines(sb),
        decreases n - start,
    {
        let mut end: usize = start;
        while end < n && bytes[end] != 10
            invariant
                bytes@ == sb,
                n == sb.len(),
                start <= end <= n,
                next_newline(sb, start as int) == next_newline(sb, end as int),
            decreases n - end,
        {
            end = end + 1;
        }
        proof {
            lemma_next_newline_bounds(sb, start as int);
            assert(next_newline(sb, end as int) == end);
            if end < n {
                is_char_boundary_iff_not_is_continuation_byte(sb, end as int);
            }
        }
        let mut stop: usize = end;
        if end < n && end > start && bytes[end - 1] == 13 {
            stop = end - 1;
            proof {
                is_char_boundary_iff_not_is_continuation_byte(sb, stop as int);
            }
        }
        let line = str_slice(s, start, stop);
        proof {
            let raw = sb.subrange(start as int, end as int);
            assert(line.spec_bytes() == line_at(sb, start as int)) by {
                if end < n && end > start && sb[end - 1] == 13 {
                    assert(raw.drop_last() =~= sb.subrange(start as int, stop as int));
                }
            }
            assert(lines_from(sb, start as int) == seq![line_at(sb, start as int)] + lines_from(
                sb,
                end + 1,
            ));
        }
        let ghost old_result = result@;
        let ghost old_start = start;
        result.push(line);
        proof {
            assert(bytes_of(result@) =~= bytes_of(old_result) + seq![line.spec_bytes()]);
        }
        if end < n {
            proof {
                lemma_boundary_after_ascii(sb, end as int);
            }
            start = end + 1;
        } else {
            start = n;
        }
        proof {
            assert(lines_from(sb, end + 1) == lines_from(sb, start as int));
            assert(bytes_of(result@) + lines_from(sb, start as int) =~= bytes_of(old_result) + (
            seq![line_at(sb, old_start as int)] + lines_from(sb, end + 1)));
        }
    }
    proof {
        assert(lines_from(sb, start as int) =~= Seq::<Seq<u8>>::empty());
        assert(bytes_of(result@) + Seq::<Seq<u8>>::empty() =~= bytes_of(result@));
    }
    result
}


/// Whether `p` is a prefix of `b`.
pub open spec fn has_prefix(b: Seq<u8>, p: Seq<u8>) -> bool {
    p.len() <= b.len() && b.subrange(0, p.len() as int) == p
}

/// Whether two byte slices hold the same bytes.
pub fn bytes_eq(a: &[u8], b: &[u8]) -> (r: bool)
    ensures
        r == (a@ == b@),
{
    if a.len() != b.len() {
        return false;
    }
    let mut i: usize = 0;
    while i < a.len()
        invariant
            a@.len() == b@.len(),
            i <= a@.len(),
            forall|k: int| 0 <= k < i ==> a@[k] == b@[k],
        decreases a@.len() - i,
    {
        if a[i] != b[i] {
            return false;
        }
        i = i + 1;
    }
    proof {
        assert(a@ =~= b@);
    }
    true
}

/// Whether two string slices hold the same text.
pub fn str_eq(a: &str, b: &str) -> (r: bool)
    ensures
        r == (a.spec_bytes() == b.spec_bytes()),
{
    bytes_eq(a.as_bytes(), b.as_bytes())
}

/// Whether the bytes of `b` start with the bytes of `p`.
pub fn starts_with_bytes(b: &[u8], p: &[u8]) -> (r: bool)
    ensures
        r == has_prefix(b@, p@),
{
    if p.len() > b.len() {
        return false;
    }
    let mut i: usize = 0;
    while i < p.len()
        invariant
            p@.len() <= b@.len(),
            i <= p@.len(),
            forall|k: int| 0 <= k < i ==> b@[k] == p@[k],
        decreases p@.len() - i,
    {
        if b[i] != p[i] {
            proof {
                assert(b@.subrange(0, p@.len() as int)[i as int] != p@[i as int]);
            }
            return false;
        }
        i = i + 1;
    }
    proof {
        assert(b@.subrange(0, p@.len() as int) =~= p@);
    }
    true
}

/// The character boundary that follows the character starting at `i`, whose
/// length in bytes is given by its leading byte.
pub proof fn lemma_boundary_after_char(bytes: Seq<u8>, i: int)
    requires
        valid_utf8(bytes),
        0 <= i < bytes.len(),
        is_char_boundary(bytes, i),
    ensures
        is_leading_byte_width_1(bytes[i]) ==> i + 1 <= bytes.len() && is_char_boundary(bytes, i + 1),
        is_leading_byte_width_2(bytes[i]) ==> i + 2 <= bytes.len() && is_char_boundary(bytes, i + 2),
        is_leading_byte_width_3(bytes[i]) ==> i + 3 <= bytes.len() && is_char_boundary(bytes, i + 3),
        is_leading_byte_width_4(bytes[i]) ==> i + 4 <= bytes.len() && is_char_boundary(bytes, i + 4),
{
    let suffix = bytes.subrange(i, bytes.len() as int);
    assert(valid_utf8(suffix));
    assert(suffix[0] == bytes[i]);
    let k = length_of_first_scalar(suffix);
    let rest = pop_first_scalar(suffix);
    assert(valid_first_scalar(suffix));
    assert(valid_utf8(rest));
    if i + k < bytes.len() {
        assert(rest.len() > 0);
        assert(rest[0] == bytes[i + k]);
        assert(valid_first_scalar(rest));
        is_char_boundary_iff_not_is_continuation_byte(bytes, i + k);
    } else {
        assert(i + k == bytes.len());
        is_char_boundary_start_end_of_seq(bytes);
    }
}


proof fn lemma_next_newline_at(b: Seq<u8>, i: int, e: int)
    requires
        0 <= i <= e <= b.len(),
        forall|k: int| i <= k < e ==> #[trigger] b[k] != 0x0a,
        e == b.len() || b[e] == 0x0a,
    ensures
        next_newline(b, i) == e,
    decreases e - i,
{
    if i < e {
        lemma_next_newline_at(b, i + 1, e);
    }
}

proof fn lemma_next_newline_shift(a: Seq<u8>, r: Seq<u8>, i: int)
    requires
        0 <= i <= r.len(),
    ensures
        next_newline(a + r, a.len() + i) == a.len() + next_newline(r, i),
    decreases r.len() - i,
{
    if i < r.len() {
        assert((a + r)[a.len() + i] == r[i]);
        lemma_next_newline_shift(a, r, i + 1);
    }
}

/// The lines of `a + r` from inside `r` are those of `r`.
proof fn lemma_lines_from_shift(a: Seq<u8>, r: Seq<u8>, i: int)
    requires
        0 <= i,
    ensures
        lines_from(a + r, a.len() + i) == lines_from(r, i),
    decreases r.len() + 1 - i,
{
    if i < r.len() {
        let b = a + r;
        lemma_next_newline_shift(a, r, i);
        lemma_next_newline_bounds(r, i);
        let e = next_newline(r, i);
        assert(b.subrange(a.len() + i, a.len() + e) =~= r.subrange(i, e));
        assert(line_at(b, a.len() + i) == line_at(r, i));
        lemma_lines_from_shift(a, r, e + 1);
    }
}

/// How a text splits into lines: no text has no line; a text without a line
/// feed is one line; a line that ends in a line feed (and not in a carriage
/// return) is the first line, and the rest of the text gives the other lines;
/// a line that ends in a carriage return and a line feed is the first line
/// without them.
pub proof fn law_text_lines(l: Seq<u8>, r: Seq<u8>)
    requires
        forall|k: int| 0 <= k < l.len() ==> #[trigger] l[k] != 0x0a,
    ensures
        text_lines(Seq::<u8>::empty()) == Seq::<Seq<u8>>::empty(),
        l.len() > 0 ==> text_lines(l) == seq![l],
        l.len() == 0 || l.last() != 0x0d ==> text_lines(l + seq![0x0au8] + r) == seq![l]
            + text_lines(r),
        text_lines(l + seq![0x0du8, 0x0au8] + r) == seq![l] + text_lines(r),
{
    let n = l.len() as int;
    if n > 0 {
        lemma_next_newline_at(l, 0, n);
        assert(l.subrange(0, n) =~= l);
        assert(lines_from(l, n + 1) == Seq::<Seq<u8>>::empty());
        assert(text_lines(l) =~= seq![l]);
    }
    let b = l + seq![0x0au8] + r;
    assert(b =~= (l + seq![0x0au8]) + r);
    assert(b[n] == 0x0a);
    assert forall|k: int| 0 <= k < n implies #[trigger] b[k] != 0x0a by {
        assert(b[k] == l[k]);
    }
    lemma_next_newline_at(b, 0, n);
    assert(b.subrange(0, n) =~= l);
    lemma_lines_from_shift(l + seq![0x0au8], r, 0);
    if n == 0 || l.last() != 0x0d {
        assert(line_at(b, 0) == l);
        assert(text_lines(b) =~= seq![l] + text_lines(r));
    }
    let c = l + seq![0x0du8, 0x0au8] + r;
    assert(c =~= (l + seq![0x0du8, 0x0au8]) + r);
    assert(c[n] == 0x0d);
    assert(c[n + 1] == 0x0a);
    assert forall|k: int| 0 <= k < n + 1 implies #[trigger] c[k] != 0x0a by {
        if k < n {
            assert(c[k] == l[k]);
        }
    }
    lemma_next_newline_at(c, 0, n + 1);
    assert(c.subrange(0, n + 1).drop_last() =~= l);
    lemma_lines_from_shift(l + seq![0x0du8, 0x0au8], r, 0);
    assert(line_at(c, 0) == l);
    assert(text_lines(c) =~= seq![l] + text_lines(r));
}

} // verus!
