//! Normalisation of unified-diff lines, so that lines which differ only in
//! details that a rebase changes anyway (hunk line numbers, blob hashes)
//! compare equal.

use vstd::prelude::*;
use vstd::string::StringSliceAdditionalSpecFns;
use vstd::utf8::*;

use crate::text::{has_prefix, lemma_boundary_after_ascii, lemma_boundary_after_char, str_slice};

verus! {

broadcast use vstd::utf8::group_utf8_lib;

/// The bytes of `@@`, which open a hunk header.
pub open spec fn hunk_marker() -> Seq<u8> {
    seq![0x40u8, 0x40u8]
}

/// The bytes of `index ` (with its trailing space).
pub open spec fn index_prefix() -> Seq<u8> {
    seq![0x69u8, 0x6eu8, 0x64u8, 0x65u8, 0x78u8, 0x20u8]
}

/// The bytes of `index`.
pub open spec fn index_word() -> Seq<u8> {
    seq![0x69u8, 0x6eu8, 0x64u8, 0x65u8, 0x78u8]
}

/// The ASCII characters with the Unicode White_Space property:
/// tab, line feed, vertical tab, form feed, carriage return and space.
pub open spec fn is_ascii_whitespace_byte(x: u8) -> bool {
    x == 0x09 || x == 0x0a || x == 0x0b || x == 0x0c || x == 0x0d || x == 0x20
}

/// The length in bytes of the whitespace character (Unicode White_Space, as
/// `char::is_whitespace` has it) whose UTF-8 encoding starts at offset `i`,
/// or 0 when no whitespace character starts there. Besides the ASCII ones
/// these are U+0085 and U+00A0 (`C2 85`, `C2 A0`), U+1680 (`E1 9A 80`),
/// U+2000 to U+200A (`E2 80 80` to `E2 80 8A`), U+2028, U+2029, U+202F
/// (`E2 80 A8`, `E2 80 A9`, `E2 80 AF`), U+205F (`E2 81 9F`) and U+3000
/// (`E3 80 80`).
pub open spec fn whitespace_len(b: Seq<u8>, i: int) -> int {
    if i < 0 || i >= b.len() {
        0
    } else if is_ascii_whitespace_byte(b[i]) {
        1
    } else if b[i] == 0xc2 && i + 1 < b.len() && (b[i + 1] == 0x85 || b[i + 1] == 0xa0) {
        2
    } else if i + 2 < b.len() && ((b[i] == 0xe1 && b[i + 1] == 0x9a && b[i + 2] == 0x80) || (
    b[i] == 0xe2 && b[i + 1] == 0x80 && ((0x80 <= b[i + 2] && b[i + 2] <= 0x8a) || b[i + 2]
        == 0xa8 || b[i + 2] == 0xa9 || b[i + 2] == 0xaf)) || (b[i] == 0xe2 && b[i + 1] == 0x81
        && b[i + 2] == 0x9f) || (b[i] == 0xe3 && b[i + 1] == 0x80 && b[i + 2] == 0x80)) {
        3
    } else {
        0
    }
}

/// The first offset at or after `i` where no whitespace character starts.
pub open spec fn skip_whitespace(b: Seq<u8>, i: int) -> int
    decreases b.len() - i,
{
    if 0 <= i < b.len() && whitespace_len(b, i) > 0 {
        skip_whitespace(b, i + whitespace_len(b, i))
    } else {
        i
    }
}

/// The first offset at or after `i` where a whitespace character starts, or
/// the end of `b`.
pub open spec fn token_end(b: Seq<u8>, i: int) -> int
    decreases b.len() - i,
{
    if 0 <= i < b.len() && whitespace_len(b, i) == 0 {
        token_end(b, i + 1)
    } else {
        i
    }
}

/// Whether `t` contains `..`.
pub open spec fn contains_range_marker(t: Seq<u8>) -> bool {
    exists|k: int| 0 <= k && k + 1 < t.len() && #[trigger] t[k] == 0x2e && t[k + 1] == 0x2e
}

/// For a git `index <hash>..<hash> [<mode>]` line: the mode, or `index` when
/// the line gives none. `None` for any other line, and for an `index ` line
/// whose first word holds no `..`. Words are separated by runs of whitespace.
pub open spec fn spec_normalized_index(line: Seq<u8>) -> Option<Seq<u8>> {
    if !has_prefix(line, index_prefix()) {
        None
    } else {
        let rest = line.subrange(6, line.len() as int);
        let s1 = skip_whitespace(rest, 0);
        if s1 >= rest.len() {
            None
        } else {
            let e1 = token_end(rest, s1);
            if !contains_range_marker(rest.subrange(s1, e1)) {
                None
            } else {
                let s2 = skip_whitespace(rest, e1);
                if s2 >= rest.len() {
                    Some(index_word())
                } else {
                    Some(rest.subrange(s2, token_end(rest, s2)))
                }
            }
        }
    }
}

/// The key under which a diff line is compared: `@@` for every hunk header,
/// the mode (or `index`) for a git index line, the line itself otherwise.
pub open spec fn normalize_key(line: Seq<u8>) -> Seq<u8> {
    if has_prefix(line, hunk_marker()) {
        hunk_marker()
    } else {
        match spec_normalized_index(line) {
            Some(mode) => mode,
            None => line,
        }
    }
}

fn hunk_marker_str() -> (r: &'static str)
    ensures
        r.spec_bytes() == hunk_marker(),
{
    let r = "@@";
    proof {
        reveal_strlit("@@");
        assert(is_ascii_chars(r@));
        is_ascii_chars_encode_utf8(r@);
        assert(r.spec_bytes() =~= hunk_marker());
    }
    r
}


fn index_word_str() -> (r: &'static str)
    ensures
        r.spec_bytes() == index_word(),
{
    let r = "index";
    proof {
        reveal_strlit("index");
        assert(is_ascii_chars(r@));
        is_ascii_chars_encode_utf8(r@);
        assert(r.spec_bytes() =~= index_word());
    }
    r
}

/// The length in bytes of the whitespace character that starts at `i`.
fn whitespace_len_at(b: &[u8], i: usize) -> (w: usize)
    requires
        i < b@.len(),
    ensures
        w == whitespace_len(b@, i as int),
{
    let n = b.len();
    let x = b[i];
    if x == 0x09 || x == 0x0a || x == 0x0b || x == 0x0c || x == 0x0d || x == 0x20 {
        1
    } else if x == 0xc2 && i + 1 < n && (b[i + 1] == 0x85 || b[i + 1] == 0xa0) {
        2
    } else if n - i > 2 && ((x == 0xe1 && b[i + 1] == 0x9a && b[i + 2] == 0x80) || (x == 0xe2
        && b[i + 1] == 0x80 && ((0x80 <= b[i + 2] && b[i + 2] <= 0x8a) || b[i + 2] == 0xa8 || b[i
        + 2] == 0xa9 || b[i + 2] == 0xaf)) || (x == 0xe2 && b[i + 1] == 0x81 && b[i + 2] == 0x9f)
        || (x == 0xe3 && b[i + 1] == 0x80 && b[i + 2] == 0x80)) {
        3
    } else {
        0
    }
}

/// Where a whitespace character starts in valid UTF-8 there is a character
/// boundary, and another one right after it.
proof fn lemma_whitespace_boundaries(b: Seq<u8>, i: int)
    requires
        valid_utf8(b),
        0 <= i < b.len(),
        whitespace_len(b, i) > 0,
    ensures
        is_char_boundary(b, i),
        is_char_boundary(b, i + whitespace_len(b, i)),
{
    is_char_boundary_iff_not_is_continuation_byte(b, i);
    lemma_boundary_after_char(b, i);
}

/// Skips the whitespace that starts at `i`.
fn skip_whitespace_from(b: &[u8], i: usize) -> (r: usize)
    requires
        valid_utf8(b@),
        i <= b@.len(),
        is_char_boundary(b@, i as int),
    ensures
        r == skip_whitespace(b@, i as int),
        i <= r <= b@.len(),
        is_char_boundary(b@, r as int),
{
    let n = b.len();
    let mut j = i;
    while j < n && whitespace_len_at(b, j) > 0
        invariant
            valid_utf8(b@),
            n == b@.len(),
            i <= j <= n,
            is_char_boundary(b@, j as int),
            skip_whitespace(b@, j as int) == skip_whitespace(b@, i as int),
        decreases n - j,
    {
        let w = whitespace_len_at(b, j);
        proof {
            lemma_whitespace_boundaries(b@, j as int);
        }
        j = j + w;
    }
    j
}

/// Moves from `i` to the next whitespace character or the end.
fn token_end_from(b: &[u8], i: usize) -> (r: usize)
    requires
        valid_utf8(b@),
        i <= b@.len(),
    ensures
        r == token_end(b@, i as int),
        i <= r <= b@.len(),
        is_char_boundary(b@, r as int),
{
    let n = b.len();
    let mut j = i;
    while j < n && whitespace_len_at(b, j) == 0
        invariant
            n == b@.len(),
            i <= j <= n,
            token_end(b@, j as int) == token_end(b@, i as int),
        decreases n - j,
    {
        j = j + 1;
    }
    proof {
        if j < n {
            lemma_whitespace_boundaries(b@, j as int);
        } else {
            is_char_boundary_start_end_of_seq(b@);
        }
    }
    j
}

/// Whether the bytes between `from` and `to` contain `..`.
fn has_range_marker(b: &[u8], from: usize, to: usize) -> (r: bool)
    requires
        from <= to <= b@.len(),
    ensures
        r == contains_range_marker(b@.subrange(from as int, to as int)),
{
    let ghost t = b@.subrange(from as int, to as int);
    let mut k = from;
    while k < to && k + 1 < to
        invariant
            from <= k <= to,
            to <= b@.len(),
            t == b@.subrange(from as int, to as int),
            forall|m: int| 0 <= m && m + from < k && m + 1 < t.len() ==> !(#[trigger] t[m] == 0x2e && t[m + 1] == 0x2e),
        decreases to - k,
    {
        if b[k] == 0x2e && b[k + 1] == 0x2e {
            proof {
                let m = k - from;
                assert(t[m] == 0x2e && t[m + 1] == 0x2e);
            }
            return true;
        }
        k = k + 1;
    }
    false
}

/// For a git `index <hash>..<hash> [<mode>]` line, the mode it gives, or
/// `index` when it gives none; `None` for any other line.
pub fn normalized_git_index_line(line: &str) -> (r: Option<&str>)
    ensures
        match r {
            Some(mode) => spec_normalized_index(line.spec_bytes()) == Some(mode.spec_bytes()),
            None => spec_normalized_index(line.spec_bytes()) is None,
        },
{
    let lb = line.as_bytes();
    let ghost bytes = line.spec_bytes();
    let mut prefix: Vec<u8> = Vec::new();
    prefix.push(0x69);
    prefix.push(0x6e);
    prefix.push(0x64);
    prefix.push(0x65);
    prefix.push(0x78);
    prefix.push(0x20);
    proof {
        assert(prefix@ =~= index_prefix());
    }
    if !crate::text::starts_with_bytes(lb, prefix.as_slice()) {
        return None;
    }
    proof {
        assert(valid_utf8(bytes));
        assert(bytes[5] == 0x20);
        lemma_boundary_after_ascii(bytes, 5);
        is_char_boundary_start_end_of_seq(bytes);
    }
    let rest = str_slice(line, 6, lb.len());
    let rb = rest.as_bytes();
    let ghost rs = rest.spec_bytes();
    proof {
        assert(rs == bytes.subrange(6, bytes.len() as int));
        assert(valid_utf8(rs));
        is_char_boundary_start_end_of_seq(rs);
    }
    let s1 = skip_whitespace_from(rb, 0);
    if s1 >= rb.len() {
        return None;
    }
    let e1 = token_end_from(rb, s1);
    if !has_range_marker(rb, s1, e1) {
        return None;
    }
    let s2 = skip_whitespace_from(rb, e1);
    if s2 >= rb.len() {
        return Some(index_word_str());
    }
    let e2 = token_end_from(rb, s2);
    Some(str_slice(rest, s2, e2))
}

/// The key under which a diff line is compared: hunk headers all become `@@`,
/// git index lines become their mode, other lines stay as they are.
pub fn normalize_git_diff_line(line: &str) -> (r: &str)
    ensures
        r.spec_bytes() == normalize_key(line.spec_bytes()),
{
    let lb = line.as_bytes();
    if lb.len() >= 2 && lb[0] == 0x40 && lb[1] == 0x40 {
        proof {
            assert(line.spec_bytes().subrange(0, 2) =~= hunk_marker());
        }
        hunk_marker_str()
    } else {
        proof {
            if has_prefix(line.spec_bytes(), hunk_marker()) {
                assert(line.spec_bytes().subrange(0, 2)[0] == 0x40);
                assert(line.spec_bytes().subrange(0, 2)[1] == 0x40);
            }
        }
        match normalized_git_index_line(line) {
            Some(mode) => mode,
            None => line,
        }
    }
}


/// Whether no whitespace character starts anywhere in `w`.
pub open spec fn is_word(w: Seq<u8>) -> bool {
    forall|k: int| 0 <= k < w.len() ==> #[trigger] whitespace_len(w, k) == 0
}

/// Whitespace at a position depends only on the bytes from there on.
proof fn lemma_whitespace_len_suffix(a: Seq<u8>, m: Seq<u8>, k: int)
    requires
        0 <= k,
    ensures
        whitespace_len(a + m, a.len() + k) == whitespace_len(m, k),
{
    let b = a + m;
    let i = a.len() + k;
    if k < m.len() {
        assert(b[i] == m[k]);
        if k + 1 < m.len() {
            assert(b[i + 1] == m[k + 1]);
        }
        if k + 2 < m.len() {
            assert(b[i + 2] == m[k + 2]);
        }
    }
}

/// A space after `h` does not change what whitespace starts inside `h`.
proof fn lemma_whitespace_len_prefix(h: Seq<u8>, t: Seq<u8>, k: int)
    requires
        0 <= k < h.len(),
        t.len() > 0,
        t[0] == 0x20,
    ensures
        whitespace_len(h + t, k) == whitespace_len(h, k),
{
    let b = h + t;
    assert(b[k] == h[k]);
    if k + 1 < h.len() {
        assert(b[k + 1] == h[k + 1]);
    } else {
        assert(b[k + 1] == 0x20);
    }
    if k + 2 < h.len() {
        assert(b[k + 2] == h[k + 2]);
    } else if k + 2 == h.len() {
        assert(b[k + 2] == 0x20);
    }
}

proof fn lemma_token_end_at(b: Seq<u8>, i: int, e: int)
    requires
        0 <= i <= e <= b.len(),
        forall|k: int| i <= k < e ==> #[trigger] whitespace_len(b, k) == 0,
        e == b.len() || whitespace_len(b, e) > 0,
    ensures
        token_end(b, i) == e,
    decreases e - i,
{
    if i < e {
        lemma_token_end_at(b, i + 1, e);
    }
}

/// The key of `index <hash> <mode>`, where the hash holds `..` and neither
/// word holds whitespace, is the mode.
pub proof fn law_index_line_key_is_mode(hash: Seq<u8>, mode: Seq<u8>)
    requires
        hash.len() > 0,
        is_word(hash),
        contains_range_marker(hash),
        mode.len() > 0,
        is_word(mode),
    ensures
        normalize_key(index_prefix() + hash + seq![0x20u8] + mode) == mode,
{
    let sep = seq![0x20u8];
    let line = index_prefix() + hash + sep + mode;
    let rest = hash + sep + mode;
    assert(line.subrange(0, 6) =~= index_prefix());
    assert(line.subrange(6, line.len() as int) =~= rest);
    assert(!has_prefix(line, hunk_marker())) by {
        if has_prefix(line, hunk_marker()) {
            assert(line.subrange(0, 2)[0] == line[0]);
        }
    }
    let h = hash.len() as int;
    assert(rest =~= hash + (sep + mode));
    assert forall|k: int| 0 <= k < h implies #[trigger] whitespace_len(rest, k) == 0 by {
        lemma_whitespace_len_prefix(hash, sep + mode, k);
        assert(whitespace_len(hash, k) == 0);
    }
    assert(rest[h] == 0x20);
    assert(whitespace_len(rest, h) == 1);
    assert(skip_whitespace(rest, 0) == 0);
    lemma_token_end_at(rest, 0, h);
    assert(rest.subrange(0, h) =~= hash);
    assert(rest =~= (hash + sep) + mode);
    assert forall|k: int| h + 1 <= k < rest.len() implies #[trigger] whitespace_len(rest, k) == 0 by {
        lemma_whitespace_len_suffix(hash + sep, mode, k - (h + 1));
        assert(whitespace_len(mode, k - (h + 1)) == 0);
    }
    assert(skip_whitespace(rest, h + 1) == h + 1);
    assert(skip_whitespace(rest, h) == h + 1);
    lemma_token_end_at(rest, h + 1, rest.len() as int);
    assert(rest.subrange(h + 1, rest.len() as int) =~= mode);
}

/// Updating the blob hashes on a git index line leaves its key unchanged,
/// while changing its mode changes the key.
pub proof fn law_index_hash_updates_compare_equal(
    hash1: Seq<u8>,
    hash2: Seq<u8>,
    mode1: Seq<u8>,
    mode2: Seq<u8>,
)
    requires
        hash1.len() > 0 && is_word(hash1) && contains_range_marker(hash1),
        hash2.len() > 0 && is_word(hash2) && contains_range_marker(hash2),
        mode1.len() > 0 && is_word(mode1),
        mode2.len() > 0 && is_word(mode2),
    ensures
        (normalize_key(index_prefix() + hash1 + seq![0x20u8] + mode1) == normalize_key(
            index_prefix() + hash2 + seq![0x20u8] + mode2,
        )) <==> mode1 == mode2,
{
    law_index_line_key_is_mode(hash1, mode1);
    law_index_line_key_is_mode(hash2, mode2);
}

/// All hunk headers compare equal, whatever line numbers they give.
pub proof fn law_hunk_headers_compare_equal(line1: Seq<u8>, line2: Seq<u8>)
    requires
        has_prefix(line1, hunk_marker()),
        has_prefix(line2, hunk_marker()),
    ensures
        normalize_key(line1) == normalize_key(line2),
{
}


/// Every line that starts with `@@` (a hunk header) has the key `@@`; every
/// line that starts neither with `@@` nor with `index ` is its own key, so two
/// such lines compare equal only when they are the same bytes.
pub proof fn law_key_of_ordinary_lines(line: Seq<u8>, other: Seq<u8>)
    ensures
        line.len() >= 2 && line[0] == 0x40 && line[1] == 0x40 ==> normalize_key(line) == seq![
            0x40u8,
            0x40u8,
        ],
        !(line.len() >= 2 && line[0] == 0x40 && line[1] == 0x40) && !(line.len() >= 6
            && line.subrange(0, 6) == seq![0x69u8, 0x6eu8, 0x64u8, 0x65u8, 0x78u8, 0x20u8])
            ==> normalize_key(line) == line,
        !(line.len() >= 2 && line[0] == 0x40 && line[1] == 0x40) && !(line.len() >= 6
            && line.subrange(0, 6) == seq![0x69u8, 0x6eu8, 0x64u8, 0x65u8, 0x78u8, 0x20u8]) && !(
        other.len() >= 2 && other[0] == 0x40 && other[1] == 0x40) && !(other.len() >= 6
            && other.subrange(0, 6) == seq![0x69u8, 0x6eu8, 0x64u8, 0x65u8, 0x78u8, 0x20u8]) ==> (
        normalize_key(line) == normalize_key(other) <==> line == other),
{
    if line.len() >= 2 && line[0] == 0x40 && line[1] == 0x40 {
        assert(line.subrange(0, 2) =~= hunk_marker());
    }
    if has_prefix(line, hunk_marker()) {
        assert(line.subrange(0, 2)[0] == line[0]);
        assert(line.subrange(0, 2)[1] == line[1]);
    }
    if has_prefix(other, hunk_marker()) {
        assert(other.subrange(0, 2)[0] == other[0]);
        assert(other.subrange(0, 2)[1] == other[1]);
    }
}


/// The key of `index <hash> <mode>`, with both words made of printable ASCII
/// characters other than space and the hash holding `..`, is the mode: blob
/// hashes never matter, modes always do.
pub proof fn law_index_line_key_is_printable_mode(hash: Seq<u8>, mode: Seq<u8>, dots: int)
    requires
        hash.len() > 0,
        mode.len() > 0,
        forall|k: int| 0 <= k < hash.len() ==> 0x21 <= #[trigger] hash[k] <= 0x7e,
        forall|k: int| 0 <= k < mode.len() ==> 0x21 <= #[trigger] mode[k] <= 0x7e,
        0 <= dots && dots + 1 < hash.len() && hash[dots] == 0x2e && hash[dots + 1] == 0x2e,
    ensures
        normalize_key(seq![0x69u8, 0x6eu8, 0x64u8, 0x65u8, 0x78u8, 0x20u8] + hash + seq![0x20u8]
            + mode) == mode,
{
    assert(is_word(hash));
    assert(is_word(mode));
    assert(contains_range_marker(hash));
    assert(index_prefix() =~= seq![0x69u8, 0x6eu8, 0x64u8, 0x65u8, 0x78u8, 0x20u8]);
    law_index_line_key_is_mode(hash, mode);
}

} // verus!
