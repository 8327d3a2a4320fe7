//! Renders diff lines as text: two spaces before a kept line, a red `- ` before
//! a removed line and a green `+ ` before an added one, one line each. The
//! compact form shortens long runs of kept lines to their first and last few.

use vstd::prelude::*;
use vstd::string::StringSliceAdditionalSpecFns;

use crate::diff::{views, DiffLine, Edit};
use crate::sections::ref_views;

verus! {

/// How many kept lines the compact form shows at each end of a long run.
pub const UNCHANGED_CONTEXT_LINES: usize = 3;

/// The terminal escape that turns the text red: `ESC [31m`.
pub open spec fn red() -> Seq<u8> {
    seq![0x1bu8, 0x5bu8, 0x33u8, 0x31u8, 0x6du8]
}

/// The terminal escape that turns the text green: `ESC [32m`.
pub open spec fn green() -> Seq<u8> {
    seq![0x1bu8, 0x5bu8, 0x33u8, 0x32u8, 0x6du8]
}

/// The terminal escape that resets the colour: `ESC [0m`.
pub open spec fn reset() -> Seq<u8> {
    seq![0x1bu8, 0x5bu8, 0x30u8, 0x6du8]
}

/// One rendered line, with its line feed.
pub open spec fn render_line(e: Edit) -> Seq<u8> {
    match e {
        Edit::Equal(l) => seq![0x20u8, 0x20u8] + l + seq![0x0au8],
        Edit::Removed(l) => red() + seq![0x2du8, 0x20u8] + l + reset() + seq![0x0au8],
        Edit::Added(l) => green() + seq![0x2bu8, 0x20u8] + l + reset() + seq![0x0au8],
    }
}

/// All lines of `s`, rendered one after the other.
pub open spec fn render_all(s: Seq<Edit>) -> Seq<u8>
    decreases s.len(),
{
    if s.len() == 0 {
        Seq::empty()
    } else {
        render_all(s.drop_last()) + render_line(s.last())
    }
}

/// A run of kept lines in the compact form: the whole run when it has at most
/// one line more than twice the context, otherwise only its first and last
/// `UNCHANGED_CONTEXT_LINES` lines.
pub open spec fn render_equal_run(run: Seq<Edit>) -> Seq<u8> {
    let c = UNCHANGED_CONTEXT_LINES as int;
    if run.len() <= 2 * c + 1 {
        render_all(run)
    } else {
        render_all(run.subrange(0, c)) + render_all(run.subrange(run.len() - c, run.len() as int))
    }
}

/// The end of the run of kept lines that starts at `i`.
pub open spec fn equal_run_end(s: Seq<Edit>, i: int) -> int
    decreases s.len() - i,
{
    if 0 <= i < s.len() && s[i] is Equal {
        equal_run_end(s, i + 1)
    } else {
        i
    }
}

pub proof fn lemma_equal_run_end_bounds(s: Seq<Edit>, i: int)
    requires
        0 <= i <= s.len(),
    ensures
        i <= equal_run_end(s, i) <= s.len(),
        i < s.len() && s[i] is Equal ==> i < equal_run_end(s, i),
    decreases s.len() - i,
{
    if i < s.len() && s[i] is Equal {
        lemma_equal_run_end_bounds(s, i + 1);
    }
}

/// The compact rendering of `s` from offset `i` on: each maximal run of kept
/// lines is rendered as `render_equal_run` says, every other line in full.
pub open spec fn render_compact_from(s: Seq<Edit>, i: int) -> Seq<u8>
    decreases s.len() - i,
    via render_compact_from_decreases
{
    if i < 0 || i >= s.len() {
        Seq::empty()
    } else if s[i] is Equal {
        let end = equal_run_end(s, i);
        render_equal_run(s.subrange(i, end)) + render_compact_from(s, end)
    } else {
        render_line(s[i]) + render_compact_from(s, i + 1)
    }
}

#[via_fn]
proof fn render_compact_from_decreases(s: Seq<Edit>, i: int) {
    if 0 <= i < s.len() {
        lemma_equal_run_end_bounds(s, i);
    }
}

/// The compact rendering of `s`.
pub open spec fn render_compact(s: Seq<Edit>) -> Seq<u8> {
    render_compact_from(s, 0)
}

/// Appends the bytes of `b` to `out`.
fn push_bytes(out: &mut Vec<u8>, b: &[u8])
    ensures
        final(out)@ == old(out)@ + b@,
{
    let mut i: usize = 0;
    while i < b.len()
        invariant
            i <= b@.len(),
            out@ == old(out)@ + b@.subrange(0, i as int),
        decreases b@.len() - i,
    {
        out.push(b[i]);
        i = i + 1;
        proof {
            assert(b@.subrange(0, i as int) =~= b@.subrange(0, i - 1) + seq![b@[i - 1]]);
        }
    }
    proof {
        assert(b@.subrange(0, b@.len() as int) =~= b@);
    }
}

fn push_escape(out: &mut Vec<u8>, code: u8)
    ensures
        final(out)@ == old(out)@ + seq![0x1bu8, 0x5bu8, 0x33u8, code, 0x6du8],
{
    out.push(0x1b);
    out.push(0x5b);
    out.push(0x33);
    out.push(code);
    out.push(0x6d);
    proof {
        assert(out@ =~= old(out)@ + seq![0x1bu8, 0x5bu8, 0x33u8, code, 0x6du8]);
    }
}

fn push_reset_and_newline(out: &mut Vec<u8>)
    ensures
        final(out)@ == old(out)@ + reset() + seq![0x0au8],
{
    out.push(0x1b);
    out.push(0x5b);
    out.push(0x30);
    out.push(0x6d);
    out.push(0x0a);
    proof {
        assert(out@ =~= old(out)@ + reset() + seq![0x0au8]);
    }
}

/// Appends one rendered line to `writer`.
pub fn write_colored_line(line: &DiffLine<'_>, writer: &mut Vec<u8>)
    ensures
        final(writer)@ == old(writer)@ + render_line(line@),
{
    match line {
        DiffLine::Equal(l) => {
            writer.push(0x20);
            writer.push(0x20);
            push_bytes(writer, l.as_bytes());
            writer.push(0x0a);
            proof {
                assert(writer@ =~= old(writer)@ + render_line(line@));
            }
        },
        DiffLine::Removed(l) => {
            push_escape(writer, 0x31);
            writer.push(0x2d);
            writer.push(0x20);
            push_bytes(writer, l.as_bytes());
            push_reset_and_newline(writer);
            proof {
                assert(writer@ =~= old(writer)@ + render_line(line@));
            }
        },
        DiffLine::Added(l) => {
            push_escape(writer, 0x32);
            writer.push(0x2b);
            writer.push(0x20);
            push_bytes(writer, l.as_bytes());
            push_reset_and_newline(writer);
            proof {
                assert(writer@ =~= old(writer)@ + render_line(line@));
            }
        },
    }
}

proof fn lemma_render_all_push(s: Seq<Edit>, e: Edit)
    ensures
        render_all(s.push(e)) == render_all(s) + render_line(e),
{
    assert(s.push(e).drop_last() =~= s);
}

/// Appends every line of `diff`, rendered, to `writer`.
pub fn write_colored_diff(diff: &[DiffLine<'_>], writer: &mut Vec<u8>)
    ensures
        final(writer)@ == old(writer)@ + render_all(views(diff@)),
{
    let mut i: usize = 0;
    while i < diff.len()
        invariant
            i <= diff@.len(),
            writer@ == old(writer)@ + render_all(views(diff@).subrange(0, i as int)),
        decreases diff@.len() - i,
    {
        let ghost before = writer@;
        write_colored_line(&diff[i], writer);
        proof {
            let vs = views(diff@);
            assert(vs.subrange(0, i + 1) =~= vs.subrange(0, i as int).push(vs[i as int]));
            lemma_render_all_push(vs.subrange(0, i as int), vs[i as int]);
        }
        i = i + 1;
    }
    proof {
        assert(views(diff@).subrange(0, diff@.len() as int) =~= views(diff@));
    }
}

/// Appends the lines `diff[from..to]`, rendered, to `writer`.
fn write_range(diff: &[&DiffLine<'_>], from: usize, to: usize, writer: &mut Vec<u8>)
    requires
        from <= to <= diff@.len(),
    ensures
        final(writer)@ == old(writer)@ + render_all(ref_views(diff@).subrange(from as int, to as int)),
{
    let mut i: usize = from;
    while i < to
        invariant
            from <= i <= to <= diff@.len(),
            writer@ == old(writer)@ + render_all(ref_views(diff@).subrange(from as int, i as int)),
        decreases to - i,
    {
        write_colored_line(diff[i], writer);
        proof {
            let vs = ref_views(diff@);
            assert(vs.subrange(from as int, i + 1) =~= vs.subrange(from as int, i as int).push(
                vs[i as int],
            ));
            lemma_render_all_push(vs.subrange(from as int, i as int), vs[i as int]);
        }
        i = i + 1;
    }
}

/// Appends every line that `diff` refers to, rendered, to `writer`.
pub fn write_colored_diff_refs(diff: &[&DiffLine<'_>], writer: &mut Vec<u8>)
    ensures
        final(writer)@ == old(writer)@ + render_all(ref_views(diff@)),
{
    write_range(diff, 0, diff.len(), writer);
    proof {
        assert(ref_views(diff@).subrange(0, diff@.len() as int) =~= ref_views(diff@));
    }
}

/// Appends the run `diff[from..to]` of kept lines in compact form.
fn write_equal_run_range(diff: &[&DiffLine<'_>], from: usize, to: usize, writer: &mut Vec<u8>)
    requires
        from <= to <= diff@.len(),
    ensures
        final(writer)@ == old(writer)@ + render_equal_run(
            ref_views(diff@).subrange(from as int, to as int),
        ),
{
    let max_visible_lines = UNCHANGED_CONTEXT_LINES * 2;
    let ghost run = ref_views(diff@).subrange(from as int, to as int);
    if to - from <= max_visible_lines + 1 {
        write_range(diff, from, to, writer);
    } else {
        let ghost start = writer@;
        write_range(diff, from, from + UNCHANGED_CONTEXT_LINES, writer);
        write_range(diff, to - UNCHANGED_CONTEXT_LINES, to, writer);
        proof {
            let vs = ref_views(diff@);
            let c = UNCHANGED_CONTEXT_LINES as int;
            assert(run.subrange(0, c) =~= vs.subrange(from as int, from + c));
            assert(run.subrange(run.len() - c, run.len() as int) =~= vs.subrange(
                to - c,
                to as int,
            ));
            assert(writer@ =~= start + render_equal_run(run));
        }
    }
}

/// Appends a run of kept lines in compact form: all of it when it has at most
/// `2 * UNCHANGED_CONTEXT_LINES + 1` lines, else its first and last
/// `UNCHANGED_CONTEXT_LINES` lines.
pub fn write_equal_run_compact(run: &[&DiffLine<'_>], writer: &mut Vec<u8>)
    ensures
        final(writer)@ == old(writer)@ + render_equal_run(ref_views(run@)),
{
    write_equal_run_range(run, 0, run.len(), writer);
    proof {
        assert(ref_views(run@).subrange(0, run@.len() as int) =~= ref_views(run@));
    }
}

/// Whether a diff line is kept from both sides.
fn is_kept(line: &DiffLine<'_>) -> (r: bool)
    ensures
        r == (line@ is Equal),
{
    match line {
        DiffLine::Equal(_) => true,
        _ => false,
    }
}

/// Appends the lines that `diff` refers to in compact form: long runs of kept
/// lines shortened to their ends, every removed or added line in full.
pub fn write_compact_colored_diff_refs(diff: &[&DiffLine<'_>], writer: &mut Vec<u8>)
    ensures
        final(writer)@ == old(writer)@ + render_compact(ref_views(diff@)),
{
    let ghost vs = ref_views(diff@);
    let mut index: usize = 0;
    while index < diff.len()
        invariant
            vs == ref_views(diff@),
            index <= diff@.len(),
            writer@ + render_compact_from(vs, index as int) == old(writer)@ + render_compact(vs),
        decreases diff@.len() - index,
    {
        let ghost before = writer@;
        let ghost at = index;
        let is_equal = is_kept(diff[index]);
        proof {
            assert(is_equal == (vs[index as int] is Equal));
        }
        if is_equal {
            let run_start = index;
            while index < diff.len() && is_kept(diff[index])
                invariant
                    vs == ref_views(diff@),
                    run_start <= index <= diff@.len(),
                    equal_run_end(vs, index as int) == equal_run_end(vs, run_start as int),
                decreases diff@.len() - index,
            {
                proof {
                    assert(vs[index as int] is Equal);
                }
                index = index + 1;
            }
            proof {
                if index < diff@.len() {
                    assert(!(vs[index as int] is Equal));
                }
                assert(equal_run_end(vs, index as int) == index);
            }
            write_equal_run_range(diff, run_start, index, writer);
            proof {
                assert(render_compact_from(vs, at as int) == render_equal_run(
                    vs.subrange(at as int, index as int),
                ) + render_compact_from(vs, index as int));
                assert(writer@ + render_compact_from(vs, index as int) =~= before
                    + render_compact_from(vs, at as int));
            }
        } else {
            write_colored_line(diff[index], writer);
            index = index + 1;
            proof {
                assert(render_compact_from(vs, at as int) == render_line(vs[at as int])
                    + render_compact_from(vs, index as int));
                assert(writer@ + render_compact_from(vs, index as int) =~= before
                    + render_compact_from(vs, at as int));
            }
        }
    }
    proof {
        assert(writer@ + render_compact_from(vs, index as int) =~= writer@);
    }
}


proof fn lemma_render_all_concat(a: Seq<Edit>, b: Seq<Edit>)
    ensures
        render_all(a + b) == render_all(a) + render_all(b),
    decreases b.len(),
{
    if b.len() == 0 {
        assert(a + b =~= a);
        assert(render_all(a) + render_all(b) =~= render_all(a));
    } else {
        lemma_render_all_concat(a, b.drop_last());
        assert((a + b).drop_last() =~= a + b.drop_last());
        assert((a + b).last() == b.last());
        assert(render_all(a) + render_all(b.drop_last()) + render_line(b.last()) =~= render_all(a)
            + (render_all(b.drop_last()) + render_line(b.last())));
    }
}

proof fn lemma_render_all_single(e: Edit)
    ensures
        render_all(seq![e]) == render_line(e),
{
    assert(seq![e].drop_last() =~= Seq::<Edit>::empty());
    assert(seq![e].last() == e);
    assert(render_all(Seq::<Edit>::empty()) == Seq::<u8>::empty());
    assert(render_all(seq![e]) == render_all(seq![e].drop_last()) + render_line(seq![e].last()));
    assert(Seq::<u8>::empty() + render_line(e) =~= render_line(e));
}

/// Whether every maximal run of kept lines in `s` is short enough for the
/// compact form to show it whole.
pub open spec fn runs_are_short(s: Seq<Edit>) -> bool {
    forall|i: int|
        0 <= i < s.len() && (i == 0 || !(s[i - 1] is Equal)) && #[trigger] s[i] is Equal
            ==> equal_run_end(s, i) - i <= 2 * UNCHANGED_CONTEXT_LINES + 1
}

proof fn lemma_equal_run_end_stop(s: Seq<Edit>, i: int)
    requires
        0 <= i <= s.len(),
    ensures
        equal_run_end(s, i) < s.len() ==> !(s[equal_run_end(s, i)] is Equal),
    decreases s.len() - i,
{
    if i < s.len() && s[i] is Equal {
        lemma_equal_run_end_stop(s, i + 1);
    }
}

proof fn lemma_compact_short_runs(s: Seq<Edit>, i: int)
    requires
        0 <= i <= s.len(),
        i < s.len() && s[i] is Equal ==> i == 0 || !(s[i - 1] is Equal),
        runs_are_short(s),
    ensures
        render_compact_from(s, i) == render_all(s.subrange(i, s.len() as int)),
    decreases s.len() - i,
{
    if i == s.len() {
        assert(s.subrange(i, s.len() as int) =~= Seq::<Edit>::empty());
    } else if s[i] is Equal {
        let end = equal_run_end(s, i);
        lemma_equal_run_end_bounds(s, i);
        lemma_equal_run_end_stop(s, i);
        assert(end - i <= 2 * UNCHANGED_CONTEXT_LINES + 1);
        assert(render_equal_run(s.subrange(i, end)) == render_all(s.subrange(i, end)));
        assert(render_compact_from(s, i) == render_equal_run(s.subrange(i, end))
            + render_compact_from(s, end));
        lemma_compact_short_runs(s, end);
        assert(s.subrange(i, s.len() as int) =~= s.subrange(i, end) + s.subrange(
            end,
            s.len() as int,
        ));
        lemma_render_all_concat(s.subrange(i, end), s.subrange(end, s.len() as int));
    } else {
        lemma_compact_short_runs(s, i + 1);
        assert(s.subrange(i, s.len() as int) =~= seq![s[i]] + s.subrange(i + 1, s.len() as int));
        lemma_render_all_concat(seq![s[i]], s.subrange(i + 1, s.len() as int));
        lemma_render_all_single(s[i]);
    }
}

/// When no run of kept lines is longer than `2 * UNCHANGED_CONTEXT_LINES + 1`,
/// the compact form shows every line.
pub proof fn law_compact_keeps_short_runs(s: Seq<Edit>)
    requires
        runs_are_short(s),
    ensures
        render_compact(s) == render_all(s),
{
    lemma_compact_short_runs(s, 0);
    assert(s.subrange(0, s.len() as int) =~= s);
}


/// How each kind of line is printed: a kept line as two spaces, its text and a
/// line feed; a removed line as `ESC[31m- `, its text, `ESC[0m` and a line
/// feed; an added line as `ESC[32m+ `, its text, `ESC[0m` and a line feed. So a
/// removed or added line never prints like a kept one.
pub proof fn law_line_rendering(l: Seq<u8>)
    ensures
        render_line(Edit::Equal(l)) == seq![0x20u8, 0x20u8] + l + seq![0x0au8],
        render_line(Edit::Removed(l)) == seq![0x1bu8, 0x5bu8, 0x33u8, 0x31u8, 0x6du8, 0x2du8, 0x20u8]
            + l + seq![0x1bu8, 0x5bu8, 0x30u8, 0x6du8, 0x0au8],
        render_line(Edit::Added(l)) == seq![0x1bu8, 0x5bu8, 0x33u8, 0x32u8, 0x6du8, 0x2bu8, 0x20u8]
            + l + seq![0x1bu8, 0x5bu8, 0x30u8, 0x6du8, 0x0au8],
        render_line(Edit::Removed(l))[0] == 0x1b,
        render_line(Edit::Added(l))[0] == 0x1b,
        render_line(Edit::Equal(l))[0] == 0x20,
{
    assert(render_line(Edit::Removed(l)) =~= seq![0x1bu8, 0x5bu8, 0x33u8, 0x31u8, 0x6du8, 0x2du8, 0x20u8]
        + l + seq![0x1bu8, 0x5bu8, 0x30u8, 0x6du8, 0x0au8]);
    assert(render_line(Edit::Added(l)) =~= seq![0x1bu8, 0x5bu8, 0x33u8, 0x32u8, 0x6du8, 0x2bu8, 0x20u8]
        + l + seq![0x1bu8, 0x5bu8, 0x30u8, 0x6du8, 0x0au8]);
}

/// Rendering several lines prints them one after the other: nothing for no
/// line, one line as that line, and a concatenation as the concatenation.
pub proof fn law_render_all_concatenates(a: Seq<Edit>, b: Seq<Edit>, e: Edit)
    ensures
        render_all(Seq::<Edit>::empty()) == Seq::<u8>::empty(),
        render_all(seq![e]) == render_line(e),
        render_all(a + b) == render_all(a) + render_all(b),
{
    lemma_render_all_single(e);
    lemma_render_all_concat(a, b);
}

/// A run of kept lines prints whole when it has at most 7 lines; a longer run
/// prints its first 3 lines and then its last 3 lines, whatever its length.
pub proof fn law_equal_run_rendering(run: Seq<Edit>)
    ensures
        run.len() <= 7 ==> render_equal_run(run) == render_all(run),
        run.len() > 7 ==> render_equal_run(run) == render_all(run.subrange(0, 3)) + render_all(
            run.subrange(run.len() - 3, run.len() as int),
        ),
{
}

/// The compact form of lines that start with a run of kept lines (possibly
/// empty) followed by a removed or added line: the run in compact form, that
/// line in full, then the compact form of the rest. Lines that are all kept
/// print as one run.
pub proof fn law_compact_rendering(run: Seq<Edit>, e: Edit, rest: Seq<Edit>)
    requires
        forall|k: int| 0 <= k < run.len() ==> #[trigger] run[k] is Equal,
    ensures
        !(e is Equal) ==> render_compact(run + seq![e] + rest) == render_equal_run(run)
            + render_line(e) + render_compact(rest),
        run.len() > 0 ==> render_compact(run) == render_equal_run(run),
        render_compact(Seq::<Edit>::empty()) == Seq::<u8>::empty(),
{
    if !(e is Equal) {
        let s = run + seq![e] + rest;
        let n = run.len() as int;
        lemma_compact_shift(run + seq![e], rest, 0);
        assert(s =~= (run + seq![e]) + rest);
        if n > 0 {
            lemma_equal_run_end_is(s, 0, n);
            assert(s.subrange(0, n) =~= run);
        }
        assert(s[n] == e);
        assert(render_compact_from(s, n) == render_line(e) + render_compact_from(s, n + 1));
        if n == 0 {
            assert(render_equal_run(run) =~= Seq::<u8>::empty()) by {
                assert(render_all(run) == Seq::<u8>::empty());
            }
            assert(render_compact_from(s, 0) =~= render_equal_run(run) + render_line(e)
                + render_compact_from(s, 1));
        } else {
            assert(render_compact_from(s, 0) == render_equal_run(run) + render_compact_from(s, n));
            assert(render_compact_from(s, 0) =~= render_equal_run(run) + render_line(e)
                + render_compact_from(s, n + 1));
        }
    }
    if run.len() > 0 {
        lemma_equal_run_end_is(run, 0, run.len() as int);
        assert(run.subrange(0, run.len() as int) =~= run);
        assert(render_compact_from(run, run.len() as int) == Seq::<u8>::empty());
        assert(render_compact_from(run, 0) =~= render_equal_run(run));
    }
}

proof fn lemma_equal_run_end_is(s: Seq<Edit>, i: int, e: int)
    requires
        0 <= i <= e <= s.len(),
        forall|k: int| i <= k < e ==> #[trigger] s[k] is Equal,
        e == s.len() || !(s[e] is Equal),
    ensures
        equal_run_end(s, i) == e,
    decreases e - i,
{
    if i < e {
        lemma_equal_run_end_is(s, i + 1, e);
    }
}

proof fn lemma_equal_run_end_shift(a: Seq<Edit>, b: Seq<Edit>, i: int)
    requires
        0 <= i <= b.len(),
    ensures
        equal_run_end(a + b, a.len() + i) == a.len() + equal_run_end(b, i),
    decreases b.len() - i,
{
    if i < b.len() {
        assert((a + b)[a.len() + i] == b[i]);
        lemma_equal_run_end_shift(a, b, i + 1);
    }
}

/// The compact form of `a + b` from inside `b` is that of `b`.
proof fn lemma_compact_shift(a: Seq<Edit>, b: Seq<Edit>, i: int)
    requires
        0 <= i <= b.len(),
    ensures
        render_compact_from(a + b, a.len() + i) == render_compact_from(b, i),
    decreases b.len() - i,
{
    if i < b.len() {
        assert((a + b)[a.len() + i] == b[i]);
        if b[i] is Equal {
            let end = equal_run_end(b, i);
            lemma_equal_run_end_bounds(b, i);
            lemma_equal_run_end_shift(a, b, i);
            assert((a + b).subrange(a.len() + i, a.len() + end) =~= b.subrange(i, end));
            lemma_compact_shift(a, b, end);
        } else {
            lemma_compact_shift(a, b, i + 1);
        }
    }
}

} // verus!
