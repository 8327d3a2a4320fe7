//! Splits a diff of diffs into per-file sections (each starting at a
//! `diff --git ` line) and keeps only the sections that hold a change.

use vstd::prelude::*;

use crate::diff::{edit_text, views, DiffLine, Edit};
use crate::text::{has_prefix, starts_with_bytes};

verus! {

/// The bytes of `diff --git `, which start the section of one file.
pub open spec fn section_marker() -> Seq<u8> {
    seq![0x64u8, 0x69u8, 0x66u8, 0x66u8, 0x20u8, 0x2du8, 0x2du8, 0x67u8, 0x69u8, 0x74u8, 0x20u8]
}

/// Whether a diff line starts the section of a file.
pub open spec fn is_section_header(e: Edit) -> bool {
    has_prefix(edit_text(e), section_marker())
}

/// The models of a sequence of references to diff lines.
pub open spec fn ref_views<'a>(s: Seq<&'a DiffLine<'a>>) -> Seq<Edit> {
    Seq::new(s.len(), |i: int| s[i]@)
}

/// Whether some line of `s` is removed or added.
pub open spec fn has_change(s: Seq<Edit>) -> bool {
    exists|k: int| 0 <= k < s.len() && !(#[trigger] s[k] is Equal)
}

/// The first offset at or after `i` that starts a file section, or the end.
pub open spec fn next_section_start(d: Seq<Edit>, i: int) -> int
    decreases d.len() - i,
{
    if i >= d.len() {
        d.len() as int
    } else if is_section_header(d[i]) {
        i
    } else {
        next_section_start(d, i + 1)
    }
}

pub proof fn lemma_next_section_start_bounds(d: Seq<Edit>, i: int)
    requires
        0 <= i <= d.len(),
    ensures
        i <= next_section_start(d, i) <= d.len(),
    decreases d.len() - i,
{
    if i < d.len() && !is_section_header(d[i]) {
        lemma_next_section_start_bounds(d, i + 1);
    }
}

/// The sections of `d` from offset `start` on that hold a change, in order.
/// A section runs from its first line up to the next line that starts a file
/// section (or the end); the first section starts at `start` whatever its
/// first line is.
pub open spec fn changed_sections_from(d: Seq<Edit>, start: int) -> Seq<Edit>
    decreases d.len() - start,
    via changed_sections_from_decreases
{
    if start < 0 || start >= d.len() {
        Seq::empty()
    } else {
        let end = next_section_start(d, start + 1);
        let section = d.subrange(start, end);
        (if has_change(section) {
            section
        } else {
            Seq::empty()
        }) + changed_sections_from(d, end)
    }
}

#[via_fn]
proof fn changed_sections_from_decreases(d: Seq<Edit>, start: int) {
    if 0 <= start < d.len() {
        lemma_next_section_start_bounds(d, start + 1);
    }
}

/// The file sections of `d` that hold a change, in order.
pub open spec fn changed_sections(d: Seq<Edit>) -> Seq<Edit> {
    changed_sections_from(d, 0)
}

proof fn lemma_next_section_start_is(d: Seq<Edit>, i: int, e: int)
    requires
        0 <= i <= e <= d.len(),
        forall|k: int| i <= k < e ==> !is_section_header(#[trigger] d[k]),
        e == d.len() || is_section_header(d[e]),
    ensures
        next_section_start(d, i) == e,
    decreases e - i,
{
    if i < e {
        lemma_next_section_start_is(d, i + 1, e);
    }
}

/// Whether a diff line starts the section of a file (`diff --git ...`).
pub fn is_file_section_start(line: &DiffLine<'_>) -> (r: bool)
    ensures
        r == is_section_header(line@),
{
    let text = match line {
        DiffLine::Equal(l) => *l,
        DiffLine::Removed(l) => *l,
        DiffLine::Added(l) => *l,
    };
    let mut marker: Vec<u8> = Vec::new();
    marker.push(0x64);
    marker.push(0x69);
    marker.push(0x66);
    marker.push(0x66);
    marker.push(0x20);
    marker.push(0x2d);
    marker.push(0x2d);
    marker.push(0x67);
    marker.push(0x69);
    marker.push(0x74);
    marker.push(0x20);
    proof {
        assert(marker@ =~= section_marker());
    }
    starts_with_bytes(text.as_bytes(), marker.as_slice())
}

/// Appends the lines `diff[start..end]` to `output` when one of them is
/// removed or added.
pub fn push_section_if_changed<'a>(
    diff: &'a [DiffLine<'a>],
    start: usize,
    end: usize,
    output: &mut Vec<&'a DiffLine<'a>>,
)
    requires
        start <= end <= diff@.len(),
    ensures
        ref_views(final(output)@) == ref_views(old(output)@) + (if has_change(
            views(diff@).subrange(start as int, end as int),
        ) {
            views(diff@).subrange(start as int, end as int)
        } else {
            Seq::empty()
        }),
{
    let ghost section = views(diff@).subrange(start as int, end as int);
    let mut changed = false;
    let mut k = start;
    while k < end
        invariant
            start <= k <= end <= diff@.len(),
            section == views(diff@).subrange(start as int, end as int),
            changed == exists|m: int| start <= m < k && !(#[trigger] diff@[m]@ is Equal),
        decreases end - k,
    {
        let is_equal = match &diff[k] {
            DiffLine::Equal(_) => true,
            _ => false,
        };
        let ghost old_changed = changed;
        if !is_equal {
            changed = true;
        }
        proof {
            assert(is_equal == (diff@[k as int]@ is Equal));
            if !is_equal {
                assert(!(diff@[k as int]@ is Equal));
            }
            if old_changed {
                let m = choose|m: int| start <= m < k && !(#[trigger] diff@[m]@ is Equal);
                assert(start <= m < k + 1 && !(diff@[m]@ is Equal));
            }
            assert forall|m: int| start <= m < k + 1 && !(#[trigger] diff@[m]@ is Equal) implies changed by {
                if m < k {
                    assert(old_changed);
                }
            }
        }
        k = k + 1;
    }
    proof {
        if changed {
            let m = choose|m: int| start <= m < end && !(#[trigger] diff@[m]@ is Equal);
            assert(section[m - start] == diff@[m]@);
        }
        if has_change(section) {
            let m = choose|m: int| 0 <= m < section.len() && !(#[trigger] section[m] is Equal);
            assert(section[m] == diff@[m + start]@);
        }
    }
    if changed {
        let mut k = start;
        while k < end
            invariant
                start <= k <= end <= diff@.len(),
                ref_views(output@) == ref_views(old(output)@) + views(diff@).subrange(
                    start as int,
                    k as int,
                ),
            decreases end - k,
        {
            let ghost before = output@;
            output.push(&diff[k]);
            k = k + 1;
            proof {
                assert(ref_views(output@) =~= ref_views(before) + seq![diff@[k - 1]@]);
                assert(views(diff@).subrange(start as int, k as int) =~= views(diff@).subrange(
                    start as int,
                    k - 1,
                ) + seq![diff@[k - 1]@]);
                assert(ref_views(output@) =~= ref_views(old(output)@) + views(diff@).subrange(
                    start as int,
                    k as int,
                ));
            }
        }
    } else {
        proof {
            assert(ref_views(output@) =~= ref_views(old(output)@) + Seq::<Edit>::empty());
        }
    }
}

/// The file sections of `diff` that hold a removed or added line, in order.
pub fn changed_file_sections<'a>(diff: &'a [DiffLine<'a>]) -> (r: Vec<&'a DiffLine<'a>>)
    ensures
        ref_views(r@) == changed_sections(views(diff@)),
{
    let ghost d = views(diff@);
    let mut changed: Vec<&'a DiffLine<'a>> = Vec::new();
    let mut section_start: usize = 0;
    let mut index: usize = 0;
    proof {
        assert(ref_views(changed@) + changed_sections_from(d, 0) =~= changed_sections(d));
    }
    while index < diff.len()
        invariant
            d == views(diff@),
            section_start <= index <= diff@.len(),
            section_start < index || section_start == index,
            forall|k: int| section_start < k < index ==> !is_section_header(#[trigger] d[k]),
            ref_views(changed@) + changed_sections_from(d, section_start as int)
                == changed_sections(d),
        decreases diff@.len() - index,
    {
        if index > section_start && is_file_section_start(&diff[index]) {
            let ghost before = ref_views(changed@);
            proof {
                assert(d[index as int] == diff@[index as int]@);
                lemma_next_section_start_is(d, section_start + 1, index as int);
            }
            push_section_if_changed(diff, section_start, index, &mut changed);
            proof {
                let section = d.subrange(section_start as int, index as int);
                let part = if has_change(section) {
                    section
                } else {
                    Seq::empty()
                };
                assert(changed_sections_from(d, section_start as int) == part
                    + changed_sections_from(d, index as int));
                assert(ref_views(changed@) + changed_sections_from(d, index as int) =~= before + (
                part + changed_sections_from(d, index as int)));
            }
            section_start = index;
        }
        proof {
            if index > section_start {
                assert(d[index as int] == diff@[index as int]@);
            }
        }
        index = index + 1;
    }
    let ghost before = ref_views(changed@);
    push_section_if_changed(diff, section_start, diff.len(), &mut changed);
    proof {
        if section_start < diff@.len() {
            lemma_next_section_start_is(d, section_start + 1, d.len() as int);
            let section = d.subrange(section_start as int, d.len() as int);
            let part = if has_change(section) {
                section
            } else {
                Seq::empty()
            };
            assert(changed_sections_from(d, d.len() as int) =~= Seq::<Edit>::empty());
            assert(changed_sections_from(d, section_start as int) =~= part);
        } else {
            assert(changed_sections_from(d, section_start as int) =~= Seq::<Edit>::empty());
            assert(!has_change(d.subrange(section_start as int, d.len() as int)));
        }
        assert(ref_views(changed@) =~= changed_sections(d));
    }
    changed
}


/// The removed and added lines of `s`, in order.
pub open spec fn changes(s: Seq<Edit>) -> Seq<Edit>
    decreases s.len(),
{
    if s.len() == 0 {
        Seq::empty()
    } else {
        let rest = changes(s.drop_first());
        if s[0] is Equal {
            rest
        } else {
            seq![s[0]] + rest
        }
    }
}

proof fn lemma_changes_concat(a: Seq<Edit>, b: Seq<Edit>)
    ensures
        changes(a + b) == changes(a) + changes(b),
    decreases a.len(),
{
    if a.len() == 0 {
        assert(a + b =~= b);
        assert(changes(a) + changes(b) =~= changes(b));
    } else {
        lemma_changes_concat(a.drop_first(), b);
        assert((a + b).drop_first() =~= a.drop_first() + b);
        assert((a + b)[0] == a[0]);
        if !(a[0] is Equal) {
            assert(seq![a[0]] + (changes(a.drop_first()) + changes(b)) =~= (seq![a[0]] + changes(
                a.drop_first(),
            )) + changes(b));
        }
    }
}

proof fn lemma_changes_unchanged(s: Seq<Edit>)
    requires
        !has_change(s),
    ensures
        changes(s) == Seq::<Edit>::empty(),
    decreases s.len(),
{
    if s.len() > 0 {
        assert(s[0] is Equal);
        assert forall|k: int| 0 <= k < s.drop_first().len() implies #[trigger] s.drop_first()[k] is Equal by {
            assert(s[k + 1] is Equal);
        }
        lemma_changes_unchanged(s.drop_first());
    }
}

proof fn lemma_changed_sections_changes(d: Seq<Edit>, start: int)
    requires
        0 <= start <= d.len(),
    ensures
        changes(changed_sections_from(d, start)) == changes(d.subrange(start, d.len() as int)),
    decreases d.len() - start,
{
    if start == d.len() {
        assert(d.subrange(start, d.len() as int) =~= Seq::<Edit>::empty());
    } else {
        let end = next_section_start(d, start + 1);
        lemma_next_section_start_bounds(d, start + 1);
        let section = d.subrange(start, end);
        let part = if has_change(section) {
            section
        } else {
            Seq::empty()
        };
        lemma_changed_sections_changes(d, end);
        lemma_changes_concat(part, changed_sections_from(d, end));
        assert(d.subrange(start, d.len() as int) =~= section + d.subrange(end, d.len() as int));
        lemma_changes_concat(section, d.subrange(end, d.len() as int));
        if !has_change(section) {
            lemma_changes_unchanged(section);
            assert(changes(part) =~= Seq::<Edit>::empty());
        }
    }
}

/// Keeping only the changed file sections loses no removed or added line:
/// the removed and added lines of the kept sections are those of the whole
/// diff, in the same order.
pub proof fn law_changed_sections_keep_every_change(d: Seq<Edit>)
    ensures
        changes(changed_sections(d)) == changes(d),
{
    lemma_changed_sections_changes(d, 0);
    assert(d.subrange(0, d.len() as int) =~= d);
}

/// A diff in which no line is removed or added has no changed section.
pub proof fn law_unchanged_diff_has_no_sections(d: Seq<Edit>)
    requires
        !has_change(d),
    ensures
        changed_sections(d) == Seq::<Edit>::empty(),
{
    lemma_no_changed_section_from(d, 0);
}

proof fn lemma_no_changed_section_from(d: Seq<Edit>, start: int)
    requires
        !has_change(d),
        0 <= start <= d.len(),
    ensures
        changed_sections_from(d, start) == Seq::<Edit>::empty(),
    decreases d.len() - start,
{
    if start < d.len() {
        let end = next_section_start(d, start + 1);
        lemma_next_section_start_bounds(d, start + 1);
        let section = d.subrange(start, end);
        if has_change(section) {
            let k = choose|k: int| 0 <= k < section.len() && !(#[trigger] section[k] is Equal);
            assert(!(d[start + k] is Equal));
        }
        lemma_no_changed_section_from(d, end);
        assert(changed_sections_from(d, start) =~= Seq::<Edit>::empty());
    }
}


proof fn lemma_next_section_start_props(d: Seq<Edit>, i: int)
    requires
        0 <= i <= d.len(),
    ensures
        forall|k: int| i <= k < next_section_start(d, i) ==> !is_section_header(#[trigger] d[k]),
        next_section_start(d, i) < d.len() ==> is_section_header(d[next_section_start(d, i)]),
    decreases d.len() - i,
{
    if i < d.len() && !is_section_header(d[i]) {
        lemma_next_section_start_props(d, i + 1);
    }
}

proof fn lemma_next_section_start_shift(a: Seq<Edit>, b: Seq<Edit>, i: int)
    requires
        0 <= i <= b.len(),
    ensures
        next_section_start(a + b, a.len() + i) == a.len() + next_section_start(b, i),
    decreases b.len() - i,
{
    if i < b.len() {
        assert((a + b)[a.len() + i] == b[i]);
        lemma_next_section_start_shift(a, b, i + 1);
    }
}

/// The changed sections of `a + b` from inside `b` are those of `b`.
proof fn lemma_changed_sections_shift(a: Seq<Edit>, b: Seq<Edit>, i: int)
    requires
        0 <= i <= b.len(),
    ensures
        changed_sections_from(a + b, a.len() + i) == changed_sections_from(b, i),
    decreases b.len() - i,
{
    if i < b.len() {
        let end = next_section_start(b, i + 1);
        lemma_next_section_start_bounds(b, i + 1);
        lemma_next_section_start_shift(a, b, i + 1);
        assert((a + b).subrange(a.len() + i, a.len() + end) =~= b.subrange(i, end));
        lemma_changed_sections_shift(a, b, end);
    }
}

/// A changed section followed by sections that start at a file header, and
/// that filtering leaves as they are, is left as it is by filtering.
proof fn lemma_changed_sections_prepend(part: Seq<Edit>, rest: Seq<Edit>)
    requires
        part.len() == 0 || has_change(part),
        forall|k: int| 1 <= k < part.len() ==> !is_section_header(#[trigger] part[k]),
        rest.len() > 0 ==> is_section_header(rest[0]),
        changed_sections(rest) == rest,
    ensures
        changed_sections(part + rest) == part + rest,
{
    let s = part + rest;
    if part.len() == 0 {
        assert(s =~= rest);
    } else {
        let n = part.len() as int;
        assert forall|k: int| 1 <= k < n implies !is_section_header(#[trigger] s[k]) by {
            assert(s[k] == part[k]);
        }
        if n < s.len() {
            assert(s[n] == rest[0]);
        }
        lemma_next_section_start_is(s, 1, n);
        assert(s.subrange(0, n) =~= part);
        lemma_changed_sections_shift(part, rest, 0);
        assert(changed_sections_from(s, 0) == part + changed_sections_from(s, n));
    }
}

proof fn lemma_changed_sections_idempotent_from(d: Seq<Edit>, start: int)
    requires
        0 <= start <= d.len(),
        start == 0 || start == d.len() || is_section_header(d[start]),
    ensures
        changed_sections(changed_sections_from(d, start)) == changed_sections_from(d, start),
        changed_sections_from(d, start).len() > 0 && start > 0 ==> is_section_header(
            changed_sections_from(d, start)[0],
        ),
    decreases d.len() - start,
{
    if start == d.len() {
        assert(changed_sections(Seq::<Edit>::empty()) == Seq::<Edit>::empty());
    } else {
        let end = next_section_start(d, start + 1);
        lemma_next_section_start_bounds(d, start + 1);
        lemma_next_section_start_props(d, start + 1);
        let section = d.subrange(start, end);
        let part = if has_change(section) {
            section
        } else {
            Seq::<Edit>::empty()
        };
        let rest = changed_sections_from(d, end);
        lemma_changed_sections_idempotent_from(d, end);
        if rest.len() > 0 {
            assert(end > 0);
        }
        assert forall|k: int| 1 <= k < part.len() implies !is_section_header(#[trigger] part[k]) by {
            assert(part[k] == d[start + k]);
        }
        lemma_changed_sections_prepend(part, rest);
        if part.len() > 0 {
            assert((part + rest)[0] == d[start]);
        } else {
            assert(part + rest =~= rest);
        }
    }
}

/// Filtering a diff to its changed file sections a second time removes
/// nothing.
pub proof fn law_changed_sections_idempotent(d: Seq<Edit>)
    ensures
        changed_sections(changed_sections(d)) == changed_sections(d),
{
    lemma_changed_sections_idempotent_from(d, 0);
}


/// A diff line starts a file section exactly when its text begins with
/// `diff --git `, whatever its kind and its length.
pub proof fn law_section_header(l: Seq<u8>)
    ensures
        is_section_header(Edit::Equal(l)) <==> (l.len() >= 11 && l.subrange(0, 11) == seq![
            0x64u8,
            0x69u8,
            0x66u8,
            0x66u8,
            0x20u8,
            0x2du8,
            0x2du8,
            0x67u8,
            0x69u8,
            0x74u8,
            0x20u8,
        ]),
        is_section_header(Edit::Removed(l)) == is_section_header(Edit::Equal(l)),
        is_section_header(Edit::Added(l)) == is_section_header(Edit::Equal(l)),
{
}

/// How filtering treats a diff that starts with one file section `section`
/// (its later lines start no section) followed by lines `rest` that are empty
/// or start a section: the section is kept, in full, when it holds a removed
/// or added line and dropped otherwise, and `rest` is filtered on its own.
pub proof fn law_section_filtering(section: Seq<Edit>, rest: Seq<Edit>)
    requires
        section.len() > 0,
        forall|k: int| 1 <= k < section.len() ==> !is_section_header(#[trigger] section[k]),
        rest.len() > 0 ==> is_section_header(rest[0]),
    ensures
        (exists|k: int| 0 <= k < section.len() && !(#[trigger] section[k] is Equal))
            ==> changed_sections(section + rest) == section + changed_sections(rest),
        (forall|k: int| 0 <= k < section.len() ==> #[trigger] section[k] is Equal)
            ==> changed_sections(section + rest) == changed_sections(rest),
{
    let s = section + rest;
    let n = section.len() as int;
    assert forall|k: int| 1 <= k < n implies !is_section_header(#[trigger] s[k]) by {
        assert(s[k] == section[k]);
    }
    if n < s.len() {
        assert(s[n] == rest[0]);
    }
    lemma_next_section_start_is(s, 1, n);
    assert(s.subrange(0, n) =~= section);
    lemma_changed_sections_shift(section, rest, 0);
    assert(changed_sections_from(s, 0) == (if has_change(section) {
        section
    } else {
        Seq::empty()
    }) + changed_sections_from(s, n));
    if forall|k: int| 0 <= k < section.len() ==> #[trigger] section[k] is Equal {
        assert(!has_change(section));
        assert(Seq::<Edit>::empty() + changed_sections(rest) =~= changed_sections(rest));
    }
}

} // verus!
