//! What every diff computed by this crate satisfies: reading its kept and
//! removed lines gives back the first text, reading its kept and added lines
//! gives back (the keys of) the second text, it keeps a longest common
//! subsequence of lines, and a text diffed against itself is all kept.

use vstd::prelude::*;

use crate::diff::{
    edit_script, edit_text, lcs_len, spec_diff_by, spec_line_diff, spec_normalized_diff, Edit,
};
use crate::normalize::normalize_key;
use crate::text::text_lines;

verus! {

/// The lines of the first text that a diff shows: its kept and removed lines.
pub open spec fn old_side(edits: Seq<Edit>) -> Seq<Seq<u8>>
    decreases edits.len(),
{
    if edits.len() == 0 {
        Seq::empty()
    } else {
        let rest = old_side(edits.drop_first());
        match edits[0] {
            Edit::Added(_) => rest,
            _ => seq![edit_text(edits[0])] + rest,
        }
    }
}

/// The lines of the second text that a diff shows: its kept and added lines.
pub open spec fn new_side(edits: Seq<Edit>) -> Seq<Seq<u8>>
    decreases edits.len(),
{
    if edits.len() == 0 {
        Seq::empty()
    } else {
        let rest = new_side(edits.drop_first());
        match edits[0] {
            Edit::Removed(_) => rest,
            _ => seq![edit_text(edits[0])] + rest,
        }
    }
}

/// The number of kept lines in a diff.
pub open spec fn kept_count(edits: Seq<Edit>) -> nat
    decreases edits.len(),
{
    if edits.len() == 0 {
        0
    } else {
        let rest = kept_count(edits.drop_first());
        match edits[0] {
            Edit::Equal(_) => rest + 1,
            _ => rest,
        }
    }
}

proof fn lemma_cons(e: Edit, s: Seq<Edit>)
    ensures
        (seq![e] + s).len() > 0,
        (seq![e] + s)[0] == e,
        (seq![e] + s).drop_first() =~= s,
{
}

/// The script from `(i, j)` is one line followed by the script from the next
/// position, and that position is one closer to the end.
proof fn lemma_script_step(
    lb: Seq<Seq<u8>>,
    la: Seq<Seq<u8>>,
    kb: Seq<Seq<u8>>,
    ka: Seq<Seq<u8>>,
    i: int,
    j: int,
) -> (next: (Edit, int, int))
    requires
        0 <= i <= lb.len(),
        0 <= j <= la.len(),
        i < lb.len() || j < la.len(),
    ensures
        edit_script(lb, la, kb, ka, i, j) =~= seq![next.0] + edit_script(
            lb,
            la,
            kb,
            ka,
            next.1,
            next.2,
        ),
        i <= next.1 <= lb.len(),
        j <= next.2 <= la.len(),
        next.1 + next.2 > i + j,
        next.0 matches Edit::Equal(l) ==> i < lb.len() && j < la.len() && kb[i] == ka[j] && l
            == lb[i] && next.1 == i + 1 && next.2 == j + 1,
        next.0 matches Edit::Removed(l) ==> i < lb.len() && l == lb[i] && next.1 == i + 1
            && next.2 == j && (j < la.len() ==> kb[i] != ka[j] && lcs_len(kb, ka, i + 1, j)
            >= lcs_len(kb, ka, i, j + 1)),
        next.0 matches Edit::Added(l) ==> j < la.len() && l == la[j] && next.1 == i && next.2
            == j + 1 && (i < lb.len() ==> kb[i] != ka[j] && lcs_len(kb, ka, i + 1, j) < lcs_len(
            kb,
            ka,
            i,
            j + 1,
        )),
{
    if i >= lb.len() {
        (Edit::Added(la[j]), i, j + 1)
    } else if j >= la.len() {
        (Edit::Removed(lb[i]), i + 1, j)
    } else if kb[i] == ka[j] {
        (Edit::Equal(lb[i]), i + 1, j + 1)
    } else if lcs_len(kb, ka, i + 1, j) >= lcs_len(kb, ka, i, j + 1) {
        (Edit::Removed(lb[i]), i + 1, j)
    } else {
        (Edit::Added(la[j]), i, j + 1)
    }
}

proof fn lemma_script_sides(
    lb: Seq<Seq<u8>>,
    la: Seq<Seq<u8>>,
    key: spec_fn(Seq<u8>) -> Seq<u8>,
    i: int,
    j: int,
)
    requires
        0 <= i <= lb.len(),
        0 <= j <= la.len(),
    ensures
        old_side(edit_script(lb, la, lb.map_values(key), la.map_values(key), i, j))
            =~= lb.subrange(i, lb.len() as int),
        new_side(edit_script(lb, la, lb.map_values(key), la.map_values(key), i, j)).map_values(
            key,
        ) =~= la.map_values(key).subrange(j, la.len() as int),
    decreases lb.len() - i + la.len() - j,
{
    let kb = lb.map_values(key);
    let ka = la.map_values(key);
    if i == lb.len() && j == la.len() {
        assert(edit_script(lb, la, kb, ka, i, j) =~= Seq::<Edit>::empty());
    } else {
        let next = lemma_script_step(lb, la, kb, ka, i, j);
        let rest = edit_script(lb, la, kb, ka, next.1, next.2);
        lemma_script_sides(lb, la, key, next.1, next.2);
        lemma_cons(next.0, rest);
        let s = edit_script(lb, la, kb, ka, i, j);
        assert(old_side(s) == match next.0 {
            Edit::Added(_) => old_side(rest),
            _ => seq![edit_text(next.0)] + old_side(rest),
        });
        assert(new_side(s) == match next.0 {
            Edit::Removed(_) => new_side(rest),
            _ => seq![edit_text(next.0)] + new_side(rest),
        });
        match next.0 {
            Edit::Equal(l) => {
                assert(key(l) == ka[j]);
                assert((seq![l] + new_side(rest)).map_values(key) =~= seq![key(l)]
                    + new_side(rest).map_values(key));
            },
            Edit::Removed(l) => {},
            Edit::Added(l) => {
                assert((seq![l] + new_side(rest)).map_values(key) =~= seq![key(l)]
                    + new_side(rest).map_values(key));
            },
        }
    }
}

proof fn lemma_script_kept(
    lb: Seq<Seq<u8>>,
    la: Seq<Seq<u8>>,
    kb: Seq<Seq<u8>>,
    ka: Seq<Seq<u8>>,
    i: int,
    j: int,
)
    requires
        0 <= i <= lb.len(),
        0 <= j <= la.len(),
        kb.len() == lb.len(),
        ka.len() == la.len(),
    ensures
        kept_count(edit_script(lb, la, kb, ka, i, j)) == lcs_len(kb, ka, i, j),
    decreases lb.len() - i + la.len() - j,
{
    if i == lb.len() && j == la.len() {
        assert(edit_script(lb, la, kb, ka, i, j) =~= Seq::<Edit>::empty());
    } else {
        let next = lemma_script_step(lb, la, kb, ka, i, j);
        let rest = edit_script(lb, la, kb, ka, next.1, next.2);
        lemma_script_kept(lb, la, kb, ka, next.1, next.2);
        lemma_cons(next.0, rest);
        if i == lb.len() {
            assert(lcs_len(kb, ka, next.1, next.2) == 0);
        } else if j == la.len() {
            assert(lcs_len(kb, ka, next.1, next.2) == 0);
        }
    }
}

/// Reading the kept and removed lines of `diff_lines(before, after)` gives back
/// the lines of `before`; reading its kept and added lines gives back the lines
/// of `after`.
pub proof fn law_line_diff_sides(before: Seq<u8>, after: Seq<u8>)
    ensures
        old_side(spec_line_diff(before, after)) == text_lines(before),
        new_side(spec_line_diff(before, after)) == text_lines(after),
{
    let key = |l: Seq<u8>| l;
    let lb = text_lines(before);
    let la = text_lines(after);
    lemma_script_sides(lb, la, key, 0, 0);
    assert(lb.subrange(0, lb.len() as int) =~= lb);
    assert(la.map_values(key) =~= la);
    let n = new_side(spec_line_diff(before, after));
    assert(n.map_values(key) =~= n);
}

/// Reading the kept and removed lines of `diff_normalized_lines(before, after)`
/// gives back the lines of `before`; its kept and added lines have, one by one,
/// the normalised keys of the lines of `after`.
pub proof fn law_normalized_diff_sides(before: Seq<u8>, after: Seq<u8>)
    ensures
        old_side(spec_normalized_diff(before, after)) == text_lines(before),
        new_side(spec_normalized_diff(before, after)).map_values(|l: Seq<u8>| normalize_key(l))
            == text_lines(after).map_values(|l: Seq<u8>| normalize_key(l)),
{
    let key = |l: Seq<u8>| normalize_key(l);
    let lb = text_lines(before);
    let la = text_lines(after);
    lemma_script_sides(lb, la, key, 0, 0);
    assert(lb.subrange(0, lb.len() as int) =~= lb);
    assert(la.map_values(key).subrange(0, la.len() as int) =~= la.map_values(key));
}

/// A diff keeps as many lines as the longest common subsequence of the two
/// texts' line keys has.
pub proof fn law_diff_keeps_lcs(
    before: Seq<u8>,
    after: Seq<u8>,
    key: spec_fn(Seq<u8>) -> Seq<u8>,
)
    ensures
        kept_count(spec_diff_by(before, after, key)) == lcs_len(
            text_lines(before).map_values(key),
            text_lines(after).map_values(key),
            0,
            0,
        ),
{
    let lb = text_lines(before);
    let la = text_lines(after);
    lemma_script_kept(lb, la, lb.map_values(key), la.map_values(key), 0, 0);
}


proof fn lemma_script_same(lb: Seq<Seq<u8>>, kb: Seq<Seq<u8>>, i: int)
    requires
        0 <= i <= lb.len(),
        kb.len() == lb.len(),
    ensures
        edit_script(lb, lb, kb, kb, i, i) =~= lb.subrange(i, lb.len() as int).map_values(
            |l: Seq<u8>| Edit::Equal(l),
        ),
    decreases lb.len() - i,
{
    if i < lb.len() {
        lemma_script_same(lb, kb, i + 1);
    }
}

/// A text diffed against itself keeps every one of its lines.
pub proof fn law_diff_of_same_text(text: Seq<u8>, key: spec_fn(Seq<u8>) -> Seq<u8>)
    ensures
        spec_diff_by(text, text, key) == text_lines(text).map_values(|l: Seq<u8>| Edit::Equal(l)),
{
    let lb = text_lines(text);
    lemma_script_same(lb, lb.map_values(key), 0);
    assert(lb.subrange(0, lb.len() as int) =~= lb);
}

/// `diff_lines` and `diff_normalized_lines` of a text against itself keep
/// every one of its lines.
pub proof fn law_same_text_all_kept(text: Seq<u8>)
    ensures
        spec_line_diff(text, text) == text_lines(text).map_values(|l: Seq<u8>| Edit::Equal(l)),
        spec_normalized_diff(text, text) == text_lines(text).map_values(
            |l: Seq<u8>| Edit::Equal(l),
        ),
{
    law_diff_of_same_text(text, |l: Seq<u8>| l);
    law_diff_of_same_text(text, |l: Seq<u8>| normalize_key(l));
}


/// `p` and `q` pick the same number of lines, in increasing order, from `kb`
/// and `ka`, at positions from `i` and `j` on, and the picked keys agree one by
/// one: a common subsequence of `kb[i..]` and `ka[j..]`.
pub open spec fn is_common_subsequence(
    kb: Seq<Seq<u8>>,
    ka: Seq<Seq<u8>>,
    p: Seq<int>,
    q: Seq<int>,
    i: int,
    j: int,
) -> bool {
    &&& p.len() == q.len()
    &&& forall|k: int| 0 <= k < p.len() ==> i <= #[trigger] p[k] < kb.len()
    &&& forall|k: int| 0 <= k < q.len() ==> j <= #[trigger] q[k] < ka.len()
    &&& forall|k: int, l: int| 0 <= k < l < p.len() ==> #[trigger] p[k] < #[trigger] p[l]
    &&& forall|k: int, l: int| 0 <= k < l < q.len() ==> #[trigger] q[k] < #[trigger] q[l]
    &&& forall|k: int| 0 <= k < p.len() ==> kb[#[trigger] p[k]] == ka[q[k]]
}

proof fn lemma_lcs_len_is_longest(
    kb: Seq<Seq<u8>>,
    ka: Seq<Seq<u8>>,
    p: Seq<int>,
    q: Seq<int>,
    i: int,
    j: int,
)
    requires
        0 <= i <= kb.len(),
        0 <= j <= ka.len(),
        is_common_subsequence(kb, ka, p, q, i, j),
    ensures
        p.len() <= lcs_len(kb, ka, i, j),
    decreases kb.len() - i + ka.len() - j,
{
    if p.len() > 0 {
        assert(i <= p[0] < kb.len());
        assert(j <= q[0] < ka.len());
        let p1 = p.drop_first();
        let q1 = q.drop_first();
        assert forall|k: int| 0 <= k < p1.len() implies i < #[trigger] p1[k] by {
            assert(p[0] < p[k + 1]);
        }
        assert forall|k: int| 0 <= k < q1.len() implies j < #[trigger] q1[k] by {
            assert(q[0] < q[k + 1]);
        }
        if kb[i] == ka[j] {
            if p[0] > i && q[0] > j {
                lemma_lcs_len_is_longest(kb, ka, p, q, i + 1, j + 1);
            } else {
                assert(is_common_subsequence(kb, ka, p1, q1, i + 1, j + 1));
                lemma_lcs_len_is_longest(kb, ka, p1, q1, i + 1, j + 1);
            }
        } else if p[0] > i {
            lemma_lcs_len_is_longest(kb, ka, p, q, i + 1, j);
        } else {
            assert(q[0] != j);
            lemma_lcs_len_is_longest(kb, ka, p, q, i, j + 1);
        }
    }
}

/// No common subsequence of two key sequences is longer than `lcs_len` says;
/// so, with `law_diff_keeps_lcs`, every diff keeps as many lines as any
/// alignment of the two texts could.
pub proof fn law_lcs_len_is_longest(
    kb: Seq<Seq<u8>>,
    ka: Seq<Seq<u8>>,
    p: Seq<int>,
    q: Seq<int>,
)
    requires
        is_common_subsequence(kb, ka, p, q, 0, 0),
    ensures
        p.len() <= lcs_len(kb, ka, 0, 0),
{
    lemma_lcs_len_is_longest(kb, ka, p, q, 0, 0);
}


proof fn lemma_lcs_len_attained(
    kb: Seq<Seq<u8>>,
    ka: Seq<Seq<u8>>,
    i: int,
    j: int,
) -> (pq: (Seq<int>, Seq<int>))
    requires
        0 <= i <= kb.len(),
        0 <= j <= ka.len(),
    ensures
        is_common_subsequence(kb, ka, pq.0, pq.1, i, j),
        pq.0.len() == lcs_len(kb, ka, i, j),
    decreases kb.len() - i + ka.len() - j,
{
    if i == kb.len() || j == ka.len() {
        (Seq::empty(), Seq::empty())
    } else if kb[i] == ka[j] {
        let (p1, q1) = lemma_lcs_len_attained(kb, ka, i + 1, j + 1);
        let p = seq![i] + p1;
        let q = seq![j] + q1;
        assert forall|k: int, l: int| 0 <= k < l < p.len() implies #[trigger] p[k] < #[trigger] p[l] by {
            if k > 0 {
                assert(p1[k - 1] < p1[l - 1]);
            } else {
                assert(p[l] == p1[l - 1]);
            }
        }
        assert forall|k: int, l: int| 0 <= k < l < q.len() implies #[trigger] q[k] < #[trigger] q[l] by {
            if k > 0 {
                assert(q1[k - 1] < q1[l - 1]);
            } else {
                assert(q[l] == q1[l - 1]);
            }
        }
        assert forall|k: int| 0 <= k < p.len() implies kb[#[trigger] p[k]] == ka[q[k]] by {
            if k > 0 {
                assert(p[k] == p1[k - 1] && q[k] == q1[k - 1]);
            }
        }
        assert forall|k: int| 0 <= k < p.len() implies i <= #[trigger] p[k] < kb.len() by {
            if k > 0 {
                assert(p[k] == p1[k - 1]);
            }
        }
        assert forall|k: int| 0 <= k < q.len() implies j <= #[trigger] q[k] < ka.len() by {
            if k > 0 {
                assert(q[k] == q1[k - 1]);
            }
        }
        (p, q)
    } else if lcs_len(kb, ka, i + 1, j) >= lcs_len(kb, ka, i, j + 1) {
        lemma_lcs_len_attained(kb, ka, i + 1, j)
    } else {
        lemma_lcs_len_attained(kb, ka, i, j + 1)
    }
}

/// Some common subsequence of two key sequences is as long as `lcs_len` says,
/// so `lcs_len` is the length of a longest common subsequence.
pub proof fn law_lcs_len_is_attained(kb: Seq<Seq<u8>>, ka: Seq<Seq<u8>>)
    ensures
        exists|p: Seq<int>, q: Seq<int>|
            #[trigger] is_common_subsequence(kb, ka, p, q, 0, 0) && p.len() == lcs_len(
                kb,
                ka,
                0,
                0,
            ),
{
    let (p, q) = lemma_lcs_len_attained(kb, ka, 0, 0);
    assert(is_common_subsequence(kb, ka, p, q, 0, 0));
}


/// Dropping the first line of either side never lengthens a longest common
/// subsequence.
proof fn lemma_lcs_len_monotone(kb: Seq<Seq<u8>>, ka: Seq<Seq<u8>>, i: int, j: int)
    requires
        0 <= i < kb.len(),
        0 <= j < ka.len(),
    ensures
        lcs_len(kb, ka, i + 1, j) <= lcs_len(kb, ka, i, j),
        lcs_len(kb, ka, i, j + 1) <= lcs_len(kb, ka, i, j),
{
    let (p, q) = lemma_lcs_len_attained(kb, ka, i + 1, j);
    assert(is_common_subsequence(kb, ka, p, q, i, j));
    lemma_lcs_len_is_longest(kb, ka, p, q, i, j);
    let (p2, q2) = lemma_lcs_len_attained(kb, ka, i, j + 1);
    assert(is_common_subsequence(kb, ka, p2, q2, i, j));
    lemma_lcs_len_is_longest(kb, ka, p2, q2, i, j);
}

proof fn lemma_script_no_add_before_remove(
    lb: Seq<Seq<u8>>,
    la: Seq<Seq<u8>>,
    kb: Seq<Seq<u8>>,
    ka: Seq<Seq<u8>>,
    i: int,
    j: int,
)
    requires
        0 <= i <= lb.len(),
        0 <= j <= la.len(),
        kb.len() == lb.len(),
        ka.len() == la.len(),
    ensures
        forall|k: int|
            0 <= k && k + 1 < edit_script(lb, la, kb, ka, i, j).len() ==> !(
            #[trigger] edit_script(lb, la, kb, ka, i, j)[k] is Added && edit_script(
                lb,
                la,
                kb,
                ka,
                i,
                j,
            )[k + 1] is Removed),
    decreases lb.len() - i + la.len() - j,
{
    let s = edit_script(lb, la, kb, ka, i, j);
    if i == lb.len() && j == la.len() {
        assert(s =~= Seq::<Edit>::empty());
    } else {
        let next = lemma_script_step(lb, la, kb, ka, i, j);
        let rest = edit_script(lb, la, kb, ka, next.1, next.2);
        lemma_script_no_add_before_remove(lb, la, kb, ka, next.1, next.2);
        if (next.0 is Added) && rest.len() > 0 {
            assert(next.1 == i && next.2 == j + 1);
            if next.1 < lb.len() || next.2 < la.len() {
                let after = lemma_script_step(lb, la, kb, ka, next.1, next.2);
                assert(rest[0] == after.0);
                if after.0 is Removed {
                    assert(i < lb.len());
                    if j + 1 < la.len() {
                        lemma_lcs_len_monotone(kb, ka, i + 1, j);
                        assert(lcs_len(kb, ka, i, j + 1) == lcs_len(kb, ka, i + 1, j + 1));
                    } else {
                        assert(lcs_len(kb, ka, i, j + 1) == 0);
                    }
                }
            }
        }
        assert forall|k: int| 0 <= k && k + 1 < s.len() implies !(#[trigger] s[k] is Added
            && s[k + 1] is Removed) by {
            if k > 0 {
                assert(s[k] == rest[k - 1]);
                assert(s[k + 1] == rest[k]);
            } else {
                assert(s[0] == next.0);
                assert(s[1] == rest[0]);
            }
        }
    }
}

/// In every diff, an added line is never directly followed by a removed line:
/// within a run of changes the removed lines come first.
pub proof fn law_removed_before_added(
    before: Seq<u8>,
    after: Seq<u8>,
    key: spec_fn(Seq<u8>) -> Seq<u8>,
)
    ensures
        forall|k: int|
            0 <= k && k + 1 < spec_diff_by(before, after, key).len() ==> !(
            #[trigger] spec_diff_by(before, after, key)[k] is Added && spec_diff_by(
                before,
                after,
                key,
            )[k + 1] is Removed),
{
    let lb = text_lines(before);
    let la = text_lines(after);
    lemma_script_no_add_before_remove(lb, la, lb.map_values(key), la.map_values(key), 0, 0);
}

} // verus!
