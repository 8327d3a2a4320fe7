//! Line diff of two texts: a longest-common-subsequence table over line keys,
//! walked from the front into a sequence of equal, removed and added lines.

use vstd::prelude::*;
use vstd::string::StringSliceAdditionalSpecFns;

use crate::normalize::{normalize_git_diff_line, normalize_key};
use crate::text::{bytes_of, split_lines, str_eq, text_lines};

verus! {

/// One line of a diff: kept from both sides, only in the first text, or only
/// in the second text.
#[derive(Debug, PartialEq, Eq)]
pub enum DiffLine<'a> {
    Equal(&'a str),
    Removed(&'a str),
    Added(&'a str),
}

/// The mathematical model of a diff line: its kind and the bytes of its text.
pub enum Edit {
    Equal(Seq<u8>),
    Removed(Seq<u8>),
    Added(Seq<u8>),
}

impl<'a> View for DiffLine<'a> {
    type V = Edit;

    open spec fn view(&self) -> Edit {
        match *self {
            DiffLine::Equal(l) => Edit::Equal(l.spec_bytes()),
            DiffLine::Removed(l) => Edit::Removed(l.spec_bytes()),
            DiffLine::Added(l) => Edit::Added(l.spec_bytes()),
        }
    }
}

/// The text of a diff line, whatever its kind.
pub open spec fn edit_text(e: Edit) -> Seq<u8> {
    match e {
        Edit::Equal(l) => l,
        Edit::Removed(l) => l,
        Edit::Added(l) => l,
    }
}

/// The models of a sequence of diff lines.
pub open spec fn views<'a>(s: Seq<DiffLine<'a>>) -> Seq<Edit> {
    Seq::new(s.len(), |i: int| s[i]@)
}

/// Length of a longest common subsequence of `kb[i..]` and `ka[j..]`, by the
/// usual recurrence.
pub open spec fn lcs_len(kb: Seq<Seq<u8>>, ka: Seq<Seq<u8>>, i: int, j: int) -> nat
    decreases kb.len() - i + ka.len() - j,
{
    if i < 0 || j < 0 || i >= kb.len() || j >= ka.len() {
        0
    } else if kb[i] == ka[j] {
        lcs_len(kb, ka, i + 1, j + 1) + 1
    } else {
        let down = lcs_len(kb, ka, i + 1, j);
        let right = lcs_len(kb, ka, i, j + 1);
        if down >= right {
            down
        } else {
            right
        }
    }
}

/// The diff of the lines `lb[i..]` against `la[j..]`, whose keys are
/// `kb[i..]` and `ka[j..]`: while both sides have lines, lines with equal keys
/// are kept (with the text of the first side); otherwise the first side's line
/// is removed when that keeps a longest common subsequence at least as long as
/// adding the second side's line does, and that line is added otherwise. What
/// is left of the first side is then removed and what is left of the second
/// side added.
pub open spec fn edit_script(
    lb: Seq<Seq<u8>>,
    la: Seq<Seq<u8>>,
    kb: Seq<Seq<u8>>,
    ka: Seq<Seq<u8>>,
    i: int,
    j: int,
) -> Seq<Edit>
    decreases lb.len() - i + la.len() - j,
{
    if i < 0 || j < 0 {
        Seq::empty()
    } else if i >= lb.len() {
        Seq::new((la.len() - j) as nat, |k: int| Edit::Added(la[j + k]))
    } else if j >= la.len() {
        Seq::new((lb.len() - i) as nat, |k: int| Edit::Removed(lb[i + k]))
    } else if kb[i] == ka[j] {
        seq![Edit::Equal(lb[i])] + edit_script(lb, la, kb, ka, i + 1, j + 1)
    } else if lcs_len(kb, ka, i + 1, j) >= lcs_len(kb, ka, i, j + 1) {
        seq![Edit::Removed(lb[i])] + edit_script(lb, la, kb, ka, i + 1, j)
    } else {
        seq![Edit::Added(la[j])] + edit_script(lb, la, kb, ka, i, j + 1)
    }
}

/// The diff of two texts whose lines are compared by `key`.
pub open spec fn spec_diff_by(
    before: Seq<u8>,
    after: Seq<u8>,
    key: spec_fn(Seq<u8>) -> Seq<u8>,
) -> Seq<Edit> {
    let lb = text_lines(before);
    let la = text_lines(after);
    edit_script(lb, la, lb.map_values(key), la.map_values(key), 0, 0)
}

/// The diff of two texts, lines compared as they are.
pub open spec fn spec_line_diff(before: Seq<u8>, after: Seq<u8>) -> Seq<Edit> {
    spec_diff_by(before, after, |l: Seq<u8>| l)
}

/// The diff of two unified diffs, lines compared by their normalised keys.
pub open spec fn spec_normalized_diff(before: Seq<u8>, after: Seq<u8>) -> Seq<Edit> {
    spec_diff_by(before, after, |l: Seq<u8>| normalize_key(l))
}

pub proof fn lemma_lcs_len_bound(kb: Seq<Seq<u8>>, ka: Seq<Seq<u8>>, i: int, j: int)
    requires
        0 <= i <= kb.len(),
        0 <= j <= ka.len(),
    ensures
        lcs_len(kb, ka, i, j) <= kb.len() - i,
    decreases kb.len() - i + ka.len() - j,
{
    if i < kb.len() && j < ka.len() {
        lemma_lcs_len_bound(kb, ka, i + 1, j + 1);
        lemma_lcs_len_bound(kb, ka, i + 1, j);
        lemma_lcs_len_bound(kb, ka, i, j + 1);
    }
}

/// `table[k]` holds the row of the longest-common-subsequence table for line
/// `n - 1 - k` of the first side; rows for the lines from `lo` on are present.
pub open spec fn table_holds(
    table: Seq<Vec<usize>>,
    kb: Seq<Seq<u8>>,
    ka: Seq<Seq<u8>>,
    lo: int,
) -> bool {
    &&& 0 <= lo <= kb.len()
    &&& table.len() == kb.len() - lo
    &&& forall|k: int|
        #![trigger table[k]]
        0 <= k < table.len() ==> table[k]@.len() == ka.len() && forall|j: int|
            0 <= j < ka.len() ==> #[trigger] table[k]@[j] == lcs_len(kb, ka, kb.len() - 1 - k, j)
}

/// Looks up the longest-common-subsequence length for `kb[i..]`, `ka[j..]`.
fn lcs_at(
    table: &Vec<Vec<usize>>,
    Ghost(kb): Ghost<Seq<Seq<u8>>>,
    Ghost(ka): Ghost<Seq<Seq<u8>>>,
    n: usize,
    m: usize,
    lo: usize,
    i: usize,
    j: usize,
) -> (v: usize)
    requires
        table_holds(table@, kb, ka, lo as int),
        n == kb.len(),
        m == ka.len(),
        lo <= i <= n,
        j <= m,
    ensures
        v == lcs_len(kb, ka, i as int, j as int),
{
    if i == n || j == m {
        0
    } else {
        let row = &table[n - 1 - i];
        row[j]
    }
}

/// Fills the longest-common-subsequence table, from the last line of each side
/// back to the first.
fn lcs_table(kb: &Vec<&str>, ka: &Vec<&str>) -> (table: Vec<Vec<usize>>)
    ensures
        table_holds(table@, bytes_of(kb@), bytes_of(ka@), 0),
{
    let ghost skb = bytes_of(kb@);
    let ghost ska = bytes_of(ka@);
    let n = kb.len();
    let m = ka.len();
    let mut table: Vec<Vec<usize>> = Vec::new();
    let mut i = n;
    while i > 0
        invariant
            n == kb@.len(),
            m == ka@.len(),
            skb == bytes_of(kb@),
            ska == bytes_of(ka@),
            i <= n,
            table_holds(table@, skb, ska, i as int),
        decreases i,
    {
        i = i - 1;
        let mut row: Vec<usize> = Vec::new();
        let mut z: usize = 0;
        while z < m
            invariant
                z <= m,
                row@.len() == z,
            decreases m - z,
        {
            row.push(0);
            z = z + 1;
        }
        let mut j = m;
        while j > 0
            invariant
                n == kb@.len(),
                m == ka@.len(),
                skb == bytes_of(kb@),
                ska == bytes_of(ka@),
                i < n,
                j <= m,
                row@.len() == m,
                table_holds(table@, skb, ska, i + 1),
                forall|jj: int| j <= jj < m ==> #[trigger] row@[jj] == lcs_len(skb, ska, i as int, jj),
            decreases j,
        {
            j = j - 1;
            let v = if str_eq(kb[i], ka[j]) {
                proof {
                    lemma_lcs_len_bound(skb, ska, i + 1, j + 1);
                }
                lcs_at(&table, Ghost(skb), Ghost(ska), n, m, i + 1, i + 1, j + 1) + 1
            } else {
                let down = lcs_at(&table, Ghost(skb), Ghost(ska), n, m, i + 1, i + 1, j);
                let right = if j + 1 < m {
                    row[j + 1]
                } else {
                    0
                };
                if down >= right {
                    down
                } else {
                    right
                }
            };
            proof {
                assert(skb[i as int] == kb@[i as int].spec_bytes());
                assert(ska[j as int] == ka@[j as int].spec_bytes());
                assert(lcs_len(skb, ska, i as int, m as int) == 0);
                assert(v == lcs_len(skb, ska, i as int, j as int));
            }
            row.set(j, v);
        }
        let ghost old_table = table@;
        table.push(row);
        proof {
            assert forall|k: int|
                #![trigger table@[k]]
                0 <= k < table@.len() implies table@[k]@.len() == ska.len() && forall|jj: int|
                0 <= jj < ska.len() ==> #[trigger] table@[k]@[jj] == lcs_len(
                    skb,
                    ska,
                    skb.len() - 1 - k,
                    jj,
                ) by {
                if k < old_table.len() {
                    assert(table@[k] == old_table[k]);
                }
            }
        }
    }
    table
}


/// The remaining first-side lines, all removed.
proof fn lemma_script_removed_tail(
    lb: Seq<Seq<u8>>,
    la: Seq<Seq<u8>>,
    kb: Seq<Seq<u8>>,
    ka: Seq<Seq<u8>>,
    i: int,
)
    requires
        0 <= i < lb.len(),
    ensures
        edit_script(lb, la, kb, ka, i, la.len() as int) =~= seq![Edit::Removed(lb[i])]
            + edit_script(lb, la, kb, ka, i + 1, la.len() as int),
{
}

/// The remaining second-side lines, all added.
proof fn lemma_script_added_tail(
    lb: Seq<Seq<u8>>,
    la: Seq<Seq<u8>>,
    kb: Seq<Seq<u8>>,
    ka: Seq<Seq<u8>>,
    j: int,
)
    requires
        0 <= j < la.len(),
    ensures
        edit_script(lb, la, kb, ka, lb.len() as int, j) =~= seq![Edit::Added(la[j])]
            + edit_script(lb, la, kb, ka, lb.len() as int, j + 1),
{
}

/// Walks the table from the first lines of both sides and collects the diff.
fn trace_edits<'a>(
    before_lines: &Vec<&'a str>,
    after_lines: &Vec<&'a str>,
    before_keys: &Vec<&'a str>,
    after_keys: &Vec<&'a str>,
    table: &Vec<Vec<usize>>,
) -> (r: Vec<DiffLine<'a>>)
    requires
        before_keys@.len() == before_lines@.len(),
        after_keys@.len() == after_lines@.len(),
        table_holds(table@, bytes_of(before_keys@), bytes_of(after_keys@), 0),
    ensures
        views(r@) == edit_script(
            bytes_of(before_lines@),
            bytes_of(after_lines@),
            bytes_of(before_keys@),
            bytes_of(after_keys@),
            0,
            0,
        ),
{
    let ghost lb = bytes_of(before_lines@);
    let ghost la = bytes_of(after_lines@);
    let ghost kb = bytes_of(before_keys@);
    let ghost ka = bytes_of(after_keys@);
    let ghost total = edit_script(lb, la, kb, ka, 0, 0);
    let n = before_lines.len();
    let m = after_lines.len();
    let mut result: Vec<DiffLine<'a>> = Vec::new();
    let mut bi: usize = 0;
    let mut ai: usize = 0;
    proof {
        assert(views(result@) + total =~= total);
    }
    while bi < n && ai < m
        invariant
            n == before_lines@.len(),
            m == after_lines@.len(),
            before_keys@.len() == n,
            after_keys@.len() == m,
            lb == bytes_of(before_lines@),
            la == bytes_of(after_lines@),
            kb == bytes_of(before_keys@),
            ka == bytes_of(after_keys@),
            total == edit_script(lb, la, kb, ka, 0, 0),
            table_holds(table@, kb, ka, 0),
            bi <= n,
            ai <= m,
            views(result@) + edit_script(lb, la, kb, ka, bi as int, ai as int) == total,
        decreases n - bi + m - ai,
    {
        let ghost old_result = result@;
        let ghost rest = edit_script(lb, la, kb, ka, bi as int, ai as int);
        proof {
            assert(kb[bi as int] == before_keys@[bi as int].spec_bytes());
            assert(ka[ai as int] == after_keys@[ai as int].spec_bytes());
            assert(lb[bi as int] == before_lines@[bi as int].spec_bytes());
            assert(la[ai as int] == after_lines@[ai as int].spec_bytes());
        }
        let line;
        if str_eq(before_keys[bi], after_keys[ai]) {
            line = DiffLine::Equal(before_lines[bi]);
            bi = bi + 1;
            ai = ai + 1;
        } else if lcs_at(table, Ghost(kb), Ghost(ka), n, m, 0, bi + 1, ai) >= lcs_at(
            table,
            Ghost(kb),
            Ghost(ka),
            n,
            m,
            0,
            bi,
            ai + 1,
        ) {
            line = DiffLine::Removed(before_lines[bi]);
            bi = bi + 1;
        } else {
            line = DiffLine::Added(after_lines[ai]);
            ai = ai + 1;
        }
        result.push(line);
        proof {
            assert(rest == seq![line@] + edit_script(lb, la, kb, ka, bi as int, ai as int));
            assert(views(result@) =~= views(old_result) + seq![line@]);
            assert(views(result@) + edit_script(lb, la, kb, ka, bi as int, ai as int) =~= views(
                old_result,
            ) + rest);
        }
    }
    while bi < n
        invariant
            n == before_lines@.len(),
            m == after_lines@.len(),
            lb == bytes_of(before_lines@),
            la == bytes_of(after_lines@),
            bi <= n,
            ai <= m,
            bi == n || ai == m,
            views(result@) + edit_script(lb, la, kb, ka, bi as int, ai as int) == total,
        decreases n - bi,
    {
        let ghost old_result = result@;
        let line = DiffLine::Removed(before_lines[bi]);
        proof {
            assert(lb[bi as int] == before_lines@[bi as int].spec_bytes());
            lemma_script_removed_tail(lb, la, kb, ka, bi as int);
        }
        result.push(line);
        bi = bi + 1;
        proof {
            assert(views(result@) =~= views(old_result) + seq![line@]);
        }
    }
    while ai < m
        invariant
            n == before_lines@.len(),
            m == after_lines@.len(),
            lb == bytes_of(before_lines@),
            la == bytes_of(after_lines@),
            bi == n,
            ai <= m,
            views(result@) + edit_script(lb, la, kb, ka, bi as int, ai as int) == total,
        decreases m - ai,
    {
        let ghost old_result = result@;
        let line = DiffLine::Added(after_lines[ai]);
        proof {
            assert(la[ai as int] == after_lines@[ai as int].spec_bytes());
            lemma_script_added_tail(lb, la, kb, ka, ai as int);
        }
        result.push(line);
        ai = ai + 1;
        proof {
            assert(views(result@) =~= views(old_result) + seq![line@]);
        }
    }
    proof {
        assert(edit_script(lb, la, kb, ka, bi as int, ai as int) =~= Seq::<Edit>::empty());
        assert(views(result@) =~= total);
    }
    result
}

/// Whether `normalize` may return a string with the bytes `key` for a string
/// with the bytes `line`.
pub open spec fn may_return<'a, F: Fn(&'a str) -> &'a str>(
    normalize: F,
    line: Seq<u8>,
    key: Seq<u8>,
) -> bool {
    exists|l: &'a str, k: &'a str|
        #[trigger] normalize.ensures((l,), k) && l.spec_bytes() == line && k.spec_bytes() == key
}

/// Whether `keys` holds, for each of the `lines`, a key that `normalize` may
/// return for that line.
pub open spec fn keys_returned_by<'a, F: Fn(&'a str) -> &'a str>(
    normalize: F,
    lines: Seq<Seq<u8>>,
    keys: Seq<Seq<u8>>,
) -> bool {
    &&& keys.len() == lines.len()
    &&& forall|i: int| 0 <= i < lines.len() ==> #[trigger] may_return(normalize, lines[i], keys[i])
}

/// Diffs the lines of `before` against those of `after`, comparing lines by
/// the keys that `normalize` returns for them.
pub fn diff_normalized_lines_by<'a, F: Fn(&'a str) -> &'a str>(
    before: &'a str,
    after: &'a str,
    normalize: F,
) -> (r: Vec<DiffLine<'a>>)
    requires
        forall|l: &'a str| #[trigger] normalize.requires((l,)),
    ensures
        exists|kb: Seq<Seq<u8>>, ka: Seq<Seq<u8>>|
            {
                &&& keys_returned_by(normalize, text_lines(before.spec_bytes()), kb)
                &&& keys_returned_by(normalize, text_lines(after.spec_bytes()), ka)
                &&& #[trigger] edit_script(
                    text_lines(before.spec_bytes()),
                    text_lines(after.spec_bytes()),
                    kb,
                    ka,
                    0,
                    0,
                ) == views(r@)
            },
{
    let before_lines = split_lines(before);
    let after_lines = split_lines(after);
    let mut before_keys: Vec<&'a str> = Vec::new();
    let mut i: usize = 0;
    while i < before_lines.len()
        invariant
            i <= before_lines@.len(),
            before_keys@.len() == i,
            forall|l: &'a str| #[trigger] normalize.requires((l,)),
            forall|m: int|
                0 <= m < i ==> #[trigger] may_return(normalize, before_lines@[m].spec_bytes(), before_keys@[m].spec_bytes()),
        decreases before_lines@.len() - i,
    {
        let line = before_lines[i];
        let k = normalize(line);
        let ghost old_keys = before_keys@;
        before_keys.push(k);
        proof {
            assert forall|m: int|
                0 <= m < i + 1 implies #[trigger] may_return(normalize, before_lines@[m].spec_bytes(), before_keys@[m].spec_bytes()) by {
                if m < i {
                    assert(before_keys@[m] == old_keys[m]);
                    assert(may_return(normalize, before_lines@[m].spec_bytes(), old_keys[m].spec_bytes()));
                } else {
                    assert(normalize.ensures((line,), k));
                    assert(before_keys@[m] == k);
                    assert(before_lines@[m] == line);
                }
            }
        }
        i = i + 1;
    }
    proof {
        let lines_bytes = bytes_of(before_lines@);
        let keys_bytes = bytes_of(before_keys@);
        assert forall|m: int|
            0 <= m < lines_bytes.len() implies #[trigger] may_return(normalize, lines_bytes[m], keys_bytes[m]) by {
            assert(lines_bytes[m] == before_lines@[m].spec_bytes());
            assert(keys_bytes[m] == before_keys@[m].spec_bytes());
            assert(may_return(normalize, before_lines@[m].spec_bytes(), before_keys@[m].spec_bytes()));
        }
        assert(keys_returned_by(normalize, lines_bytes, keys_bytes));
    }
    let mut after_keys: Vec<&'a str> = Vec::new();
    let mut j: usize = 0;
    while j < after_lines.len()
        invariant
            j <= after_lines@.len(),
            after_keys@.len() == j,
            forall|l: &'a str| #[trigger] normalize.requires((l,)),
            forall|m: int|
                0 <= m < j ==> #[trigger] may_return(normalize, after_lines@[m].spec_bytes(), after_keys@[m].spec_bytes()),
        decreases after_lines@.len() - j,
    {
        let line = after_lines[j];
        let k = normalize(line);
        let ghost old_keys = after_keys@;
        after_keys.push(k);
        proof {
            assert forall|m: int|
                0 <= m < j + 1 implies #[trigger] may_return(normalize, after_lines@[m].spec_bytes(), after_keys@[m].spec_bytes()) by {
                if m < j {
                    assert(after_keys@[m] == old_keys[m]);
                    assert(may_return(normalize, after_lines@[m].spec_bytes(), old_keys[m].spec_bytes()));
                } else {
                    assert(normalize.ensures((line,), k));
                    assert(after_keys@[m] == k);
                    assert(after_lines@[m] == line);
                }
            }
        }
        j = j + 1;
    }
    proof {
        let lines_bytes = bytes_of(after_lines@);
        let keys_bytes = bytes_of(after_keys@);
        assert forall|m: int|
            0 <= m < lines_bytes.len() implies #[trigger] may_return(normalize, lines_bytes[m], keys_bytes[m]) by {
            assert(lines_bytes[m] == after_lines@[m].spec_bytes());
            assert(keys_bytes[m] == after_keys@[m].spec_bytes());
            assert(may_return(normalize, after_lines@[m].spec_bytes(), after_keys@[m].spec_bytes()));
        }
        assert(keys_returned_by(normalize, lines_bytes, keys_bytes));
    }
    let table = lcs_table(&before_keys, &after_keys);
    let r = trace_edits(&before_lines, &after_lines, &before_keys, &after_keys, &table);
    proof {
        let kb = bytes_of(before_keys@);
        let ka = bytes_of(after_keys@);
        assert(edit_script(
            text_lines(before.spec_bytes()),
            text_lines(after.spec_bytes()),
            kb,
            ka,
            0,
            0,
        ) == views(r@));
    }
    r
}

/// Keys that a function returns, when every key it may return is `key` of its
/// line, are `key` of the lines.
proof fn lemma_keys_are<'a, F: Fn(&'a str) -> &'a str>(
    normalize: F,
    key: spec_fn(Seq<u8>) -> Seq<u8>,
    lines: Seq<Seq<u8>>,
    keys: Seq<Seq<u8>>,
)
    requires
        keys_returned_by(normalize, lines, keys),
        forall|l: &'a str, k: &'a str|
            #[trigger] normalize.ensures((l,), k) ==> k.spec_bytes() == key(l.spec_bytes()),
    ensures
        keys == lines.map_values(key),
{
    assert forall|i: int| 0 <= i < lines.len() implies #[trigger] keys[i] == lines.map_values(key)[i] by {
        assert(may_return(normalize, lines[i], keys[i]));
        let (l, k) = choose|l: &'a str, k: &'a str|
            #[trigger] normalize.ensures((l,), k) && l.spec_bytes() == lines[i] && k.spec_bytes()
                == keys[i];
    }
    assert(keys =~= lines.map_values(key));
}

/// Diffs the lines of `before` against those of `after`.
pub fn diff_lines<'a>(before: &'a str, after: &'a str) -> (r: Vec<DiffLine<'a>>)
    ensures
        views(r@) == spec_line_diff(before.spec_bytes(), after.spec_bytes()),
{
    let same = |line: &'a str| -> (k: &'a str)
        ensures
            k == line,
        {
            line
        };
    let r = diff_normalized_lines_by(before, after, same);
    proof {
        let lb = text_lines(before.spec_bytes());
        let la = text_lines(after.spec_bytes());
        let (kb, ka) = choose|kb: Seq<Seq<u8>>, ka: Seq<Seq<u8>>|
            {
                &&& keys_returned_by(same, lb, kb)
                &&& keys_returned_by(same, la, ka)
                &&& #[trigger] edit_script(lb, la, kb, ka, 0, 0) == views(r@)
            };
        lemma_keys_are(same, |l: Seq<u8>| l, lb, kb);
        lemma_keys_are(same, |l: Seq<u8>| l, la, ka);
    }
    r
}

/// Diffs two unified diffs line by line, treating lines with equal
/// normalised keys (hunk headers, index lines with the same mode) as equal.
pub fn diff_normalized_lines<'a>(before: &'a str, after: &'a str) -> (r: Vec<DiffLine<'a>>)
    ensures
        views(r@) == spec_normalized_diff(before.spec_bytes(), after.spec_bytes()),
{
    let key_of = |line: &'a str| -> (k: &'a str)
        ensures
            k.spec_bytes() == normalize_key(line.spec_bytes()),
        {
            normalize_git_diff_line(line)
        };
    let r = diff_normalized_lines_by(before, after, key_of);
    proof {
        let lb = text_lines(before.spec_bytes());
        let la = text_lines(after.spec_bytes());
        let (kb, ka) = choose|kb: Seq<Seq<u8>>, ka: Seq<Seq<u8>>|
            {
                &&& keys_returned_by(key_of, lb, kb)
                &&& keys_returned_by(key_of, la, ka)
                &&& #[trigger] edit_script(lb, la, kb, ka, 0, 0) == views(r@)
            };
        lemma_keys_are(key_of, |l: Seq<u8>| normalize_key(l), lb, kb);
        lemma_keys_are(key_of, |l: Seq<u8>| normalize_key(l), la, ka);
    }
    r
}

} // verus!
