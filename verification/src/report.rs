//! The whole comparison of two diffs, from their texts to the bytes to print.

use vstd::prelude::*;
use vstd::string::StringSliceAdditionalSpecFns;

use crate::diff::{diff_normalized_lines, spec_normalized_diff, views, Edit};
use crate::diff_laws::law_same_text_all_kept;
use crate::render::{render_compact, write_compact_colored_diff_refs};
use crate::sections::{
    changed_file_sections, changed_sections, has_change, law_unchanged_diff_has_no_sections,
};
use crate::text::text_lines;

verus! {

/// What the program prints for two diffs: their normalised line diff, only
/// the file sections that changed, with long unchanged runs shortened.
pub open spec fn spec_report(before: Seq<u8>, after: Seq<u8>) -> Seq<u8> {
    render_compact(changed_sections(spec_normalized_diff(before, after)))
}

/// Compares the diff `before` with the diff `after` and renders the changed
/// file sections of the result.
pub fn range_diff_report(before: &str, after: &str) -> (r: Vec<u8>)
    ensures
        r@ == spec_report(before.spec_bytes(), after.spec_bytes()),
{
    let diff = diff_normalized_lines(before, after);
    let changed = changed_file_sections(diff.as_slice());
    let mut output: Vec<u8> = Vec::new();
    write_compact_colored_diff_refs(changed.as_slice(), &mut output);
    proof {
        assert(views(diff@) == spec_normalized_diff(before.spec_bytes(), after.spec_bytes()));
        assert(output@ =~= render_compact(changed_sections(views(diff@))));
    }
    output
}


/// Comparing a diff with itself reports nothing.
pub proof fn law_same_diff_reports_nothing(text: Seq<u8>)
    ensures
        spec_report(text, text) == Seq::<u8>::empty(),
{
    law_same_text_all_kept(text);
    let d = spec_normalized_diff(text, text);
    assert(d == text_lines(text).map_values(|l: Seq<u8>| Edit::Equal(l)));
    assert(!has_change(d));
    law_unchanged_diff_has_no_sections(d);
    assert(render_compact(Seq::<Edit>::empty()) == Seq::<u8>::empty());
}

} // verus!
