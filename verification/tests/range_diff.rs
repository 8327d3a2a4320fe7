use git_range_diff_better::diff::{diff_lines, diff_normalized_lines, DiffLine};
use git_range_diff_better::render::{
    write_colored_diff, write_colored_diff_refs, write_compact_colored_diff_refs,
};
use git_range_diff_better::sections::changed_file_sections;

const RED: &str = "\x1b[31m";
const GREEN: &str = "\x1b[32m";
const RESET: &str = "\x1b[0m";

#[test]
fn diffs_lines_from_two_texts() {
    let before = "same\nold\nkeep\n";
    let after = "same\nnew\nkeep\n";

    assert_eq!(
        diff_lines(before, after),
        vec![
            DiffLine::Equal("same"),
            DiffLine::Removed("old"),
            DiffLine::Added("new"),
            DiffLine::Equal("keep"),
        ]
    );
}

#[test]
fn colorizes_added_and_removed_lines() {
    let diff = vec![
        DiffLine::Equal("same"),
        DiffLine::Removed("old"),
        DiffLine::Added("new"),
    ];
    let mut output = Vec::new();

    write_colored_diff(&diff, &mut output);

    assert_eq!(
        String::from_utf8(output).unwrap(),
        format!("  same\n{RED}- old{RESET}\n{GREEN}+ new{RESET}\n")
    );
}

#[test]
fn ignores_hunk_header_line_number_changes() {
    let before = "diff --git a/file b/file\n@@ -1,3 +1,3 @@\n same\n-old\n+new\n";
    let after = "diff --git a/file b/file\n@@ -10,3 +10,3 @@\n same\n-old\n+new\n";

    assert_eq!(
        diff_normalized_lines(before, after),
        vec![
            DiffLine::Equal("diff --git a/file b/file"),
            DiffLine::Equal("@@ -1,3 +1,3 @@"),
            DiffLine::Equal(" same"),
            DiffLine::Equal("-old"),
            DiffLine::Equal("+new"),
        ]
    );
}

#[test]
fn ignores_git_index_hash_updates() {
    let before =
        "diff --git a/file b/file\nindex 4fd408798..0b1103716 100644\n--- a/file\n+++ b/file\n";
    let after =
        "diff --git a/file b/file\nindex 4fd408798..95726d6dc 100644\n--- a/file\n+++ b/file\n";

    assert_eq!(
        diff_normalized_lines(before, after),
        vec![
            DiffLine::Equal("diff --git a/file b/file"),
            DiffLine::Equal("index 4fd408798..0b1103716 100644"),
            DiffLine::Equal("--- a/file"),
            DiffLine::Equal("+++ b/file"),
        ]
    );
}

#[test]
fn preserves_git_index_mode_changes() {
    let before = "diff --git a/file b/file\nindex 4fd408798..0b1103716 100644\n";
    let after = "diff --git a/file b/file\nindex 4fd408798..95726d6dc 100755\n";

    assert_eq!(
        diff_normalized_lines(before, after),
        vec![
            DiffLine::Equal("diff --git a/file b/file"),
            DiffLine::Removed("index 4fd408798..0b1103716 100644"),
            DiffLine::Added("index 4fd408798..95726d6dc 100755"),
        ]
    );
}

#[test]
fn omits_file_sections_without_diff_of_diff_changes() {
    let diff = vec![
        DiffLine::Equal("diff --git a/unchanged b/unchanged"),
        DiffLine::Equal("index 1111111..2222222 100644"),
        DiffLine::Equal("--- a/unchanged"),
        DiffLine::Equal("+++ b/unchanged"),
        DiffLine::Equal("@@ -1 +1 @@"),
        DiffLine::Equal("-old"),
        DiffLine::Equal("+new"),
        DiffLine::Equal("diff --git a/changed b/changed"),
        DiffLine::Equal("index 3333333..4444444 100644"),
        DiffLine::Removed("-old"),
        DiffLine::Added("-new"),
    ];
    let changed = changed_file_sections(&diff);
    let mut output = Vec::new();

    write_colored_diff_refs(&changed, &mut output);

    assert_eq!(
        String::from_utf8(output).unwrap(),
        format!(
            "  diff --git a/changed b/changed\n  index 3333333..4444444 100644\n{RED}- -old{RESET}\n{GREEN}+ -new{RESET}\n"
        )
    );
}

#[test]
fn compacts_long_unchanged_runs_in_output() {
    let diff = vec![
        DiffLine::Equal("diff --git a/changed b/changed"),
        DiffLine::Equal("line 1"),
        DiffLine::Equal("line 2"),
        DiffLine::Equal("line 3"),
        DiffLine::Equal("line 4"),
        DiffLine::Equal("line 5"),
        DiffLine::Equal("line 6"),
        DiffLine::Equal("line 7"),
        DiffLine::Equal("line 8"),
        DiffLine::Removed("-old"),
        DiffLine::Added("-new"),
    ];
    let changed = changed_file_sections(&diff);
    let mut output = Vec::new();

    write_compact_colored_diff_refs(&changed, &mut output);

    assert_eq!(
        String::from_utf8(output).unwrap(),
        format!(
            "  diff --git a/changed b/changed\n  line 1\n  line 2\n  line 6\n  line 7\n  line 8\n{RED}- -old{RESET}\n{GREEN}+ -new{RESET}\n"
        )
    );
}
