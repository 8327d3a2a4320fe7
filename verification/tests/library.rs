use git_range_diff_better::cli::{trim_end, usage, AppError, Options};
use git_range_diff_better::diff::{diff_lines, diff_normalized_lines, diff_normalized_lines_by, DiffLine};
use git_range_diff_better::normalize::{normalize_git_diff_line, normalized_git_index_line};
use git_range_diff_better::render::{
    write_colored_line, write_compact_colored_diff_refs, write_equal_run_compact,
};
use git_range_diff_better::report::range_diff_report;
use git_range_diff_better::sections::{
    changed_file_sections, is_file_section_start, push_section_if_changed,
};
use git_range_diff_better::text::split_lines;

const RED: &str = "\x1b[31m";
const GREEN: &str = "\x1b[32m";
const RESET: &str = "\x1b[0m";

fn old_side<'a>(diff: &[DiffLine<'a>]) -> Vec<&'a str> {
    diff.iter()
        .filter_map(|d| match d {
            DiffLine::Equal(l) | DiffLine::Removed(l) => Some(*l),
            DiffLine::Added(_) => None,
        })
        .collect()
}

fn new_side<'a>(diff: &[DiffLine<'a>]) -> Vec<&'a str> {
    diff.iter()
        .filter_map(|d| match d {
            DiffLine::Equal(l) | DiffLine::Added(l) => Some(*l),
            DiffLine::Removed(_) => None,
        })
        .collect()
}

#[test]
fn splits_lines_like_str_lines() {
    assert_eq!(split_lines(""), Vec::<&str>::new());
    assert_eq!(split_lines("a"), vec!["a"]);
    assert_eq!(split_lines("a\n"), vec!["a"]);
    assert_eq!(split_lines("a\n\nb"), vec!["a", "", "b"]);
    assert_eq!(split_lines("\n"), vec![""]);
    assert_eq!(split_lines("a\r\nb\r"), vec!["a", "b\r"]);
    assert_eq!(split_lines("é\nü\r\n"), vec!["é", "ü"]);
    let text = "x\r\ny\n\nz\r";
    assert_eq!(split_lines(text), text.lines().collect::<Vec<_>>());
}

#[test]
fn diff_sides_give_back_both_texts() {
    let before = "a\nb\nc\nd\ne\n";
    let after = "b\nx\nd\ne\nf\n";
    let diff = diff_lines(before, after);
    assert_eq!(old_side(&diff), before.lines().collect::<Vec<_>>());
    assert_eq!(new_side(&diff), after.lines().collect::<Vec<_>>());
    let kept = diff.iter().filter(|d| matches!(d, DiffLine::Equal(_))).count();
    assert_eq!(kept, 3);
}

#[test]
fn diff_of_same_text_keeps_every_line() {
    let text = "one\ntwo\n@@ -1 +1 @@\nindex 1..2 100644\n";
    assert_eq!(
        diff_lines(text, text),
        vec![
            DiffLine::Equal("one"),
            DiffLine::Equal("two"),
            DiffLine::Equal("@@ -1 +1 @@"),
            DiffLine::Equal("index 1..2 100644"),
        ]
    );
    assert_eq!(diff_normalized_lines(text, text), diff_lines(text, text));
}

#[test]
fn diff_of_empty_texts() {
    assert_eq!(diff_lines("", ""), Vec::<DiffLine>::new());
    assert_eq!(diff_lines("a\n", ""), vec![DiffLine::Removed("a")]);
    assert_eq!(diff_lines("", "a\nb"), vec![DiffLine::Added("a"), DiffLine::Added("b")]);
}

#[test]
fn prefers_removing_before_adding_on_ties() {
    assert_eq!(
        diff_lines("a\nb\n", "b\na\n"),
        vec![DiffLine::Removed("a"), DiffLine::Equal("b"), DiffLine::Added("a")]
    );
    assert_eq!(
        diff_lines("x\n", "y\n"),
        vec![DiffLine::Removed("x"), DiffLine::Added("y")]
    );
}

#[test]
fn normalizes_hunk_headers_and_index_lines() {
    assert_eq!(normalize_git_diff_line("@@ -1,2 +3,4 @@ fn main"), "@@");
    assert_eq!(normalize_git_diff_line("@@"), "@@");
    assert_eq!(normalize_git_diff_line("@ not a hunk"), "@ not a hunk");
    assert_eq!(normalize_git_diff_line("index abc..def 100644"), "100644");
    assert_eq!(normalize_git_diff_line("index abc..def"), "index");
    assert_eq!(normalize_git_diff_line("index abcdef 100644"), "index abcdef 100644");
    assert_eq!(normalize_git_diff_line(" same"), " same");
}

#[test]
fn reads_index_lines_word_by_word() {
    assert_eq!(normalized_git_index_line("index a..b 100755"), Some("100755"));
    assert_eq!(normalized_git_index_line("index   a..b \t 100755  extra"), Some("100755"));
    assert_eq!(normalized_git_index_line("index a..b"), Some("index"));
    assert_eq!(normalized_git_index_line("index a..b   "), Some("index"));
    assert_eq!(normalized_git_index_line("index \u{3000}a..b\u{00a0}mode"), Some("mode"));
    assert_eq!(normalized_git_index_line("index \u{2009}a..b\u{2009}"), Some("index"));
    assert_eq!(normalized_git_index_line("index "), None);
    assert_eq!(normalized_git_index_line("index a.b 100644"), None);
    assert_eq!(normalized_git_index_line("indexa..b 100644"), None);
    assert_eq!(normalized_git_index_line("index é..ü mödé"), Some("mödé"));
    for line in ["index x..y\u{85}z", "index x..y\u{1680}z", "index x..y\u{205f}z"] {
        let expected = line
            .strip_prefix("index ")
            .unwrap()
            .split_whitespace()
            .nth(1);
        assert_eq!(normalized_git_index_line(line), expected);
    }
}

#[test]
fn recognizes_file_section_starts() {
    assert!(is_file_section_start(&DiffLine::Equal("diff --git a/x b/x")));
    assert!(is_file_section_start(&DiffLine::Added("diff --git ")));
    assert!(!is_file_section_start(&DiffLine::Removed("diff --gi")));
    assert!(!is_file_section_start(&DiffLine::Equal(" diff --git a/x b/x")));
}

#[test]
fn pushes_only_changed_sections() {
    let diff = vec![
        DiffLine::Equal("a"),
        DiffLine::Equal("b"),
        DiffLine::Added("c"),
    ];
    let mut out = Vec::new();
    push_section_if_changed(&diff, 0, 2, &mut out);
    assert!(out.is_empty());
    push_section_if_changed(&diff, 1, 3, &mut out);
    assert_eq!(out, vec![&DiffLine::Equal("b"), &DiffLine::Added("c")]);
}

#[test]
fn keeps_every_change_and_drops_unchanged_sections() {
    let diff = vec![
        DiffLine::Added("preamble"),
        DiffLine::Equal("diff --git a/a b/a"),
        DiffLine::Equal("x"),
        DiffLine::Removed("diff --git a/b b/b"),
        DiffLine::Equal("y"),
        DiffLine::Equal("diff --git a/c b/c"),
        DiffLine::Equal("z"),
    ];
    let changed = changed_file_sections(&diff);
    assert_eq!(
        changed,
        vec![
            &DiffLine::Added("preamble"),
            &DiffLine::Removed("diff --git a/b b/b"),
            &DiffLine::Equal("y"),
        ]
    );
    let unchanged = vec![DiffLine::Equal("diff --git a/a b/a"), DiffLine::Equal("x")];
    assert!(changed_file_sections(&unchanged).is_empty());
    assert!(changed_file_sections(&[]).is_empty());
}

#[test]
fn renders_each_kind_of_line() {
    let mut out = Vec::new();
    write_colored_line(&DiffLine::Equal("k"), &mut out);
    write_colored_line(&DiffLine::Removed("r"), &mut out);
    write_colored_line(&DiffLine::Added("a"), &mut out);
    assert_eq!(
        String::from_utf8(out).unwrap(),
        format!("  k\n{RED}- r{RESET}\n{GREEN}+ a{RESET}\n")
    );
}

#[test]
fn shows_runs_of_up_to_seven_kept_lines_in_full() {
    let lines: Vec<DiffLine> = (0..7).map(|_| DiffLine::Equal("k")).collect();
    let refs: Vec<&DiffLine> = lines.iter().collect();
    let mut out = Vec::new();
    write_equal_run_compact(&refs, &mut out);
    assert_eq!(String::from_utf8(out).unwrap(), "  k\n".repeat(7));

    let names = ["1", "2", "3", "4", "5", "6", "7", "8"];
    let lines: Vec<DiffLine> = names.iter().map(|n| DiffLine::Equal(n)).collect();
    let refs: Vec<&DiffLine> = lines.iter().collect();
    let mut out = Vec::new();
    write_equal_run_compact(&refs, &mut out);
    assert_eq!(String::from_utf8(out).unwrap(), "  1\n  2\n  3\n  6\n  7\n  8\n");
}

#[test]
fn compacts_every_long_run_between_changes() {
    let mut lines = vec![DiffLine::Added("+")];
    for name in ["a", "b", "c", "d", "e", "f", "g", "h"] {
        lines.push(DiffLine::Equal(name));
    }
    lines.push(DiffLine::Removed("-"));
    let refs: Vec<&DiffLine> = lines.iter().collect();
    let mut out = Vec::new();
    write_compact_colored_diff_refs(&refs, &mut out);
    assert_eq!(
        String::from_utf8(out).unwrap(),
        format!("{GREEN}+ +{RESET}\n  a\n  b\n  c\n  f\n  g\n  h\n{RED}- -{RESET}\n")
    );
}

#[test]
fn reports_only_changed_files() {
    let before = "diff --git a/a b/a\nindex 1..2 100644\n@@ -1 +1 @@\n-x\n+y\ndiff --git a/b b/b\n@@ -1 +1 @@\n-p\n+q\n";
    let after = "diff --git a/a b/a\nindex 3..4 100644\n@@ -5 +5 @@\n-x\n+y\ndiff --git a/b b/b\n@@ -1 +1 @@\n-p\n+r\n";
    let report = String::from_utf8(range_diff_report(before, after)).unwrap();
    assert_eq!(
        report,
        format!("  diff --git a/b b/b\n  @@ -1 +1 @@\n  -p\n{RED}- +q{RESET}\n{GREEN}+ +r{RESET}\n")
    );
    assert!(range_diff_report(before, before).is_empty());
}

#[test]
fn prints_usage_with_program_name() {
    assert_eq!(
        usage("prog"),
        "Usage: prog <before-push-range> <after-push-range>\n\nExample:\n  prog abc123..def456 fed789..012345\n\nEach range is passed directly to `git diff --no-color --no-ext-diff <range>`."
    );
}

fn args(items: &[Option<&str>]) -> Vec<Option<String>> {
    items.iter().map(|a| a.map(|s| s.to_string())).collect()
}

#[test]
fn parses_two_ranges() {
    match Options::parse(args(&[Some("prog"), Some("a..b"), Some("c..d")])) {
        Ok(options) => {
            assert_eq!(options.before_range, "a..b");
            assert_eq!(options.after_range, "c..d");
        }
        Err(_) => panic!("expected two ranges"),
    }
}

#[test]
fn rejects_wrong_argument_counts() {
    for items in [vec![Some("prog")], vec![Some("prog"), Some("a")], vec![Some("prog"), Some("a"), Some("b"), Some("c")]] {
        match Options::parse(args(&items)) {
            Err(AppError::Usage(message)) => assert_eq!(message, usage("prog")),
            _ => panic!("expected a usage error"),
        }
    }
    match Options::parse(Vec::new()) {
        Err(AppError::Usage(message)) => assert_eq!(message, usage("git-range-diff-better")),
        _ => panic!("expected a usage error"),
    }
}

#[test]
fn answers_help_requests() {
    for flag in ["-h", "--help"] {
        match Options::parse(args(&[Some("prog"), Some("a"), Some(flag), Some("b"), Some("c")])) {
            Err(AppError::Help(message)) => assert_eq!(message, usage("prog")),
            _ => panic!("expected help"),
        }
    }
}

#[test]
fn rejects_arguments_that_are_not_utf8() {
    match Options::parse(args(&[None, Some("-h"), None])) {
        Err(AppError::Usage(message)) => assert_eq!(
            message,
            format!("arguments must be valid UTF-8\n\n{}", usage("git-range-diff-better"))
        ),
        _ => panic!("expected a usage error"),
    }
}

#[test]
fn trims_trailing_whitespace() {
    assert_eq!(trim_end("error \n\t"), "error");
    assert_eq!(trim_end("x\u{3000}\u{a0}\u{2028}"), "x");
    assert_eq!(trim_end("  "), "");
    assert_eq!(trim_end(""), "");
    assert_eq!(trim_end("é"), "é");
    assert_eq!(trim_end(" a b "), " a b");
}

#[test]
fn formats_every_error() {
    let failed = AppError::GitDiffFailed {
        range: "a..b".to_string(),
        status: "exit status: 128".to_string(),
        stderr: "fatal: bad revision\n\n".to_string(),
    };
    assert_eq!(
        failed.message(),
        "git diff failed for range `a..b` with status exit status: 128\nfatal: bad revision"
    );
    assert_eq!(failed.exit_code(), 1);
    let io = AppError::GitDiffIo { range: "x".to_string(), source: "not found".to_string() };
    assert_eq!(io.message(), "failed to run git diff for range `x`: not found");
    assert_eq!(io.exit_code(), 1);
    let output = AppError::Output("broken pipe".to_string());
    assert_eq!(output.message(), "failed to write output: broken pipe");
    assert_eq!(output.exit_code(), 1);
    assert_eq!(AppError::Help("h".to_string()).message(), "h");
    assert_eq!(AppError::Help("h".to_string()).exit_code(), 0);
    assert_eq!(AppError::Usage("u".to_string()).message(), "u");
    assert_eq!(AppError::Usage("u".to_string()).exit_code(), 2);
}

fn copy_line<'a>(line: &DiffLine<'a>) -> DiffLine<'a> {
    match line {
        DiffLine::Equal(l) => DiffLine::Equal(l),
        DiffLine::Removed(l) => DiffLine::Removed(l),
        DiffLine::Added(l) => DiffLine::Added(l),
    }
}

#[test]
fn filtering_changed_sections_twice_removes_nothing() {
    let diff = vec![
        DiffLine::Equal("intro"),
        DiffLine::Added("+"),
        DiffLine::Equal("diff --git a/a b/a"),
        DiffLine::Equal("x"),
        DiffLine::Equal("diff --git a/b b/b"),
        DiffLine::Removed("y"),
        DiffLine::Equal("z"),
    ];
    let once: Vec<DiffLine> = changed_file_sections(&diff).into_iter().map(copy_line).collect();
    let twice: Vec<DiffLine> = changed_file_sections(&once).into_iter().map(copy_line).collect();
    assert_eq!(twice, once);
    assert_eq!(
        once,
        vec![
            DiffLine::Equal("intro"),
            DiffLine::Added("+"),
            DiffLine::Equal("diff --git a/b b/b"),
            DiffLine::Removed("y"),
            DiffLine::Equal("z"),
        ]
    );
}

#[test]
fn diffs_by_any_key_function() {
    let upper = diff_normalized_lines_by("A\nb\n", "a\nB\n", |l: &str| if l == "A" || l == "a" { "a" } else { l });
    assert_eq!(upper, vec![DiffLine::Equal("A"), DiffLine::Removed("b"), DiffLine::Added("B")]);
}
