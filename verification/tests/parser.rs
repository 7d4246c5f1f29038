use gz::git::{Git, LineStats, RecordKind, record_kind};

fn paths(entries: &[gz::git::Entry]) -> Vec<(String, bool)> {
    entries.iter().map(|e| (e.path.clone(), e.staged)).collect()
}

#[test]
fn status_scenario_worktree_and_untracked() {
    let git = Git::open("/repo\n");
    let stream = "1 .M N... 100644 100644 100644 aaaa1111 aaaa1111 file.go\n? new.txt\n";
    let entries = git.status(stream);
    assert_eq!(
        paths(&entries),
        vec![("file.go".to_string(), false), ("new.txt".to_string(), false)]
    );
}

#[test]
fn status_staged_suppresses_unstaged_duplicate() {
    let git = Git::open("/repo\n");
    // index and worktree both changed: one staged row only
    let stream = "1 MM N... 100644 100644 100644 aaaa1111 bbbb2222 both.rs\n";
    let entries = git.status(stream);
    assert_eq!(paths(&entries), vec![("both.rs".to_string(), true)]);
}

#[test]
fn status_orders_staged_then_unstaged_each_sorted() {
    let git = Git::open("/repo\n");
    let stream = "\
1 M. N... 100644 100644 100644 aaaa1111 bbbb2222 zeta.rs\n\
1 .M N... 100644 100644 100644 aaaa1111 aaaa1111 beta.rs\n\
1 A. N... 000000 100644 100644 00000000 cccc3333 alpha.rs\n\
? aardvark.txt\n";
    let entries = git.status(stream);
    assert_eq!(
        paths(&entries),
        vec![
            ("alpha.rs".to_string(), true),
            ("zeta.rs".to_string(), true),
            ("aardvark.txt".to_string(), false),
            ("beta.rs".to_string(), false),
        ]
    );
}

#[test]
fn status_rename_keeps_new_path() {
    let git = Git::open("/repo\n");
    let stream = "2 R. N... 100644 100644 100644 aaaa1111 aaaa1111 R100 old.rs new.rs\n";
    let entries = git.status(stream);
    assert_eq!(paths(&entries), vec![("new.rs".to_string(), true)]);
}

#[test]
fn status_unmerged_counts_by_its_columns() {
    let git = Git::open("/repo\n");
    let stream = "u UU N... 100644 100644 100644 100644 aaaa1111 bbbb2222 cccc3333 conflict.rs\n";
    let entries = git.status(stream);
    assert_eq!(paths(&entries), vec![("conflict.rs".to_string(), true)]);
}

#[test]
fn status_skips_ignored_unknown_and_blank_lines() {
    let git = Git::open("/repo\n");
    let stream = "! ignored.log\n\n# branch.head main\nnonsense\n";
    let entries = git.status(stream);
    assert!(entries.is_empty());
}

#[test]
fn status_empty_stream_yields_no_entries() {
    let git = Git::open("/repo\n");
    assert!(git.status("").is_empty());
}

#[test]
fn status_untracked_pathless_record_is_dropped() {
    let git = Git::open("/repo\n");
    let entries = git.status("?\n? \n");
    assert!(entries.is_empty());
}

#[test]
fn status_sorts_by_code_point() {
    let git = Git::open("/repo\n");
    let stream = "? \u{e9}.txt\n? z.txt\n? A.txt\n";
    let entries = git.status(stream);
    assert_eq!(
        paths(&entries),
        vec![
            ("A.txt".to_string(), false),
            ("z.txt".to_string(), false),
            ("\u{e9}.txt".to_string(), false),
        ]
    );
}

#[test]
fn status_short_changed_line_takes_last_field_as_path() {
    let git = Git::open("/repo\n");
    // no third field: the status code itself is the last field, so it
    // doubles as the path, as the wire format never does in practice
    let entries = git.status("1 M.\n");
    assert_eq!(paths(&entries), vec![("M.".to_string(), true)]);
}

#[test]
fn status_line_without_fields_is_dropped() {
    let git = Git::open("/repo\n");
    assert!(git.status("1\n2\nu\n").is_empty());
}

#[test]
fn numstat_garbage_count_falls_back_to_zero() {
    let stats = LineStats::parse("x3\t2\tweird.rs\n");
    assert_eq!(stats.get(&"weird.rs".to_string()), (0, 2));
}

#[test]
fn record_kind_dispatch() {
    assert_eq!(record_kind("1 .M rest"), RecordKind::Changed);
    assert_eq!(record_kind("2 R. rest"), RecordKind::Renamed);
    assert_eq!(record_kind("u UU rest"), RecordKind::Unmerged);
    assert_eq!(record_kind("? x"), RecordKind::Untracked);
    assert_eq!(record_kind("! x"), RecordKind::Ignored);
    assert_eq!(record_kind(""), RecordKind::Blank);
    assert_eq!(record_kind("# branch"), RecordKind::Unknown);
}

#[test]
fn numstat_parses_counts_and_binary_marker() {
    let stats = LineStats::parse("3\t0\tfoo.txt\n-\t-\tbin.dat\n");
    assert_eq!(stats.get(&"foo.txt".to_string()), (3, 0));
    assert_eq!(stats.get(&"bin.dat".to_string()), (0, 0));
}

#[test]
fn numstat_drops_line_with_empty_path() {
    let stats = LineStats::parse("3\t1\t\n2\t2\tkept.rs\n");
    assert_eq!(stats.get(&"".to_string()), (0, 0));
    assert_eq!(stats.get(&"kept.rs".to_string()), (2, 2));
}

#[test]
fn numstat_unknown_path_reports_zero() {
    let stats = LineStats::parse("1\t2\ta.rs\n");
    assert_eq!(stats.get(&"other.rs".to_string()), (0, 0));
}

#[test]
fn numstat_last_occurrence_wins() {
    let stats = LineStats::parse("1\t1\tdup.rs\n5\t6\tdup.rs\n");
    assert_eq!(stats.get(&"dup.rs".to_string()), (5, 6));
}

#[test]
fn numstat_huge_count_falls_back_to_zero() {
    let stats = LineStats::parse("99999999999999999999999\t4\tbig.rs\n");
    assert_eq!(stats.get(&"big.rs".to_string()), (0, 4));
}

#[test]
fn branch_label_plain() {
    let git = Git::open("/repo\n");
    assert_eq!(git.branch("feature\n", "abc1234\n"), "feature");
}

#[test]
fn branch_label_detached() {
    let git = Git::open("/repo\n");
    assert_eq!(git.branch("HEAD\n", "abc1234\n"), "DETACHED@abc1234");
}

#[test]
fn workdir_is_trimmed_toplevel() {
    let git = Git::open("/some/repo\n");
    assert_eq!(git.workdir().as_str(), "/some/repo");
}

#[test]
fn stage_paths_builds_argv() {
    let git = Git::open("/repo\n");
    let args = git.stage_paths(&vec!["a.rs".to_string(), "b.rs".to_string()]);
    assert_eq!(args, Some(vec![
        "add".to_string(),
        "--".to_string(),
        "a.rs".to_string(),
        "b.rs".to_string(),
    ]));
}

#[test]
fn unstage_paths_builds_argv() {
    let git = Git::open("/repo\n");
    let args = git.unstage_paths(&vec!["a.rs".to_string()]);
    assert_eq!(args, Some(vec![
        "restore".to_string(),
        "--staged".to_string(),
        "--".to_string(),
        "a.rs".to_string(),
    ]));
}

#[test]
fn stage_paths_empty_set_is_noop() {
    let git = Git::open("/repo\n");
    assert_eq!(git.stage_paths(&Vec::new()), None);
    assert_eq!(git.unstage_paths(&Vec::new()), None);
}
