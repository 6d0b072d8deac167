use std::path::Path;
use wtm_gui::paths::paths_equal;
use wtm_gui::sidebar::sidebar_sorted;
use wtm_gui::hosts::{carry_sizes, removal_message, confirm_summary, host_summary, removal_headline, ConfirmEntry, tally_group, with_sizes, HostRemoveReport, RemovalCandidate, RemovalOutcome, WorktreeSize};
use wtm_gui::selection::{toggled_selection, Selection};

#[test]
fn toggled_selection_adds_an_unselected_row_without_disturbing_others() {
    let set = toggled_selection(&[1, 2], 3);
    assert_eq!(set, vec![1, 2, 3]);
    let set = toggled_selection(&[], 5);
    assert_eq!(set, vec![5]);
}

#[test]
fn toggled_selection_removes_an_already_selected_row_without_disturbing_others() {
    let set = toggled_selection(&[1, 2, 3], 2);
    assert_eq!(set, vec![1, 3]);
    let set = toggled_selection(&[0, 4, 7], 4);
    assert_eq!(set, vec![0, 7]);
}

#[test]
fn toggling_twice_gives_back_the_rows() {
    let once = toggled_selection(&[4, 1], 2);
    assert_eq!(once, vec![1, 2, 4]);
    assert_eq!(toggled_selection(&once, 2), vec![1, 4]);
}

#[test]
fn cmd_clicks_build_and_collapse_a_multi_selection() {
    let mut sel = Selection::new();
    sel.select(2, 5);
    assert_eq!(sel.selected_indices(), vec![2]);
    sel.toggle_row_selection(4, 5);
    assert_eq!(sel.selected(), Some(4));
    assert_eq!(sel.multi_selected(), vec![2, 4]);
    assert!(sel.is_row_selected(2) && sel.is_row_selected(4) && !sel.is_row_selected(3));
    sel.toggle_row_selection(2, 5);
    assert_eq!(sel.selected(), Some(4));
    assert!(sel.multi_selected().is_empty());
    sel.toggle_row_selection(9, 5);
    assert_eq!(sel.selected(), Some(4));
}

#[test]
fn shift_click_selects_the_visible_range_and_keeps_the_anchor() {
    let mut sel = Selection::new();
    sel.select(1, 6);
    let visible = vec![0, 1, 3, 4, 5];
    sel.extend_selection_range(4, &visible, 6);
    assert_eq!(sel.selected(), Some(1));
    assert_eq!(sel.multi_selected(), vec![1, 3, 4]);
    sel.extend_selection_range(2, &visible, 6);
    assert_eq!(sel.selected(), Some(2));
    assert!(sel.multi_selected().is_empty());
}

#[test]
fn arrows_move_among_visible_rows() {
    let mut sel = Selection::new();
    let visible = vec![1, 3, 5];
    assert_eq!(sel.select_next(&visible, 6), Some(0));
    assert_eq!(sel.selected(), Some(1));
    assert_eq!(sel.select_next(&visible, 6), Some(1));
    assert_eq!(sel.select_next(&visible, 6), Some(2));
    assert_eq!(sel.select_next(&visible, 6), Some(2));
    assert_eq!(sel.selected(), Some(5));
    assert_eq!(sel.select_prev(&visible, 6), Some(1));
    assert_eq!(sel.selected(), Some(3));
    assert_eq!(sel.select_prev(&Vec::new(), 6), None);
    assert_eq!(sel.selected(), Some(3));
}

#[test]
fn filtering_drops_hidden_rows_and_collapses() {
    let mut sel = Selection::new();
    sel.select(0, 6);
    sel.toggle_row_selection(2, 6);
    sel.toggle_row_selection(4, 6);
    assert_eq!(sel.multi_selected(), vec![0, 2, 4]);
    assert_eq!(sel.clamp_to_visible(&vec![2, 3, 4]), Some(2));
    assert_eq!(sel.multi_selected(), vec![2, 4]);
    assert_eq!(sel.clamp_to_visible(&vec![3, 4]), Some(1));
    assert_eq!(sel.selected(), Some(4));
    assert!(sel.multi_selected().is_empty());
    assert_eq!(sel.clamp_to_visible(&vec![0, 1]), Some(0));
    assert_eq!(sel.selected(), Some(0));
    assert_eq!(sel.clamp_to_visible(&Vec::new()), None);
    assert_eq!(sel.selected(), None);
}

#[test]
fn selection_survives_a_reorder_by_path() {
    let old_paths = vec!["/a".to_string(), "/b".to_string(), "/c".to_string()];
    let mut sel = Selection::new();
    sel.select(1, 3);
    sel.toggle_row_selection(2, 3);
    let (anchor, multi) = sel.selection_paths(&old_paths);
    assert_eq!(anchor.as_deref(), Some("/c"));
    assert_eq!(multi, vec!["/b".to_string(), "/c".to_string()]);
    let new_paths = vec!["/c".to_string(), "/a".to_string(), "/b".to_string()];
    sel.restore_selection_by_path(&new_paths, anchor.as_deref(), &multi);
    assert_eq!(sel.selected(), Some(0));
    assert_eq!(sel.multi_selected(), vec![0, 2]);
}

#[test]
fn reload_keeps_the_worktree_or_clamps_when_it_is_gone() {
    let old_paths = vec!["/a".to_string(), "/b".to_string(), "/c".to_string()];
    let mut sel = Selection::new();
    sel.select(2, 3);
    let new_paths = vec!["/c".to_string(), "/a".to_string()];
    let names = vec!["c".to_string(), "a".to_string()];
    sel.reload_rows(&old_paths, &new_paths, &names, None);
    assert_eq!(sel.selected(), Some(0));

    let mut sel = Selection::new();
    sel.select(2, 3);
    let new_paths = vec!["/a".to_string(), "/b".to_string()];
    let names = vec!["a".to_string(), "b".to_string()];
    sel.reload_rows(&old_paths, &new_paths, &names, None);
    assert_eq!(sel.selected(), Some(1));

    let mut sel = Selection::new();
    sel.reload_rows(&Vec::new(), &new_paths, &names, Some("b"));
    assert_eq!(sel.selected(), Some(1));
    let mut sel = Selection::new();
    sel.reload_rows(&Vec::new(), &Vec::new(), &Vec::new(), None);
    assert_eq!(sel.selected(), None);
}

fn worktree(path: &str, size_bytes: Option<u64>) -> WorktreeSize {
    WorktreeSize {
        path: path.to_string(),
        size_bytes,
    }
}

#[test]
fn carry_sizes_fills_only_unknown_sizes_of_known_paths() {
    let previous = vec![vec![worktree("/a", Some(7)), worktree("/a-x", Some(3))]];
    let repos = vec![vec![
        worktree("/a", None),
        worktree("/a-x", Some(9)),
        worktree("/a-new", None),
    ]];

    let repos = carry_sizes(repos, &previous);

    let sizes: Vec<Option<u64>> = repos[0].iter().map(|w| w.size_bytes).collect();
    assert_eq!(sizes, [Some(7), Some(9), None]);
}

#[test]
fn carry_sizes_takes_the_last_known_size() {
    let previous = vec![vec![worktree("/a", Some(1))], vec![worktree("/a", Some(2)), worktree("/a", None)]];
    let repos = carry_sizes(vec![vec![worktree("/a", None)], vec![]], &previous);
    assert_eq!(repos[0][0].size_bytes, Some(2));
    assert!(repos[1].is_empty());
}

fn candidate(path: &str, name: &str) -> RemovalCandidate {
    RemovalCandidate {
        path: path.to_string(),
        name: name.to_string(),
    }
}

#[test]
fn removal_tally_counts_frees_and_names_failures() {
    let worktrees = vec![worktree("/r/a", Some(100)), worktree("/r/b", None)];
    let entries = with_sizes(&worktrees, vec![candidate("/r/a", "a"), candidate("/r/b", "b"), candidate("/r/z", "z")]);
    assert_eq!(entries[0].1, Some(100));
    assert_eq!(entries[1].1, None);
    assert_eq!(entries[2].1, None);
    let mut report = HostRemoveReport { removed: 0, freed: 0, failures: Vec::new() };
    let outcomes = vec![
        RemovalOutcome { path: "/r/a".to_string(), removed: true, message: None },
        RemovalOutcome { path: "/r/b".to_string(), removed: true, message: Some("kept branch".to_string()) },
        RemovalOutcome { path: "/r/q".to_string(), removed: false, message: None },
    ];
    tally_group(&mut report, "/r", &entries, Ok(outcomes));
    assert_eq!(report.removed, 2);
    assert_eq!(report.freed, 100);
    assert_eq!(report.failures, vec!["b: kept branch".to_string(), "/r/q: not removed".to_string()]);
    tally_group(&mut report, "/s", &entries, Err("ssh: timeout".to_string()));
    assert_eq!(report.failures.last().map(String::as_str), Some("/s: ssh: timeout"));
    assert_eq!(report.removed, 2);
}

#[test]
fn host_summary_before_and_after_a_scan() {
    assert_eq!(host_summary(None, true, false, false, ""), "scanning\u{2026}");
    assert_eq!(host_summary(None, false, true, false, ""), "scan failed");
    assert_eq!(host_summary(None, false, false, false, ""), "not scanned");
    let counts = vec![2, 1];
    assert_eq!(
        host_summary(Some(&counts), false, false, true, "3.0 GB"),
        "2 repositories \u{b7} 3 worktrees \u{b7} 3.0 GB"
    );
    let one = vec![1];
    assert_eq!(
        host_summary(Some(&one), true, false, false, "ignored"),
        "1 repository \u{b7} 1 worktree \u{b7} sizing\u{2026}"
    );
    let none: Vec<usize> = Vec::new();
    assert_eq!(host_summary(Some(&none), false, false, false, ""), "0 repositories \u{b7} 0 worktrees");
}

#[test]
fn confirm_summary_counts_warns_and_totals() {
    let entries = vec![
        ConfirmEntry { missing: false, dirty: true, size: Some(100) },
        ConfirmEntry { missing: true, dirty: true, size: None },
        ConfirmEntry { missing: false, dirty: false, size: Some(50) },
    ];
    let s = confirm_summary(&entries);
    assert_eq!(s.count, 3);
    assert!(s.has_dirty);
    assert_eq!(s.freed, 150);
    let gone = vec![ConfirmEntry { missing: true, dirty: true, size: Some(5) }];
    let s = confirm_summary(&gone);
    assert_eq!(s.count, 1);
    assert!(!s.has_dirty);
    assert_eq!(s.freed, 5);
    let s = confirm_summary(&Vec::new());
    assert_eq!((s.count, s.has_dirty, s.freed), (0, false, 0));
    assert_eq!(removal_headline(1), "1 worktree will be removed:");
    assert_eq!(removal_headline(2), "2 worktrees will be removed:");
}

#[test]
fn paths_match_as_paths_not_as_text() {
    assert!(paths_equal("/a/", "/a"));
    assert!(paths_equal("//a//b/./c/", "/a/b/c"));
    assert!(paths_equal("a/./b", "a/b"));
    assert!(paths_equal("./", "."));
    assert!(!paths_equal("./a", "a"));
    assert!(!paths_equal("/a", "a"));
    assert!(!paths_equal("a/../b", "b"));
    assert!(paths_equal("", ""));
    assert!(!paths_equal("/a/b", "/a/bc"));
}

#[test]
fn sizes_and_selection_follow_the_same_path_spelled_differently() {
    let previous = vec![vec![worktree("/w/a/", Some(7))]];
    let repos = carry_sizes(vec![vec![worktree("/w/a", None)]], &previous);
    assert_eq!(repos[0][0].size_bytes, Some(7));

    let worktrees = vec![worktree("/r/a/", Some(40))];
    let entries = with_sizes(&worktrees, vec![candidate("/r/./a", "a")]);
    assert_eq!(entries[0].1, Some(40));
    let mut report = HostRemoveReport { removed: 0, freed: 0, failures: Vec::new() };
    let outcomes = vec![RemovalOutcome { path: "/r/a".to_string(), removed: false, message: Some("locked".to_string()) }];
    tally_group(&mut report, "/r", &entries, Ok(outcomes));
    assert_eq!(report.failures, vec!["a: locked".to_string()]);

    let mut sel = Selection::new();
    let new_paths = vec!["/x".to_string(), "/y".to_string()];
    let multi = vec!["/x/".to_string()];
    sel.restore_selection_by_path(&new_paths, Some("/y/"), &multi);
    assert_eq!(sel.selected(), Some(1));
    assert_eq!(sel.multi_selected(), vec![0]);
}

#[test]
fn removal_message_reports_count_freed_and_failures() {
    let report = HostRemoveReport { removed: 1, freed: 0, failures: Vec::new() };
    assert_eq!(removal_message(&report, "0 B", "box"), Ok("removed 1 worktree on box".to_string()));
    let report = HostRemoveReport { removed: 3, freed: 2048, failures: Vec::new() };
    assert_eq!(
        removal_message(&report, "2.0 KB", "box"),
        Ok("removed 3 worktrees on box \u{b7} freed ~2.0 KB".to_string())
    );
    let report = HostRemoveReport {
        removed: 0,
        freed: 0,
        failures: vec!["a: locked".to_string(), "/r: ssh: timeout".to_string()],
    };
    assert_eq!(
        removal_message(&report, "0 B", "box"),
        Err("removed 0 worktrees on box \u{b7} failed: a: locked; /r: ssh: timeout".to_string())
    );
}

fn repo_entry(name: &str, path: &str) -> wtm_gui::sidebar::RepoEntry {
    wtm_gui::sidebar::RepoEntry { name: name.to_string(), path: path.to_string() }
}

#[test]
fn sidebar_lists_repositories_alphabetically_case_insensitive() {
    let entries = vec![
        repo_entry("zulu-repo", "/w/zulu-repo"),
        repo_entry("repo", "/w/repo"),
        repo_entry("Alpha-repo", "/w/alpha-repo"),
    ];
    let names: Vec<String> = sidebar_sorted(entries).into_iter().map(|e| e.name).collect();
    assert_eq!(names, vec!["Alpha-repo", "repo", "zulu-repo"]);
}

#[test]
fn sidebar_breaks_name_ties_by_path_components() {
    // As text "/a-b" sorts before "/a/b"; as paths "/a/b" comes first
    // ("a" before "a-b").
    let entries = vec![
        repo_entry("app", "/a-b"),
        repo_entry("App", "/a/b"),
        repo_entry("app", "/a/b/"),
    ];
    let paths: Vec<String> = sidebar_sorted(entries).into_iter().map(|e| e.path).collect();
    assert_eq!(paths, vec!["/a/b", "/a/b/", "/a-b"]);
    let entries = vec![repo_entry("x", "b"), repo_entry("x", "/z"), repo_entry("x", "./a")];
    let paths: Vec<String> = sidebar_sorted(entries).into_iter().map(|e| e.path).collect();
    assert_eq!(paths, vec!["/z", "./a", "b"]);
}

#[test]
fn sidebar_order_matches_std_path_order() {
    let paths = ["/a/b", "/a-b", "/a/b/", "a", "./a", "../a", "/", "", "/a/./b", "a//b", "/A", "/ä", "/z/..", "."];
    let mut entries = Vec::new();
    for (i, p) in paths.iter().enumerate() {
        let name = if i % 2 == 0 { "Repo" } else { "repo" };
        entries.push(repo_entry(name, p));
    }
    let mut expected: Vec<(String, String)> = entries.iter().map(|e| (e.name.clone(), e.path.clone())).collect();
    expected.sort_by(|a, b| {
        a.0.to_lowercase()
            .cmp(&b.0.to_lowercase())
            .then_with(|| Path::new(&a.1).cmp(Path::new(&b.1)))
    });
    let got: Vec<(String, String)> = sidebar_sorted(entries).into_iter().map(|e| (e.name, e.path)).collect();
    assert_eq!(got, expected);
}

#[test]
fn path_equality_matches_std_path_equality() {
    let paths = ["/a/b", "/a/b/", "//a//b", "/a/./b", "a/b", "./a/b", "a/./b/.", "/a/../b", "/b", "", ".", "./", "/", "//", "/.", "..", "../"];
    for a in paths {
        for b in paths {
            assert_eq!(paths_equal(a, b), Path::new(a) == Path::new(b), "{a:?} vs {b:?}");
        }
    }
}
