use unicode_segmentation::UnicodeSegmentation;
use wtm_gui::detail::{
    ellipsize_end, ellipsize_start, parent_label, remote_name, truncate_path_tail, truncate_tail,
};

#[test]
fn short_path_is_unchanged() {
    assert_eq!(truncate_path_tail("/tmp/repo", 40), "/tmp/repo");
}

#[test]
fn long_path_keeps_the_tail_and_fits_the_budget() {
    let path = "/Users/example/code/very/deeply/nested/worktrees/feature-branch";
    let out = truncate_path_tail(path, 24);
    assert_eq!(out.chars().count(), 24);
    assert!(out.starts_with('…'));
    assert!(out.ends_with("feature-branch"));
}

#[test]
fn truncate_tail_does_not_panic_or_split_a_wide_emoji_branch_name() {
    let branch = "feature/🔥🔥🔥🔥🔥-launch-👨‍👩‍👧‍👦-🇯🇵-rollout";
    for budget in 0..=branch.chars().count() {
        let out = truncate_tail(branch, budget);
        assert!(out.graphemes(true).count() <= budget.max(1));
        for g in out.graphemes(true) {
            assert!(g == "…" || branch.graphemes(true).any(|src| src == g));
        }
    }
}

#[test]
fn truncate_tail_does_not_panic_on_cjk_branch_names() {
    let branch = "功能/日本語のブランチ名はとても長くなることがあります";
    for budget in 0..=branch.chars().count() + 2 {
        let out = truncate_tail(branch, budget);
        assert!(out.graphemes(true).count() <= budget.max(1));
    }
}

#[test]
fn truncate_tail_keeps_combining_accents_attached_to_their_base_char() {
    let branch = "cafe\u{301}-e\u{301}toile\u{301}-branch";
    let cluster_count = branch.graphemes(true).count();
    for budget in 0..=cluster_count + 2 {
        let out = truncate_tail(branch, budget);
        for g in out.graphemes(true) {
            assert!(
                g == "…" || branch.graphemes(true).any(|src| src == g),
                "grapheme {g:?} in output was not an intact cluster from {branch:?}"
            );
        }
    }
}

#[test]
fn truncate_path_tail_keeps_combining_accents_attached_at_the_leading_edge() {
    let path = "/répertoire/e\u{301}toile\u{301}/projet";
    let cluster_count = path.graphemes(true).count();
    for budget in 0..=cluster_count + 2 {
        let out = truncate_path_tail(path, budget);
        for g in out.graphemes(true) {
            assert!(
                g == "…" || path.graphemes(true).any(|src| src == g),
                "grapheme {g:?} in output was not an intact cluster from {path:?}"
            );
        }
    }
}

#[test]
fn truncate_tail_handles_a_very_long_branch_name() {
    let branch = "feature/".to_string() + &"a".repeat(150);
    let out = truncate_tail(&branch, 24);
    assert_eq!(out.chars().count(), 24);
    assert!(out.ends_with('…'));
}

#[test]
fn truncate_tail_handles_a_one_character_branch_name() {
    assert_eq!(truncate_tail("a", 24), "a");
    assert_eq!(truncate_tail("a", 0), "…");
    assert_eq!(truncate_tail("🔥", 0), "…");
}

#[test]
fn truncate_path_tail_handles_a_one_character_path() {
    assert_eq!(truncate_path_tail("a", 24), "a");
    assert_eq!(truncate_path_tail("a", 0), "…");
}

#[test]
fn remote_name_splits_on_first_slash() {
    assert_eq!(remote_name(Some("origin/main")), Some("origin"));
    assert_eq!(remote_name(Some("origin/feature/x")), Some("origin"));
    assert_eq!(remote_name(None), None);
}

#[test]
fn remote_name_without_a_slash_is_none() {
    assert_eq!(remote_name(Some("main")), None);
    assert_eq!(remote_name(Some("/x")), Some(""));
}

#[test]
fn truncation_counts_clusters_not_chars() {
    // "e" + combining acute is two chars but one cluster: it fits a budget of 3.
    assert_eq!(truncate_tail("e\u{301}ab", 3), "e\u{301}ab");
    assert_eq!(truncate_tail("e\u{301}abc", 3), "e\u{301}a…");
    assert_eq!(truncate_path_tail("abe\u{301}", 2), "…e\u{301}");
}

#[test]
fn ellipsizing_works_on_the_given_clusters() {
    let clusters = vec!["ab".to_string(), "c".to_string(), "d".to_string()];
    assert_eq!(ellipsize_end("abcd", &clusters, 2), "ab…");
    assert_eq!(ellipsize_start("abcd", &clusters, 2), "…d");
    assert_eq!(ellipsize_end("abcd", &clusters, 3), "abcd");
}

#[test]
fn parent_label_shows_home_as_tilde() {
    assert_eq!(parent_label("/home/al/code", Some("/home/al"), 40), "~/code");
    assert_eq!(parent_label("/srv/code", Some("/home/al"), 40), "/srv/code");
    assert_eq!(parent_label("/srv/code", Some(""), 40), "/srv/code");
    assert_eq!(parent_label("/home/al/code/deep/dir", Some("/home/al"), 6), "…p/dir");
}
