use wtm_gui::assets::{self, icon_table, Assets};
use wtm_gui::commands::{
    branch_delete_refusal, removal_status, destructive_count_line, empty_space_action, empty_space_menu_items, fetch_status,
    open_remote_disabled_reason, open_remote_menu_item, prune_empty_hint, prune_label, prune_report,
    repo_action, repo_menu_items, worktree_action, worktree_menu_items, EmptySpaceAction,
    RepoAction, WorktreeAction,
};
use wtm_gui::fetch::FetchOutcome;
use wtm_gui::hosts::plural;
use wtm_gui::menu::{next_selectable, selectable_id, ContextMenu, MenuItem};

#[test]
fn detached_head_is_disabled_with_its_own_reason() {
    assert_eq!(
        open_remote_disabled_reason(false, None),
        Some("detached HEAD has no branch")
    );
    assert_eq!(
        open_remote_disabled_reason(false, Some("https://example.com")),
        Some("detached HEAD has no branch")
    );
}

#[test]
fn a_branch_with_no_resolvable_remote_is_disabled() {
    assert_eq!(
        open_remote_disabled_reason(true, None),
        Some("no remote configured")
    );
}

#[test]
fn a_branch_with_a_resolved_url_is_enabled() {
    assert_eq!(
        open_remote_disabled_reason(true, Some("https://github.com/owner/repo/tree/main")),
        None
    );
}

#[test]
fn every_declared_icon_path_resolves() {
    for path in [
        assets::ARCHIVE,
        assets::ARROW_DOWN,
        assets::ARROW_UP,
        assets::ARROW_UP_DOWN,
        assets::CHECK,
        assets::CHEVRON_DOWN,
        assets::CHEVRON_RIGHT,
        assets::CHEVRON_UP,
        assets::CIRCLE_ALERT,
        assets::CIRCLE_CHECK,
        assets::CIRCLE_DOT,
        assets::CIRCLE_X,
        assets::CLOCK,
        assets::COMMAND,
        assets::COPY,
        assets::ENTER,
        assets::ELLIPSIS,
        assets::EXTERNAL_LINK,
        assets::FILE,
        assets::FILE_DIFF,
        assets::FOLDER,
        assets::FOLDER_OPEN,
        assets::GIT_BRANCH,
        assets::GIT_COMMIT_HORIZONTAL,
        assets::GIT_MERGE,
        assets::HARD_DRIVE,
        assets::LIST_FILTER,
        assets::LOADER_CIRCLE,
        assets::LOCK,
        assets::PANEL_LEFT,
        assets::PANEL_RIGHT,
        assets::PENCIL,
        assets::PLAY,
        assets::PLUS,
        assets::REFRESH,
        assets::ROTATE_CW,
        assets::SEARCH,
        assets::SETTINGS,
        assets::OPEN_EXTERNAL,
        assets::TERMINAL,
        assets::TRASH,
        assets::WARNING,
        assets::CLOSE,
    ] {
        assert!(
            Assets.load(path).is_some(),
            "icon {path} is referenced but not embedded"
        );
    }
}

#[test]
fn icon_table_matches_declared_count() {
    assert_eq!(icon_table().len(), 43, "icon count drifted; update this guard");
}

#[test]
fn unknown_icon_paths_do_not_load_and_listing_filters_by_prefix() {
    assert_eq!(Assets.load("icons/nope.svg"), None);
    assert_eq!(Assets.load(assets::ARCHIVE), Some(0));
    assert_eq!(
        Assets.list("icons/chevron-"),
        vec!["icons/chevron-down.svg", "icons/chevron-right.svg", "icons/chevron-up.svg"]
    );
    assert_eq!(Assets.list("").len(), 43);
}

fn sample_items() -> Vec<MenuItem> {
    vec![
        MenuItem::action("open", "Open"),
        MenuItem::action("rename", "Rename").disabled(),
        MenuItem::separator(),
        MenuItem::action("delete", "Delete").danger(),
    ]
}

#[test]
fn open_marks_menu_open() {
    let mut menu = ContextMenu::new();
    menu.open(sample_items());

    assert!(menu.is_open());
}

#[test]
fn close_clears_state() {
    let mut menu = ContextMenu::new();
    menu.open(sample_items());

    menu.close();

    assert!(!menu.is_open());
}

#[test]
fn selecting_a_disabled_item_is_rejected() {
    let items = sample_items();

    assert!(selectable_id(&items, "rename").is_none());
    assert!(selectable_id(&items, "open").is_some());
    assert!(selectable_id(&items, "no-such-id").is_none());
}

#[test]
fn keyboard_navigation_skips_separators_and_disabled() {
    let items = sample_items();
    assert_eq!(next_selectable(&items, None, 1), Some(0));
    assert_eq!(next_selectable(&items, Some(0), 1), Some(3));
    assert_eq!(next_selectable(&items, Some(3), 1), Some(0));
    assert_eq!(next_selectable(&items, Some(0), -1), Some(3));
}

#[test]
fn keyboard_navigation_with_nothing_selectable_stays_none() {
    let items = vec![MenuItem::action("x", "X").disabled(), MenuItem::separator()];
    assert_eq!(next_selectable(&items, None, 1), None);
}

#[test]
fn keyboard_navigation_from_nothing_upwards_starts_at_the_bottom() {
    let items = sample_items();
    assert_eq!(next_selectable(&items, None, -1), Some(3));
    assert_eq!(next_selectable(&Vec::new(), None, 1), None);
}

#[test]
fn menu_keys_move_the_highlight_and_enter_chooses_it() {
    let mut menu = ContextMenu::new();
    menu.open(sample_items());
    assert_eq!(menu.activate_highlighted(), None);
    assert!(menu.is_open());
    menu.move_highlight(1);
    menu.move_highlight(1);
    assert_eq!(menu.activate_highlighted().as_deref(), Some("delete"));
    assert!(!menu.is_open());
}

#[test]
fn clicking_a_disabled_row_keeps_the_menu_open() {
    let mut menu = ContextMenu::new();
    menu.open(sample_items());
    assert!(!menu.select("rename"));
    assert!(menu.is_open());
    assert!(menu.select("open"));
    assert!(!menu.is_open());
}

#[test]
fn worktree_menu_offers_remove_except_on_the_main_worktree() {
    let remote = open_remote_menu_item(true, true, Some("https://x"));
    assert!(remote.enabled);
    let items = worktree_menu_items(true, false, false, remote);
    assert_eq!(items.len(), 10);
    assert_eq!(items[9].id, "remove");
    assert!(!items[9].enabled);
    assert_eq!(items[9].shortcut.as_deref(), Some("main worktree"));
    assert_eq!(items[7].label, "Select");
    let remote = open_remote_menu_item(false, true, None);
    assert_eq!(remote.shortcut.as_deref(), Some("open a repository first"));
    let items = worktree_menu_items(false, true, true, remote);
    assert!(items[9].enabled && items[9].danger);
    assert_eq!(items[7].label, "Remove from Selection");
    assert!(items[6].is_separator && items[8].is_separator);
}

#[test]
fn empty_space_menu_disables_repository_actions_without_a_repository() {
    let items = empty_space_menu_items(false, false);
    assert_eq!(items.len(), 6);
    assert!(!items[0].enabled && !items[1].enabled && !items[2].enabled && !items[3].enabled);
    assert!(items[5].enabled);
    let items = empty_space_menu_items(true, true);
    assert!(items[0].enabled);
    assert_eq!(items[1].shortcut.as_deref(), Some("fetching…"));
    assert!(!items[1].enabled);
    assert_eq!(repo_menu_items()[4].label, "Remove from Sidebar");
}

#[test]
fn menu_ids_name_their_actions() {
    assert_eq!(worktree_action("toggle-select"), Some(WorktreeAction::ToggleSelect));
    assert_eq!(worktree_action("remove"), Some(WorktreeAction::Remove));
    assert_eq!(worktree_action("forget"), None);
    assert_eq!(empty_space_action("fetch"), Some(EmptySpaceAction::Fetch));
    assert_eq!(repo_action("forget"), Some(RepoAction::Forget));
    assert_eq!(repo_action(""), None);
}

#[test]
fn fetch_status_lines() {
    let ok = Ok(FetchOutcome { remote: "origin".to_string(), updated_refs: 3 });
    assert_eq!(fetch_status(&ok), ("fetched origin · 3 refs updated".to_string(), false));
    let one = Ok(FetchOutcome { remote: "up".to_string(), updated_refs: 1 });
    assert_eq!(fetch_status(&one).0, "fetched up · 1 ref updated");
    let none = Ok(FetchOutcome { remote: "origin".to_string(), updated_refs: 0 });
    assert_eq!(fetch_status(&none).0, "fetched origin · already up to date");
    let err: Result<FetchOutcome, String> = Err("offline".to_string());
    assert_eq!(fetch_status(&err), ("fetch failed: offline".to_string(), true));
}

#[test]
fn dialog_texts() {
    assert_eq!(prune_empty_hint(true, false), "Nothing matches the current filters.");
    assert!(prune_empty_hint(false, false).starts_with("Only missing"));
    assert_eq!(destructive_count_line(1, "remove"), "This will remove 1 worktree.");
    assert_eq!(destructive_count_line(12, "prune"), "This will prune 12 worktrees.");
    assert_eq!(plural(1), "");
    assert_eq!(plural(0), "s");
}

#[test]
fn prune_report_lists_skipped_and_failures() {
    let (msg, err) = prune_report("pruned", 2, &Vec::new(), &Vec::new());
    assert_eq!(msg, "pruned 2 worktrees");
    assert!(!err);
    let (msg, err) = prune_report(
        "removed",
        1,
        &vec!["a".to_string(), "b".to_string()],
        &vec!["c: busy".to_string()],
    );
    assert_eq!(msg, "removed 1 worktree · skipped (dirty): a, b · failed: c: busy");
    assert!(err);
}

#[test]
fn removal_status_lines() {
    assert_eq!(removal_status(&Err("busy".to_string()), &None, None), None);
    assert_eq!(
        removal_status(&Ok(()), &None, None),
        Some(("worktree removed".to_string(), false))
    );
    assert_eq!(
        removal_status(&Ok(()), &Some(Ok(())), Some("feat")),
        Some(("worktree removed and branch 'feat' deleted".to_string(), false))
    );
    assert_eq!(
        removal_status(&Ok(()), &Some(Err("not merged".to_string())), Some("feat")),
        Some(("worktree removed, but branch delete failed: not merged".to_string(), true))
    );
    let protected = vec!["main".to_string(), "release".to_string()];
    assert_eq!(
        branch_delete_refusal(&protected, "release").as_deref(),
        Some("branch 'release' is protected and will not be touched")
    );
    assert_eq!(branch_delete_refusal(&protected, "feat"), None);
}

#[test]
fn prune_button_label_shows_the_sweep_count() {
    assert_eq!(prune_label(0), "Prune\u{2026}");
    assert_eq!(prune_label(3), "Prune\u{2026} (3)");
    assert_eq!(prune_label(12), "Prune\u{2026} (12)");
}
