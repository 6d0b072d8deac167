use wtm_gui::age::relative_age;
use wtm_gui::fetch::{count_updated_refs, default_remote_name, fetch_result, FetchOutcome};
use wtm_gui::files::{
    check_inside_worktree, escapes_worktree, file_entries, sort_file_entries, DirEntryInfo,
    FileEntry, FileStatus, StatusFlags,
};
use wtm_gui::platform::{terminal_arg_plan, terminal_args, TerminalArg};
use wtm_gui::refs::{assemble_ref_order, raw_refs, RawRef, RefInfo, RefKind};
use wtm_gui::remote_url::{
    branch_url_for_host, build_remote_branch_url, encode_branch_path, encode_path_segment,
    remote_url_to_https_base,
};

#[test]
fn count_updated_refs_counts_arrow_lines_only() {
    let output = "\
From github.com:owner/repo
   1234abc..5678def  main       -> origin/main
 * [new branch]      feat       -> origin/feat
 - [deleted]         (none)     -> origin/old
Fetching origin
";
    assert_eq!(count_updated_refs(output), 3);
}

#[test]
fn count_updated_refs_is_honestly_zero_when_nothing_changed() {
    assert_eq!(count_updated_refs("From github.com:owner/repo\n"), 0);
    assert_eq!(count_updated_refs(""), 0);
}

#[test]
fn count_updated_refs_counts_a_last_line_without_newline() {
    assert_eq!(count_updated_refs(" * [new tag] v1 -> v1"), 1);
    assert_eq!(count_updated_refs("a -> b\r\nc -> d\r\n"), 2);
}

fn file_entry(name: &str, is_dir: bool) -> FileEntry {
    FileEntry {
        name: name.to_string(),
        rel_path: name.to_string(),
        is_dir,
        status: None,
    }
}

#[test]
fn sort_file_entries_puts_dirs_first_case_insensitively() {
    let mut entries = vec![
        file_entry("zeta.txt", false),
        file_entry("Banana", true),
        file_entry("apple.txt", false),
        file_entry("alpha", true),
    ];
    sort_file_entries(&mut entries);
    let names: Vec<&str> = entries.iter().map(|e| e.name.as_str()).collect();
    assert_eq!(names, vec!["alpha", "Banana", "apple.txt", "zeta.txt"]);
}

#[test]
fn sort_file_entries_keeps_names_equal_up_to_case_in_order() {
    let mut entries = vec![
        file_entry("README", false),
        file_entry("readme", false),
        file_entry("Docs", true),
    ];
    sort_file_entries(&mut entries);
    let names: Vec<&str> = entries.iter().map(|e| e.name.as_str()).collect();
    assert_eq!(names, vec!["Docs", "README", "readme"]);
}

#[test]
fn escapes_worktree_rejects_any_parent_dir_component() {
    assert!(escapes_worktree("../etc"));
    assert!(escapes_worktree("a/../../b"));
    assert!(!escapes_worktree("a/b"));
    assert!(!escapes_worktree(""));
}

#[test]
fn escapes_worktree_does_not_mistake_dotted_names() {
    assert!(!escapes_worktree("a/..b/c"));
    assert!(!escapes_worktree("..."));
    assert!(escapes_worktree(".."));
}

const NOW: i64 = 1_700_000_000;

#[test]
fn relative_age_zero_delta_is_just_now() {
    assert_eq!(relative_age(NOW, NOW), "just now");
}

#[test]
fn relative_age_future_timestamp_clamps_to_just_now() {
    assert_eq!(relative_age(NOW + 3600, NOW), "just now");
    assert_eq!(relative_age(i64::MAX, NOW), "just now");
}

#[test]
fn relative_age_seconds_are_just_now() {
    assert_eq!(relative_age(NOW - 1, NOW), "just now");
    assert_eq!(relative_age(NOW - 59, NOW), "just now");
}

#[test]
fn relative_age_minute_boundary() {
    assert_eq!(relative_age(NOW - 60, NOW), "1m");
    assert_eq!(relative_age(NOW - 3599, NOW), "59m");
}

#[test]
fn relative_age_hour_boundary() {
    assert_eq!(relative_age(NOW - 3600, NOW), "1h");
    assert_eq!(relative_age(NOW - 86399, NOW), "23h");
}

#[test]
fn relative_age_day_boundary() {
    assert_eq!(relative_age(NOW - 86400, NOW), "1d");
    assert_eq!(relative_age(NOW - (7 * 86400 - 1), NOW), "6d");
}

#[test]
fn relative_age_week_boundary() {
    assert_eq!(relative_age(NOW - 7 * 86400, NOW), "1w");
    assert_eq!(relative_age(NOW - (30 * 86400 - 1), NOW), "4w");
}

#[test]
fn relative_age_month_boundary() {
    assert_eq!(relative_age(NOW - 30 * 86400, NOW), "1mo");
    assert_eq!(relative_age(NOW - (365 * 86400 - 1), NOW), "12mo");
}

#[test]
fn relative_age_year_boundary() {
    assert_eq!(relative_age(NOW - 365 * 86400, NOW), "1y");
    assert_eq!(relative_age(NOW - 2 * 365 * 86400, NOW), "2y");
}

#[test]
fn relative_age_saturates_an_extreme_past() {
    assert_eq!(relative_age(i64::MIN, i64::MAX), "292471208677y");
}

#[test]
fn build_remote_branch_url_over_a_table_of_inputs() {
    let cases: &[(Option<&str>, &str, Option<&str>)] = &[
        (
            Some("git@github.com:owner/repo.git"),
            "main",
            Some("https://github.com/owner/repo/tree/main"),
        ),
        (
            Some("ssh://git@github.com/owner/repo.git"),
            "main",
            Some("https://github.com/owner/repo/tree/main"),
        ),
        (
            Some("https://github.com/owner/repo.git"),
            "main",
            Some("https://github.com/owner/repo/tree/main"),
        ),
        (
            Some("https://github.com/owner/repo"),
            "main",
            Some("https://github.com/owner/repo/tree/main"),
        ),
        (
            Some("git@gitlab.com:owner/repo.git"),
            "main",
            Some("https://gitlab.com/owner/repo/tree/main"),
        ),
        (
            Some("git@bitbucket.org:owner/repo.git"),
            "main",
            Some("https://bitbucket.org/owner/repo/src/main"),
        ),
        (
            Some("git@git.mycompany.internal:team/proj.git"),
            "main",
            Some("https://git.mycompany.internal/team/proj"),
        ),
        (
            Some("https://github.com/owner/repo.git"),
            "feature/a+b",
            Some("https://github.com/owner/repo/tree/feature/a%2Bb"),
        ),
        (None, "main", None),
        (Some("/local/path/to/repo"), "main", None),
    ];

    for (raw_url, branch, expected) in cases {
        let actual = build_remote_branch_url(*raw_url, branch);
        assert_eq!(
            actual.as_deref(),
            *expected,
            "raw_url={raw_url:?} branch={branch}"
        );
    }
}

#[test]
fn build_remote_branch_url_encodes_non_ascii_branch_bytes() {
    assert_eq!(
        build_remote_branch_url(Some("https://github.com/o/r"), "é").as_deref(),
        Some("https://github.com/o/r/tree/%C3%A9")
    );
    assert_eq!(
        build_remote_branch_url(Some("  ssh://git@host:2222/o/r.git  "), "x").as_deref(),
        Some("https://host/o/r")
    );
}

#[test]
fn terminal_args_uses_equals_form_for_gnome_terminal_and_foot() {
    let path = "/repo/wt";
    assert_eq!(
        terminal_args("gnome-terminal", path),
        vec![String::from("--working-directory=/repo/wt")]
    );
    assert_eq!(
        terminal_args("foot", path),
        vec![String::from("--working-directory=/repo/wt")]
    );
}

#[test]
fn terminal_args_uses_separate_flag_and_value_for_konsole_alacritty_kitty() {
    let path = "/repo/wt";
    assert_eq!(
        terminal_args("konsole", path),
        vec![String::from("--workdir"), String::from("/repo/wt")]
    );
    assert_eq!(
        terminal_args("alacritty", path),
        vec![String::from("--working-directory"), String::from("/repo/wt")]
    );
    assert_eq!(
        terminal_args("kitty", path),
        vec![String::from("--directory"), String::from("/repo/wt")]
    );
}

#[test]
fn terminal_args_wezterm_uses_start_cwd_subcommand() {
    let path = "/repo/wt";
    assert_eq!(
        terminal_args("wezterm", path),
        vec![
            String::from("start"),
            String::from("--cwd"),
            String::from("/repo/wt")
        ]
    );
}

#[test]
fn terminal_args_xterm_and_x_terminal_emulator_rely_on_inherited_cwd() {
    let path = "/repo/wt";
    assert!(terminal_args("xterm", path).is_empty());
    assert!(terminal_args("x-terminal-emulator", path).is_empty());
    assert!(terminal_args("some-custom-term", path).is_empty());
}

#[test]
fn default_remote_name_prefers_origin() {
    let names = vec!["zzz-other".to_string(), "origin".to_string()];
    assert_eq!(default_remote_name(&names).unwrap(), "origin");
}

#[test]
fn default_remote_name_falls_back_to_first_alphabetically() {
    let names = vec!["zzz".to_string(), "aaa".to_string()];
    assert_eq!(default_remote_name(&names).unwrap(), "aaa");
}

#[test]
fn default_remote_name_errors_clearly_with_no_remotes() {
    let err = default_remote_name(&Vec::new()).unwrap_err();
    assert!(err.contains("no configured remotes"), "{err}");
}

#[test]
fn fetch_result_counts_refs_across_both_streams() {
    let out = fetch_result(
        "origin".to_string(),
        true,
        "exit status: 0",
        &b"a -> origin/a\n".to_vec(),
        &b"From x\n b -> origin/b\n".to_vec(),
    )
    .unwrap();
    assert_eq!(
        out,
        FetchOutcome {
            remote: "origin".to_string(),
            updated_refs: 2
        }
    );
}

#[test]
fn fetch_result_reports_trimmed_output_or_the_exit_status() {
    let err = fetch_result(
        "origin".to_string(),
        false,
        "exit status: 128",
        &Vec::new(),
        &b"  fatal: could not read from remote\n".to_vec(),
    )
    .unwrap_err();
    assert_eq!(err, "fatal: could not read from remote");
    let err = fetch_result("origin".to_string(), false, "exit status: 1", &b" \n".to_vec(), &Vec::new())
        .unwrap_err();
    assert_eq!(err, "git fetch exited with exit status: 1");
}

#[test]
fn fetch_result_decodes_invalid_utf8_lossily() {
    let err = fetch_result("o".to_string(), false, "1", &vec![0x66, 0xff, 0x67], &Vec::new()).unwrap_err();
    assert_eq!(err, "f\u{fffd}g");
}

fn raw_local(name: &str) -> RawRef {
    RawRef {
        name: name.to_string(),
        remote: None,
    }
}

fn raw_remote(remote: &str, short: &str) -> RawRef {
    RawRef {
        name: format!("{remote}/{short}"),
        remote: Some(remote.to_string()),
    }
}

#[test]
fn orders_current_default_locals_then_remotes() {
    let refs = vec![
        raw_local("zeta"),
        raw_local("alpha"),
        raw_local("beta"),
        raw_remote("origin", "main"),
        raw_remote("origin", "zeta"),
    ];
    let elsewhere = Vec::new();
    let out = assemble_ref_order(refs, Some("beta"), &elsewhere, None);

    let names: Vec<&str> = out.iter().map(|r| r.name.as_str()).collect();
    assert_eq!(
        names,
        vec!["beta", "HEAD", "alpha", "zeta", "origin/main", "origin/zeta"]
    );
    assert_eq!(out[0].kind, RefKind::Current);
    assert_eq!(out[1].kind, RefKind::Default);
    assert_eq!(out[2].kind, RefKind::Local);
    assert_eq!(out[3].kind, RefKind::Local);
    assert_eq!(
        out[4].kind,
        RefKind::Remote {
            remote: "origin".to_string()
        }
    );
}

#[test]
fn default_promotes_existing_local_branch_instead_of_duplicating() {
    let refs = vec![raw_local("main"), raw_local("feature")];
    let elsewhere = Vec::new();
    let out = assemble_ref_order(refs, None, &elsewhere, Some("main"));

    assert_eq!(out.len(), 2, "no separate synthetic HEAD entry: {out:?}");
    assert_eq!(out[0].name, "main");
    assert_eq!(out[0].kind, RefKind::Default);
    assert_eq!(out[1].name, "feature");
    assert_eq!(out[1].kind, RefKind::Local);
}

#[test]
fn default_promotes_existing_remote_branch_instead_of_duplicating() {
    let refs = vec![raw_local("feature"), raw_remote("origin", "main")];
    let elsewhere = Vec::new();
    let out = assemble_ref_order(refs, None, &elsewhere, Some("origin/main"));

    assert_eq!(out.len(), 2);
    assert_eq!(out[0].name, "origin/main");
    assert_eq!(out[0].kind, RefKind::Default);
    assert_eq!(out[1].name, "feature");
    assert_eq!(out[1].kind, RefKind::Local);
}

#[test]
fn current_equal_to_default_yields_one_entry_not_two() {
    let refs = vec![raw_local("main")];
    let elsewhere = Vec::new();
    let out = assemble_ref_order(refs, Some("main"), &elsewhere, Some("main"));

    assert_eq!(out.len(), 1, "expected one row, not a duplicate: {out:?}");
    assert_eq!(out[0].kind, RefKind::Current);
}

#[test]
fn worktree_kind_for_branch_checked_out_elsewhere() {
    let refs = vec![raw_local("main"), raw_local("feature")];
    let elsewhere = vec!["feature".to_string()];
    let out = assemble_ref_order(refs, Some("main"), &elsewhere, None);

    assert_eq!(out[0].name, "main");
    assert_eq!(out[0].kind, RefKind::Current);
    assert_eq!(out[1].name, "HEAD");
    assert_eq!(out[1].kind, RefKind::Default);
    assert_eq!(out[2].name, "feature");
    assert_eq!(out[2].kind, RefKind::Worktree);
}

#[test]
fn picker_entries_carry_no_commit_details_yet() {
    let out = assemble_ref_order(vec![raw_local("a")], None, &Vec::new(), None);
    assert_eq!(
        out[1],
        RefInfo {
            name: "a".to_string(),
            display: "a".to_string(),
            kind: RefKind::Local,
            subject: None,
            short_id: None
        }
    );
}

#[test]
fn raw_refs_split_remote_names_and_skip_symbolic_head() {
    let locals = vec!["main".to_string()];
    let remotes = vec![
        "origin/HEAD".to_string(),
        "origin/feature/x".to_string(),
        "noslash".to_string(),
    ];
    let raws = raw_refs(locals, &remotes);
    assert_eq!(raws.len(), 2);
    assert_eq!(raws[0].name, "main");
    assert_eq!(raws[0].remote, None);
    assert_eq!(raws[1].name, "origin/feature/x");
    assert_eq!(raws[1].remote.as_deref(), Some("origin"));
}

#[test]
fn listing_skips_git_and_ignored_entries_and_attaches_status() {
    let flags = StatusFlags {
        conflicted: false,
        wt_new: false,
        index_renamed: false,
        wt_renamed: false,
        index_deleted: false,
        wt_deleted: false,
        index_new: false,
        index_modified: false,
        wt_modified: false,
        index_typechange: false,
        wt_typechange: false,
    };
    let dir = vec![
        DirEntryInfo { name: "lib.rs".to_string(), is_dir: false, ignored: false },
        DirEntryInfo { name: ".git".to_string(), is_dir: true, ignored: false },
        DirEntryInfo { name: "target".to_string(), is_dir: true, ignored: true },
        DirEntryInfo { name: "bin".to_string(), is_dir: true, ignored: false },
        DirEntryInfo { name: "New.rs".to_string(), is_dir: false, ignored: false },
    ];
    let statuses = vec![
        ("src/lib.rs".to_string(), StatusFlags { wt_modified: true, ..flags }),
        ("src/New.rs".to_string(), StatusFlags { wt_new: true, ..flags }),
        ("src/New.rs".to_string(), flags),
    ];
    let out = file_entries(dir, "src", &statuses);
    let names: Vec<&str> = out.iter().map(|e| e.name.as_str()).collect();
    assert_eq!(names, vec!["bin", "lib.rs", "New.rs"]);
    assert_eq!(out[0].rel_path, "src/bin");
    assert_eq!(out[0].status, None);
    assert_eq!(out[1].status, Some(FileStatus::Modified));
    assert_eq!(out[2].status, Some(FileStatus::Untracked));
    let top = file_entries(vec![DirEntryInfo { name: "a".to_string(), is_dir: false, ignored: false }], "", &Vec::new());
    assert_eq!(top[0].rel_path, "a");
    let err = check_inside_worktree("../escape").unwrap_err();
    assert!(err.contains("escapes"), "{err}");
    assert!(check_inside_worktree("src/a").is_ok());
}

#[test]
fn url_pieces_convert_and_encode() {
    assert_eq!(encode_path_segment("a b/c~"), "a%20b%2Fc~");
    assert_eq!(encode_branch_path("feat/ü"), "feat/%C3%BC");
    assert_eq!(
        remote_url_to_https_base("git@host.example:team/app.git").as_deref(),
        Some("https://host.example/team/app")
    );
    assert_eq!(remote_url_to_https_base("https://host.example/").as_deref(), None);
    assert_eq!(remote_url_to_https_base("git@host:").as_deref(), None);
    assert_eq!(
        branch_url_for_host("https://bitbucket.org/o/r", "a/b"),
        "https://bitbucket.org/o/r/src/a/b"
    );
    assert_eq!(branch_url_for_host("https://example.org/o/r", "x"), "https://example.org/o/r");
}

#[test]
fn web_base_never_ends_in_slash_or_dot_git() {
    assert_eq!(
        remote_url_to_https_base("https://h.io/o/r/.git").as_deref(),
        Some("https://h.io/o/r")
    );
    assert_eq!(
        remote_url_to_https_base("https://h.io/o/r.git.git").as_deref(),
        Some("https://h.io/o/r")
    );
    assert_eq!(
        remote_url_to_https_base("git@h:o/r.git/").as_deref(),
        Some("https://h/o/r")
    );
    assert_eq!(
        remote_url_to_https_base("ssh://git@h.io:22/o/r.git").as_deref(),
        Some("https://h.io/o/r")
    );
    assert_eq!(remote_url_to_https_base("https://h.io/.git").as_deref(), None);
}

#[test]
fn branch_encoding_keeps_separators_and_escapes_the_rest() {
    assert_eq!(encode_branch_path("feat/a b%c"), "feat/a%20b%25c");
    assert_eq!(encode_branch_path("a//b"), "a//b");
    assert_eq!(encode_branch_path("\u{e4}/\u{f6}"), "%C3%A4/%C3%B6");
    assert_eq!(encode_branch_path("plain-name_1.0~x"), "plain-name_1.0~x");
    assert_eq!(encode_path_segment("a/b"), "a%2Fb");
}

#[test]
fn default_remote_is_the_name_sorting_first() {
    let names = vec!["zeta".to_string(), "alpha".to_string(), "beta".to_string()];
    assert_eq!(default_remote_name(&names).unwrap(), "alpha");
}

fn fill_plan(program: &str, dir: &str) -> Vec<String> {
    terminal_arg_plan(program)
        .into_iter()
        .map(|a| match a {
            TerminalArg::Text(t) => t,
            TerminalArg::Dir => dir.to_string(),
            TerminalArg::TextThenDir(t) => format!("{t}{dir}"),
        })
        .collect()
}

#[test]
fn terminal_arg_plan_fills_in_like_terminal_args() {
    for program in ["gnome-terminal", "foot", "konsole", "alacritty", "kitty", "wezterm", "xterm", "x-terminal-emulator"] {
        assert_eq!(fill_plan(program, "/w/t"), terminal_args(program, "/w/t"), "{program}");
    }
    assert_eq!(fill_plan("foot", "/a b"), vec!["--working-directory=/a b".to_string()]);
    assert!(terminal_arg_plan("xterm").is_empty());
}

#[test]
fn whitespace_set_matches_std_on_every_char() {
    for c in (0u32..=0x10FFFF).filter_map(char::from_u32) {
        assert_eq!(wtm_gui::text::is_whitespace(c), c.is_whitespace(), "U+{:04X}", c as u32);
    }
}
