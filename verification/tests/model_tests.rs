use wtm_gui::branches::assemble_branch_list;
use wtm_gui::diff::{
    build_diffs, DeltaKind, DiffLineKind, LineOrigin, RawDelta, RawHunk, RawLine,
    MAX_DIFF_LINES_PER_FILE,
};
use wtm_gui::files::{file_status_from_git, FileStatus, StatusFlags};
use wtm_gui::platform::reveal_in_finder;
use wtm_gui::run::{apply_run_stream, CommandEvent, RunOutcome, RunStreamMsg};

#[test]
fn branch_list_puts_locals_first_and_collapses_remotes() {
    let locals = vec![("main".to_string(), false), ("alpha".to_string(), true)];
    let remotes = vec![
        "origin/main".to_string(),
        "origin/HEAD".to_string(),
        "upstream/zed".to_string(),
        "origin/zed".to_string(),
        "origin/beta".to_string(),
    ];
    let checked_out = vec!["main".to_string(), "zed".to_string()];
    let out = assemble_branch_list(locals, &remotes, &checked_out);
    let names: Vec<&str> = out.iter().map(|b| b.name.as_str()).collect();
    assert_eq!(names, vec!["alpha", "main", "beta", "zed"]);
    assert!(out[0].is_local && out[0].upstream_gone && !out[0].is_checked_out);
    assert!(out[1].is_local && out[1].is_checked_out);
    assert!(!out[2].is_local && !out[2].upstream_gone);
    assert!(out[3].is_checked_out);
}

fn line(origin: LineOrigin, text: &str, old: Option<u32>, new: Option<u32>) -> RawLine {
    RawLine {
        origin,
        content: text.as_bytes().to_vec(),
        old_lineno: old,
        new_lineno: new,
    }
}

#[test]
fn diffs_keep_hunks_lines_and_numbers() {
    let raw = RawDelta {
        path: "a.txt".to_string(),
        kind: DeltaKind::Modified,
        binary: false,
        patch: Some(vec![RawHunk {
            header: b"@@ -1,2 +1,2 @@ fn x()  \n".to_vec(),
            lines: vec![
                line(LineOrigin::Context, "same\n", Some(1), Some(1)),
                line(LineOrigin::Deletion, "old\n", Some(2), None),
                line(LineOrigin::Addition, "new\n\n", None, Some(2)),
                line(LineOrigin::AddEofnl, "\n", None, None),
            ],
        }]),
    };
    let out = build_diffs(vec![raw]);
    assert_eq!(out.len(), 1);
    let d = &out[0];
    assert_eq!(d.status, FileStatus::Modified);
    assert!(!d.binary && !d.truncated);
    assert_eq!(d.hunks[0].header, "@@ -1,2 +1,2 @@ fn x()");
    let kinds: Vec<DiffLineKind> = d.hunks[0].lines.iter().map(|l| l.kind).collect();
    assert_eq!(kinds, vec![DiffLineKind::Context, DiffLineKind::Removed, DiffLineKind::Added, DiffLineKind::Added]);
    assert_eq!(d.hunks[0].lines[2].text, "new");
    assert_eq!(d.hunks[0].lines[1].old_lineno, Some(2));
    assert_eq!(d.hunks[0].lines[1].new_lineno, None);
}

#[test]
fn diffs_of_binary_and_patchless_files_have_no_hunks() {
    let out = build_diffs(vec![
        RawDelta { path: "img.png".to_string(), kind: DeltaKind::Untracked, binary: true, patch: None },
        RawDelta { path: "mode".to_string(), kind: DeltaKind::Typechange, binary: false, patch: None },
        RawDelta { path: "c".to_string(), kind: DeltaKind::Copied, binary: false, patch: Some(vec![RawHunk { header: Vec::new(), lines: Vec::new() }]) },
    ]);
    assert!(out[0].binary && out[0].hunks.is_empty());
    assert_eq!(out[0].status, FileStatus::Untracked);
    assert!(!out[1].binary && out[1].hunks.is_empty());
    assert_eq!(out[1].status, FileStatus::Modified);
    assert_eq!(out[2].status, FileStatus::Added);
    assert!(out[2].hunks.is_empty());
}

#[test]
fn diffs_are_cut_at_the_line_cap() {
    let many: Vec<RawLine> = (0..1500).map(|i| line(LineOrigin::Addition, "x\n", None, Some(i))).collect();
    let more: Vec<RawLine> = (0..1500).map(|i| line(LineOrigin::Addition, "y\n", None, Some(i))).collect();
    let raw = RawDelta {
        path: "big".to_string(),
        kind: DeltaKind::Added,
        binary: false,
        patch: Some(vec![
            RawHunk { header: b"@@ a @@".to_vec(), lines: many },
            RawHunk { header: b"@@ b @@".to_vec(), lines: more },
            RawHunk { header: b"@@ c @@".to_vec(), lines: vec![line(LineOrigin::Context, "z\n", Some(1), Some(1))] },
        ]),
    };
    let out = build_diffs(vec![raw]);
    let d = &out[0];
    assert!(d.truncated);
    assert_eq!(d.hunks.len(), 2);
    let total: usize = d.hunks.iter().map(|h| h.lines.len()).sum();
    assert_eq!(total, MAX_DIFF_LINES_PER_FILE);
    assert_eq!(d.hunks[1].lines.len(), 500);
}

#[test]
fn status_flags_collapse_by_priority() {
    let none = StatusFlags {
        conflicted: false,
        wt_new: false,
        index_renamed: false,
        wt_renamed: false,
        index_deleted: false,
        wt_deleted: false,
        index_new: false,
        index_modified: false,
        wt_modified: false,
        index_typechange: false,
        wt_typechange: false,
    };
    assert_eq!(file_status_from_git(none), None);
    assert_eq!(file_status_from_git(StatusFlags { wt_modified: true, ..none }), Some(FileStatus::Modified));
    assert_eq!(file_status_from_git(StatusFlags { index_new: true, wt_modified: true, ..none }), Some(FileStatus::Added));
    assert_eq!(file_status_from_git(StatusFlags { conflicted: true, wt_new: true, ..none }), Some(FileStatus::Conflicted));
    assert_eq!(file_status_from_git(StatusFlags { wt_new: true, wt_deleted: true, ..none }), Some(FileStatus::Untracked));
}

#[test]
fn reveal_reports_missing_paths_and_redirected_failures() {
    let err = reveal_in_finder("rel/x", None, |_t: &str| -> Result<(), String> { Ok(()) }).unwrap_err();
    assert_eq!(err, "cannot reveal 'rel/x': neither it nor any parent directory exists");
    assert_eq!(reveal_in_finder("/a", Some("/a"), |_t: &str| -> Result<(), String> { Ok(()) }), Ok(()));
    let err = reveal_in_finder("/a", Some("/a"), |_t: &str| -> Result<(), String> { Err("boom".to_string()) }).unwrap_err();
    assert_eq!(err, "boom");
    let err = reveal_in_finder("/a/b", Some("/a"), |t: &str| -> Result<(), String> { Err(format!("no {t}")) }).unwrap_err();
    assert_eq!(err, "'/a/b' does not exist yet; revealing '/a' instead also failed: no /a");
    let err = reveal_in_finder("/a/", Some("/a"), |_t: &str| -> Result<(), String> { Err("boom".to_string()) }).unwrap_err();
    assert_eq!(err, "boom");
}

#[test]
fn run_stream_collects_output_and_keeps_a_finish() {
    let (lines, outcome) = apply_run_stream(
        None,
        vec![
            RunStreamMsg::Event(CommandEvent::Started { command: "ls".to_string() }),
            RunStreamMsg::Event(CommandEvent::Output { line: "a".to_string() }),
            RunStreamMsg::Event(CommandEvent::Output { line: "b".to_string() }),
            RunStreamMsg::Event(CommandEvent::Finished { success: false, code: Some(2) }),
            RunStreamMsg::Done(Err("late".to_string())),
        ],
    );
    assert_eq!(lines, vec!["a".to_string(), "b".to_string()]);
    assert_eq!(outcome, Some(RunOutcome::Finished { success: false, code: Some(2) }));
    let (lines, outcome) = apply_run_stream(None, vec![RunStreamMsg::Done(Err("`x` could not be started".to_string()))]);
    assert!(lines.is_empty());
    assert_eq!(outcome, Some(RunOutcome::StartFailed("`x` could not be started".to_string())));
}
