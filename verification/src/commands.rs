//! The app's command surface: what each context menu offers and when an
//! entry is disabled (with its reason in the shortcut slot), which action
//! a chosen entry names, and the status lines reporting finished work.
use vstd::prelude::*;
use crate::assets::{CHECK, CLOSE, COPY, FOLDER, OPEN_EXTERNAL, PLUS, REFRESH, TRASH};
use crate::fetch::FetchOutcome;
use crate::menu::MenuItem;
use crate::order::views;
use crate::refs::opt_view;
use crate::text::{decimal, join_strings, joined, push_decimal, push_str};

verus! {

broadcast use vstd::seq_lib::group_seq_properties;

/// An action entry with exactly these fields.
pub open spec fn item_is(
    it: MenuItem,
    id: Seq<char>,
    label: Seq<char>,
    icon: Option<&'static str>,
    shortcut: Option<Seq<char>>,
    danger: bool,
    enabled: bool,
) -> bool {
    &&& it.id@ == id
    &&& it.label@ == label
    &&& it.icon == icon
    &&& opt_view(it.shortcut) == shortcut
    &&& it.danger == danger
    &&& it.enabled == enabled
    &&& !it.is_separator
}

/// A divider entry.
pub open spec fn is_divider(it: MenuItem) -> bool {
    &&& it.is_separator
    &&& !it.enabled
    &&& it.id@.len() == 0
    &&& it.label@.len() == 0
    &&& it.icon.is_none()
    &&& it.shortcut.is_none()
    &&& !it.danger
}

/// Why "Open on Remote" is unavailable: a detached HEAD has no branch to
/// open (whatever else holds); a branch without a resolvable remote URL
/// has no remote; `None` when it is available.
pub fn open_remote_disabled_reason(has_branch: bool, resolved_url: Option<&str>) -> (r: Option<&'static str>)
    ensures
        !has_branch ==> (r matches Some(s) && s@ == "detached HEAD has no branch"@),
        has_branch && resolved_url.is_none() ==> (r matches Some(s) && s@ == "no remote configured"@),
        has_branch && resolved_url.is_some() ==> r.is_none(),
{
    if !has_branch {
        return Some("detached HEAD has no branch");
    }
    if resolved_url.is_none() {
        return Some("no remote configured");
    }
    None
}

/// An entry that needs an open repository: with its shortcut when there
/// is one, else disabled with the reason in the shortcut slot.
pub fn repo_scoped_item(has_repo: bool, id: &str, label: &str, icon: &'static str, shortcut: &str) -> (r: MenuItem)
    ensures
        has_repo ==> item_is(r, id@, label@, Some(icon), Some(shortcut@), false, true),
        !has_repo ==> item_is(r, id@, label@, Some(icon), Some("open a repository first"@), false, false),
{
    let item = MenuItem::action(id, label).icon(icon);
    if has_repo {
        item.shortcut(shortcut)
    } else {
        item.disabled().shortcut("open a repository first")
    }
}

/// The worktree menu's "Open on Remote…" entry: disabled, with the reason,
/// without a repository or when [`open_remote_disabled_reason`] gives one.
pub fn open_remote_menu_item(has_repo: bool, has_branch: bool, resolved_url: Option<&str>) -> (r: MenuItem)
    ensures
        !has_repo ==> item_is(r, "open-remote"@, "Open on Remote…"@, Some(OPEN_EXTERNAL), Some("open a repository first"@), false, false),
        has_repo && !has_branch ==> item_is(r, "open-remote"@, "Open on Remote…"@, Some(OPEN_EXTERNAL), Some("detached HEAD has no branch"@), false, false),
        has_repo && has_branch && resolved_url.is_none() ==> item_is(r, "open-remote"@, "Open on Remote…"@, Some(OPEN_EXTERNAL), Some("no remote configured"@), false, false),
        has_repo && has_branch && resolved_url.is_some() ==> item_is(r, "open-remote"@, "Open on Remote…"@, Some(OPEN_EXTERNAL), None, false, true),
{
    let base = MenuItem::action("open-remote", "Open on Remote…").icon(OPEN_EXTERNAL);
    if !has_repo {
        return base.disabled().shortcut("open a repository first");
    }
    match open_remote_disabled_reason(has_branch, resolved_url) {
        Some(reason) => base.disabled().shortcut(reason),
        None => base,
    }
}

/// The worktree row menu. `is_main`: the row is the main worktree (which
/// cannot be removed); `in_multi`: the row is part of the multi-selection;
/// `multi_active`: there is a multi-selection; `open_remote`: the entry
/// from [`open_remote_menu_item`].
pub fn worktree_menu_items(is_main: bool, in_multi: bool, multi_active: bool, open_remote: MenuItem) -> (r: Vec<MenuItem>)
    ensures
        r@.len() == 10,
        item_is(r@[0], "open-editor"@, "Open in Editor"@, Some(OPEN_EXTERNAL), Some("⏎"@), false, true),
        item_is(r@[1], "run-command"@, "Run Command…"@, None, Some("⌘E"@), false, true),
        item_is(r@[2], "open-terminal"@, "Open in Terminal"@, None, Some("⌘⇧T"@), false, true),
        r@[3] == open_remote,
        item_is(r@[4], "reveal-finder"@, "Reveal in Finder"@, None, Some("⌘⇧R"@), false, true),
        item_is(r@[5], "copy-path"@, "Copy Path"@, Some(COPY), Some("⌘C"@), false, true),
        is_divider(r@[6]),
        in_multi ==> item_is(r@[7], "toggle-select"@, "Remove from Selection"@, Some(CLOSE), None, false, true),
        !in_multi && multi_active ==> item_is(r@[7], "toggle-select"@, "Add to Selection"@, Some(CHECK), Some("⌘-click"@), false, true),
        !in_multi && !multi_active ==> item_is(r@[7], "toggle-select"@, "Select"@, Some(CHECK), Some("⌘-click"@), false, true),
        is_divider(r@[8]),
        is_main ==> item_is(r@[9], "remove"@, "Remove…"@, Some(TRASH), Some("main worktree"@), true, false),
        !is_main ==> item_is(r@[9], "remove"@, "Remove…"@, Some(TRASH), Some("⌘⌫"@), true, true),
{
    let select_item = if in_multi {
        MenuItem::action("toggle-select", "Remove from Selection").icon(CLOSE)
    } else if multi_active {
        MenuItem::action("toggle-select", "Add to Selection").icon(CHECK).shortcut("⌘-click")
    } else {
        MenuItem::action("toggle-select", "Select").icon(CHECK).shortcut("⌘-click")
    };
    let remove_item = if is_main {
        MenuItem::action("remove", "Remove…").icon(TRASH).danger().disabled().shortcut("main worktree")
    } else {
        MenuItem::action("remove", "Remove…").icon(TRASH).danger().shortcut("⌘⌫")
    };
    let mut items: Vec<MenuItem> = Vec::new();
    items.push(MenuItem::action("open-editor", "Open in Editor").icon(OPEN_EXTERNAL).shortcut("⏎"));
    items.push(MenuItem::action("run-command", "Run Command…").shortcut("⌘E"));
    items.push(MenuItem::action("open-terminal", "Open in Terminal").shortcut("⌘⇧T"));
    items.push(open_remote);
    items.push(MenuItem::action("reveal-finder", "Reveal in Finder").shortcut("⌘⇧R"));
    items.push(MenuItem::action("copy-path", "Copy Path").icon(COPY).shortcut("⌘C"));
    items.push(MenuItem::separator());
    items.push(select_item);
    items.push(MenuItem::separator());
    items.push(remove_item);
    items
}

/// The menu of the list's empty space: repository actions (disabled
/// without a repository; Fetch also while a fetch runs), then Add
/// Repository.
pub fn empty_space_menu_items(has_repo: bool, fetching: bool) -> (r: Vec<MenuItem>)
    ensures
        r@.len() == 6,
        item_is(r@[0], "new-worktree"@, "New Worktree"@, Some(PLUS), Some(if has_repo { "⌘N"@ } else { "open a repository first"@ }), false, has_repo),
        !has_repo ==> item_is(r@[1], "fetch"@, "Fetch"@, Some(REFRESH), Some("open a repository first"@), false, false),
        has_repo && fetching ==> item_is(r@[1], "fetch"@, "Fetch"@, Some(REFRESH), Some("fetching…"@), false, false),
        has_repo && !fetching ==> item_is(r@[1], "fetch"@, "Fetch"@, Some(REFRESH), Some("⌘⇧F"@), false, true),
        item_is(r@[2], "prune"@, "Prune…"@, Some(TRASH), Some(if has_repo { "⌘⇧P"@ } else { "open a repository first"@ }), false, has_repo),
        item_is(r@[3], "reload"@, "Reload"@, Some(REFRESH), Some(if has_repo { "⌘R"@ } else { "open a repository first"@ }), false, has_repo),
        is_divider(r@[4]),
        item_is(r@[5], "add-repository"@, "Add Repository…"@, Some(PLUS), Some("⌘⇧O"@), false, true),
{
    let fetch_item = if !has_repo {
        MenuItem::action("fetch", "Fetch").icon(REFRESH).disabled().shortcut("open a repository first")
    } else if fetching {
        MenuItem::action("fetch", "Fetch").icon(REFRESH).disabled().shortcut("fetching…")
    } else {
        MenuItem::action("fetch", "Fetch").icon(REFRESH).shortcut("⌘⇧F")
    };
    let mut items: Vec<MenuItem> = Vec::new();
    items.push(repo_scoped_item(has_repo, "new-worktree", "New Worktree", PLUS, "⌘N"));
    items.push(fetch_item);
    items.push(repo_scoped_item(has_repo, "prune", "Prune…", TRASH, "⌘⇧P"));
    items.push(repo_scoped_item(has_repo, "reload", "Reload", REFRESH, "⌘R"));
    items.push(MenuItem::separator());
    items.push(MenuItem::action("add-repository", "Add Repository…").icon(PLUS).shortcut("⌘⇧O"));
    items
}

/// The menu of a sidebar repository row.
pub fn repo_menu_items() -> (r: Vec<MenuItem>)
    ensures
        r@.len() == 5,
        item_is(r@[0], "open"@, "Open"@, Some(FOLDER), None, false, true),
        item_is(r@[1], "reveal-finder"@, "Reveal in Finder"@, None, None, false, true),
        item_is(r@[2], "copy-path"@, "Copy Path"@, Some(COPY), None, false, true),
        is_divider(r@[3]),
        item_is(r@[4], "forget"@, "Remove from Sidebar"@, Some(TRASH), None, true, true),
{
    let mut items: Vec<MenuItem> = Vec::new();
    items.push(MenuItem::action("open", "Open").icon(FOLDER));
    items.push(MenuItem::action("reveal-finder", "Reveal in Finder"));
    items.push(MenuItem::action("copy-path", "Copy Path").icon(COPY));
    items.push(MenuItem::separator());
    items.push(MenuItem::action("forget", "Remove from Sidebar").icon(TRASH).danger());
    items
}

/// What a worktree row menu entry does.
#[derive(Debug, Clone, Copy, PartialEq, Eq)]
pub enum WorktreeAction {
    OpenEditor,
    RunCommand,
    OpenTerminal,
    OpenRemote,
    RevealFinder,
    CopyPath,
    ToggleSelect,
    Remove,
}

/// What an empty-space menu entry does.
#[derive(Debug, Clone, Copy, PartialEq, Eq)]
pub enum EmptySpaceAction {
    NewWorktree,
    Fetch,
    Prune,
    Reload,
    AddRepository,
}

/// What a repository row menu entry does.
#[derive(Debug, Clone, Copy, PartialEq, Eq)]
pub enum RepoAction {
    Open,
    RevealFinder,
    CopyPath,
    Forget,
}

fn same(a: &str, b: &str) -> (r: bool)
    ensures
        r == (a@ == b@),
{
    a.to_owned() == b.to_owned()
}

/// The worktree row action an entry id names; `None` for any other id.
pub fn worktree_action(id: &str) -> (r: Option<WorktreeAction>)
    ensures
        r == (if id@ == "open-editor"@ { Some(WorktreeAction::OpenEditor) } else if id@ == "run-command"@ { Some(WorktreeAction::RunCommand) } else if id@ == "open-terminal"@ { Some(WorktreeAction::OpenTerminal) } else if id@ == "open-remote"@ { Some(WorktreeAction::OpenRemote) } else if id@ == "reveal-finder"@ { Some(WorktreeAction::RevealFinder) } else if id@ == "copy-path"@ { Some(WorktreeAction::CopyPath) } else if id@ == "toggle-select"@ { Some(WorktreeAction::ToggleSelect) } else if id@ == "remove"@ { Some(WorktreeAction::Remove) } else { None }),
{
    if same(id, "open-editor") {
        Some(WorktreeAction::OpenEditor)
    } else if same(id, "run-command") {
        Some(WorktreeAction::RunCommand)
    } else if same(id, "open-terminal") {
        Some(WorktreeAction::OpenTerminal)
    } else if same(id, "open-remote") {
        Some(WorktreeAction::OpenRemote)
    } else if same(id, "reveal-finder") {
        Some(WorktreeAction::RevealFinder)
    } else if same(id, "copy-path") {
        Some(WorktreeAction::CopyPath)
    } else if same(id, "toggle-select") {
        Some(WorktreeAction::ToggleSelect)
    } else if same(id, "remove") {
        Some(WorktreeAction::Remove)
    } else {
        None
    }
}

/// The empty-space action an entry id names; `None` for any other id.
pub fn empty_space_action(id: &str) -> (r: Option<EmptySpaceAction>)
    ensures
        r == (if id@ == "new-worktree"@ { Some(EmptySpaceAction::NewWorktree) } else if id@ == "fetch"@ { Some(EmptySpaceAction::Fetch) } else if id@ == "prune"@ { Some(EmptySpaceAction::Prune) } else if id@ == "reload"@ { Some(EmptySpaceAction::Reload) } else if id@ == "add-repository"@ { Some(EmptySpaceAction::AddRepository) } else { None }),
{
    if same(id, "new-worktree") {
        Some(EmptySpaceAction::NewWorktree)
    } else if same(id, "fetch") {
        Some(EmptySpaceAction::Fetch)
    } else if same(id, "prune") {
        Some(EmptySpaceAction::Prune)
    } else if same(id, "reload") {
        Some(EmptySpaceAction::Reload)
    } else if same(id, "add-repository") {
        Some(EmptySpaceAction::AddRepository)
    } else {
        None
    }
}

/// The repository row action an entry id names; `None` for any other id.
pub fn repo_action(id: &str) -> (r: Option<RepoAction>)
    ensures
        r == (if id@ == "open"@ { Some(RepoAction::Open) } else if id@ == "reveal-finder"@ { Some(RepoAction::RevealFinder) } else if id@ == "copy-path"@ { Some(RepoAction::CopyPath) } else if id@ == "forget"@ { Some(RepoAction::Forget) } else { None }),
{
    if same(id, "open") {
        Some(RepoAction::Open)
    } else if same(id, "reveal-finder") {
        Some(RepoAction::RevealFinder)
    } else if same(id, "copy-path") {
        Some(RepoAction::CopyPath)
    } else if same(id, "forget") {
        Some(RepoAction::Forget)
    } else {
        None
    }
}

/// The status line of a finished fetch and whether it reports an error:
/// the remote and how many refs moved (`ref`, `refs`), or that it was
/// already up to date; or why it failed.
pub open spec fn fetch_status_of(result: Result<(Seq<char>, nat), Seq<char>>) -> (Seq<char>, bool) {
    match result {
        Ok((remote, n)) => if n > 0 {
            ("fetched "@ + remote + " · "@ + decimal(n) + " ref"@ + (if n == 1 { ""@ } else { "s"@ }) + " updated"@, false)
        } else {
            ("fetched "@ + remote + " · already up to date"@, false)
        },
        Err(e) => ("fetch failed: "@ + e, true),
    }
}

/// Reports a finished fetch; see [`fetch_status_of`].
pub fn fetch_status(result: &Result<FetchOutcome, String>) -> (r: (String, bool))
    ensures
        r.0@ == fetch_status_of(match result {
            Ok(o) => Ok::<(Seq<char>, nat), Seq<char>>((o.remote@, o.updated_refs as nat)),
            Err(e) => Err::<(Seq<char>, nat), Seq<char>>(e@),
        }).0,
        r.1 == result.is_err(),
{
    match result {
        Ok(o) => {
            let mut s = "fetched ".to_owned();
            push_str(&mut s, o.remote.as_str());
            if o.updated_refs > 0 {
                push_str(&mut s, " · ");
                push_decimal(&mut s, o.updated_refs as u64);
                push_str(&mut s, " ref");
                push_str(&mut s, if o.updated_refs == 1 { "" } else { "s" });
                push_str(&mut s, " updated");
            } else {
                push_str(&mut s, " · already up to date");
            }
            (s, false)
        },
        Err(e) => {
            let mut s = "fetch failed: ".to_owned();
            push_str(&mut s, e.as_str());
            (s, true)
        },
    }
}

/// The hint shown when a prune finds nothing: with a filter on, that
/// nothing matches; else that only missing or prunable worktrees are swept
/// unless a filter is turned on.
pub fn prune_empty_hint(merged: bool, gone: bool) -> (r: &'static str)
    ensures
        merged || gone ==> r@ == "Nothing matches the current filters."@,
        !(merged || gone) ==> r@ == "Only missing or already-prunable worktrees are swept by default — turn on Merged or Upstream gone to include more."@,
{
    if merged || gone {
        "Nothing matches the current filters."
    } else {
        "Only missing or already-prunable worktrees are swept by default — turn on Merged or Upstream gone to include more."
    }
}

/// The warning line of a destructive dialog: "This will {verb} {count}
/// worktree(s)."
pub fn destructive_count_line(count: usize, verb: &str) -> (r: String)
    ensures
        r@ == "This will "@ + verb@ + " "@ + decimal(count as nat) + " worktree"@ + (if count == 1 { ""@ } else { "s"@ }) + "."@,
{
    let mut s = "This will ".to_owned();
    push_str(&mut s, verb);
    push_str(&mut s, " ");
    push_decimal(&mut s, count as u64);
    push_str(&mut s, " worktree");
    push_str(&mut s, if count == 1 { "" } else { "s" });
    push_str(&mut s, ".");
    s
}

/// The status line reporting a finished prune or bulk removal and whether
/// it reports an error: "{verb} {n} worktree(s)", then the worktrees
/// skipped as dirty, then the failures, joined with " · ".
pub open spec fn prune_report_of(verb: Seq<char>, removed: nat, skipped: Seq<Seq<char>>, failures: Seq<Seq<char>>) -> (Seq<char>, bool) {
    let head = verb + " "@ + decimal(removed) + " worktree"@ + (if removed == 1 { ""@ } else { "s"@ });
    let with_skipped = if skipped.len() > 0 { seq![head, "skipped (dirty): "@ + joined(skipped, ", "@)] } else { seq![head] };
    let parts = if failures.len() > 0 { with_skipped.push("failed: "@ + joined(failures, "; "@)) } else { with_skipped };
    (joined(parts, " · "@), failures.len() > 0)
}

/// Reports a finished prune; see [`prune_report_of`].
pub fn prune_report(verb: &str, removed: usize, skipped: &Vec<String>, failures: &Vec<String>) -> (r: (String, bool))
    ensures
        (r.0@, r.1) == prune_report_of(verb@, removed as nat, views(skipped@), views(failures@)),
{
    let mut head = verb.to_owned();
    push_str(&mut head, " ");
    push_decimal(&mut head, removed as u64);
    push_str(&mut head, " worktree");
    push_str(&mut head, if removed == 1 { "" } else { "s" });
    let mut parts: Vec<String> = Vec::new();
    parts.push(head);
    if skipped.len() > 0 {
        let mut line = "skipped (dirty): ".to_owned();
        let list = join_strings(skipped, ", ");
        push_str(&mut line, list.as_str());
        parts.push(line);
    }
    let has_failures = failures.len() > 0;
    if has_failures {
        let mut line = "failed: ".to_owned();
        let list = join_strings(failures, "; ");
        push_str(&mut line, list.as_str());
        parts.push(line);
    }
    let ghost pv = views(parts@);
    proof {
        let spec_parts = {
            let h = verb@ + " "@ + decimal(removed as nat) + " worktree"@ + (if removed == 1 { ""@ } else { "s"@ });
            let ws = if views(skipped@).len() > 0 { seq![h, "skipped (dirty): "@ + joined(views(skipped@), ", "@)] } else { seq![h] };
            if views(failures@).len() > 0 { ws.push("failed: "@ + joined(views(failures@), "; "@)) } else { ws }
        };
        assert(pv =~= spec_parts);
    }
    let message = join_strings(&parts, " · ");
    (message, has_failures)
}

/// The status line after removing a worktree, with whether it reports an
/// error; `None` when the removal itself failed (the dialog shows that
/// error instead). `branch_result` is the result of deleting its branch,
/// when that was asked for.
pub open spec fn removal_status_of(
    removed: bool,
    branch_result: Option<Result<(), Seq<char>>>,
    branch_name: Seq<char>,
) -> Option<(Seq<char>, bool)> {
    if !removed {
        None
    } else {
        match branch_result {
            None => Some(("worktree removed"@, false)),
            Some(Ok(())) => Some(("worktree removed and branch '"@ + branch_name + "' deleted"@, false)),
            Some(Err(e)) => Some(("worktree removed, but branch delete failed: "@ + e, true)),
        }
    }
}

/// Reports a finished worktree removal; see [`removal_status_of`].
pub fn removal_status(
    remove_result: &Result<(), String>,
    branch_result: &Option<Result<(), String>>,
    branch_name: Option<&str>,
) -> (r: Option<(String, bool)>)
    ensures
        match r {
            Some((msg, err)) => removal_status_of(
                remove_result.is_ok(),
                match branch_result {
                    Some(Ok(())) => Some(Ok::<(), Seq<char>>(())),
                    Some(Err(e)) => Some(Err::<(), Seq<char>>(e@)),
                    None => None,
                },
                match branch_name { Some(b) => b@, None => Seq::<char>::empty() },
            ) == Some((msg@, err)),
            None => remove_result.is_err(),
        },
{
    if remove_result.is_err() {
        return None;
    }
    match branch_result {
        None => Some(("worktree removed".to_owned(), false)),
        Some(Ok(())) => {
            let mut msg = "worktree removed and branch '".to_owned();
            match branch_name {
                Some(b) => push_str(&mut msg, b),
                None => {},
            }
            push_str(&mut msg, "' deleted");
            Some((msg, false))
        },
        Some(Err(e)) => {
            let mut msg = "worktree removed, but branch delete failed: ".to_owned();
            push_str(&mut msg, e.as_str());
            Some((msg, true))
        },
    }
}

/// Deleting a branch is refused when it is one of the protected branches,
/// with an error naming it; `None` when it may be deleted.
pub fn branch_delete_refusal(protected: &Vec<String>, branch: &str) -> (r: Option<String>)
    ensures
        match r {
            Some(e) => views(protected@).contains(branch@) && e@ == "branch '"@ + branch@ + "' is protected and will not be touched"@,
            None => !views(protected@).contains(branch@),
        },
{
    let b = branch.to_owned();
    if crate::text::contains_string(protected, &b) {
        let mut msg = "branch '".to_owned();
        push_str(&mut msg, branch);
        push_str(&mut msg, "' is protected and will not be touched");
        Some(msg)
    } else {
        None
    }
}

/// The toolbar's prune button label: `Prune…`, followed by how many
/// worktrees a default prune would sweep when there are any.
pub fn prune_label(prunable: usize) -> (r: String)
    ensures
        prunable == 0 ==> r@ == "Prune\u{2026}"@,
        prunable > 0 ==> r@ == "Prune\u{2026} ("@ + decimal(prunable as nat) + ")"@,
{
    if prunable > 0 {
        let mut s = "Prune\u{2026} (".to_owned();
        push_decimal(&mut s, prunable as u64);
        push_str(&mut s, ")");
        s
    } else {
        "Prune\u{2026}".to_owned()
    }
}

} // verus!
