//! The icon set: every icon the app can draw, by the path a view names
//! it with, and the asset source's lookup over that table. The drawing
//! data itself is embedded by the host, in table order.
use vstd::prelude::*;
use crate::remote_url::chars_eq;
use crate::text::{chars_of, starts_with};

verus! {

broadcast use vstd::seq_lib::group_seq_properties;
/// Icon path.
pub const ARCHIVE: &'static str = "icons/archive.svg";
/// Icon path.
pub const ARROW_DOWN: &'static str = "icons/arrow-down.svg";
/// Icon path.
pub const ARROW_UP: &'static str = "icons/arrow-up.svg";
/// Icon path.
pub const ARROW_UP_DOWN: &'static str = "icons/arrow-up-down.svg";
/// Icon path.
pub const CHECK: &'static str = "icons/check.svg";
/// Icon path.
pub const CHEVRON_DOWN: &'static str = "icons/chevron-down.svg";
/// Icon path.
pub const CHEVRON_RIGHT: &'static str = "icons/chevron-right.svg";
/// Icon path.
pub const CHEVRON_UP: &'static str = "icons/chevron-up.svg";
/// Icon path.
pub const CIRCLE_ALERT: &'static str = "icons/circle-alert.svg";
/// Icon path.
pub const CIRCLE_CHECK: &'static str = "icons/circle-check.svg";
/// Icon path.
pub const CIRCLE_DOT: &'static str = "icons/circle-dot.svg";
/// Icon path.
pub const CIRCLE_X: &'static str = "icons/circle-x.svg";
/// Icon path.
pub const CLOCK: &'static str = "icons/clock.svg";
/// Icon path.
pub const COMMAND: &'static str = "icons/command.svg";
/// Icon path.
pub const COPY: &'static str = "icons/copy.svg";
/// Icon path.
pub const ENTER: &'static str = "icons/corner-down-left.svg";
/// Icon path.
pub const ELLIPSIS: &'static str = "icons/ellipsis.svg";
/// Icon path.
pub const EXTERNAL_LINK: &'static str = "icons/external-link.svg";
/// Icon path.
pub const FILE: &'static str = "icons/file.svg";
/// Icon path.
pub const FILE_DIFF: &'static str = "icons/file-diff.svg";
/// Icon path.
pub const FOLDER: &'static str = "icons/folder.svg";
/// Icon path.
pub const FOLDER_OPEN: &'static str = "icons/folder-open.svg";
/// Icon path.
pub const GIT_BRANCH: &'static str = "icons/git-branch.svg";
/// Icon path.
pub const GIT_COMMIT_HORIZONTAL: &'static str = "icons/git-commit-horizontal.svg";
/// Icon path.
pub const GIT_MERGE: &'static str = "icons/git-merge.svg";
/// Icon path.
pub const HARD_DRIVE: &'static str = "icons/hard-drive.svg";
/// Icon path.
pub const LIST_FILTER: &'static str = "icons/list-filter.svg";
/// Icon path.
pub const LOADER_CIRCLE: &'static str = "icons/loader-circle.svg";
/// Icon path.
pub const LOCK: &'static str = "icons/lock.svg";
/// Icon path.
pub const PANEL_LEFT: &'static str = "icons/panel-left.svg";
/// Icon path.
pub const PANEL_RIGHT: &'static str = "icons/panel-right.svg";
/// Icon path.
pub const PENCIL: &'static str = "icons/pencil.svg";
/// Icon path.
pub const PLAY: &'static str = "icons/play.svg";
/// Icon path.
pub const PLUS: &'static str = "icons/plus.svg";
/// Icon path.
pub const REFRESH: &'static str = "icons/refresh-cw.svg";
/// Icon path.
pub const ROTATE_CW: &'static str = "icons/rotate-cw.svg";
/// Icon path.
pub const SEARCH: &'static str = "icons/search.svg";
/// Icon path.
pub const SETTINGS: &'static str = "icons/settings.svg";
/// Icon path.
pub const OPEN_EXTERNAL: &'static str = "icons/square-arrow-out-up-right.svg";
/// Icon path.
pub const TERMINAL: &'static str = "icons/terminal.svg";
/// Icon path.
pub const TRASH: &'static str = "icons/trash-2.svg";
/// Icon path.
pub const WARNING: &'static str = "icons/triangle-alert.svg";
/// Icon path.
pub const CLOSE: &'static str = "icons/x.svg";
/// Every icon the app can draw, in table order.
pub open spec fn icon_paths() -> Seq<&'static str> {
    seq![
        ARCHIVE,
        ARROW_DOWN,
        ARROW_UP,
        ARROW_UP_DOWN,
        CHECK,
        CHEVRON_DOWN,
        CHEVRON_RIGHT,
        CHEVRON_UP,
        CIRCLE_ALERT,
        CIRCLE_CHECK,
        CIRCLE_DOT,
        CIRCLE_X,
        CLOCK,
        COMMAND,
        COPY,
        ENTER,
        ELLIPSIS,
        EXTERNAL_LINK,
        FILE,
        FILE_DIFF,
        FOLDER,
        FOLDER_OPEN,
        GIT_BRANCH,
        GIT_COMMIT_HORIZONTAL,
        GIT_MERGE,
        HARD_DRIVE,
        LIST_FILTER,
        LOADER_CIRCLE,
        LOCK,
        PANEL_LEFT,
        PANEL_RIGHT,
        PENCIL,
        PLAY,
        PLUS,
        REFRESH,
        ROTATE_CW,
        SEARCH,
        SETTINGS,
        OPEN_EXTERNAL,
        TERMINAL,
        TRASH,
        WARNING,
        CLOSE,
    ]
}

/// The icon table.
pub fn icon_table() -> (r: Vec<&'static str>)
    ensures
        r@ == icon_paths(),
{
    let mut r: Vec<&'static str> = Vec::new();
    r.push(ARCHIVE);
    r.push(ARROW_DOWN);
    r.push(ARROW_UP);
    r.push(ARROW_UP_DOWN);
    r.push(CHECK);
    r.push(CHEVRON_DOWN);
    r.push(CHEVRON_RIGHT);
    r.push(CHEVRON_UP);
    r.push(CIRCLE_ALERT);
    r.push(CIRCLE_CHECK);
    r.push(CIRCLE_DOT);
    r.push(CIRCLE_X);
    r.push(CLOCK);
    r.push(COMMAND);
    r.push(COPY);
    r.push(ENTER);
    r.push(ELLIPSIS);
    r.push(EXTERNAL_LINK);
    r.push(FILE);
    r.push(FILE_DIFF);
    r.push(FOLDER);
    r.push(FOLDER_OPEN);
    r.push(GIT_BRANCH);
    r.push(GIT_COMMIT_HORIZONTAL);
    r.push(GIT_MERGE);
    r.push(HARD_DRIVE);
    r.push(LIST_FILTER);
    r.push(LOADER_CIRCLE);
    r.push(LOCK);
    r.push(PANEL_LEFT);
    r.push(PANEL_RIGHT);
    r.push(PENCIL);
    r.push(PLAY);
    r.push(PLUS);
    r.push(REFRESH);
    r.push(ROTATE_CW);
    r.push(SEARCH);
    r.push(SETTINGS);
    r.push(OPEN_EXTERNAL);
    r.push(TERMINAL);
    r.push(TRASH);
    r.push(WARNING);
    r.push(CLOSE);
    assert(r@ =~= icon_paths());
    r
}

/// The app's asset source: looks icons up in the table.
pub struct Assets;

impl Assets {
    /// The table position of the icon at `path`; `None` when no icon has
    /// that path.
    pub fn load(&self, path: &str) -> (r: Option<usize>)
        ensures
            match r {
                Some(i) => i < icon_paths().len() && icon_paths()[i as int]@ == path@
                    && forall|j: int| 0 <= j < i ==> icon_paths()[j]@ != path@,
                None => forall|j: int| 0 <= j < icon_paths().len() ==> icon_paths()[j]@ != path@,
            },
    {
        let table = icon_table();
        let want = chars_of(path);
        let mut i: usize = 0;
        while i < table.len()
            invariant
                table@ == icon_paths(),
                want@ == path@,
                i <= table@.len(),
                forall|j: int| 0 <= j < i ==> icon_paths()[j]@ != path@,
            decreases table.len() - i,
        {
            let name = chars_of(table[i]);
            if chars_eq(&name, &want) {
                return Some(i);
            }
            i = i + 1;
        }
        None
    }

    /// The paths of the icons under `prefix`, in table order.
    pub fn list(&self, prefix: &str) -> (r: Vec<&'static str>)
        ensures
            r@ == icon_paths().filter(|n: &'static str| prefix@.is_prefix_of(n@)),
    {
        let ghost pred = |n: &'static str| prefix@.is_prefix_of(n@);
        let table = icon_table();
        let want = chars_of(prefix);
        let mut r: Vec<&'static str> = Vec::new();
        let mut i: usize = 0;
        proof {
            assert(icon_paths().take(0) =~= Seq::<&'static str>::empty());
            assert(Seq::<&'static str>::empty().filter(pred) =~= Seq::<&'static str>::empty()) by {
                reveal(Seq::filter);
            }
        }
        while i < table.len()
            invariant
                table@ == icon_paths(),
                want@ == prefix@,
                i <= table@.len(),
                pred == (|n: &'static str| prefix@.is_prefix_of(n@)),
                r@ == icon_paths().take(i as int).filter(pred),
            decreases table.len() - i,
        {
            let name = chars_of(table[i]);
            proof {
                assert(icon_paths().take(i + 1) =~= icon_paths().take(i as int).push(table@[i as int]));
                icon_paths().take(i as int).lemma_filter_push(table@[i as int], pred);
            }
            if starts_with(&name, &want) {
                r.push(table[i]);
            }
            i = i + 1;
        }
        proof {
            assert(icon_paths().take(icon_paths().len() as int) =~= icon_paths());
        }
        r
    }
}

} // verus!
