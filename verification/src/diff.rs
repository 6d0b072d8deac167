//! The diff viewer's model: a file's uncommitted changes as hunks of
//! lines, built from what git reports, with a cap on the lines kept per
//! file.
use vstd::prelude::*;
use crate::files::FileStatus;
use crate::order::views;
use crate::text::{chars_of, is_char, string_of, trim_end, trim_end_by, trim_end_chars, trim_end_matches_char};

verus! {

broadcast use vstd::seq_lib::group_seq_properties;

/// What kind of line one [`DiffLine`] is, after `git diff`'s ` `/`+`/`-`
/// markers.
#[derive(Debug, Clone, Copy, PartialEq, Eq)]
pub enum DiffLineKind {
    Context,
    Added,
    Removed,
}

/// One line of a [`DiffHunk`].
#[derive(Debug, Clone, PartialEq, Eq)]
pub struct DiffLine {
    pub kind: DiffLineKind,
    pub text: String,
    pub old_lineno: Option<u32>,
    pub new_lineno: Option<u32>,
}

/// The mathematical value of a [`DiffLine`].
pub struct LineView {
    pub kind: DiffLineKind,
    pub text: Seq<char>,
    pub old_lineno: Option<u32>,
    pub new_lineno: Option<u32>,
}

impl View for DiffLine {
    type V = LineView;

    open spec fn view(&self) -> LineView {
        LineView {
            kind: self.kind,
            text: self.text@,
            old_lineno: self.old_lineno,
            new_lineno: self.new_lineno,
        }
    }
}

/// One `@@ ... @@` hunk of a [`FileDiff`].
#[derive(Debug, Clone, PartialEq, Eq)]
pub struct DiffHunk {
    pub header: String,
    pub lines: Vec<DiffLine>,
}

/// The mathematical value of a [`DiffHunk`].
pub struct HunkView {
    pub header: Seq<char>,
    pub lines: Seq<LineView>,
}

impl View for DiffHunk {
    type V = HunkView;

    open spec fn view(&self) -> HunkView {
        HunkView { header: self.header@, lines: views(self.lines@) }
    }
}

/// All hunks for one file's uncommitted changes.
#[derive(Debug, Clone, PartialEq, Eq)]
pub struct FileDiff {
    pub path: String,
    pub status: FileStatus,
    pub hunks: Vec<DiffHunk>,
    pub binary: bool,
    /// Whether [`MAX_DIFF_LINES_PER_FILE`] cut this file's hunks short.
    pub truncated: bool,
}

/// The mathematical value of a [`FileDiff`].
pub struct FileDiffView {
    pub path: Seq<char>,
    pub status: FileStatus,
    pub hunks: Seq<HunkView>,
    pub binary: bool,
    pub truncated: bool,
}

impl View for FileDiff {
    type V = FileDiffView;

    open spec fn view(&self) -> FileDiffView {
        FileDiffView {
            path: self.path@,
            status: self.status,
            hunks: views(self.hunks@),
            binary: self.binary,
            truncated: self.truncated,
        }
    }
}

/// Cap on diff lines kept per file, summed across all its hunks.
pub const MAX_DIFF_LINES_PER_FILE: usize = 2000;

/// The origin git gives one line of a patch.
#[derive(Debug, Clone, Copy, PartialEq, Eq)]
pub enum LineOrigin {
    Context,
    Addition,
    Deletion,
    ContextEofnl,
    AddEofnl,
    DeleteEofnl,
    FileHeader,
    HunkHeader,
    Binary,
}

/// One line of a patch as git reports it.
pub struct RawLine {
    pub origin: LineOrigin,
    pub content: Vec<u8>,
    pub old_lineno: Option<u32>,
    pub new_lineno: Option<u32>,
}

/// The mathematical value of a [`RawLine`].
pub struct RawLineView {
    pub origin: LineOrigin,
    pub content: Seq<u8>,
    pub old_lineno: Option<u32>,
    pub new_lineno: Option<u32>,
}

impl View for RawLine {
    type V = RawLineView;

    open spec fn view(&self) -> RawLineView {
        RawLineView {
            origin: self.origin,
            content: self.content@,
            old_lineno: self.old_lineno,
            new_lineno: self.new_lineno,
        }
    }
}

/// One hunk of a patch as git reports it: its header bytes and lines.
pub struct RawHunk {
    pub header: Vec<u8>,
    pub lines: Vec<RawLine>,
}

/// The mathematical value of a [`RawHunk`].
pub struct RawHunkView {
    pub header: Seq<u8>,
    pub lines: Seq<RawLineView>,
}

impl View for RawHunk {
    type V = RawHunkView;

    open spec fn view(&self) -> RawHunkView {
        RawHunkView { header: self.header@, lines: views(self.lines@) }
    }
}

/// The kind of change git reports for one file of a diff.
#[derive(Debug, Clone, Copy, PartialEq, Eq)]
pub enum DeltaKind {
    Unmodified,
    Added,
    Deleted,
    Modified,
    Renamed,
    Copied,
    Ignored,
    Untracked,
    Typechange,
    Unreadable,
    Conflicted,
}

/// One file of a diff as git reports it: its path, kind of change, whether
/// git found it binary, and its patch's hunks (`None` when git made no
/// patch, e.g. for a bare mode change).
pub struct RawDelta {
    pub path: String,
    pub kind: DeltaKind,
    pub binary: bool,
    pub patch: Option<Vec<RawHunk>>,
}

/// The mathematical value of a [`RawDelta`].
pub struct RawDeltaView {
    pub path: Seq<char>,
    pub kind: DeltaKind,
    pub binary: bool,
    pub patch: Option<Seq<RawHunkView>>,
}

impl View for RawDelta {
    type V = RawDeltaView;

    open spec fn view(&self) -> RawDeltaView {
        RawDeltaView {
            path: self.path@,
            kind: self.kind,
            binary: self.binary,
            patch: match self.patch {
                Some(hs) => Some(views(hs@)),
                None => None,
            },
        }
    }
}

/// The text `String::from_utf8_lossy` decodes from `bytes`: valid UTF-8 as
/// is, each invalid sequence replaced by U+FFFD.
pub uninterp spec fn utf8_lossy(bytes: Seq<u8>) -> Seq<char>;

/// `String::from_utf8_lossy`, as an owned string.
#[verifier::external_body]
pub(crate) fn decode_utf8_lossy(bytes: &Vec<u8>) -> (s: String)
    ensures
        s@ == utf8_lossy(bytes@),
{
    String::from_utf8_lossy(bytes.as_slice()).into_owned()
}

/// Additions (including an added "no newline at end of file" marker) are
/// `Added`, deletions likewise `Removed`, everything else `Context`.
pub open spec fn kind_of_origin(o: LineOrigin) -> DiffLineKind {
    match o {
        LineOrigin::Addition | LineOrigin::AddEofnl => DiffLineKind::Added,
        LineOrigin::Deletion | LineOrigin::DeleteEofnl => DiffLineKind::Removed,
        _ => DiffLineKind::Context,
    }
}

/// The line shown for a patch line: its kind, its decoded text without
/// trailing newlines, and its line numbers.
pub open spec fn line_of(r: RawLineView) -> LineView {
    LineView {
        kind: kind_of_origin(r.origin),
        text: trim_end_by(utf8_lossy(r.content), is_char('\n')),
        old_lineno: r.old_lineno,
        new_lineno: r.new_lineno,
    }
}

/// The status badge of a kind of change: a copy counts as added, and a
/// kind a diff of changes should not carry degrades to modified.
pub open spec fn status_of_delta(k: DeltaKind) -> FileStatus {
    match k {
        DeltaKind::Added | DeltaKind::Copied => FileStatus::Added,
        DeltaKind::Untracked => FileStatus::Untracked,
        DeltaKind::Deleted => FileStatus::Deleted,
        DeltaKind::Renamed => FileStatus::Renamed,
        DeltaKind::Conflicted => FileStatus::Conflicted,
        _ => FileStatus::Modified,
    }
}

/// The number of lines in `hs`, all hunks together.
pub open spec fn line_total(hs: Seq<RawHunkView>) -> nat
    decreases hs.len(),
{
    if hs.len() == 0 {
        0
    } else {
        line_total(hs.drop_last()) + hs.last().lines.len()
    }
}

/// The hunks kept when at most `cap` lines are kept: each hunk keeps the
/// lines that still fit after the lines of the hunks before it, and a hunk
/// left with no lines is dropped.
pub open spec fn kept_hunks(hs: Seq<RawHunkView>, cap: nat) -> Seq<HunkView>
    decreases hs.len(),
{
    if hs.len() == 0 {
        Seq::empty()
    } else {
        let init = kept_hunks(hs.drop_last(), cap);
        let before = line_total(hs.drop_last());
        let room: nat = if before >= cap { 0 } else { (cap - before) as nat };
        let h = hs.last();
        let n = if h.lines.len() < room { h.lines.len() } else { room };
        if n == 0 {
            init
        } else {
            init.push(
                HunkView {
                    header: trim_end(utf8_lossy(h.header)),
                    lines: h.lines.take(n as int).map_values(|l: RawLineView| line_of(l)),
                },
            )
        }
    }
}

/// The diff shown for one file: no hunks for a binary file or one without
/// a patch; otherwise the hunks kept under [`MAX_DIFF_LINES_PER_FILE`],
/// truncated exactly when the patch has more lines than that.
pub open spec fn file_diff_of(d: RawDeltaView) -> FileDiffView {
    if d.binary {
        FileDiffView { path: d.path, status: status_of_delta(d.kind), hunks: Seq::empty(), binary: true, truncated: false }
    } else {
        match d.patch {
            None => FileDiffView {
                path: d.path,
                status: status_of_delta(d.kind),
                hunks: Seq::empty(),
                binary: false,
                truncated: false,
            },
            Some(hs) => FileDiffView {
                path: d.path,
                status: status_of_delta(d.kind),
                hunks: kept_hunks(hs, MAX_DIFF_LINES_PER_FILE as nat),
                binary: false,
                truncated: line_total(hs) > MAX_DIFF_LINES_PER_FILE,
            },
        }
    }
}

/// Maps git's kind of change to the status badge.
pub fn delta_status(kind: DeltaKind) -> (r: FileStatus)
    ensures
        r == status_of_delta(kind),
{
    match kind {
        DeltaKind::Added | DeltaKind::Copied => FileStatus::Added,
        DeltaKind::Untracked => FileStatus::Untracked,
        DeltaKind::Deleted => FileStatus::Deleted,
        DeltaKind::Renamed => FileStatus::Renamed,
        DeltaKind::Conflicted => FileStatus::Conflicted,
        _ => FileStatus::Modified,
    }
}

/// The kind of a patch line.
pub fn line_kind(origin: LineOrigin) -> (r: DiffLineKind)
    ensures
        r == kind_of_origin(origin),
{
    match origin {
        LineOrigin::Addition | LineOrigin::AddEofnl => DiffLineKind::Added,
        LineOrigin::Deletion | LineOrigin::DeleteEofnl => DiffLineKind::Removed,
        _ => DiffLineKind::Context,
    }
}

/// The shown line for one patch line.
pub fn diff_line(raw: &RawLine) -> (r: DiffLine)
    ensures
        r@ == line_of(raw@),
{
    let decoded = decode_utf8_lossy(&raw.content);
    let text = string_of(&trim_end_matches_char(&chars_of(decoded.as_str()), '\n'));
    DiffLine { kind: line_kind(raw.origin), text, old_lineno: raw.old_lineno, new_lineno: raw.new_lineno }
}

/// The header shown for a hunk: its decoded bytes without trailing white
/// space.
pub fn hunk_header(bytes: &Vec<u8>) -> (r: String)
    ensures
        r@ == trim_end(utf8_lossy(bytes@)),
{
    let decoded = decode_utf8_lossy(bytes);
    string_of(&trim_end_chars(&chars_of(decoded.as_str())))
}

/// The hunks kept under [`MAX_DIFF_LINES_PER_FILE`] and whether any line
/// was cut.
pub fn collect_hunks(hunks: &Vec<RawHunk>) -> (r: (Vec<DiffHunk>, bool))
    ensures
        views(r.0@) == kept_hunks(views(hunks@), MAX_DIFF_LINES_PER_FILE as nat),
        r.1 == (line_total(views(hunks@)) > MAX_DIFF_LINES_PER_FILE),
{
    let ghost hs = views(hunks@);
    let ghost cap = MAX_DIFF_LINES_PER_FILE as nat;
    let mut out: Vec<DiffHunk> = Vec::new();
    let mut total: usize = 0;
    let mut truncated = false;
    let mut h: usize = 0;
    proof {
        assert(hs.take(0) =~= Seq::<RawHunkView>::empty());
        assert(views(out@) =~= Seq::<HunkView>::empty());
    }
    while h < hunks.len()
        invariant
            h <= hunks@.len(),
            hs == views(hunks@),
            cap == MAX_DIFF_LINES_PER_FILE as nat,
            total == (if line_total(hs.take(h as int)) >= cap { cap } else { line_total(hs.take(h as int)) }),
            truncated == (line_total(hs.take(h as int)) > cap),
            views(out@) == kept_hunks(hs.take(h as int), cap),
        decreases hunks.len() - h,
    {
        let ghost pre = hs.take(h as int);
        let ghost post = hs.take(h + 1);
        proof {
            assert(post.drop_last() =~= pre);
            assert(post.last() == hs[h as int]);
            assert(hs[h as int] == hunks@[h as int]@);
        }
        let hunk = &hunks[h];
        let len = hunk.lines.len();
        let room = MAX_DIFF_LINES_PER_FILE - total;
        let n = if len < room { len } else { room };
        if n < len {
            truncated = true;
        }
        if n > 0 {
            let header = hunk_header(&hunk.header);
            let mut lines: Vec<DiffLine> = Vec::new();
            let mut k: usize = 0;
            let ghost raw_lines = hs[h as int].lines;
            while k < n
                invariant
                    k <= n <= hunk.lines@.len(),
                    raw_lines == views(hunk.lines@),
                    views(lines@) == raw_lines.take(k as int).map_values(|l: RawLineView| line_of(l)),
                decreases n - k,
            {
                let ghost old_lines = lines@;
                let line = diff_line(&hunk.lines[k]);
                lines.push(line);
                proof {
                    assert(raw_lines[k as int] == hunk.lines@[k as int]@);
                    assert(views(lines@) =~= views(old_lines).push(line@));
                    assert(raw_lines.take(k + 1).map_values(|l: RawLineView| line_of(l))
                        =~= raw_lines.take(k as int).map_values(|l: RawLineView| line_of(l)).push(line_of(raw_lines[k as int])));
                }
                k = k + 1;
            }
            let ghost old_out = out@;
            let dh = DiffHunk { header, lines };
            out.push(dh);
            proof {
                assert(views(out@) =~= views(old_out).push(dh@));
            }
        }
        total = total + n;
        h = h + 1;
    }
    proof {
        assert(hs.take(hunks@.len() as int) =~= hs);
    }
    (out, truncated)
}

/// The shown diff of one file.
pub fn file_diff_from(raw: RawDelta) -> (r: FileDiff)
    ensures
        r@ == file_diff_of(raw@),
{
    let status = delta_status(raw.kind);
    if raw.binary {
        let r = FileDiff { path: raw.path, status, hunks: Vec::new(), binary: true, truncated: false };
        assert(views(r.hunks@) =~= Seq::<HunkView>::empty());
        return r;
    }
    match raw.patch {
        None => {
            let r = FileDiff { path: raw.path, status, hunks: Vec::new(), binary: false, truncated: false };
            assert(views(r.hunks@) =~= Seq::<HunkView>::empty());
            r
        },
        Some(hs) => {
            let (hunks, truncated) = collect_hunks(&hs);
            FileDiff { path: raw.path, status, hunks, binary: false, truncated }
        },
    }
}

/// The shown diffs of all files of a diff, in git's order.
pub fn build_diffs(raws: Vec<RawDelta>) -> (r: Vec<FileDiff>)
    ensures
        views(r@) == views(raws@).map_values(|d: RawDeltaView| file_diff_of(d)),
{
    let ghost rv = views(raws@);
    let mut out: Vec<FileDiff> = Vec::new();
    let mut rest = raws;
    let ghost mut i: int = 0;
    while rest.len() > 0
        invariant
            0 <= i <= rv.len(),
            rest@.len() + i == rv.len(),
            views(rest@) == rv.skip(i),
            views(out@) == rv.take(i).map_values(|d: RawDeltaView| file_diff_of(d)),
        decreases rest.len(),
    {
        let ghost before = rest@;
        let ghost old_out = out@;
        let d = rest.remove(0);
        proof {
            assert(views(before)[0] == rv.skip(i)[0]);
            assert forall|m: int| 0 <= m < rest@.len() implies #[trigger] views(rest@)[m] == rv.skip(i + 1)[m] by {
                assert(rest@[m] == before[m + 1]);
                assert(views(before)[m + 1] == rv.skip(i)[m + 1]);
            }
        }
        let fd = file_diff_from(d);
        out.push(fd);
        proof {
            assert(views(rest@) =~= rv.skip(i + 1));
            assert(views(out@) =~= views(old_out).push(fd@));
            assert(rv.take(i + 1).map_values(|d: RawDeltaView| file_diff_of(d))
                =~= rv.take(i).map_values(|d: RawDeltaView| file_diff_of(d)).push(file_diff_of(rv[i])));
            i = i + 1;
        }
    }
    proof {
        assert(rv.take(i) =~= rv);
    }
    out
}

/// The number of lines in shown hunks.
pub open spec fn shown_lines(hs: Seq<HunkView>) -> nat
    decreases hs.len(),
{
    if hs.len() == 0 {
        0
    } else {
        shown_lines(hs.drop_last()) + hs.last().lines.len()
    }
}

/// The cap holds: the kept hunks show exactly the patch's lines up to the
/// cap, no more, and all of them when the patch is within it.
pub proof fn law_kept_lines_within_cap(hs: Seq<RawHunkView>, cap: nat)
    ensures
        shown_lines(kept_hunks(hs, cap)) == (if line_total(hs) < cap { line_total(hs) } else { cap }),
    decreases hs.len(),
{
    if hs.len() > 0 {
        law_kept_lines_within_cap(hs.drop_last(), cap);
        let init = kept_hunks(hs.drop_last(), cap);
        let before = line_total(hs.drop_last());
        let room: nat = if before >= cap { 0 } else { (cap - before) as nat };
        let h = hs.last();
        let n = if h.lines.len() < room { h.lines.len() } else { room };
        if n > 0 {
            let hv = HunkView {
                header: trim_end(utf8_lossy(h.header)),
                lines: h.lines.take(n as int).map_values(|l: RawLineView| line_of(l)),
            };
            assert(init.push(hv).drop_last() =~= init);
            assert(kept_hunks(hs, cap) == init.push(hv));
        }
    }
}

/// The badge of every shown diff names its file's kind of change: each
/// kind with a badge of its own (added, untracked, deleted, renamed,
/// conflicted) gets exactly that badge, a copy reads as added, and only
/// the remaining kinds read as modified; the path is the file's own.
pub proof fn law_diff_badge_names_the_change(d: RawDeltaView)
    ensures
        file_diff_of(d).path == d.path,
        (file_diff_of(d).status == FileStatus::Deleted) <==> d.kind == DeltaKind::Deleted,
        (file_diff_of(d).status == FileStatus::Untracked) <==> d.kind == DeltaKind::Untracked,
        (file_diff_of(d).status == FileStatus::Renamed) <==> d.kind == DeltaKind::Renamed,
        (file_diff_of(d).status == FileStatus::Conflicted) <==> d.kind == DeltaKind::Conflicted,
        (file_diff_of(d).status == FileStatus::Added) <==> (d.kind == DeltaKind::Added || d.kind == DeltaKind::Copied),
        (file_diff_of(d).status == FileStatus::Modified) <==> (d.kind == DeltaKind::Modified
            || d.kind == DeltaKind::Typechange || d.kind == DeltaKind::Unmodified || d.kind == DeltaKind::Ignored
            || d.kind == DeltaKind::Unreadable),
{
}

/// Each shown line keeps its patch line's numbers, and is marked added
/// exactly for an addition, removed exactly for a deletion (either with its
/// end-of-file note), and context otherwise.
pub proof fn law_line_kind_follows_origin(r: RawLineView)
    ensures
        line_of(r).old_lineno == r.old_lineno,
        line_of(r).new_lineno == r.new_lineno,
        (line_of(r).kind == DiffLineKind::Added) <==> (r.origin == LineOrigin::Addition || r.origin == LineOrigin::AddEofnl),
        (line_of(r).kind == DiffLineKind::Removed) <==> (r.origin == LineOrigin::Deletion || r.origin == LineOrigin::DeleteEofnl),
{
}

/// A binary file, or one without a patch, shows no hunks and is never
/// marked cut; otherwise it is marked cut exactly when its patch has more
/// lines than the cap, and the hunks shown hold exactly the patch's lines
/// up to the cap.
pub proof fn law_diff_shape(d: RawDeltaView)
    ensures
        file_diff_of(d).binary == d.binary,
        (d.binary || d.patch is None) ==> file_diff_of(d).hunks.len() == 0 && !file_diff_of(d).truncated,
        (!d.binary && d.patch is Some) ==> file_diff_of(d).truncated == (line_total(d.patch->0) > MAX_DIFF_LINES_PER_FILE)
            && shown_lines(file_diff_of(d).hunks) == (if line_total(d.patch->0) < MAX_DIFF_LINES_PER_FILE {
                line_total(d.patch->0)
            } else {
                MAX_DIFF_LINES_PER_FILE as nat
            }),
{
    if !d.binary && d.patch is Some {
        law_kept_lines_within_cap(d.patch->0, MAX_DIFF_LINES_PER_FILE as nat);
    }
}

} // verus!
