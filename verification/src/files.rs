//! The file browser's model: per-path git status, one directory listing's
//! entries, and their display order.
use vstd::prelude::*;
use crate::order::{
    SortKey, items_of, keys_agree, lemma_sorted_items, stable_sort_by_key, stably_sorted_by,
};
use crate::text::{chars_of, lemma_split_on_step, split_on};

verus! {

/// Git status for one path, collapsed to what a file browser or diff
/// viewer badges an entry with.
#[derive(Debug, Clone, Copy, PartialEq, Eq)]
pub enum FileStatus {
    Modified,
    Added,
    Deleted,
    Renamed,
    Untracked,
    Conflicted,
}

/// The per-side status bits git reports for one path (index vs. working
/// tree), as plain flags.
#[derive(Debug, Clone, Copy, PartialEq, Eq)]
pub struct StatusFlags {
    pub conflicted: bool,
    pub wt_new: bool,
    pub index_renamed: bool,
    pub wt_renamed: bool,
    pub index_deleted: bool,
    pub wt_deleted: bool,
    pub index_new: bool,
    pub index_modified: bool,
    pub wt_modified: bool,
    pub index_typechange: bool,
    pub wt_typechange: bool,
}

/// One entry in a directory listing.
#[derive(Debug, Clone, PartialEq, Eq)]
pub struct FileEntry {
    pub name: String,
    /// Path relative to the worktree root.
    pub rel_path: String,
    pub is_dir: bool,
    /// Git status for this path, if any.
    pub status: Option<FileStatus>,
}

/// The status shown for a path: a conflict wins, then untracked, then
/// renamed, deleted, added, and finally any modification or type change.
pub open spec fn status_of(f: StatusFlags) -> Option<FileStatus> {
    if f.conflicted {
        Some(FileStatus::Conflicted)
    } else if f.wt_new {
        Some(FileStatus::Untracked)
    } else if f.index_renamed || f.wt_renamed {
        Some(FileStatus::Renamed)
    } else if f.index_deleted || f.wt_deleted {
        Some(FileStatus::Deleted)
    } else if f.index_new {
        Some(FileStatus::Added)
    } else if f.index_modified || f.wt_modified || f.index_typechange || f.wt_typechange {
        Some(FileStatus::Modified)
    } else {
        None
    }
}

/// Collapses git's per-side status bits into one [`FileStatus`]; `None`
/// when none of the bits above are set.
pub fn file_status_from_git(status: StatusFlags) -> (r: Option<FileStatus>)
    ensures
        r == status_of(status),
{
    if status.conflicted {
        return Some(FileStatus::Conflicted);
    }
    if status.wt_new {
        return Some(FileStatus::Untracked);
    }
    if status.index_renamed || status.wt_renamed {
        return Some(FileStatus::Renamed);
    }
    if status.index_deleted || status.wt_deleted {
        return Some(FileStatus::Deleted);
    }
    if status.index_new {
        return Some(FileStatus::Added);
    }
    if status.index_modified || status.wt_modified || status.index_typechange
        || status.wt_typechange {
        return Some(FileStatus::Modified);
    }
    None
}

/// With no conflict, new, renamed, deleted or added bit set, a path is
/// badged modified exactly when one of its modification or type-change
/// bits is set, on either side, and has no badge otherwise.
pub proof fn law_modification_bits_mean_modified(f: StatusFlags)
    requires
        !f.conflicted,
        !f.wt_new,
        !f.index_renamed,
        !f.wt_renamed,
        !f.index_deleted,
        !f.wt_deleted,
        !f.index_new,
    ensures
        f.index_modified ==> status_of(f) == Some(FileStatus::Modified),
        f.wt_modified ==> status_of(f) == Some(FileStatus::Modified),
        f.index_typechange ==> status_of(f) == Some(FileStatus::Modified),
        f.wt_typechange ==> status_of(f) == Some(FileStatus::Modified),
        !(f.index_modified || f.wt_modified || f.index_typechange || f.wt_typechange) ==> status_of(f).is_none(),
{
}

/// Every bit git reports earns a badge: a path has no badge exactly when
/// none of its status bits is set.
pub proof fn law_any_status_bit_gives_a_badge(f: StatusFlags)
    ensures
        status_of(f).is_none() <==> !(f.conflicted || f.wt_new || f.index_renamed || f.wt_renamed
            || f.index_deleted || f.wt_deleted || f.index_new || f.index_modified || f.wt_modified
            || f.index_typechange || f.wt_typechange),
{
}

/// A conflict outranks every other bit, and the bits that name a kind of
/// change give that kind when no higher-ranked bit is set.
pub proof fn law_status_badge_ranks(f: StatusFlags)
    ensures
        f.conflicted ==> status_of(f) == Some(FileStatus::Conflicted),
        !f.conflicted && f.wt_new ==> status_of(f) == Some(FileStatus::Untracked),
        !f.conflicted && !f.wt_new && (f.index_renamed || f.wt_renamed) ==> status_of(f) == Some(FileStatus::Renamed),
        !f.conflicted && !f.wt_new && !f.index_renamed && !f.wt_renamed && (f.index_deleted || f.wt_deleted)
            ==> status_of(f) == Some(FileStatus::Deleted),
        !f.conflicted && !f.wt_new && !f.index_renamed && !f.wt_renamed && !f.index_deleted && !f.wt_deleted
            && f.index_new ==> status_of(f) == Some(FileStatus::Added),
{
}

/// Whether a relative path has a `..` component, i.e. could climb out of
/// the worktree it is joined onto.
pub open spec fn has_parent_component(rel: Seq<char>) -> bool {
    split_on(rel, '/').contains(seq!['.', '.'])
}

/// Rejects a relative path that could climb out of the worktree via a `..`
/// component, whether or not the `..` would net out back inside.
pub fn escapes_worktree(rel: &str) -> (r: bool)
    ensures
        r == has_parent_component(rel@),
{
    let v = chars_of(rel);
    let mut found = false;
    let mut cur: Vec<char> = Vec::new();
    let mut i: usize = 0;
    proof {
        assert(v@.take(0) =~= Seq::<char>::empty());
    }
    while i < v.len()
        invariant
            i <= v@.len(),
            split_on(v@.take(i as int), '/').len() >= 1,
            cur@ == split_on(v@.take(i as int), '/').last(),
            found == split_on(v@.take(i as int), '/').drop_last().contains(seq!['.', '.']),
        decreases v.len() - i,
    {
        let c = v[i];
        let ghost before = split_on(v@.take(i as int), '/');
        proof {
            lemma_split_on_step(v@, '/', i as int);
        }
        if c == '/' {
            let dots = cur.len() == 2 && cur[0] == '.' && cur[1] == '.';
            proof {
                let after = before.push(Seq::<char>::empty());
                assert(after.drop_last() =~= before);
                assert(dots == (cur@ == seq!['.', '.'])) by {
                    if cur@ == seq!['.', '.'] {
                        assert(cur@[0] == '.' && cur@[1] == '.');
                    }
                    if dots {
                        assert(cur@ =~= seq!['.', '.']);
                    }
                }
                assert(before =~= before.drop_last().push(before.last()));
                assert(before.contains(seq!['.', '.']) == (before.drop_last().contains(seq!['.', '.']) || before.last() == seq!['.', '.'])) by {
                    if before.contains(seq!['.', '.']) {
                        let k = choose|k: int| 0 <= k < before.len() && before[k] == seq!['.', '.'];
                        if k < before.len() - 1 {
                            assert(before.drop_last()[k] == before[k]);
                        }
                    }
                    if before.drop_last().contains(seq!['.', '.']) {
                        let k = choose|k: int| 0 <= k < before.drop_last().len() && before.drop_last()[k] == seq!['.', '.'];
                        assert(before[k] == before.drop_last()[k]);
                    }
                }
            }
            found = found || dots;
            cur = Vec::new();
            proof {
                assert(cur@ =~= Seq::<char>::empty());
            }
        } else {
            cur.push(c);
            proof {
                let after = before.update(before.len() - 1, before.last().push(c));
                assert(after.drop_last() =~= before.drop_last());
            }
        }
        i = i + 1;
    }
    let last_dots = cur.len() == 2 && cur[0] == '.' && cur[1] == '.';
    proof {
        let segs = split_on(v@, '/');
        assert(v@.take(v@.len() as int) =~= v@);
        assert(last_dots == (cur@ == seq!['.', '.'])) by {
            if cur@ == seq!['.', '.'] {
                assert(cur@[0] == '.' && cur@[1] == '.');
            }
            if last_dots {
                assert(cur@ =~= seq!['.', '.']);
            }
        }
        assert(segs =~= segs.drop_last().push(segs.last()));
        if segs.contains(seq!['.', '.']) {
            let k = choose|k: int| 0 <= k < segs.len() && segs[k] == seq!['.', '.'];
            if k < segs.len() - 1 {
                assert(segs.drop_last()[k] == segs[k]);
            }
        }
        if segs.drop_last().contains(seq!['.', '.']) {
            let k = choose|k: int| 0 <= k < segs.drop_last().len() && segs.drop_last()[k] == seq!['.', '.'];
            assert(segs[k] == segs.drop_last()[k]);
        }
    }
    found || last_dots
}

/// The lower-case form of `s` under Unicode's full case mapping, with its
/// context-sensitive final-sigma rule (what `str::to_lowercase` computes).
pub uninterp spec fn lowercase(s: Seq<char>) -> Seq<char>;

/// `str::to_lowercase`.
#[verifier::external_body]
pub(crate) fn to_lowercase(s: &str) -> (r: String)
    ensures
        r@ == lowercase(s@),
{
    s.to_lowercase()
}

/// The display order key of an entry: directories before files, then the
/// name compared case-insensitively.
pub open spec fn file_entry_key(e: FileEntry) -> (u8, Seq<char>) {
    (if e.is_dir { 0u8 } else { 1u8 }, lowercase(e.name@))
}

/// Directories first, then files, each alphabetical case-insensitively;
/// entries that compare equal keep their order.
pub fn sort_file_entries(entries: &mut Vec<FileEntry>)
    ensures
        stably_sorted_by(old(entries)@, final(entries)@, |e: FileEntry| file_entry_key(e)),
{
    let ghost key = |e: FileEntry| file_entry_key(e);
    let ghost orig = old(entries)@;
    let mut rest: Vec<FileEntry> = Vec::new();
    std::mem::swap(&mut rest, entries);
    let mut keyed: Vec<(SortKey, FileEntry)> = Vec::new();
    let ghost mut i: int = 0;
    while rest.len() > 0
        invariant
            0 <= i <= orig.len(),
            key == (|e: FileEntry| file_entry_key(e)),
            rest@ == orig.skip(i),
            keys_agree(keyed@, key),
            keyed@.len() == i,
            items_of(keyed@) == orig.take(i),
        decreases rest.len(),
    {
        let e = rest.remove(0);
        let lower = to_lowercase(e.name.as_str());
        let k = SortKey { rank: if e.is_dir { 0 } else { 1 }, text: chars_of(lower.as_str()) };
        let ghost before = keyed@;
        let ghost ee = e;
        proof {
            assert(k@ == file_entry_key(ee));
            assert(key(ee) == file_entry_key(ee));
        }
        keyed.push((k, e));
        proof {
            assert(orig.skip(i)[0] == ee);
            assert(orig[i] == ee);
            assert(before.len() == i);
            assert forall|j: int| 0 <= j < keyed@.len() implies #[trigger] items_of(keyed@)[j] == orig.take(i + 1)[j] by {
                if j < before.len() {
                    assert(keyed@[j] == before[j]);
                    assert(items_of(before)[j] == orig.take(i)[j]);
                } else {
                    assert(keyed@[j] == (k, ee));
                }
            }
            i = i + 1;
            assert(rest@ =~= orig.skip(i));
            assert(items_of(keyed@) =~= orig.take(i));
            assert forall|j: int| 0 <= j < keyed@.len() implies #[trigger] keyed@[j].0@ == key(keyed@[j].1) by {
                if j < before.len() {
                    assert(keyed@[j] == before[j]);
                }
            }
        }
    }
    proof {
        assert(orig.take(i) =~= orig);
    }
    let mut sorted = stable_sort_by_key(keyed);
    proof {
        lemma_sorted_items(keyed@, sorted@, key);
    }
    let ghost target = items_of(sorted@);
    let ghost mut j: int = 0;
    while sorted.len() > 0
        invariant
            0 <= j <= target.len(),
            sorted@.len() + j == target.len(),
            items_of(sorted@) == target.skip(j),
            entries@ == target.take(j),
        decreases sorted.len(),
    {
        let ghost before = sorted@;
        let ghost before_entries = entries@;
        let p = sorted.remove(0);
        let ghost item = p.1;
        entries.push(p.1);
        proof {
            assert(items_of(before)[0] == item);
            assert(target.skip(j)[0] == item);
            assert forall|m: int| 0 <= m < sorted@.len() implies #[trigger] items_of(sorted@)[m] == target.skip(j + 1)[m] by {
                assert(sorted@[m] == before[m + 1]);
                assert(items_of(before)[m + 1] == target.skip(j)[m + 1]);
                assert(target.skip(j)[m + 1] == target[j + 1 + m]);
                assert(target.skip(j + 1)[m] == target[j + 1 + m]);
            }
            assert forall|m: int| 0 <= m < entries@.len() implies #[trigger] entries@[m] == target.take(j + 1)[m] by {
                if m < before_entries.len() {
                    assert(entries@[m] == before_entries[m]);
                    assert(before_entries[m] == target.take(j)[m]);
                } else {
                    assert(entries@[m] == item);
                    assert(target.skip(j)[0] == target[j]);
                }
            }
            j = j + 1;
            assert(items_of(sorted@) =~= target.skip(j));
            assert(entries@ =~= target.take(j));
        }
    }
    proof {
        assert(target.take(j) =~= target);
        assert(key =~= (|e: FileEntry| file_entry_key(e)));
    }
}

/// `rel_dir` joined with a file name, as `Path::join` joins a bare name:
/// the name alone under an empty directory, else after one `/`.
pub open spec fn joined_path(rel_dir: Seq<char>, name: Seq<char>) -> Seq<char> {
    if rel_dir.len() == 0 {
        name
    } else if rel_dir.last() == '/' {
        rel_dir + name
    } else {
        rel_dir + seq!['/'] + name
    }
}

/// Joins a file name onto a relative directory.
pub fn join_rel(rel_dir: &str, name: &str) -> (r: String)
    ensures
        r@ == joined_path(rel_dir@, name@),
{
    let mut out = rel_dir.to_owned();
    let n = rel_dir.unicode_len();
    if n > 0 && rel_dir.get_char(n - 1) != '/' {
        crate::text::push_char(&mut out, '/');
    }
    crate::text::push_str(&mut out, name);
    proof {
        if n > 0 && rel_dir@.last() != '/' {
            assert(out@ =~= rel_dir@ + seq!['/'] + name@);
        }
    }
    out
}

/// One entry of a directory as read from disk: its name, whether it is a
/// directory, and whether git ignores it.
pub struct DirEntryInfo {
    pub name: String,
    pub is_dir: bool,
    pub ignored: bool,
}

/// The status of `path` among git's per-path reports: the last report for
/// that path that maps to a status.
pub open spec fn status_for(statuses: Seq<(String, StatusFlags)>, path: Seq<char>) -> Option<FileStatus>
    decreases statuses.len(),
{
    if statuses.len() == 0 {
        None
    } else if statuses.last().0@ == path && status_of(statuses.last().1) is Some {
        status_of(statuses.last().1)
    } else {
        status_for(statuses.drop_last(), path)
    }
}

/// The listing's entries before sorting: every entry but `.git` and the
/// ignored ones, in disk order, with its path and status.
pub open spec fn listed_entries(
    dir: Seq<DirEntryInfo>,
    rel_dir: Seq<char>,
    statuses: Seq<(String, StatusFlags)>,
) -> Seq<(Seq<char>, Seq<char>, bool, Option<FileStatus>)>
    decreases dir.len(),
{
    if dir.len() == 0 {
        Seq::empty()
    } else {
        let init = listed_entries(dir.drop_last(), rel_dir, statuses);
        let e = dir.last();
        if e.name@ == seq!['.', 'g', 'i', 't'] || e.ignored {
            init
        } else {
            let path = joined_path(rel_dir, e.name@);
            init.push((e.name@, path, e.is_dir, status_for(statuses, path)))
        }
    }
}

/// The mathematical value of a [`FileEntry`].
pub open spec fn entry_view(e: FileEntry) -> (Seq<char>, Seq<char>, bool, Option<FileStatus>) {
    (e.name@, e.rel_path@, e.is_dir, e.status)
}

/// The display order key of an entry's value.
pub open spec fn entry_view_key(v: (Seq<char>, Seq<char>, bool, Option<FileStatus>)) -> (u8, Seq<char>) {
    (if v.2 { 0u8 } else { 1u8 }, lowercase(v.0))
}

fn status_lookup(statuses: &Vec<(String, StatusFlags)>, path: &String) -> (r: Option<FileStatus>)
    ensures
        r == status_for(statuses@, path@),
{
    let mut found: Option<FileStatus> = None;
    let mut i: usize = 0;
    proof {
        assert(statuses@.take(0) =~= Seq::<(String, StatusFlags)>::empty());
    }
    while i < statuses.len()
        invariant
            i <= statuses@.len(),
            found == status_for(statuses@.take(i as int), path@),
        decreases statuses.len() - i,
    {
        proof {
            assert(statuses@.take(i + 1).drop_last() =~= statuses@.take(i as int));
            assert(statuses@.take(i + 1).last() == statuses@[i as int]);
        }
        let st = file_status_from_git(statuses[i].1);
        if st.is_some() && statuses[i].0 == *path {
            found = st;
        }
        i = i + 1;
    }
    proof {
        assert(statuses@.take(statuses@.len() as int) =~= statuses@);
    }
    found
}

/// Whether `name` is `.git`, the entry a listing never shows.
pub fn is_git_dir_name(name: &str) -> (r: bool)
    ensures
        r == (name@ == seq!['.', 'g', 'i', 't']),
{
    let git_name = chars_of(".git");
    proof {
        reveal_strlit(".git");
        assert(git_name@ =~= seq!['.', 'g', 'i', 't']);
    }
    crate::remote_url::chars_eq(&chars_of(name), &git_name)
}

/// One directory level of a listing: the entries read from disk under
/// `rel_dir` (relative to the worktree root) without `.git` and the
/// ignored ones, each with its relative path and git status, directories
/// first and then files, each alphabetical case-insensitively.
pub fn file_entries(dir: Vec<DirEntryInfo>, rel_dir: &str, statuses: &Vec<(String, StatusFlags)>) -> (r: Vec<FileEntry>)
    ensures
        stably_sorted_by(
            listed_entries(dir@, rel_dir@, statuses@),
            r@.map_values(|e: FileEntry| entry_view(e)),
            |v: (Seq<char>, Seq<char>, bool, Option<FileStatus>)| entry_view_key(v),
        ),
{
    let ghost dv = dir@;
    let ghost target = listed_entries(dv, rel_dir@, statuses@);
    let mut entries: Vec<FileEntry> = Vec::new();
    let mut rest = dir;
    let ghost mut i: int = 0;
    proof {
        assert(dv.take(0) =~= Seq::<DirEntryInfo>::empty());
        assert(dv.skip(0) =~= dv);
        assert(entries@.map_values(|e: FileEntry| entry_view(e)) =~= listed_entries(dv.take(0), rel_dir@, statuses@));
    }
    while rest.len() > 0
        invariant
            0 <= i <= dv.len(),
            rest@ == dv.skip(i),
            entries@.map_values(|e: FileEntry| entry_view(e)) == listed_entries(dv.take(i), rel_dir@, statuses@),
        decreases rest.len(),
    {
        let d = rest.remove(0);
        let ghost old_entries = entries@;
        proof {
            assert(d == dv[i]);
            assert(rest@ =~= dv.skip(i + 1));
            assert(dv.take(i + 1).drop_last() =~= dv.take(i));
            assert(dv.take(i + 1).last() == dv[i]);
        }
        let is_git = is_git_dir_name(d.name.as_str());
        if !is_git && !d.ignored {
            let rel_path = join_rel(rel_dir, d.name.as_str());
            let status = status_lookup(statuses, &rel_path);
            let e = FileEntry { name: d.name, rel_path, is_dir: d.is_dir, status };
            entries.push(e);
            proof {
                assert(entries@.map_values(|e: FileEntry| entry_view(e)) =~= old_entries.map_values(|e: FileEntry| entry_view(e)).push(entry_view(e)));
            }
        }
        proof {
            i = i + 1;
        }
    }
    proof {
        assert(dv.take(i) =~= dv);
    }
    let ghost before = entries@;
    sort_file_entries(&mut entries);
    proof {
        let vk = |v: (Seq<char>, Seq<char>, bool, Option<FileStatus>)| entry_view_key(v);
        let fe = |e: FileEntry| entry_view(e);
        assert((|x: FileEntry| vk(fe(x))) =~= (|e: FileEntry| file_entry_key(e)));
        crate::order::lemma_sorted_mapped(before, entries@, fe, vk);
    }
    entries
}

/// Refuses a relative path with a `..` component before it is joined onto
/// a worktree root, naming it in the error.
pub fn check_inside_worktree(rel: &str) -> (r: Result<(), String>)
    ensures
        r.is_ok() == !has_parent_component(rel@),
        r matches Err(e) ==> e@ == "'"@ + rel@ + "' escapes the worktree"@,
{
    if escapes_worktree(rel) {
        let mut msg = "'".to_owned();
        crate::text::push_str(&mut msg, rel);
        crate::text::push_str(&mut msg, "' escapes the worktree");
        return Err(msg);
    }
    Ok(())
}

} // verus!
