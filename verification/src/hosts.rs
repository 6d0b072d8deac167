//! Remote hosts: keeping known disk sizes across a rescan, pairing removal
//! candidates with their sizes, and tallying what a removal did.
use vstd::prelude::*;
use crate::order::views;
use crate::paths::{path_components, path_components_of, path_has_components, same_path};
use crate::text::{decimal, join_strings, joined, push_decimal, push_str};

verus! {

broadcast use vstd::seq_lib::group_seq_properties;

/// One worktree of a remote repository and its disk size, when known.
pub struct WorktreeSize {
    pub path: String,
    pub size_bytes: Option<u64>,
}

impl View for WorktreeSize {
    type V = (Seq<char>, Option<u64>);

    open spec fn view(&self) -> (Seq<char>, Option<u64>) {
        (self.path@, self.size_bytes)
    }
}

/// The worktrees of each repository, as values.
pub open spec fn group_views(groups: Seq<Vec<WorktreeSize>>) -> Seq<Seq<(Seq<char>, Option<u64>)>> {
    groups.map_values(|g: Vec<WorktreeSize>| views(g@))
}

/// The last known size of `path` among `ws`, paths compared as paths.
pub open spec fn last_size_in(ws: Seq<(Seq<char>, Option<u64>)>, path: Seq<char>) -> Option<u64>
    decreases ws.len(),
{
    if ws.len() == 0 {
        None
    } else if same_path(ws.last().0, path) && ws.last().1 is Some {
        ws.last().1
    } else {
        last_size_in(ws.drop_last(), path)
    }
}

/// The last known size of `path` across all repositories, in order.
pub open spec fn known_size(groups: Seq<Seq<(Seq<char>, Option<u64>)>>, path: Seq<char>) -> Option<u64>
    decreases groups.len(),
{
    if groups.len() == 0 {
        None
    } else {
        match last_size_in(groups.last(), path) {
            Some(s) => Some(s),
            None => known_size(groups.drop_last(), path),
        }
    }
}

/// A worktree keeps its size; one without a size takes the last size the
/// previous listing knew for its path.
pub open spec fn carried(w: (Seq<char>, Option<u64>), previous: Seq<Seq<(Seq<char>, Option<u64>)>>) -> (Seq<char>, Option<u64>) {
    if w.1 is None {
        (w.0, known_size(previous, w.0))
    } else {
        w
    }
}

fn known_size_of(previous: &Vec<Vec<WorktreeSize>>, path: &String) -> (r: Option<u64>)
    ensures
        r == known_size(group_views(previous@), path@),
{
    let ghost pg = group_views(previous@);
    let key = path_components_of(path.as_str());
    let mut found: Option<u64> = None;
    let mut g: usize = 0;
    while g < previous.len()
        invariant
            g <= previous@.len(),
            pg == group_views(previous@),
            views(key@) == path_components(path@),
            found == known_size(pg.take(g as int), path@),
        decreases previous.len() - g,
    {
        let group = &previous[g];
        let ghost gv = views(group@);
        let ghost before = found;
        let mut in_group: Option<u64> = None;
        let mut k: usize = 0;
        proof {
            assert(gv.take(0) =~= Seq::<(Seq<char>, Option<u64>)>::empty());
        }
        while k < group.len()
            invariant
                k <= group@.len(),
                gv == views(group@),
                views(key@) == path_components(path@),
                in_group == last_size_in(gv.take(k as int), path@),
            decreases group.len() - k,
        {
            proof {
                assert(gv.take(k + 1).drop_last() =~= gv.take(k as int));
                assert(gv.take(k + 1).last() == gv[k as int]);
            }
            if group[k].size_bytes.is_some() && path_has_components(group[k].path.as_str(), &key) {
                in_group = group[k].size_bytes;
            }
            k = k + 1;
        }
        proof {
            assert(gv.take(group@.len() as int) =~= gv);
            assert(pg.take(g + 1).drop_last() =~= pg.take(g as int));
            assert(pg.take(g + 1).last() == pg[g as int]);
            assert(pg[g as int] == gv);
        }
        if in_group.is_some() {
            found = in_group;
        }
        g = g + 1;
    }
    proof {
        assert(pg.take(previous@.len() as int) =~= pg);
    }
    found
}

/// Keeps the previous listing's sizes until fresh ones land: every
/// worktree without a size takes the last size `previous` knew for its
/// path; sizes already known stay.
pub fn carry_sizes(repos: Vec<Vec<WorktreeSize>>, previous: &Vec<Vec<WorktreeSize>>) -> (r: Vec<Vec<WorktreeSize>>)
    ensures
        group_views(r@) == group_views(repos@).map_values(
            |ws: Seq<(Seq<char>, Option<u64>)>| ws.map_values(|w: (Seq<char>, Option<u64>)| carried(w, group_views(previous@))),
        ),
{
    let ghost prev = group_views(previous@);
    let ghost input = group_views(repos@);
    let ghost f = |w: (Seq<char>, Option<u64>)| carried(w, prev);
    let mut out: Vec<Vec<WorktreeSize>> = Vec::new();
    let mut rest = repos;
    let ghost mut i: int = 0;
    while rest.len() > 0
        invariant
            0 <= i <= input.len(),
            rest@.len() + i == input.len(),
            group_views(rest@) == input.skip(i),
            prev == group_views(previous@),
            f == (|w: (Seq<char>, Option<u64>)| carried(w, prev)),
            group_views(out@) == input.take(i).map_values(|ws: Seq<(Seq<char>, Option<u64>)>| ws.map_values(f)),
        decreases rest.len(),
    {
        let ghost before = rest@;
        let ghost old_out = out@;
        let group = rest.remove(0);
        let ghost gv = views(group@);
        proof {
            assert(group_views(before)[0] == input.skip(i)[0]);
            assert(gv == input[i]);
            assert forall|m: int| 0 <= m < rest@.len() implies #[trigger] group_views(rest@)[m] == input.skip(i + 1)[m] by {
                assert(rest@[m] == before[m + 1]);
                assert(group_views(before)[m + 1] == input.skip(i)[m + 1]);
            }
            assert(group_views(rest@) =~= input.skip(i + 1));
        }
        let mut new_group: Vec<WorktreeSize> = Vec::new();
        let mut ws = group;
        let ghost mut k: int = 0;
        while ws.len() > 0
            invariant
                0 <= k <= gv.len(),
                ws@.len() + k == gv.len(),
                views(ws@) == gv.skip(k),
                prev == group_views(previous@),
                f == (|w: (Seq<char>, Option<u64>)| carried(w, prev)),
                views(new_group@) == gv.take(k).map_values(f),
            decreases ws.len(),
        {
            let ghost wbefore = ws@;
            let ghost old_new = new_group@;
            let w = ws.remove(0);
            proof {
                assert(views(wbefore)[0] == gv.skip(k)[0]);
                assert(w@ == gv[k]);
                assert forall|m: int| 0 <= m < ws@.len() implies #[trigger] views(ws@)[m] == gv.skip(k + 1)[m] by {
                    assert(ws@[m] == wbefore[m + 1]);
                    assert(views(wbefore)[m + 1] == gv.skip(k)[m + 1]);
                }
                assert(views(ws@) =~= gv.skip(k + 1));
            }
            let size = if w.size_bytes.is_none() {
                known_size_of(previous, &w.path)
            } else {
                w.size_bytes
            };
            let nw = WorktreeSize { path: w.path, size_bytes: size };
            new_group.push(nw);
            proof {
                assert(nw@ == f(gv[k]));
                assert(views(new_group@) =~= views(old_new).push(nw@));
                assert(gv.take(k + 1).map_values(f) =~= gv.take(k).map_values(f).push(f(gv[k])));
                k = k + 1;
            }
        }
        proof {
            assert(gv.take(k) =~= gv);
        }
        out.push(new_group);
        proof {
            assert(group_views(out@) =~= group_views(old_out).push(gv.map_values(f)));
            assert(input.take(i + 1).map_values(|ws: Seq<(Seq<char>, Option<u64>)>| ws.map_values(f))
                =~= input.take(i).map_values(|ws: Seq<(Seq<char>, Option<u64>)>| ws.map_values(f)).push(input[i].map_values(f)));
            i = i + 1;
        }
    }
    proof {
        assert(input.take(i) =~= input);
        assert((|ws: Seq<(Seq<char>, Option<u64>)>| ws.map_values(f)) =~= (|ws: Seq<(Seq<char>, Option<u64>)>| ws.map_values(|w: (Seq<char>, Option<u64>)| carried(w, group_views(previous@)))));
    }
    out
}

/// A worktree a removal would take away: its path and display name.
pub struct RemovalCandidate {
    pub path: String,
    pub name: String,
}

/// The size of the first worktree at `path` (compared as a path), if it
/// has one.
pub open spec fn size_of_path(ws: Seq<(Seq<char>, Option<u64>)>, path: Seq<char>) -> Option<u64>
    decreases ws.len(),
{
    if ws.len() == 0 {
        None
    } else if same_path(ws[0].0, path) {
        ws[0].1
    } else {
        size_of_path(ws.drop_first(), path)
    }
}

proof fn lemma_size_of_path(ws: Seq<(Seq<char>, Option<u64>)>, path: Seq<char>, i: int)
    requires
        0 <= i <= ws.len(),
        i < ws.len() ==> same_path(ws[i].0, path),
        forall|j: int| 0 <= j < i ==> !same_path(ws[j].0, path),
    ensures
        size_of_path(ws, path) == (if i < ws.len() { ws[i].1 } else { None }),
    decreases ws.len(),
{
    if ws.len() > 0 && i > 0 {
        assert forall|j: int| 0 <= j < i - 1 implies !same_path(ws.drop_first()[j].0, path) by {
            assert(ws.drop_first()[j] == ws[j + 1]);
        }
        lemma_size_of_path(ws.drop_first(), path, i - 1);
    }
}

/// Pairs each candidate with the size of its worktree in `worktrees`.
pub fn with_sizes(worktrees: &Vec<WorktreeSize>, candidates: Vec<RemovalCandidate>) -> (r: Vec<(RemovalCandidate, Option<u64>)>)
    ensures
        r@.len() == candidates@.len(),
        forall|i: int| 0 <= i < r@.len() ==> (#[trigger] r@[i]).0 == candidates@[i]
            && r@[i].1 == size_of_path(views(worktrees@), candidates@[i].path@),
{
    let ghost cs = candidates@;
    let ghost wv = views(worktrees@);
    let mut out: Vec<(RemovalCandidate, Option<u64>)> = Vec::new();
    let mut rest = candidates;
    let ghost mut i: int = 0;
    while rest.len() > 0
        invariant
            0 <= i <= cs.len(),
            rest@ == cs.skip(i),
            wv == views(worktrees@),
            out@.len() == i,
            forall|j: int| 0 <= j < i ==> (#[trigger] out@[j]).0 == cs[j] && out@[j].1 == size_of_path(wv, cs[j].path@),
        decreases rest.len(),
    {
        let c = rest.remove(0);
        proof {
            assert(c == cs[i]);
            assert(rest@ =~= cs.skip(i + 1));
        }
        let key = path_components_of(c.path.as_str());
        let mut size: Option<u64> = None;
        let mut k: usize = 0;
        let mut done = false;
        while k < worktrees.len() && !done
            invariant
                k <= worktrees@.len(),
                wv == views(worktrees@),
                views(key@) == path_components(c.path@),
                !done ==> forall|j: int| 0 <= j < k ==> !same_path(wv[j].0, c.path@),
                !done ==> size.is_none(),
                done ==> size == size_of_path(wv, c.path@),
            decreases worktrees.len() - k + (if done { 0int } else { 1int }),
        {
            if path_has_components(worktrees[k].path.as_str(), &key) {
                proof {
                    lemma_size_of_path(wv, c.path@, k as int);
                }
                size = worktrees[k].size_bytes;
                done = true;
            } else {
                k = k + 1;
            }
        }
        proof {
            if !done {
                lemma_size_of_path(wv, c.path@, wv.len() as int);
            }
        }
        let ghost old_out = out@;
        let ghost cg = c;
        out.push((c, size));
        proof {
            assert forall|j: int| 0 <= j < i + 1 implies (#[trigger] out@[j]).0 == cs[j] && out@[j].1 == size_of_path(wv, cs[j].path@) by {
                if j < i {
                    assert(out@[j] == old_out[j]);
                } else {
                    assert(out@[j] == (cg, size));
                }
            }
            i = i + 1;
        }
    }
    out
}

/// What a removal did to one worktree: whether it is gone, and a note.
pub struct RemovalOutcome {
    pub path: String,
    pub removed: bool,
    pub message: Option<String>,
}

/// What a removal did across every repository it touched.
pub struct HostRemoveReport {
    pub removed: usize,
    pub freed: u64,
    /// One line per worktree that was not removed, or was removed with a
    /// note, naming it.
    pub failures: Vec<String>,
}

/// "" for one, "s" otherwise.
pub fn plural(n: usize) -> (r: &'static str)
    ensures
        n == 1 ==> r@ == ""@,
        n != 1 ==> r@ == "s"@,
{
    if n == 1 {
        ""
    } else {
        "s"
    }
}

/// The entry for `path` (compared as a path) among a group's candidates:
/// its index, or `-1`.
pub open spec fn entry_index(entries: Seq<(RemovalCandidate, Option<u64>)>, path: Seq<char>) -> int
    decreases entries.len(),
{
    if entries.len() == 0 {
        -1
    } else if same_path(entries[0].0.path@, path) {
        0
    } else {
        let k = entry_index(entries.drop_first(), path);
        if k < 0 { -1 } else { k + 1 }
    }
}

proof fn lemma_entry_index(entries: Seq<(RemovalCandidate, Option<u64>)>, path: Seq<char>, i: int)
    requires
        0 <= i <= entries.len(),
        i < entries.len() ==> same_path(entries[i].0.path@, path),
        forall|j: int| 0 <= j < i ==> !same_path(entries[j].0.path@, path),
    ensures
        entry_index(entries, path) == (if i < entries.len() { i } else { -1 }),
    decreases entries.len(),
{
    if entries.len() > 0 && i > 0 {
        assert forall|j: int| 0 <= j < i - 1 implies !same_path(entries.drop_first()[j].0.path@, path) by {
            assert(entries.drop_first()[j] == entries[j + 1]);
        }
        lemma_entry_index(entries.drop_first(), path, i - 1);
    }
}

/// The name a removal outcome is reported under: its candidate's name,
/// else its path.
pub open spec fn outcome_name(entries: Seq<(RemovalCandidate, Option<u64>)>, o: RemovalOutcome) -> Seq<char> {
    let k = entry_index(entries, o.path@);
    if k >= 0 { entries[k].0.name@ } else { o.path@ }
}

/// The bytes a removal outcome freed: its candidate's known size when it
/// was removed.
pub open spec fn outcome_freed(entries: Seq<(RemovalCandidate, Option<u64>)>, o: RemovalOutcome) -> nat {
    let k = entry_index(entries, o.path@);
    if o.removed && k >= 0 && entries[k].1 is Some { entries[k].1->0 as nat } else { 0 }
}

/// The line an outcome adds to the failures: its note when it has one,
/// "not removed" when it failed silently, none otherwise.
pub open spec fn outcome_line(entries: Seq<(RemovalCandidate, Option<u64>)>, o: RemovalOutcome) -> Option<Seq<char>> {
    let name = outcome_name(entries, o);
    match o.message {
        Some(m) => Some(name + ": "@ + m@),
        None => if o.removed { None } else { Some(name + ": not removed"@) },
    }
}

/// The failure lines of `outs`, in order.
pub open spec fn outcome_lines(entries: Seq<(RemovalCandidate, Option<u64>)>, outs: Seq<RemovalOutcome>) -> Seq<Seq<char>>
    decreases outs.len(),
{
    if outs.len() == 0 {
        Seq::empty()
    } else {
        let init = outcome_lines(entries, outs.drop_last());
        match outcome_line(entries, outs.last()) {
            Some(l) => init.push(l),
            None => init,
        }
    }
}

/// How many of `outs` removed their worktree.
pub open spec fn removed_count(outs: Seq<RemovalOutcome>) -> nat
    decreases outs.len(),
{
    if outs.len() == 0 {
        0
    } else {
        removed_count(outs.drop_last()) + if outs.last().removed { 1nat } else { 0nat }
    }
}

/// The bytes `outs` freed.
pub open spec fn freed_total(entries: Seq<(RemovalCandidate, Option<u64>)>, outs: Seq<RemovalOutcome>) -> nat
    decreases outs.len(),
{
    if outs.len() == 0 {
        0
    } else {
        freed_total(entries, outs.drop_last()) + outcome_freed(entries, outs.last())
    }
}

/// Adds one repository's removal result to `report`: a failed call is one
/// failure line naming the repository; otherwise each removed worktree
/// counts, frees its known size, and each note or silent failure is a line
/// naming the worktree.
pub fn tally_group(
    report: &mut HostRemoveReport,
    repo_path: &str,
    entries: &Vec<(RemovalCandidate, Option<u64>)>,
    result: Result<Vec<RemovalOutcome>, String>,
)
    requires
        result matches Ok(outs) ==> old(report).removed + outs@.len() <= usize::MAX
            && old(report).freed + freed_total(entries@, outs@) <= u64::MAX,
    ensures
        match result {
            Err(e) => final(report).removed == old(report).removed && final(report).freed == old(report).freed
                && views(final(report).failures@) == views(old(report).failures@).push(repo_path@ + ": "@ + e@),
            Ok(outs) => final(report).removed == old(report).removed + removed_count(outs@)
                && final(report).freed == old(report).freed + freed_total(entries@, outs@)
                && views(final(report).failures@) == views(old(report).failures@) + outcome_lines(entries@, outs@),
        },
{
    match result {
        Err(e) => {
            let mut line = repo_path.to_owned();
            push_str(&mut line, ": ");
            push_str(&mut line, e.as_str());
            let ghost old_f = report.failures@;
            report.failures.push(line);
            proof {
                assert(views(report.failures@) =~= views(old_f).push(line@));
            }
        },
        Ok(outs) => {
            let ghost os = outs@;
            let ghost start_removed = report.removed;
            let ghost start_freed = report.freed;
            let ghost start_fail = views(report.failures@);
            let mut i: usize = 0;
            proof {
                assert(os.take(0) =~= Seq::<RemovalOutcome>::empty());
                assert(views(report.failures@) =~= start_fail + outcome_lines(entries@, os.take(0)));
            }
            while i < outs.len()
                invariant
                    i <= os.len(),
                    os == outs@,
                    start_removed + os.len() <= usize::MAX,
                    start_freed + freed_total(entries@, os) <= u64::MAX,
                    report.removed == start_removed + removed_count(os.take(i as int)),
                    report.freed == start_freed + freed_total(entries@, os.take(i as int)),
                    views(report.failures@) == start_fail + outcome_lines(entries@, os.take(i as int)),
                    removed_count(os.take(i as int)) <= i,
                decreases outs.len() - i,
            {
                let o = &outs[i];
                let ghost pre = os.take(i as int);
                let ghost post = os.take(i + 1);
                proof {
                    assert(post.drop_last() =~= pre);
                    assert(post.last() == os[i as int]);
                    lemma_freed_total_prefix(entries@, os, i + 1);
                }
                let key = path_components_of(o.path.as_str());
                let mut k: usize = 0;
                let mut found = false;
                while k < entries.len() && !found
                    invariant
                        k <= entries@.len(),
                        views(key@) == path_components(o.path@),
                        !found ==> forall|j: int| 0 <= j < k ==> !same_path(entries@[j].0.path@, o.path@),
                        found ==> k < entries@.len() && entry_index(entries@, o.path@) == k,
                    decreases entries.len() - k + (if found { 0int } else { 1int }),
                {
                    if path_has_components(entries[k].0.path.as_str(), &key) {
                        proof {
                            lemma_entry_index(entries@, o.path@, k as int);
                        }
                        found = true;
                    } else {
                        k = k + 1;
                    }
                }
                proof {
                    if !found {
                        lemma_entry_index(entries@, o.path@, entries@.len() as int);
                    }
                }
                let name: String = if found {
                    entries[k].0.name.clone()
                } else {
                    o.path.clone()
                };
                if o.removed {
                    report.removed = report.removed + 1;
                    if found {
                        match entries[k].1 {
                            Some(sz) => {
                                report.freed = report.freed + sz;
                            },
                            None => {},
                        }
                    }
                }
                let ghost old_f = report.failures@;
                match &o.message {
                    Some(m) => {
                        let mut line = name;
                        push_str(&mut line, ": ");
                        push_str(&mut line, m.as_str());
                        report.failures.push(line);
                        proof {
                            assert(views(report.failures@) =~= views(old_f).push(line@));
                        }
                    },
                    None => {
                        if !o.removed {
                            let mut line = name;
                            push_str(&mut line, ": not removed");
                            report.failures.push(line);
                            proof {
                                assert(views(report.failures@) =~= views(old_f).push(line@));
                            }
                        }
                    },
                }
                i = i + 1;
            }
            proof {
                assert(os.take(os.len() as int) =~= os);
            }
        },
    }
}

proof fn lemma_freed_total_prefix(entries: Seq<(RemovalCandidate, Option<u64>)>, os: Seq<RemovalOutcome>, n: int)
    requires
        0 <= n <= os.len(),
    ensures
        freed_total(entries, os.take(n)) <= freed_total(entries, os),
    decreases os.len(),
{
    if n < os.len() {
        assert(os.drop_last().take(n) =~= os.take(n));
        lemma_freed_total_prefix(entries, os.drop_last(), n);
    } else {
        assert(os.take(n) =~= os);
    }
}

/// The sum of `counts`.
pub open spec fn total_of(counts: Seq<usize>) -> nat
    decreases counts.len(),
{
    if counts.len() == 0 {
        0
    } else {
        total_of(counts.drop_last()) + counts.last() as nat
    }
}

proof fn lemma_total_of_prefix(counts: Seq<usize>, i: int)
    requires
        0 <= i <= counts.len(),
    ensures
        total_of(counts.take(i)) <= total_of(counts),
    decreases counts.len(),
{
    if i < counts.len() {
        lemma_total_of_prefix(counts.drop_last(), i);
        assert(counts.drop_last().take(i) =~= counts.take(i));
    } else {
        assert(counts.take(i) =~= counts);
    }
}

/// The view of an optional list of counts.
pub open spec fn counts_view(repos: Option<&Vec<usize>>) -> Option<Seq<usize>> {
    match repos {
        Some(c) => Some(c@),
        None => None,
    }
}

/// The host pane's summary line. Before a scan has listed anything:
/// `scanning…`, `scan failed` or `not scanned`. After one, given each
/// repository's worktree count: how many repositories and worktrees, then
/// the total size (`size_text`) once sizing finished, or `sizing…` while a
/// scan still runs.
pub open spec fn host_summary_of(
    repos: Option<Seq<usize>>,
    scanning: bool,
    failed: bool,
    sized: bool,
    size_text: Seq<char>,
) -> Seq<char> {
    match repos {
        None => if scanning {
            "scanning\u{2026}"@
        } else if failed {
            "scan failed"@
        } else {
            "not scanned"@
        },
        Some(counts) => {
            let w = total_of(counts);
            decimal(counts.len()) + (if counts.len() == 1 {
                " repository"@
            } else {
                " repositories"@
            }) + " \u{b7} "@ + decimal(w) + " worktree"@ + (if w == 1 {
                Seq::empty()
            } else {
                "s"@
            }) + (if sized {
                " \u{b7} "@ + size_text
            } else if scanning {
                " \u{b7} sizing\u{2026}"@
            } else {
                Seq::empty()
            })
        },
    }
}

/// Builds the host pane's summary line; see [`host_summary_of`].
pub fn host_summary(
    repos: Option<&Vec<usize>>,
    scanning: bool,
    failed: bool,
    sized: bool,
    size_text: &str,
) -> (r: String)
    requires
        repos matches Some(c) ==> total_of(c@) <= usize::MAX,
    ensures
        r@ == host_summary_of(counts_view(repos), scanning, failed, sized, size_text@),
{
    let counts = match repos {
        None => {
            if scanning {
                return "scanning\u{2026}".to_owned();
            } else if failed {
                return "scan failed".to_owned();
            } else {
                return "not scanned".to_owned();
            }
        },
        Some(c) => c,
    };
    let mut worktrees: usize = 0;
    let mut i: usize = 0;
    while i < counts.len()
        invariant
            i <= counts@.len(),
            total_of(counts@) <= usize::MAX,
            worktrees == total_of(counts@.take(i as int)),
        decreases counts.len() - i,
    {
        proof {
            assert(counts@.take(i + 1).drop_last() =~= counts@.take(i as int));
            lemma_total_of_prefix(counts@, i + 1);
        }
        worktrees = worktrees + counts[i];
        i = i + 1;
    }
    assert(counts@.take(counts@.len() as int) =~= counts@);
    let mut s = String::new();
    push_decimal(&mut s, counts.len() as u64);
    if counts.len() == 1 {
        push_str(&mut s, " repository");
    } else {
        push_str(&mut s, " repositories");
    }
    push_str(&mut s, " \u{b7} ");
    push_decimal(&mut s, worktrees as u64);
    push_str(&mut s, " worktree");
    if worktrees != 1 {
        push_str(&mut s, "s");
    }
    let ghost head = s@;
    if sized {
        push_str(&mut s, " \u{b7} ");
        push_str(&mut s, size_text);
    } else if scanning {
        push_str(&mut s, " \u{b7} sizing\u{2026}");
    }
    proof {
        if !sized && !scanning {
            assert(s@ =~= head + Seq::<char>::empty());
        }
        if worktrees == 1 {
            assert(head =~= decimal(counts@.len() as nat) + (if counts@.len() == 1 {
                " repository"@
            } else {
                " repositories"@
            }) + " \u{b7} "@ + decimal(worktrees as nat) + " worktree"@ + Seq::<char>::empty());
        }
    }
    s
}

/// One worktree the host confirm dialog lists: whether it is missing on
/// disk, whether it has uncommitted changes, and its size when known.
#[derive(Clone, Copy)]
pub struct ConfirmEntry {
    pub missing: bool,
    pub dirty: bool,
    pub size: Option<u64>,
}

/// Whether `e` calls for the uncommitted-changes warning: it is on disk
/// and dirty.
pub open spec fn warns_uncommitted(e: ConfirmEntry) -> bool {
    !e.missing && e.dirty
}

/// The sum of the known sizes in `es`.
pub open spec fn known_size_total(es: Seq<ConfirmEntry>) -> nat
    decreases es.len(),
{
    if es.len() == 0 {
        0
    } else {
        known_size_total(es.drop_last()) + match es.last().size {
            Some(n) => n as nat,
            None => 0nat,
        }
    }
}

proof fn lemma_known_size_total_prefix(es: Seq<ConfirmEntry>, i: int)
    requires
        0 <= i <= es.len(),
    ensures
        known_size_total(es.take(i)) <= known_size_total(es),
    decreases es.len(),
{
    if i < es.len() {
        lemma_known_size_total_prefix(es.drop_last(), i);
        assert(es.drop_last().take(i) =~= es.take(i));
    } else {
        assert(es.take(i) =~= es);
    }
}

/// What the host confirm dialog states about the worktrees it would
/// remove: how many, whether any warrants the uncommitted-changes warning,
/// and how much disk their known sizes free.
pub struct ConfirmSummary {
    pub count: usize,
    pub has_dirty: bool,
    pub freed: u64,
}

/// Summarises the worktrees a host removal would take away.
pub fn confirm_summary(entries: &Vec<ConfirmEntry>) -> (r: ConfirmSummary)
    requires
        known_size_total(entries@) <= u64::MAX,
    ensures
        r.count == entries@.len(),
        r.has_dirty == (exists|i: int| 0 <= i < entries@.len() && warns_uncommitted(#[trigger] entries@[i])),
        r.freed == known_size_total(entries@),
{
    let mut has_dirty = false;
    let mut freed: u64 = 0;
    let mut i: usize = 0;
    while i < entries.len()
        invariant
            i <= entries@.len(),
            known_size_total(entries@) <= u64::MAX,
            freed == known_size_total(entries@.take(i as int)),
            has_dirty == (exists|j: int| 0 <= j < i && warns_uncommitted(#[trigger] entries@[j])),
        decreases entries.len() - i,
    {
        let e = entries[i];
        proof {
            assert(entries@.take(i + 1).drop_last() =~= entries@.take(i as int));
            assert(entries@.take(i + 1).last() == e);
            lemma_known_size_total_prefix(entries@, i + 1);
        }
        if !e.missing && e.dirty {
            has_dirty = true;
        }
        match e.size {
            Some(n) => {
                freed = freed + n;
            },
            None => {},
        }
        i = i + 1;
    }
    assert(entries@.take(entries@.len() as int) =~= entries@);
    ConfirmSummary { count: entries.len(), has_dirty, freed }
}

/// The confirm dialog's headline: `N worktree(s) will be removed:`.
pub fn removal_headline(count: usize) -> (r: String)
    ensures
        r@ == decimal(count as nat) + " worktree"@ + (if count == 1 {
            Seq::empty()
        } else {
            "s"@
        }) + " will be removed:"@,
{
    let mut s = String::new();
    push_decimal(&mut s, count as u64);
    push_str(&mut s, " worktree");
    let ghost head = s@;
    if count != 1 {
        push_str(&mut s, "s");
    }
    push_str(&mut s, " will be removed:");
    proof {
        if count == 1 {
            assert(s@ =~= head + Seq::<char>::empty() + " will be removed:"@);
        }
    }
    s
}

/// The status line after a host removal on `host`: how many worktrees
/// went, then `freed ~<size_text>` when any bytes were freed; an
/// information line when nothing failed (`Ok`), else an error line
/// (`Err`) that also lists the failures, joined with `; `.
pub open spec fn removal_message_of(
    removed: nat,
    freed: nat,
    size_text: Seq<char>,
    failures: Seq<Seq<char>>,
    host: Seq<char>,
) -> Result<Seq<char>, Seq<char>> {
    let head = "removed "@ + decimal(removed) + " worktree"@ + (if removed == 1 {
        Seq::empty()
    } else {
        "s"@
    }) + " on "@ + host;
    let line = head + (if freed > 0 {
        " \u{b7} freed ~"@ + size_text
    } else {
        Seq::empty()
    });
    if failures.len() == 0 {
        Ok(line)
    } else {
        Err(line + " \u{b7} failed: "@ + joined(failures, "; "@))
    }
}

/// The status line reporting `report` for `host`; `size_text` is how the
/// freed byte count is shown. See [`removal_message_of`].
pub fn removal_message(report: &HostRemoveReport, size_text: &str, host: &str) -> (r: Result<String, String>)
    ensures
        match r {
            Ok(s) => removal_message_of(report.removed as nat, report.freed as nat, size_text@, views(report.failures@), host@) == Ok::<Seq<char>, Seq<char>>(s@),
            Err(s) => removal_message_of(report.removed as nat, report.freed as nat, size_text@, views(report.failures@), host@) == Err::<Seq<char>, Seq<char>>(s@),
        },
{
    let mut s = "removed ".to_owned();
    push_decimal(&mut s, report.removed as u64);
    push_str(&mut s, " worktree");
    let ghost before_plural = s@;
    if report.removed != 1 {
        push_str(&mut s, "s");
    }
    proof {
        if report.removed == 1 {
            assert(s@ =~= before_plural + Seq::<char>::empty());
        }
    }
    push_str(&mut s, " on ");
    push_str(&mut s, host);
    let ghost head = s@;
    if report.freed > 0 {
        push_str(&mut s, " \u{b7} freed ~");
        push_str(&mut s, size_text);
    }
    proof {
        if report.freed == 0 {
            assert(s@ =~= head + Seq::<char>::empty());
        } else {
            assert(s@ =~= head + (" \u{b7} freed ~"@ + size_text@));
        }
    }
    if report.failures.len() == 0 {
        proof {
            assert(views(report.failures@).len() == 0);
        }
        Ok(s)
    } else {
        push_str(&mut s, " \u{b7} failed: ");
        let list = join_strings(&report.failures, "; ");
        push_str(&mut s, list.as_str());
        Err(s)
    }
}

} // verus!
