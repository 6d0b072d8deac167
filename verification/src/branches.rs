//! The branch picker of the create-worktree dialog: local branches first,
//! then the remote-tracking branches that no local branch covers.
use vstd::prelude::*;
use crate::order::{
    SortKey, append_items, chars_lt, items_of, key_is, key_lt, keys_agree, lemma_chars_lt_irreflexive,
    lemma_chars_lt_total, lemma_chars_lt_transitive, lemma_sorted_items, lemma_sorted_views,
    stable_sort_by_key, stably_sorted_by, views,
};
use crate::refs::{remote_short, split_remote_branch};
use crate::text::{chars_of, contains_string};

verus! {

broadcast use vstd::seq_lib::group_seq_properties;

/// One branch as shown in the branch picker.
#[derive(Debug, Clone)]
pub struct BranchInfo {
    pub name: String,
    pub is_local: bool,
    /// Already checked out in some worktree of this repository.
    pub is_checked_out: bool,
    /// Local branches only: has upstream configuration but the upstream
    /// ref is missing.
    pub upstream_gone: bool,
}

/// The mathematical value of a [`BranchInfo`].
pub struct BranchView {
    pub name: Seq<char>,
    pub is_local: bool,
    pub is_checked_out: bool,
    pub upstream_gone: bool,
}

impl View for BranchInfo {
    type V = BranchView;

    open spec fn view(&self) -> BranchView {
        BranchView {
            name: self.name@,
            is_local: self.is_local,
            is_checked_out: self.is_checked_out,
            upstream_gone: self.upstream_gone,
        }
    }
}

/// Entries are ordered by name.
pub open spec fn branch_key(b: BranchView) -> (u8, Seq<char>) {
    (0u8, b.name)
}

/// The entries of the local branches (name, upstream gone), in input order.
pub open spec fn local_entries(locals: Seq<(Seq<char>, bool)>, checked_out: Seq<Seq<char>>) -> Seq<BranchView> {
    locals.map_values(
        |p: (Seq<char>, bool)|
            BranchView {
                name: p.0,
                is_local: true,
                is_checked_out: checked_out.contains(p.0),
                upstream_gone: p.1,
            },
    )
}

/// The entries of the remote-tracking branches, in input order: the short
/// name of each full name that splits into remote and branch and that no
/// local branch has.
pub open spec fn remote_entries(
    remotes: Seq<Seq<char>>,
    local_names: Seq<Seq<char>>,
    checked_out: Seq<Seq<char>>,
) -> Seq<BranchView>
    decreases remotes.len(),
{
    if remotes.len() == 0 {
        Seq::empty()
    } else {
        let init = remote_entries(remotes.drop_last(), local_names, checked_out);
        match remote_short(remotes.last()) {
            Some((_remote, short)) => if local_names.contains(short) {
                init
            } else {
                init.push(
                    BranchView {
                        name: short,
                        is_local: false,
                        is_checked_out: checked_out.contains(short),
                        upstream_gone: false,
                    },
                )
            },
            None => init,
        }
    }
}

/// Drops each entry whose name equals that of the entry just before it,
/// keeping the first of every run of equal names (`Vec::dedup_by`).
pub open spec fn dedup_names(s: Seq<BranchView>) -> Seq<BranchView>
    decreases s.len(),
{
    if s.len() <= 1 {
        s
    } else {
        let init = dedup_names(s.drop_last());
        if s.last().name == s[s.len() - 2].name {
            init
        } else {
            init.push(s.last())
        }
    }
}

/// `out` is the branch picker's list: the local entries sorted by name,
/// then the remote entries sorted by name with repeated names collapsed.
pub open spec fn branch_order(
    locals: Seq<(Seq<char>, bool)>,
    remotes: Seq<Seq<char>>,
    checked_out: Seq<Seq<char>>,
    out: Seq<BranchView>,
) -> bool {
    let lv = local_entries(locals, checked_out);
    let rv = remote_entries(remotes, locals.map_values(|p: (Seq<char>, bool)| p.0), checked_out);
    &&& stably_sorted_by(lv, out.take(lv.len() as int), |b: BranchView| branch_key(b))
    &&& exists|sorted: Seq<BranchView>|
        stably_sorted_by(rv, sorted, |b: BranchView| branch_key(b))
            && #[trigger] dedup_names(sorted) == out.skip(lv.len() as int)
}

/// Moves `v` into a keyed list sorted by name and returns the entries.
fn sort_by_name(v: Vec<(SortKey, BranchInfo)>) -> (r: Vec<BranchInfo>)
    requires
        keys_agree(v@, |x: BranchInfo| branch_key(x@)),
    ensures
        stably_sorted_by(views(items_of(v@)), views(r@), |b: BranchView| branch_key(b)),
        r@.len() == v@.len(),
{
    let ghost key = |x: BranchInfo| branch_key(x@);
    let sorted = stable_sort_by_key(v);
    proof {
        let key2 = |b: BranchView| branch_key(b);
        assert(key =~= (|x: BranchInfo| key2(x@)));
        lemma_sorted_items(v@, sorted@, key);
        lemma_sorted_views(items_of(v@), items_of(sorted@), key2);
    }
    let mut r: Vec<BranchInfo> = Vec::new();
    append_items(&mut r, sorted);
    proof {
        assert(r@ =~= items_of(sorted@));
    }
    r
}

/// Branches to create a worktree from: local branches (name, upstream
/// gone) first, alphabetical; then remote-tracking branches from their
/// full names, alphabetical, with the remote prefix stripped, `<remote>/HEAD`
/// left out, names that a local branch has left out, and a name that two
/// remotes track listed once. `checked_out` lists the branches checked out
/// in some worktree.
pub fn assemble_branch_list(
    locals: Vec<(String, bool)>,
    remote_names: &Vec<String>,
    checked_out: &Vec<String>,
) -> (r: Vec<BranchInfo>)
    ensures
        branch_order(views(locals@), views(remote_names@), views(checked_out@), views(r@)),
{
    let ghost lv = views(locals@);
    let ghost co = views(checked_out@);
    let ghost rmv = views(remote_names@);
    let ghost key = |x: BranchInfo| branch_key(x@);
    let ghost lnames = lv.map_values(|p: (Seq<char>, bool)| p.0);
    let mut local_names: Vec<String> = Vec::new();
    let mut keyed: Vec<(SortKey, BranchInfo)> = Vec::new();
    let mut rest = locals;
    let ghost mut i: int = 0;
    while rest.len() > 0
        invariant
            0 <= i <= lv.len(),
            rest@.len() + i == lv.len(),
            views(rest@) == lv.skip(i),
            co == views(checked_out@),
            key == (|x: BranchInfo| branch_key(x@)),
            keys_agree(keyed@, key),
            views(items_of(keyed@)) == local_entries(lv.take(i), co),
            views(local_names@) == lnames.take(i),
            lnames == lv.map_values(|p: (Seq<char>, bool)| p.0),
        decreases rest.len(),
    {
        let ghost before = rest@;
        let ghost old_keyed = keyed@;
        let ghost old_names = local_names@;
        let (name, gone) = rest.remove(0);
        proof {
            assert(views(before)[0] == lv.skip(i)[0]);
            assert(lv[i] == (name@, gone));
            assert forall|m: int| 0 <= m < rest@.len() implies #[trigger] views(rest@)[m] == lv.skip(i + 1)[m] by {
                assert(rest@[m] == before[m + 1]);
                assert(views(before)[m + 1] == lv.skip(i)[m + 1]);
            }
        }
        let is_checked_out = contains_string(checked_out, &name);
        let k = SortKey { rank: 0, text: chars_of(name.as_str()) };
        local_names.push(name.clone());
        let e = BranchInfo { name, is_local: true, is_checked_out, upstream_gone: gone };
        keyed.push((k, e));
        proof {
            assert(views(rest@) =~= lv.skip(i + 1));
            assert(items_of(keyed@) =~= items_of(old_keyed).push(e));
            assert(views(items_of(keyed@)) =~= views(items_of(old_keyed)).push(e@));
            assert(local_entries(lv.take(i + 1), co) =~= local_entries(lv.take(i), co).push(e@));
            assert(views(local_names@) =~= views(old_names).push(lv[i].0));
            assert(lnames.take(i + 1) =~= lnames.take(i).push(lv[i].0));
            assert forall|j: int| 0 <= j < keyed@.len() implies #[trigger] keyed@[j].0@ == key(keyed@[j].1) by {
                if j < old_keyed.len() {
                    assert(keyed@[j] == old_keyed[j]);
                }
            }
            i = i + 1;
        }
    }
    proof {
        assert(lv.take(i) =~= lv);
        assert(lnames.take(i) =~= lnames);
    }
    let mut out = sort_by_name(keyed);
    let ghost local_part = out@;

    let mut rkeyed: Vec<(SortKey, BranchInfo)> = Vec::new();
    let mut j: usize = 0;
    proof {
        assert(items_of(rkeyed@) =~= Seq::<BranchInfo>::empty());
        assert(views(items_of(rkeyed@)) =~= Seq::<BranchView>::empty());
        assert(rmv.take(0) =~= Seq::<Seq<char>>::empty());
    }
    while j < remote_names.len()
        invariant
            j <= remote_names@.len(),
            rmv == views(remote_names@),
            co == views(checked_out@),
            key == (|x: BranchInfo| branch_key(x@)),
            views(local_names@) == lnames,
            keys_agree(rkeyed@, key),
            views(items_of(rkeyed@)) == remote_entries(rmv.take(j as int), lnames, co),
        decreases remote_names.len() - j,
    {
        let ghost old_keyed = rkeyed@;
        proof {
            assert(rmv.take(j + 1).drop_last() =~= rmv.take(j as int));
            assert(rmv.take(j + 1).last() == rmv[j as int]);
            assert(rmv[j as int] == remote_names@[j as int]@);
        }
        match split_remote_branch(remote_names[j].as_str()) {
            Some((_remote, short)) => {
                if !contains_string(&local_names, &short) {
                    let is_checked_out = contains_string(checked_out, &short);
                    let k = SortKey { rank: 0, text: chars_of(short.as_str()) };
                    let e = BranchInfo { name: short, is_local: false, is_checked_out, upstream_gone: false };
                    rkeyed.push((k, e));
                    proof {
                        assert(items_of(rkeyed@) =~= items_of(old_keyed).push(e));
                        assert(views(items_of(rkeyed@)) =~= views(items_of(old_keyed)).push(e@));
                        assert forall|m: int| 0 <= m < rkeyed@.len() implies #[trigger] rkeyed@[m].0@ == key(rkeyed@[m].1) by {
                            if m < old_keyed.len() {
                                assert(rkeyed@[m] == old_keyed[m]);
                            }
                        }
                    }
                }
            },
            None => {},
        }
        j = j + 1;
    }
    proof {
        assert(rmv.take(remote_names@.len() as int) =~= rmv);
    }
    let sorted_remotes = sort_by_name(rkeyed);
    let ghost sr = views(sorted_remotes@);
    let ghost base = out@;
    let n = sorted_remotes.len();
    let mut rest = sorted_remotes;
    let mut prev: Option<String> = None;
    let ghost mut k: int = 0;
    proof {
        assert(sr.take(0) =~= Seq::<BranchView>::empty());
        assert(views(out@) =~= views(base) + dedup_names(sr.take(0)));
    }
    while rest.len() > 0
        invariant
            0 <= k <= sr.len(),
            rest@.len() + k == sr.len(),
            views(rest@) == sr.skip(k),
            views(out@) == views(base) + dedup_names(sr.take(k)),
            k == 0 ==> prev is None,
            k > 0 ==> prev is Some && prev->0@ == sr[k - 1].name,
        decreases rest.len(),
    {
        let ghost before = rest@;
        let ghost old_out = out@;
        let b = rest.remove(0);
        proof {
            assert(views(before)[0] == sr.skip(k)[0]);
            assert(b@ == sr[k]);
            assert forall|m: int| 0 <= m < rest@.len() implies #[trigger] views(rest@)[m] == sr.skip(k + 1)[m] by {
                assert(rest@[m] == before[m + 1]);
                assert(views(before)[m + 1] == sr.skip(k)[m + 1]);
            }
            assert(views(rest@) =~= sr.skip(k + 1));
            let t = sr.take(k + 1);
            assert(t.drop_last() =~= sr.take(k));
            assert(t.last() == sr[k]);
            if k > 0 {
                assert(t[t.len() - 2] == sr[k - 1]);
            } else {
                assert(t =~= seq![sr[0]]);
                assert(sr.take(0) =~= Seq::<BranchView>::empty());
            }
        }
        let repeat = match &prev {
            Some(p) => *p == b.name,
            None => false,
        };
        let name_copy = b.name.clone();
        if !repeat {
            out.push(b);
            proof {
                assert(views(out@) =~= views(old_out).push(sr[k]));
            }
        }
        prev = Some(name_copy);
        proof {
            k = k + 1;
        }
    }
    proof {
        assert(sr.take(k) =~= sr);
        let lvv = local_entries(lv, co);
        let rvv = remote_entries(rmv, lnames, co);
        assert(views(local_part).len() == lvv.len());
        assert(views(out@).take(lvv.len() as int) =~= views(local_part));
        assert(views(out@).skip(lvv.len() as int) =~= dedup_names(sr));
        assert(stably_sorted_by(rvv, sr, |b: BranchView| branch_key(b)));
    }
    out
}

proof fn lemma_dedup_last(s: Seq<BranchView>)
    requires
        s.len() > 0,
    ensures
        dedup_names(s).len() > 0,
        dedup_names(s).last().name == s.last().name,
        dedup_names(s)[0] == s[0],
    decreases s.len(),
{
    if s.len() > 1 {
        lemma_dedup_last(s.drop_last());
        assert(s.drop_last().last() == s[s.len() - 2]);
        assert(s.drop_last()[0] == s[0]);
    }
}

proof fn lemma_dedup_members(s: Seq<BranchView>)
    ensures
        forall|i: int| 0 <= i < dedup_names(s).len() ==> s.contains(#[trigger] dedup_names(s)[i]),
    decreases s.len(),
{
    if s.len() > 1 {
        let init = s.drop_last();
        lemma_dedup_members(init);
        assert forall|i: int| 0 <= i < dedup_names(s).len() implies s.contains(#[trigger] dedup_names(s)[i]) by {
            if i < dedup_names(init).len() {
                assert(dedup_names(s)[i] == dedup_names(init)[i]);
                let k = choose|k: int| 0 <= k < init.len() && init[k] == dedup_names(init)[i];
                assert(s[k] == init[k]);
            } else {
                assert(dedup_names(s)[i] == s.last());
                assert(s[s.len() - 1] == s.last());
            }
        }
    } else if s.len() == 1 {
        assert forall|i: int| 0 <= i < dedup_names(s).len() implies s.contains(#[trigger] dedup_names(s)[i]) by {
            assert(s[i] == dedup_names(s)[i]);
        }
    }
}

/// Non-decreasing names: each name is not below any earlier one.
pub open spec fn names_nondecreasing(s: Seq<BranchView>) -> bool {
    forall|i: int, j: int| 0 <= i < j < s.len() ==> !chars_lt(#[trigger] s[j].name, #[trigger] s[i].name)
}

proof fn lemma_dedup_strictly_increasing(s: Seq<BranchView>)
    requires
        names_nondecreasing(s),
    ensures
        forall|i: int, j: int| 0 <= i < j < dedup_names(s).len() ==> chars_lt(#[trigger] dedup_names(s)[i].name, #[trigger] dedup_names(s)[j].name),
    decreases s.len(),
{
    if s.len() > 1 {
        let init = s.drop_last();
        assert(names_nondecreasing(init)) by {
            assert forall|i: int, j: int| 0 <= i < j < init.len() implies !chars_lt(#[trigger] init[j].name, #[trigger] init[i].name) by {
                assert(init[i] == s[i] && init[j] == s[j]);
            }
        }
        lemma_dedup_strictly_increasing(init);
        let d = dedup_names(init);
        let prev = s[s.len() - 2];
        let last = s.last();
        if last.name != prev.name {
            lemma_dedup_last(init);
            assert(init.last() == prev);
            assert(!chars_lt(s[s.len() - 1].name, s[s.len() - 2].name));
            lemma_chars_lt_total(prev.name, last.name);
            assert(chars_lt(prev.name, last.name));
            let full = d.push(last);
            assert forall|i: int, j: int| 0 <= i < j < full.len() implies chars_lt(#[trigger] full[i].name, #[trigger] full[j].name) by {
                if j < d.len() {
                    assert(full[i] == d[i] && full[j] == d[j]);
                } else {
                    assert(full[j] == last);
                    assert(full[i] == d[i]);
                    if i < d.len() - 1 {
                        assert(chars_lt(d[i].name, d[d.len() - 1].name));
                        lemma_chars_lt_transitive(d[i].name, prev.name, last.name);
                    }
                }
            }
        }
    }
}

proof fn lemma_remote_entries_not_local(remotes: Seq<Seq<char>>, local_names: Seq<Seq<char>>, checked_out: Seq<Seq<char>>)
    ensures
        forall|i: int| 0 <= i < remote_entries(remotes, local_names, checked_out).len()
            ==> !local_names.contains((#[trigger] remote_entries(remotes, local_names, checked_out)[i]).name),
    decreases remotes.len(),
{
    if remotes.len() > 0 {
        lemma_remote_entries_not_local(remotes.drop_last(), local_names, checked_out);
        let init = remote_entries(remotes.drop_last(), local_names, checked_out);
        let all = remote_entries(remotes, local_names, checked_out);
        assert forall|i: int| 0 <= i < all.len() implies !local_names.contains((#[trigger] all[i]).name) by {
            if i < init.len() {
                assert(all[i] == init[i]);
            }
        }
    }
}

/// The remote-tracking part of the branch list names each branch once,
/// and never a branch a local entry already names.
pub proof fn law_remote_names_unique(
    locals: Seq<(Seq<char>, bool)>,
    remotes: Seq<Seq<char>>,
    checked_out: Seq<Seq<char>>,
    sorted: Seq<BranchView>,
)
    requires
        stably_sorted_by(
            remote_entries(remotes, locals.map_values(|p: (Seq<char>, bool)| p.0), checked_out),
            sorted,
            |b: BranchView| branch_key(b),
        ),
    ensures
        forall|i: int, j: int| 0 <= i < j < dedup_names(sorted).len() ==> (#[trigger] dedup_names(sorted)[i]).name != (#[trigger] dedup_names(sorted)[j]).name,
        forall|i: int| 0 <= i < dedup_names(sorted).len()
            ==> !locals.map_values(|p: (Seq<char>, bool)| p.0).contains((#[trigger] dedup_names(sorted)[i]).name),
{
    let lnames = locals.map_values(|p: (Seq<char>, bool)| p.0);
    let rv = remote_entries(remotes, lnames, checked_out);
    let key = |b: BranchView| branch_key(b);
    assert(names_nondecreasing(sorted)) by {
        assert forall|i: int, j: int| 0 <= i < j < sorted.len() implies !chars_lt(#[trigger] sorted[j].name, #[trigger] sorted[i].name) by {
            assert(!key_lt(key(sorted[j]), key(sorted[i])));
        }
    }
    lemma_dedup_strictly_increasing(sorted);
    let d = dedup_names(sorted);
    assert forall|i: int, j: int| 0 <= i < j < d.len() implies (#[trigger] d[i]).name != (#[trigger] d[j]).name by {
        lemma_chars_lt_irreflexive(d[i].name);
    }
    lemma_dedup_members(sorted);
    lemma_remote_entries_not_local(remotes, lnames, checked_out);
    assert forall|i: int| 0 <= i < d.len() implies !lnames.contains((#[trigger] d[i]).name) by {
        let x = d[i];
        let k = choose|k: int| 0 <= k < sorted.len() && sorted[k] == x;
        let f = key_is(key, key(x));
        sorted.lemma_filter_contains(f, k);
        assert(rv.filter(f).contains(x));
        rv.lemma_filter_contains_rev(f, x);
        let m = choose|m: int| 0 <= m < rv.len() && rv[m] == x;
        assert(!lnames.contains(rv[m].name));
    }
}

} // verus!
