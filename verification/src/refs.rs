//! The base-ref picker of the create-worktree dialog: which refs a new
//! worktree can branch from, what each one is, and in what order they are
//! offered.
use vstd::prelude::*;
use crate::order::{
    SortKey, append_items, items_of, keys_agree, lemma_sorted_items, lemma_sorted_views,
    stable_sort_by_key, stably_sorted_by, views,
};
use crate::text::{chars_of, contains_string, push_char, push_str, split_once, split_once_char, string_of};

verus! {

broadcast use vstd::seq_lib::group_seq_properties;

/// What a [`RefInfo`] represents, so the picker can label it.
#[derive(Debug, Clone, PartialEq, Eq)]
pub enum RefKind {
    /// Checked out in the worktree the user is currently looking at.
    Current,
    /// The repo's configured default base, or `HEAD` when unset.
    Default,
    /// Checked out in some other worktree; creating a worktree on it would
    /// be refused.
    Worktree,
    /// An ordinary local branch.
    Local,
    /// A remote-tracking branch; `remote` names which remote.
    Remote { remote: String },
}

/// The mathematical value of a [`RefKind`].
pub enum KindView {
    Current,
    Default,
    Worktree,
    Local,
    Remote(Seq<char>),
}

impl View for RefKind {
    type V = KindView;

    open spec fn view(&self) -> KindView {
        match self {
            RefKind::Current => KindView::Current,
            RefKind::Default => KindView::Default,
            RefKind::Worktree => KindView::Worktree,
            RefKind::Local => KindView::Local,
            RefKind::Remote { remote } => KindView::Remote(remote@),
        }
    }
}

/// One ref as shown in the base-ref picker.
#[derive(Debug, Clone, PartialEq, Eq)]
pub struct RefInfo {
    /// What to pass to git as the base (e.g. `main`, `origin/feature/x`).
    pub name: String,
    /// What to show in the picker.
    pub display: String,
    pub kind: RefKind,
    /// Commit subject for a secondary line, if known.
    pub subject: Option<String>,
    /// Short commit id for a secondary line, if known.
    pub short_id: Option<String>,
}

/// The mathematical value of a [`RefInfo`].
pub struct RefView {
    pub name: Seq<char>,
    pub display: Seq<char>,
    pub kind: KindView,
    pub subject: Option<Seq<char>>,
    pub short_id: Option<Seq<char>>,
}

/// The characters of an optional string.
pub open spec fn opt_view(o: Option<String>) -> Option<Seq<char>> {
    match o {
        Some(s) => Some(s@),
        None => None,
    }
}

/// The characters of an optional string slice.
pub open spec fn str_opt(o: Option<&str>) -> Option<Seq<char>> {
    match o {
        Some(s) => Some(s@),
        None => None,
    }
}

impl View for RefInfo {
    type V = RefView;

    open spec fn view(&self) -> RefView {
        RefView {
            name: self.name@,
            display: self.display@,
            kind: self.kind@,
            subject: opt_view(self.subject),
            short_id: opt_view(self.short_id),
        }
    }
}

/// One candidate ref gathered from git, before kinds are assigned and the
/// list is ordered.
pub struct RawRef {
    /// Local: the branch name. Remote: `<remote>/<short>`.
    pub name: String,
    /// `None` for a local branch, `Some(remote)` for a remote-tracking one.
    pub remote: Option<String>,
}

impl View for RawRef {
    type V = (Seq<char>, Option<Seq<char>>);

    open spec fn view(&self) -> (Seq<char>, Option<Seq<char>>) {
        (self.name@, opt_view(self.remote))
    }
}

/// A ref with only its name, display text (the name) and kind.
pub open spec fn bare_view(name: Seq<char>, kind: KindView) -> RefView {
    RefView { name, display: name, kind, subject: None, short_id: None }
}

/// The name of the default base: the configured one, else `HEAD`.
pub open spec fn default_name(default_base: Option<Seq<char>>) -> Seq<char> {
    match default_base {
        Some(d) => d,
        None => seq!['H', 'E', 'A', 'D'],
    }
}

/// A local branch named like the current branch.
pub open spec fn is_current(r: (Seq<char>, Option<Seq<char>>), cur: Option<Seq<char>>) -> bool {
    r.1 is None && cur == Some(r.0)
}

/// A ref named like the default base that the current entry has not taken.
pub open spec fn claims_default(
    r: (Seq<char>, Option<Seq<char>>),
    cur: Option<Seq<char>>,
    dn: Seq<char>,
) -> bool {
    r.0 == dn && !is_current(r, cur)
}

/// Index of the first ref that claims the default entry, or `-1`.
pub open spec fn default_index(
    refs: Seq<(Seq<char>, Option<Seq<char>>)>,
    cur: Option<Seq<char>>,
    dn: Seq<char>,
) -> int
    decreases refs.len(),
{
    if refs.len() == 0 {
        -1
    } else {
        let k = default_index(refs.drop_last(), cur, dn);
        if k >= 0 {
            k
        } else if claims_default(refs.last(), cur, dn) {
            refs.len() - 1
        } else {
            -1
        }
    }
}

/// Some local branch is the current one.
pub open spec fn has_current(refs: Seq<(Seq<char>, Option<Seq<char>>)>, cur: Option<Seq<char>>) -> bool {
    exists|j: int| 0 <= j < refs.len() && #[trigger] is_current(refs[j], cur)
}

/// A local branch checked out in another worktree is a `Worktree` entry.
pub open spec fn local_kind(name: Seq<char>, elsewhere: Seq<Seq<char>>) -> KindView {
    if elsewhere.contains(name) {
        KindView::Worktree
    } else {
        KindView::Local
    }
}

/// The local branches that are neither the current entry nor the default
/// entry (the ref at index `d`), in input order.
pub open spec fn other_locals(
    refs: Seq<(Seq<char>, Option<Seq<char>>)>,
    cur: Option<Seq<char>>,
    d: int,
    elsewhere: Seq<Seq<char>>,
) -> Seq<RefView>
    decreases refs.len(),
{
    if refs.len() == 0 {
        Seq::empty()
    } else {
        let init = other_locals(refs.drop_last(), cur, d, elsewhere);
        let r = refs.last();
        if r.1 is None && !is_current(r, cur) && refs.len() - 1 != d {
            init.push(bare_view(r.0, local_kind(r.0, elsewhere)))
        } else {
            init
        }
    }
}

/// The remote-tracking branches other than the default entry (the ref at
/// index `d`), in input order.
pub open spec fn other_remotes(refs: Seq<(Seq<char>, Option<Seq<char>>)>, d: int) -> Seq<RefView>
    decreases refs.len(),
{
    if refs.len() == 0 {
        Seq::empty()
    } else {
        let init = other_remotes(refs.drop_last(), d);
        let r = refs.last();
        if r.1 is Some && refs.len() - 1 != d {
            init.push(bare_view(r.0, KindView::Remote(r.1->0)))
        } else {
            init
        }
    }
}

/// The `Current` entry, if a local branch is current, then the `Default`
/// entry, unless nothing claimed it and it would repeat the current entry.
pub open spec fn leading_entries(
    refs: Seq<(Seq<char>, Option<Seq<char>>)>,
    cur: Option<Seq<char>>,
    dn: Seq<char>,
) -> Seq<RefView> {
    let cur_part = if has_current(refs, cur) {
        seq![bare_view(cur->0, KindView::Current)]
    } else {
        Seq::empty()
    };
    let def_part = if default_index(refs, cur, dn) < 0 && has_current(refs, cur) && cur == Some(dn) {
        Seq::empty()
    } else {
        seq![bare_view(dn, KindView::Default)]
    };
    cur_part + def_part
}

/// Entries are ordered by name.
pub open spec fn name_key(v: RefView) -> (u8, Seq<char>) {
    (0u8, v.name)
}

/// `out` is the picker order of `refs`: the leading entries, then the other
/// local branches, then the other remote-tracking branches, each group
/// sorted by name with equal names kept in input order.
pub open spec fn picker_order(
    refs: Seq<(Seq<char>, Option<Seq<char>>)>,
    cur: Option<Seq<char>>,
    elsewhere: Seq<Seq<char>>,
    dn: Seq<char>,
    out: Seq<RefView>,
) -> bool {
    let d = default_index(refs, cur, dn);
    let head = leading_entries(refs, cur, dn);
    let locals = other_locals(refs, cur, d, elsewhere);
    let remotes = other_remotes(refs, d);
    &&& out.len() == head.len() + locals.len() + remotes.len()
    &&& out.take(head.len() as int) == head
    &&& stably_sorted_by(
        locals,
        out.subrange(head.len() as int, (head.len() + locals.len()) as int),
        |v: RefView| name_key(v),
    )
    &&& stably_sorted_by(remotes, out.skip((head.len() + locals.len()) as int), |v: RefView| name_key(v))
}

proof fn lemma_default_index_range(
    refs: Seq<(Seq<char>, Option<Seq<char>>)>,
    cur: Option<Seq<char>>,
    dn: Seq<char>,
)
    ensures
        -1 <= default_index(refs, cur, dn) < refs.len(),
    decreases refs.len(),
{
    if refs.len() > 0 {
        lemma_default_index_range(refs.drop_last(), cur, dn);
    }
}

proof fn lemma_others_ignore_outside(
    refs: Seq<(Seq<char>, Option<Seq<char>>)>,
    cur: Option<Seq<char>>,
    d: int,
    elsewhere: Seq<Seq<char>>,
)
    requires
        d < 0 || d >= refs.len(),
    ensures
        other_locals(refs, cur, d, elsewhere) == other_locals(refs, cur, -1, elsewhere),
        other_remotes(refs, d) == other_remotes(refs, -1),
    decreases refs.len(),
{
    if refs.len() > 0 {
        lemma_others_ignore_outside(refs.drop_last(), cur, d, elsewhere);
    }
}

/// A ref with only `name`, `display` (the name) and `kind` filled in.
pub fn bare_ref(name: String, kind: RefKind) -> (r: RefInfo)
    ensures
        r@ == bare_view(name@, kind@),
{
    RefInfo { display: name.clone(), name, kind, subject: None, short_id: None }
}

/// Orders and kinds a flat set of refs into picker order: the `Current`
/// entry first, then the `Default` entry, then the other local branches
/// (alphabetical), then the remote-tracking branches (alphabetical).
///
/// A local branch named `current_branch` becomes the `Current` entry; that
/// check runs before the default check, so a branch that is both current
/// and the default base shows up once. The first other ref named like the
/// default base (`HEAD` when unset) becomes the `Default` entry; when none
/// is, a `Default` entry is made up for the name, unless the `Current`
/// entry already carries it.
pub fn assemble_ref_order(
    refs: Vec<RawRef>,
    current_branch: Option<&str>,
    checked_out_elsewhere: &Vec<String>,
    default_base: Option<&str>,
) -> (r: Vec<RefInfo>)
    ensures
        picker_order(
            views(refs@),
            str_opt(current_branch),
            views(checked_out_elsewhere@),
            default_name(str_opt(default_base)),
            views(r@),
        ),
{
    let ghost rv = views(refs@);
    let ghost cur = str_opt(current_branch);
    let ghost ew = views(checked_out_elsewhere@);
    let ghost dn = default_name(str_opt(default_base));
    let ghost key = |x: RefInfo| name_key(x@);
    let default_name_s: String = match default_base {
        Some(d) => d.to_owned(),
        None => "HEAD".to_owned(),
    };
    proof {
        reveal_strlit("HEAD");
        assert(default_name_s@ =~= dn);
    }
    let cur_s: Option<String> = match current_branch {
        Some(c) => Some(c.to_owned()),
        None => None,
    };
    let mut current_entry: Option<RefInfo> = None;
    let mut default_entry: Option<RefInfo> = None;
    let mut locals: Vec<(SortKey, RefInfo)> = Vec::new();
    let mut remotes: Vec<(SortKey, RefInfo)> = Vec::new();
    let mut rest = refs;
    let ghost mut i: int = 0;
    proof {
        assert(rv.take(0) =~= Seq::<(Seq<char>, Option<Seq<char>>)>::empty());
        assert(rv.skip(0) =~= rv);
        assert(items_of(locals@) =~= Seq::<RefInfo>::empty());
        assert(items_of(remotes@) =~= Seq::<RefInfo>::empty());
        assert(views(items_of(locals@)) =~= Seq::<RefView>::empty());
        assert(views(items_of(remotes@)) =~= Seq::<RefView>::empty());
    }
    while rest.len() > 0
        invariant
            0 <= i <= rv.len(),
            rest@.len() + i == rv.len(),
            views(rest@) == rv.skip(i),
            ew == views(checked_out_elsewhere@),
            key == (|x: RefInfo| name_key(x@)),
            default_name_s@ == dn,
            opt_view(cur_s) == cur,
            current_entry is Some <==> has_current(rv.take(i), cur),
            current_entry is Some ==> current_entry->0@ == bare_view(cur->0, KindView::Current),
            default_entry is Some <==> default_index(rv.take(i), cur, dn) >= 0,
            default_entry is Some ==> default_entry->0@ == bare_view(dn, KindView::Default),
            keys_agree(locals@, key),
            keys_agree(remotes@, key),
            views(items_of(locals@)) == other_locals(rv.take(i), cur, default_index(rv.take(i), cur, dn), ew),
            views(items_of(remotes@)) == other_remotes(rv.take(i), default_index(rv.take(i), cur, dn)),
        decreases rest.len(),
    {
        let ghost before_rest = rest@;
        let ghost pre = rv.take(i);
        let ghost post = rv.take(i + 1);
        let ghost d_old = default_index(pre, cur, dn);
        let ghost old_locals = locals@;
        let ghost old_remotes = remotes@;
        let r = rest.remove(0);
        let ghost rr = r@;
        proof {
            assert(views(before_rest)[0] == rv.skip(i)[0]);
            assert(rr == rv[i]);
            assert(post.drop_last() =~= pre);
            assert(post.last() == rr);
            assert(views(rest@) =~= rv.skip(i + 1)) by {
                assert forall|m: int| 0 <= m < rest@.len() implies #[trigger] views(rest@)[m] == rv.skip(i + 1)[m] by {
                    assert(rest@[m] == before_rest[m + 1]);
                    assert(views(before_rest)[m + 1] == rv.skip(i)[m + 1]);
                }
            }
            lemma_default_index_range(pre, cur, dn);
            assert(has_current(post, cur) == (has_current(pre, cur) || is_current(rr, cur))) by {
                if has_current(pre, cur) {
                    let j = choose|j: int| 0 <= j < pre.len() && #[trigger] is_current(pre[j], cur);
                    assert(post[j] == pre[j]);
                }
                if is_current(rr, cur) {
                    assert(post[i] == rr);
                }
                if has_current(post, cur) {
                    let j = choose|j: int| 0 <= j < post.len() && #[trigger] is_current(post[j], cur);
                    if j < i {
                        assert(pre[j] == post[j]);
                    }
                }
            }
        }
        let RawRef { name, remote } = r;
        match remote {
            None => {
                let is_cur = match &cur_s {
                    Some(c) => *c == name,
                    None => false,
                };
                if is_cur {
                    current_entry = Some(bare_ref(name, RefKind::Current));
                    proof {
                        assert(is_current(rr, cur));
                        assert(default_index(post, cur, dn) == d_old);
                        assert(other_locals(post, cur, d_old, ew) == other_locals(pre, cur, d_old, ew));
                        assert(other_remotes(post, d_old) == other_remotes(pre, d_old));
                    }
                } else if default_entry.is_none() && name == default_name_s {
                    default_entry = Some(bare_ref(name, RefKind::Default));
                    proof {
                        assert(!is_current(rr, cur));
                        assert(default_index(post, cur, dn) == i);
                        lemma_others_ignore_outside(pre, cur, d_old, ew);
                        lemma_others_ignore_outside(pre, cur, i, ew);
                        assert(other_locals(post, cur, i, ew) == other_locals(pre, cur, i, ew));
                        assert(other_remotes(post, i) == other_remotes(pre, i));
                    }
                } else {
                    let elsewhere = contains_string(checked_out_elsewhere, &name);
                    let kind = if elsewhere {
                        RefKind::Worktree
                    } else {
                        RefKind::Local
                    };
                    let k = SortKey { rank: 0, text: chars_of(name.as_str()) };
                    let e = bare_ref(name, kind);
                    proof {
                        assert(!is_current(rr, cur));
                        assert(default_index(post, cur, dn) == d_old);
                        assert(d_old != i);
                        assert(e@ == bare_view(rr.0, local_kind(rr.0, ew)));
                        assert(other_locals(post, cur, d_old, ew) == other_locals(pre, cur, d_old, ew).push(e@));
                        assert(other_remotes(post, d_old) == other_remotes(pre, d_old));
                    }
                    locals.push((k, e));
                    proof {
                        assert(items_of(locals@) =~= items_of(old_locals).push(e));
                        assert(views(items_of(locals@)) =~= views(items_of(old_locals)).push(e@));
                        assert forall|j: int| 0 <= j < locals@.len() implies #[trigger] locals@[j].0@ == key(locals@[j].1) by {
                            if j < old_locals.len() {
                                assert(locals@[j] == old_locals[j]);
                            }
                        }
                    }
                }
            },
            Some(remote) => {
                if default_entry.is_none() && name == default_name_s {
                    default_entry = Some(bare_ref(name, RefKind::Default));
                    proof {
                        assert(!is_current(rr, cur));
                        assert(default_index(post, cur, dn) == i);
                        lemma_others_ignore_outside(pre, cur, d_old, ew);
                        lemma_others_ignore_outside(pre, cur, i, ew);
                        assert(other_locals(post, cur, i, ew) == other_locals(pre, cur, i, ew));
                        assert(other_remotes(post, i) == other_remotes(pre, i));
                    }
                } else {
                    let k = SortKey { rank: 0, text: chars_of(name.as_str()) };
                    let ghost remote_v = remote@;
                    let e = bare_ref(name, RefKind::Remote { remote });
                    proof {
                        assert(!is_current(rr, cur));
                        assert(default_index(post, cur, dn) == d_old);
                        assert(d_old != i);
                        assert(e@ == bare_view(rr.0, KindView::Remote(rr.1->0)));
                        assert(other_locals(post, cur, d_old, ew) == other_locals(pre, cur, d_old, ew));
                        assert(other_remotes(post, d_old) == other_remotes(pre, d_old).push(e@));
                    }
                    remotes.push((k, e));
                    proof {
                        assert(items_of(remotes@) =~= items_of(old_remotes).push(e));
                        assert(views(items_of(remotes@)) =~= views(items_of(old_remotes)).push(e@));
                        assert forall|j: int| 0 <= j < remotes@.len() implies #[trigger] remotes@[j].0@ == key(remotes@[j].1) by {
                            if j < old_remotes.len() {
                                assert(remotes@[j] == old_remotes[j]);
                            }
                        }
                    }
                }
            },
        }
        proof {
            i = i + 1;
        }
    }
    proof {
        assert(rv.take(i) =~= rv);
    }
    let current_is_default = match &current_entry {
        Some(c) => c.name == default_name_s,
        None => false,
    };
    if default_entry.is_none() && !current_is_default {
        default_entry = Some(bare_ref(default_name_s, RefKind::Default));
    }
    let ghost d = default_index(rv, cur, dn);
    let ghost head = leading_entries(rv, cur, dn);
    let ghost lv = other_locals(rv, cur, d, ew);
    let ghost rmv = other_remotes(rv, d);
    let sorted_locals = stable_sort_by_key(locals);
    let sorted_remotes = stable_sort_by_key(remotes);
    proof {
        let key2 = |v: RefView| name_key(v);
        assert(key =~= (|x: RefInfo| key2(x@)));
        lemma_sorted_items(locals@, sorted_locals@, key);
        lemma_sorted_views(items_of(locals@), items_of(sorted_locals@), key2);
        lemma_sorted_items(remotes@, sorted_remotes@, key);
        lemma_sorted_views(items_of(remotes@), items_of(sorted_remotes@), key2);
    }
    let mut result: Vec<RefInfo> = Vec::new();
    match current_entry {
        Some(c) => result.push(c),
        None => {},
    }
    match default_entry {
        Some(e) => result.push(e),
        None => {},
    }
    let ghost lead = result@;
    proof {
        assert(views(lead) =~= head);
    }
    append_items(&mut result, sorted_locals);
    let ghost mid = result@;
    append_items(&mut result, sorted_remotes);
    proof {
        let sl = views(items_of(sorted_locals@));
        let sr = views(items_of(sorted_remotes@));
        assert(mid == lead + items_of(sorted_locals@));
        assert(sl.len() == lv.len());
        assert(views(result@) =~= head + sl + sr);
        assert(views(result@).take(head.len() as int) =~= head);
        assert(views(result@).subrange(head.len() as int, (head.len() + lv.len()) as int) =~= sl);
        assert(views(result@).skip((head.len() + lv.len()) as int) =~= sr);
    }
    result
}

/// The remote and short name of a remote-tracking branch's full name
/// (`<remote>/<short>`, split at the first `/`); `None` when the name has
/// no `/`, or names the remote's symbolic `HEAD` rather than a branch.
pub open spec fn remote_short(full: Seq<char>) -> Option<(Seq<char>, Seq<char>)> {
    match split_once(full, '/') {
        Some((remote, short)) => if short == seq!['H', 'E', 'A', 'D'] {
            None
        } else {
            Some((remote, short))
        },
        None => None,
    }
}

/// Splits a remote-tracking branch's full name into remote and short name.
pub fn split_remote_branch(full: &str) -> (r: Option<(String, String)>)
    ensures
        match r {
            Some((remote, short)) => remote_short(full@) == Some((remote@, short@)),
            None => remote_short(full@).is_none(),
        },
{
    let v = chars_of(full);
    match split_once_char(&v, '/') {
        Some((a, b)) => {
            let remote = string_of(&a);
            let short = string_of(&b);
            let head = "HEAD".to_owned();
            proof {
                reveal_strlit("HEAD");
                assert(head@ =~= seq!['H', 'E', 'A', 'D']);
            }
            if short == head {
                None
            } else {
                Some((remote, short))
            }
        },
        None => None,
    }
}

/// The raw refs gathered from the remote-tracking branch names, in order:
/// `<remote>/<short>` of remote `<remote>` for each name that splits.
pub open spec fn remote_raws(remotes: Seq<Seq<char>>) -> Seq<(Seq<char>, Option<Seq<char>>)>
    decreases remotes.len(),
{
    if remotes.len() == 0 {
        Seq::empty()
    } else {
        let init = remote_raws(remotes.drop_last());
        match remote_short(remotes.last()) {
            Some((remote, short)) => init.push((remote + seq!['/'] + short, Some(remote))),
            None => init,
        }
    }
}

/// The raw refs of the local branch names, then of the remote-tracking
/// branch names.
pub open spec fn raw_refs_of(locals: Seq<Seq<char>>, remotes: Seq<Seq<char>>) -> Seq<(Seq<char>, Option<Seq<char>>)> {
    locals.map_values(|n: Seq<char>| (n, None::<Seq<char>>)) + remote_raws(remotes)
}

/// The candidate refs for the picker, from the local branch names and the
/// full names of the remote-tracking branches.
pub fn raw_refs(local_names: Vec<String>, remote_names: &Vec<String>) -> (r: Vec<RawRef>)
    ensures
        views(r@) == raw_refs_of(views(local_names@), views(remote_names@)),
{
    let ghost lv = views(local_names@);
    let ghost rmv = views(remote_names@);
    let mut out: Vec<RawRef> = Vec::new();
    let mut rest = local_names;
    let ghost mut i: int = 0;
    while rest.len() > 0
        invariant
            0 <= i <= lv.len(),
            rest@.len() + i == lv.len(),
            views(rest@) == lv.skip(i),
            views(out@) == lv.take(i).map_values(|n: Seq<char>| (n, None::<Seq<char>>)),
        decreases rest.len(),
    {
        let ghost before = rest@;
        let ghost old_out = out@;
        let name = rest.remove(0);
        proof {
            assert(views(before)[0] == lv.skip(i)[0]);
            assert forall|m: int| 0 <= m < rest@.len() implies #[trigger] views(rest@)[m] == lv.skip(i + 1)[m] by {
                assert(rest@[m] == before[m + 1]);
                assert(views(before)[m + 1] == lv.skip(i)[m + 1]);
            }
        }
        out.push(RawRef { name, remote: None });
        proof {
            assert(views(rest@) =~= lv.skip(i + 1));
            assert(views(out@) =~= views(old_out).push((lv[i], None::<Seq<char>>)));
            assert(lv.take(i + 1).map_values(|n: Seq<char>| (n, None::<Seq<char>>))
                =~= lv.take(i).map_values(|n: Seq<char>| (n, None::<Seq<char>>)).push((lv[i], None::<Seq<char>>)));
            i = i + 1;
        }
    }
    let ghost locals_part = views(out@);
    proof {
        assert(lv.take(i) =~= lv);
        assert(remote_raws(rmv.take(0)) =~= Seq::<(Seq<char>, Option<Seq<char>>)>::empty());
        assert(views(out@) =~= locals_part + remote_raws(rmv.take(0)));
    }
    let mut j: usize = 0;
    while j < remote_names.len()
        invariant
            j <= remote_names@.len(),
            rmv == views(remote_names@),
            views(out@) == locals_part + remote_raws(rmv.take(j as int)),
        decreases remote_names.len() - j,
    {
        let ghost old_out = out@;
        proof {
            assert(rmv.take(j + 1).drop_last() =~= rmv.take(j as int));
            assert(rmv[j as int] == remote_names@[j as int]@);
        }
        match split_remote_branch(remote_names[j].as_str()) {
            Some((remote, short)) => {
                let mut name = remote.clone();
                push_char(&mut name, '/');
                push_str(&mut name, short.as_str());
                proof {
                    assert(name@ =~= remote@ + seq!['/'] + short@);
                }
                let ghost item = (name@, Some(remote@));
                out.push(RawRef { name, remote: Some(remote) });
                proof {
                    assert(rmv.take(j + 1).last() == rmv[j as int]);
                    assert(out@.last()@ == item);
                    assert(views(out@) =~= views(old_out).push(item));
                }
            },
            None => {
                proof {
                    assert(rmv.take(j + 1).last() == rmv[j as int]);
                }
            },
        }
        j = j + 1;
    }
    proof {
        assert(rmv.take(remote_names@.len() as int) =~= rmv);
    }
    out
}

proof fn lemma_no_claim(refs: Seq<(Seq<char>, Option<Seq<char>>)>, cur: Option<Seq<char>>, dn: Seq<char>)
    requires
        forall|j: int| 0 <= j < refs.len() ==> !claims_default(#[trigger] refs[j], cur, dn),
    ensures
        default_index(refs, cur, dn) == -1,
    decreases refs.len(),
{
    if refs.len() > 0 {
        let init = refs.drop_last();
        assert forall|j: int| 0 <= j < init.len() implies !claims_default(#[trigger] init[j], cur, dn) by {
            assert(init[j] == refs[j]);
        }
        lemma_no_claim(init, cur, dn);
        assert(!claims_default(refs[refs.len() - 1], cur, dn));
    }
}

proof fn lemma_other_locals_skip_current(
    refs: Seq<(Seq<char>, Option<Seq<char>>)>,
    cur: Option<Seq<char>>,
    d: int,
    elsewhere: Seq<Seq<char>>,
)
    requires
        cur is Some,
    ensures
        forall|k: int| 0 <= k < other_locals(refs, cur, d, elsewhere).len() ==> Some(#[trigger] other_locals(refs, cur, d, elsewhere)[k].name) != cur,
    decreases refs.len(),
{
    if refs.len() > 0 {
        lemma_other_locals_skip_current(refs.drop_last(), cur, d, elsewhere);
    }
}

proof fn lemma_other_remotes_names(refs: Seq<(Seq<char>, Option<Seq<char>>)>, d: int, name: Seq<char>)
    requires
        forall|j: int| 0 <= j < refs.len() ==> !((#[trigger] refs[j]).1 is Some && refs[j].0 == name),
    ensures
        forall|k: int| 0 <= k < other_remotes(refs, d).len() ==> (#[trigger] other_remotes(refs, d)[k]).name != name,
    decreases refs.len(),
{
    if refs.len() > 0 {
        let init = refs.drop_last();
        assert forall|j: int| 0 <= j < init.len() implies !((#[trigger] init[j]).1 is Some && init[j].0 == name) by {
            assert(init[j] == refs[j]);
        }
        lemma_other_remotes_names(init, d, name);
        assert(!(refs[refs.len() - 1].1 is Some && refs[refs.len() - 1].0 == name));
    }
}

/// A branch that is both the current one and the default base is listed
/// once, as the `Current` entry: no `Default` entry repeats it, and no
/// other local or remote entry carries its name (when no remote-tracking
/// branch has that very name).
pub proof fn law_current_default_listed_once(
    refs: Seq<(Seq<char>, Option<Seq<char>>)>,
    cur: Option<Seq<char>>,
    elsewhere: Seq<Seq<char>>,
    dn: Seq<char>,
)
    requires
        cur == Some(dn),
        has_current(refs, cur),
        forall|j: int| 0 <= j < refs.len() ==> !((#[trigger] refs[j]).1 is Some && refs[j].0 == dn),
    ensures
        leading_entries(refs, cur, dn) == seq![bare_view(dn, KindView::Current)],
        forall|k: int| 0 <= k < other_locals(refs, cur, default_index(refs, cur, dn), elsewhere).len()
            ==> (#[trigger] other_locals(refs, cur, default_index(refs, cur, dn), elsewhere)[k]).name != dn,
        forall|k: int| 0 <= k < other_remotes(refs, default_index(refs, cur, dn)).len()
            ==> (#[trigger] other_remotes(refs, default_index(refs, cur, dn))[k]).name != dn,
{
    assert forall|j: int| 0 <= j < refs.len() implies !claims_default(#[trigger] refs[j], cur, dn) by {
        if refs[j].0 == dn && refs[j].1 is None {
            assert(is_current(refs[j], cur));
        }
    }
    lemma_no_claim(refs, cur, dn);
    let d = default_index(refs, cur, dn);
    lemma_other_locals_skip_current(refs, cur, d, elsewhere);
    lemma_other_remotes_names(refs, d, dn);
    assert(leading_entries(refs, cur, dn) =~= seq![bare_view(dn, KindView::Current)]);
}

} // verus!
