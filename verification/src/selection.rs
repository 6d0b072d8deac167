//! The worktree list's selection: one selected row (the anchor), or a
//! multi-selection built by shift/cmd-clicks, and how each click, arrow
//! key, filter change or reload moves it.
//!
//! Rows are named by their index in the list; the rows a filter leaves
//! visible are passed in as `visible`, their indices in list order.
use vstd::prelude::*;
use crate::order::views;
use crate::paths::{find_path, path_components, path_keys, path_row, same_path};
use crate::rowset::{
    find_index, lemma_position_of, lemma_position_of_facts, position_of, set_insert, set_of,
    set_remove, strictly_sorted,
};

verus! {

broadcast use vstd::seq_lib::group_seq_properties;

/// The selection of the worktree list.
pub struct Selection {
    selected: Option<usize>,
    multi: Vec<usize>,
}

/// The mathematical value of a [`Selection`]: the selected row (the
/// anchor) and the rows of a multi-selection, in increasing order (empty
/// when there is none).
pub struct SelectionView {
    pub selected: Option<usize>,
    pub multi: Seq<usize>,
}

impl View for Selection {
    type V = SelectionView;

    closed spec fn view(&self) -> SelectionView {
        SelectionView { selected: self.selected, multi: self.multi@ }
    }
}

/// The rows of a multi-selection are a set: increasing, none twice.
pub open spec fn selection_wf(v: SelectionView) -> bool {
    strictly_sorted(v.multi)
}

/// The increasing sequence of the members of `s`.
pub open spec fn sorted_of(s: Set<usize>) -> Seq<usize> {
    choose|q: Seq<usize>| strictly_sorted(q) && q.to_set() == s
}

/// The selected rows: the multi-selection once there is one, else the
/// selected row alone.
pub open spec fn indices_of(v: SelectionView) -> Seq<usize> {
    if v.multi.len() == 0 {
        match v.selected {
            Some(i) => seq![i],
            None => Seq::empty(),
        }
    } else {
        v.multi
    }
}

/// Whether `row` is selected.
pub open spec fn selected_in(v: SelectionView, row: usize) -> bool {
    if v.multi.len() == 0 {
        v.selected == Some(row)
    } else {
        v.multi.contains(row)
    }
}

/// A computed set of rows applied as the selection: at most one row
/// collapses to a plain selection (of that row, else of `anchor`);
/// otherwise it is the multi-selection, anchored at `anchor`.
pub open spec fn applied(set: Seq<usize>, anchor: usize) -> SelectionView {
    if set.len() <= 1 {
        SelectionView {
            selected: if set.len() == 1 { Some(set[0]) } else { Some(anchor) },
            multi: Seq::empty(),
        }
    } else {
        SelectionView { selected: Some(anchor), multi: set }
    }
}

/// `current` with `row`'s membership flipped.
pub open spec fn toggled(current: Seq<usize>, row: usize) -> Set<usize> {
    if current.contains(row) {
        current.to_set().remove(row)
    } else {
        current.to_set().insert(row)
    }
}

/// A plain click on `row` of `row_count` rows.
pub open spec fn selecting(v: SelectionView, row: usize, row_count: usize) -> SelectionView {
    if row < row_count {
        SelectionView { selected: Some(row), multi: Seq::empty() }
    } else {
        v
    }
}

/// The position of the selected row among the visible rows, or `-1`.
pub open spec fn visible_position(v: SelectionView, visible: Seq<usize>) -> int {
    match v.selected {
        Some(s) => position_of(visible, s),
        None => -1,
    }
}

/// The visible position the down arrow moves to: the next one, staying on
/// the last; the first when the selection is not visible.
pub open spec fn next_position(v: SelectionView, visible: Seq<usize>) -> int {
    let p = visible_position(v, visible);
    if p >= 0 {
        if p + 1 < visible.len() { p + 1 } else { p }
    } else {
        0
    }
}

/// The visible position the up arrow moves to: the previous one, staying
/// on the first; the first when the selection is not visible.
pub open spec fn prev_position(v: SelectionView, visible: Seq<usize>) -> int {
    let p = visible_position(v, visible);
    if p > 0 {
        p - 1
    } else {
        0
    }
}

/// A shift-click on `row`: every visible row between the anchor (or `row`
/// when nothing is selected) and `row`, inclusive, anchored where the
/// anchor was; a plain click when either is not visible.
pub open spec fn extended(v: SelectionView, row: usize, visible: Seq<usize>, row_count: usize) -> SelectionView {
    let anchor = match v.selected {
        Some(s) => s,
        None => row,
    };
    let a = position_of(visible, anchor);
    let b = position_of(visible, row);
    if a < 0 || b < 0 {
        selecting(v, row, row_count)
    } else {
        let lo = if a < b { a } else { b };
        let hi = if a < b { b } else { a };
        applied(sorted_of(visible.subrange(lo, hi + 1).to_set()), anchor)
    }
}

/// After the visible rows change: hidden rows leave the multi-selection, a
/// multi-selection left with one row or none collapses (to that row), and
/// a selected row that is not visible gives way to the first visible row.
pub open spec fn clamped(v: SelectionView, visible: Seq<usize>) -> SelectionView {
    let kept = v.multi.filter(|i: usize| visible.contains(i));
    let (sel1, multi1) = if kept.len() <= 1 {
        (if kept.len() == 1 { Some(kept[0]) } else { v.selected }, Seq::<usize>::empty())
    } else {
        (v.selected, kept)
    };
    let sel2 = match sel1 {
        Some(s) => if visible.contains(s) {
            Some(s)
        } else if visible.len() > 0 {
            Some(visible[0])
        } else {
            None
        },
        None => if visible.len() > 0 {
            Some(visible[0])
        } else {
            None
        },
    };
    SelectionView { selected: sel2, multi: multi1 }
}

/// The paths of the multi-selected rows that exist, in order.
pub open spec fn paths_of(multi: Seq<usize>, paths: Seq<Seq<char>>) -> Seq<Seq<char>>
    decreases multi.len(),
{
    if multi.len() == 0 {
        Seq::empty()
    } else {
        let init = paths_of(multi.drop_last(), paths);
        if multi.last() < paths.len() {
            init.push(paths[multi.last() as int])
        } else {
            init
        }
    }
}

/// The path of the selected row, if it exists.
pub open spec fn anchor_path(v: SelectionView, paths: Seq<Seq<char>>) -> Option<Seq<char>> {
    match v.selected {
        Some(i) => if i < paths.len() {
            Some(paths[i as int])
        } else {
            None
        },
        None => None,
    }
}

/// The rows at which the given paths now stand.
pub open spec fn found_rows(wanted: Seq<Seq<char>>, paths: Seq<Seq<char>>) -> Set<usize>
    decreases wanted.len(),
{
    if wanted.len() == 0 {
        Set::empty()
    } else {
        let init = found_rows(wanted.drop_last(), paths);
        let p = path_row(paths, wanted.last());
        if p >= 0 {
            init.insert(p as usize)
        } else {
            init
        }
    }
}

/// The selection looked back up by path: each path is selected at the
/// first row naming the same path, and dropped when none does.
pub open spec fn restored(paths: Seq<Seq<char>>, anchor: Option<Seq<char>>, multi: Seq<Seq<char>>) -> SelectionView {
    SelectionView {
        selected: match anchor {
            Some(a) => if path_row(paths, a) >= 0 {
                Some(path_row(paths, a) as usize)
            } else {
                None
            },
            None => None,
        },
        multi: sorted_of(found_rows(multi, paths)),
    }
}

/// Where the selection lands after the rows are replaced by a reload (old
/// rows' paths `old_paths`; new rows' paths `new_paths` and display names
/// `new_names`): a pending branch to select wins; else the selected
/// worktree where it now stands; else, with the worktree gone, the old
/// index clamped to the new rows (the first row when nothing was
/// selected, nothing when there are no rows). The multi-selection is
/// looked up by path.
pub open spec fn reloaded(
    v: SelectionView,
    old_paths: Seq<Seq<char>>,
    new_paths: Seq<Seq<char>>,
    new_names: Seq<Seq<char>>,
    pending: Option<Seq<char>>,
) -> SelectionView {
    let anchor = anchor_path(v, old_paths);
    let pend = match pending {
        Some(b) => if position_of(new_names, b) >= 0 { Some(position_of(new_names, b) as usize) } else { None },
        None => None,
    };
    let n = new_paths.len();
    let fallback = if n == 0 {
        None
    } else {
        match v.selected {
            Some(ix) => if ix < n { Some(ix) } else { Some((n - 1) as usize) },
            None => Some(0usize),
        }
    };
    let sel = if pend is Some {
        pend
    } else {
        match anchor {
            Some(a) => if path_row(new_paths, a) >= 0 { Some(path_row(new_paths, a) as usize) } else { fallback },
            None => fallback,
        }
    };
    SelectionView { selected: sel, multi: sorted_of(found_rows(paths_of(v.multi, old_paths), new_paths)) }
}

proof fn lemma_sorted_head_is_min(a: Seq<usize>, x: usize)
    requires
        strictly_sorted(a),
        a.len() > 0,
        a.contains(x),
    ensures
        a[0] <= x,
{
    let k = choose|k: int| 0 <= k < a.len() && a[k] == x;
    if k > 0 {
        assert(a[0] < a[k]);
    }
}

proof fn lemma_sorted_tail_set(a: Seq<usize>)
    requires
        strictly_sorted(a),
        a.len() > 0,
    ensures
        a.drop_first().to_set() == a.to_set().remove(a[0]),
        strictly_sorted(a.drop_first()),
{
    assert forall|y: usize| #[trigger] a.drop_first().to_set().contains(y) <==> a.to_set().remove(a[0]).contains(y) by {
        if a.drop_first().contains(y) {
            let k = choose|k: int| 0 <= k < a.drop_first().len() && a.drop_first()[k] == y;
            assert(a[k + 1] == y);
            assert(a[0] < a[k + 1]);
        }
        if a.contains(y) && y != a[0] {
            let k = choose|k: int| 0 <= k < a.len() && a[k] == y;
            assert(k > 0);
            assert(a.drop_first()[k - 1] == y);
        }
    }
    assert(a.drop_first().to_set() =~= a.to_set().remove(a[0]));
    assert forall|i: int, j: int| 0 <= i < j < a.drop_first().len() implies a.drop_first()[i] < a.drop_first()[j] by {
        assert(a.drop_first()[i] == a[i + 1] && a.drop_first()[j] == a[j + 1]);
    }
}

/// Two increasing sequences with the same members are equal.
pub proof fn lemma_sorted_set_unique(a: Seq<usize>, b: Seq<usize>)
    requires
        strictly_sorted(a),
        strictly_sorted(b),
        a.to_set() == b.to_set(),
    ensures
        a == b,
    decreases a.len(),
{
    if a.len() == 0 {
        if b.len() > 0 {
            assert(b.to_set().contains(b[0]));
            assert(a.to_set().contains(b[0]));
        }
        assert(a =~= b);
    } else {
        assert(a.to_set().contains(a[0]));
        assert(b.len() > 0);
        assert(b.to_set().contains(b[0]));
        lemma_sorted_head_is_min(a, b[0]);
        lemma_sorted_head_is_min(b, a[0]);
        lemma_sorted_tail_set(a);
        lemma_sorted_tail_set(b);
        lemma_sorted_set_unique(a.drop_first(), b.drop_first());
        assert(a =~= seq![a[0]] + a.drop_first());
        assert(b =~= seq![b[0]] + b.drop_first());
    }
}

/// An increasing sequence is the increasing sequence of its members.
pub proof fn lemma_sorted_of(q: Seq<usize>)
    requires
        strictly_sorted(q),
    ensures
        sorted_of(q.to_set()) == q,
{
    let w = sorted_of(q.to_set());
    assert(strictly_sorted(q) && q.to_set() == q.to_set());
    lemma_sorted_set_unique(w, q);
}

/// `row` flipped in `current`, as an increasing set of rows.
pub fn toggled_selection(current: &[usize], row: usize) -> (r: Vec<usize>)
    ensures
        strictly_sorted(r@),
        r@.to_set() == toggled(current@, row),
{
    let mut set = set_of(current);
    let found = set_remove(&mut set, row);
    if !found {
        set_insert(&mut set, row);
    }
    proof {
        if current@.contains(row) {
            assert(current@.to_set().contains(row));
        } else {
            assert(!current@.to_set().contains(row));
        }
    }
    set
}

/// Toggling a row twice gives back the rows one started from.
pub proof fn law_toggle_twice(current: Seq<usize>, row: usize, once: Seq<usize>)
    requires
        once.to_set() == toggled(current, row),
    ensures
        toggled(once, row) == current.to_set(),
{
    if current.contains(row) {
        assert(!once.to_set().contains(row));
        assert(!once.contains(row));
        assert(current.to_set().contains(row));
        assert(once.to_set().insert(row) =~= current.to_set());
    } else {
        assert(once.to_set().contains(row));
        assert(once.contains(row));
        assert(!current.to_set().contains(row));
        assert(once.to_set().remove(row) =~= current.to_set());
    }
}

/// A row is selected exactly when it is among the selected rows.
pub proof fn law_selected_iff_listed(v: SelectionView, row: usize)
    ensures
        selected_in(v, row) == indices_of(v).contains(row),
{
    if v.multi.len() == 0 {
        if v.selected == Some(row) {
            assert(seq![row][0] == row);
        }
    }
}

impl Selection {
    /// Nothing selected.
    pub fn new() -> (r: Selection)
        ensures
            r@.selected.is_none(),
            r@.multi.len() == 0,
            selection_wf(r@),
    {
        Selection { selected: None, multi: Vec::new() }
    }

    /// The selected row (the anchor of a multi-selection).
    pub fn selected(&self) -> (r: Option<usize>)
        ensures
            r == self@.selected,
    {
        self.selected
    }

    /// The rows of the multi-selection, increasing; empty when there is
    /// none.
    pub fn multi_selected(&self) -> (r: Vec<usize>)
        ensures
            r@ == self@.multi,
    {
        let mut r: Vec<usize> = Vec::new();
        let mut i: usize = 0;
        while i < self.multi.len()
            invariant
                i <= self.multi@.len(),
                r@ == self.multi@.take(i as int),
            decreases self.multi.len() - i,
        {
            r.push(self.multi[i]);
            i = i + 1;
            assert(r@ =~= self.multi@.take(i as int));
        }
        assert(self.multi@.take(self.multi@.len() as int) =~= self.multi@);
        r
    }

    /// The effective selection: the multi-selection once there is one,
    /// otherwise the selected row alone.
    pub fn selected_indices(&self) -> (r: Vec<usize>)
        ensures
            r@ == indices_of(self@),
    {
        if self.multi.len() == 0 {
            match self.selected {
                Some(i) => {
                    let r = vec![i];
                    assert(r@ =~= seq![i]);
                    r
                },
                None => {
                    let r: Vec<usize> = Vec::new();
                    assert(r@ =~= Seq::<usize>::empty());
                    r
                },
            }
        } else {
            self.multi_selected()
        }
    }

    /// Whether `row_ix` is selected.
    pub fn is_row_selected(&self, row_ix: usize) -> (r: bool)
        ensures
            r == selected_in(self@, row_ix),
    {
        if self.multi.len() == 0 {
            match self.selected {
                Some(s) => s == row_ix,
                None => false,
            }
        } else {
            let f = find_index(&self.multi, row_ix);
            proof {
                lemma_position_of_facts(self.multi@, row_ix);
            }
            f.is_some()
        }
    }

    /// Applies a computed set of rows as the selection: at most one row
    /// collapses back to a plain selection, so a multi-selection never
    /// holds exactly one row.
    pub fn apply_selection_set(&mut self, set: Vec<usize>, anchor: usize)
        requires
            strictly_sorted(set@),
        ensures
            final(self)@ == applied(set@, anchor),
            selection_wf(final(self)@),
            final(self)@.multi.len() != 1,
    {
        if set.len() <= 1 {
            self.selected = if set.len() == 1 { Some(set[0]) } else { Some(anchor) };
            self.multi = Vec::new();
            assert(self.multi@ =~= Seq::<usize>::empty());
        } else {
            self.selected = Some(anchor);
            self.multi = set;
        }
    }

    /// A plain click: selects `row_ix` alone, collapsing any
    /// multi-selection; a row past the end changes nothing.
    pub fn select(&mut self, row_ix: usize, row_count: usize)
        requires
            selection_wf(old(self)@),
        ensures
            final(self)@ == selecting(old(self)@, row_ix, row_count),
            selection_wf(final(self)@),
            old(self)@.multi.len() != 1 ==> final(self)@.multi.len() != 1,
    {
        if row_ix < row_count {
            self.selected = Some(row_ix);
            self.multi = Vec::new();
            assert(self.multi@ =~= Seq::<usize>::empty());
        }
    }

    /// A cmd-click (or a row's checkbox): flips `row_ix`'s membership in
    /// the selection and makes it the anchor; a row past the end changes
    /// nothing.
    pub fn toggle_row_selection(&mut self, row_ix: usize, row_count: usize)
        requires
            selection_wf(old(self)@),
        ensures
            row_ix >= row_count ==> final(self)@ == old(self)@,
            row_ix < row_count ==> final(self)@ == applied(sorted_of(toggled(indices_of(old(self)@), row_ix)), row_ix),
            selection_wf(final(self)@),
            old(self)@.multi.len() != 1 ==> final(self)@.multi.len() != 1,
    {
        if row_ix >= row_count {
            return;
        }
        let current = self.selected_indices();
        let set = toggled_selection(current.as_slice(), row_ix);
        proof {
            lemma_sorted_of(set@);
        }
        self.apply_selection_set(set, row_ix);
    }

    /// A shift-click: selects every visible row between the anchor and
    /// `row_ix`, inclusive, keeping the anchor where it was; a plain click
    /// when either row is not visible.
    pub fn extend_selection_range(&mut self, row_ix: usize, visible: &Vec<usize>, row_count: usize)
        requires
            selection_wf(old(self)@),
        ensures
            final(self)@ == extended(old(self)@, row_ix, visible@, row_count),
            selection_wf(final(self)@),
            old(self)@.multi.len() != 1 ==> final(self)@.multi.len() != 1,
            old(self)@.selected is Some && position_of(visible@, old(self)@.selected->0) >= 0
                && position_of(visible@, row_ix) >= 0 ==> final(self)@.selected == old(self)@.selected,
    {
        let anchor = match self.selected {
            Some(s) => s,
            None => row_ix,
        };
        let a = find_index(visible, anchor);
        let b = find_index(visible, row_ix);
        if a.is_none() || b.is_none() {
            self.select(row_ix, row_count);
            return;
        }
        let a_pos = a.unwrap();
        let b_pos = b.unwrap();
        let lo = if a_pos < b_pos { a_pos } else { b_pos };
        let hi = if a_pos < b_pos { b_pos } else { a_pos };
        let mut set: Vec<usize> = Vec::new();
        let mut k = lo;
        let n = visible.len();
        proof {
            assert(set@.to_set() =~= visible@.subrange(lo as int, lo as int).to_set());
        }
        while k <= hi
            invariant
                lo <= k <= hi + 1,
                hi < n,
                n == visible@.len(),
                strictly_sorted(set@),
                set@.to_set() == visible@.subrange(lo as int, k as int).to_set(),
            decreases hi + 1 - k,
        {
            set_insert(&mut set, visible[k]);
            proof {
                assert(visible@.subrange(lo as int, k + 1) =~= visible@.subrange(lo as int, k as int).push(visible@[k as int]));
                assert(visible@.subrange(lo as int, k + 1).to_set() =~= visible@.subrange(lo as int, k as int).to_set().insert(visible@[k as int]));
            }
            k = k + 1;
        }
        proof {
            lemma_sorted_of(set@);
            lemma_position_of_facts(visible@, anchor);
            assert(visible@[a_pos as int] == anchor);
            assert(visible@.subrange(lo as int, hi + 1)[a_pos - lo] == anchor);
            assert(visible@.subrange(lo as int, hi + 1).to_set().contains(anchor));
            assert(set@.to_set().contains(anchor));
            assert(set@.contains(anchor));
            if set@.len() == 1 {
                assert(set@[0] == anchor);
            }
        }
        self.apply_selection_set(set, anchor);
    }

    /// The down arrow: moves to the next visible row (staying on the
    /// last), or to the first visible row when the selection is not
    /// visible; the new row's visible position, `None` (and no change)
    /// when no row is visible.
    pub fn select_next(&mut self, visible: &Vec<usize>, row_count: usize) -> (r: Option<usize>)
        requires
            selection_wf(old(self)@),
        ensures
            visible@.len() == 0 ==> r.is_none() && final(self)@ == old(self)@,
            visible@.len() > 0 ==> r == Some(next_position(old(self)@, visible@) as usize)
                && final(self)@ == selecting(old(self)@, visible@[next_position(old(self)@, visible@)], row_count),
            selection_wf(final(self)@),
    {
        if visible.len() == 0 {
            return None;
        }
        let pos = match self.selected {
            Some(s) => find_index(visible, s),
            None => None,
        };
        proof {
            if let Some(s) = self.selected {
                lemma_position_of_facts(visible@, s);
            }
        }
        let p = match pos {
            Some(p) => if p + 1 < visible.len() { p + 1 } else { p },
            None => 0,
        };
        self.select(visible[p], row_count);
        Some(p)
    }

    /// The up arrow: moves to the previous visible row (staying on the
    /// first), or to the first visible row when the selection is not
    /// visible; the new row's visible position, `None` (and no change)
    /// when no row is visible.
    pub fn select_prev(&mut self, visible: &Vec<usize>, row_count: usize) -> (r: Option<usize>)
        requires
            selection_wf(old(self)@),
        ensures
            visible@.len() == 0 ==> r.is_none() && final(self)@ == old(self)@,
            visible@.len() > 0 ==> r == Some(prev_position(old(self)@, visible@) as usize)
                && final(self)@ == selecting(old(self)@, visible@[prev_position(old(self)@, visible@)], row_count),
            selection_wf(final(self)@),
    {
        if visible.len() == 0 {
            return None;
        }
        let pos = match self.selected {
            Some(s) => find_index(visible, s),
            None => None,
        };
        proof {
            if let Some(s) = self.selected {
                lemma_position_of_facts(visible@, s);
            }
        }
        let p = match pos {
            Some(p) => if p > 0 { p - 1 } else { p },
            None => 0,
        };
        self.select(visible[p], row_count);
        Some(p)
    }

    /// Re-establishes "the selection is visible" after the visible rows
    /// change; the selected row's visible position, if it has one.
    pub fn clamp_to_visible(&mut self, visible: &Vec<usize>) -> (r: Option<usize>)
        requires
            selection_wf(old(self)@),
        ensures
            final(self)@ == clamped(old(self)@, visible@),
            selection_wf(final(self)@),
            final(self)@.multi.len() != 1,
            match r {
                Some(p) => final(self)@.selected is Some && p as int == position_of(visible@, final(self)@.selected->0),
                None => final(self)@.selected is None || position_of(visible@, final(self)@.selected->0) < 0,
            },
    {
        let ghost old_multi = self.multi@;
        let ghost pred = |i: usize| visible@.contains(i);
        let mut kept: Vec<usize> = Vec::new();
        let mut i: usize = 0;
        proof {
            assert(old_multi.take(0) =~= Seq::<usize>::empty());
            assert(Seq::<usize>::empty().filter(pred) =~= Seq::<usize>::empty()) by {
                reveal(Seq::filter);
            }
        }
        while i < self.multi.len()
            invariant
                i <= self.multi@.len(),
                self.multi@ == old_multi,
                strictly_sorted(old_multi),
                pred == (|i: usize| visible@.contains(i)),
                kept@ == old_multi.take(i as int).filter(pred),
                strictly_sorted(kept@),
                forall|k: int, m: int| 0 <= k < kept@.len() && i <= m < old_multi.len() ==> kept@[k] < old_multi[m],
            decreases self.multi.len() - i,
        {
            let x = self.multi[i];
            let f = find_index(visible, x);
            proof {
                lemma_position_of_facts(visible@, x);
                assert(old_multi.take(i + 1) =~= old_multi.take(i as int).push(x));
                old_multi.take(i as int).lemma_filter_push(x, pred);
            }
            if f.is_some() {
                kept.push(x);
            }
            i = i + 1;
        }
        proof {
            assert(old_multi.take(old_multi.len() as int) =~= old_multi);
        }
        if kept.len() <= 1 {
            if kept.len() == 1 {
                self.selected = Some(kept[0]);
            }
            self.multi = Vec::new();
            assert(self.multi@ =~= Seq::<usize>::empty());
        } else {
            self.multi = kept;
        }
        let visible_sel = match self.selected {
            Some(s) => find_index(visible, s).is_some(),
            None => false,
        };
        proof {
            if let Some(s) = self.selected {
                lemma_position_of_facts(visible@, s);
            }
        }
        if !visible_sel {
            self.selected = if visible.len() > 0 { Some(visible[0]) } else { None };
        }
        match self.selected {
            Some(s) => {
                let p = find_index(visible, s);
                proof {
                    lemma_position_of_facts(visible@, s);
                }
                p
            },
            None => None,
        }
    }

    /// The selection as worktree paths: the selected row's path and the
    /// multi-selected rows' paths (rows past the end of `paths` left out),
    /// the identity that survives a reorder or a reload.
    pub fn selection_paths(&self, paths: &Vec<String>) -> (r: (Option<String>, Vec<String>))
        ensures
            crate::refs::opt_view(r.0) == anchor_path(self@, views(paths@)),
            views(r.1@) == paths_of(self@.multi, views(paths@)),
    {
        let ghost pv = views(paths@);
        let anchor = match self.selected {
            Some(i) => if i < paths.len() {
                Some(paths[i].clone())
            } else {
                None
            },
            None => None,
        };
        let mut out: Vec<String> = Vec::new();
        let mut k: usize = 0;
        proof {
            assert(self.multi@.take(0) =~= Seq::<usize>::empty());
            assert(views(out@) =~= Seq::<Seq<char>>::empty());
        }
        while k < self.multi.len()
            invariant
                k <= self.multi@.len(),
                pv == views(paths@),
                views(out@) == paths_of(self.multi@.take(k as int), pv),
            decreases self.multi.len() - k,
        {
            let ix = self.multi[k];
            let ghost old_out = out@;
            proof {
                assert(self.multi@.take(k + 1).drop_last() =~= self.multi@.take(k as int));
                assert(self.multi@.take(k + 1).last() == ix);
            }
            if ix < paths.len() {
                let p = paths[ix].clone();
                out.push(p);
                proof {
                    assert(views(out@) =~= views(old_out).push(pv[ix as int]));
                }
            }
            k = k + 1;
        }
        proof {
            assert(self.multi@.take(self.multi@.len() as int) =~= self.multi@);
        }
        (anchor, out)
    }

    /// Looks the selection back up by path in the (reordered or reloaded)
    /// rows: each path is selected where it now stands, and dropped when it
    /// is gone.
    pub fn restore_selection_by_path(&mut self, paths: &Vec<String>, anchor: Option<&str>, multi: &Vec<String>)
        ensures
            final(self)@ == restored(views(paths@), crate::refs::str_opt(anchor), views(multi@)),
            selection_wf(final(self)@),
    {
        let ghost pv = views(paths@);
        let ghost mv = views(multi@);
        self.selected = match anchor {
            Some(a) => find_path(paths, a),
            None => None,
        };
        let mut set: Vec<usize> = Vec::new();
        let mut k: usize = 0;
        proof {
            assert(mv.take(0) =~= Seq::<Seq<char>>::empty());
            assert(set@.to_set() =~= Set::<usize>::empty());
        }
        while k < multi.len()
            invariant
                k <= multi@.len(),
                pv == views(paths@),
                mv == views(multi@),
                strictly_sorted(set@),
                set@.to_set() == found_rows(mv.take(k as int), pv),
            decreases multi.len() - k,
        {
            proof {
                assert(mv.take(k + 1).drop_last() =~= mv.take(k as int));
                assert(mv.take(k + 1).last() == mv[k as int]);
                assert(mv[k as int] == multi@[k as int]@);
            }
            match find_path(paths, multi[k].as_str()) {
                Some(p) => set_insert(&mut set, p),
                None => {},
            }
            k = k + 1;
        }
        proof {
            assert(mv.take(multi@.len() as int) =~= mv);
            lemma_sorted_of(set@);
        }
        self.multi = set;
    }

    /// Carries the selection across a reload that replaced the rows; see
    /// [`reloaded`].
    pub fn reload_rows(
        &mut self,
        old_paths: &Vec<String>,
        new_paths: &Vec<String>,
        new_names: &Vec<String>,
        pending: Option<&str>,
    )
        requires
            selection_wf(old(self)@),
        ensures
            final(self)@ == reloaded(old(self)@, views(old_paths@), views(new_paths@), views(new_names@), crate::refs::str_opt(pending)),
            selection_wf(final(self)@),
    {
        let ghost v = self@;
        let (anchor, multi) = self.selection_paths(old_paths);
        let pend = match pending {
            Some(b) => find_string(new_names, b),
            None => None,
        };
        let n = new_paths.len();
        let fallback = if n == 0 {
            None
        } else {
            match self.selected {
                Some(ix) => if ix < n { Some(ix) } else { Some(n - 1) },
                None => Some(0),
            }
        };
        let sel = if pend.is_some() {
            pend
        } else {
            match &anchor {
                Some(a) => match find_path(new_paths, a.as_str()) {
                    Some(p) => Some(p),
                    None => fallback,
                },
                None => fallback,
            }
        };
        proof {
            if let Some(b) = pending {
                lemma_position_of_facts(views(new_names@), b@);
            }
            if let Some(a) = anchor {
                lemma_position_of_facts(path_keys(views(new_paths@)), path_components(a@));
            }
        }
        self.restore_selection_by_path(new_paths, None, &multi);
        self.selected = sel;
    }
}

/// The first row whose path is `p`.
fn find_string(paths: &Vec<String>, p: &str) -> (r: Option<usize>)
    ensures
        match r {
            Some(i) => i as int == position_of(views(paths@), p@),
            None => position_of(views(paths@), p@) < 0,
        },
{
    let ghost pv = views(paths@);
    let target = p.to_owned();
    let mut i: usize = 0;
    while i < paths.len()
        invariant
            i <= paths@.len(),
            pv == views(paths@),
            target@ == p@,
            forall|j: int| 0 <= j < i ==> pv[j] != p@,
        decreases paths.len() - i,
    {
        if paths[i] == target {
            proof {
                lemma_position_of(pv, p@, i as int);
            }
            return Some(i);
        }
        i = i + 1;
    }
    proof {
        lemma_position_of(pv, p@, pv.len() as int);
    }
    None
}

/// Rows no two of which name the same path: looking a selection back up
/// by the paths it was captured as gives the same selection, when its rows
/// all exist.
pub proof fn law_restore_after_capture(v: SelectionView, paths: Seq<Seq<char>>)
    requires
        selection_wf(v),
        forall|i: int, j: int| 0 <= i < j < paths.len() ==> !same_path(paths[i], paths[j]),
        v.selected matches Some(s) ==> s < paths.len(),
        forall|k: int| 0 <= k < v.multi.len() ==> v.multi[k] < paths.len(),
    ensures
        restored(paths, anchor_path(v, paths), paths_of(v.multi, paths)) == v,
{
    if let Some(s) = v.selected {
        lemma_row_of_distinct_path(paths, s as int);
    }
    lemma_found_rows_of_paths(v.multi, paths);
    lemma_sorted_of(v.multi);
}

proof fn lemma_row_of_distinct_path(paths: Seq<Seq<char>>, x: int)
    requires
        forall|i: int, j: int| 0 <= i < j < paths.len() ==> !same_path(paths[i], paths[j]),
        0 <= x < paths.len(),
    ensures
        path_row(paths, paths[x]) == x,
{
    let keys = path_keys(paths);
    assert forall|j: int| 0 <= j < x implies keys[j] != path_components(paths[x]) by {
        assert(keys[j] == path_components(paths[j]));
        assert(!same_path(paths[j], paths[x]));
    }
    assert(keys[x] == path_components(paths[x]));
    lemma_position_of(keys, path_components(paths[x]), x);
}

proof fn lemma_found_rows_of_paths(multi: Seq<usize>, paths: Seq<Seq<char>>)
    requires
        forall|i: int, j: int| 0 <= i < j < paths.len() ==> !same_path(paths[i], paths[j]),
        forall|k: int| 0 <= k < multi.len() ==> multi[k] < paths.len(),
    ensures
        found_rows(paths_of(multi, paths), paths) == multi.to_set(),
    decreases multi.len(),
{
    if multi.len() > 0 {
        let init = multi.drop_last();
        assert forall|k: int| 0 <= k < init.len() implies init[k] < paths.len() by {
            assert(init[k] == multi[k]);
        }
        lemma_found_rows_of_paths(init, paths);
        let x = multi.last();
        let ps = paths_of(multi, paths);
        assert(ps == paths_of(init, paths).push(paths[x as int]));
        assert(ps.drop_last() =~= paths_of(init, paths));
        lemma_row_of_distinct_path(paths, x as int);
        assert(multi =~= init.push(x));
        assert(multi.to_set() =~= init.to_set().insert(x));
    } else {
        assert(multi.to_set() =~= Set::<usize>::empty());
    }
}

/// Where a reload puts the selection. A pending branch found among the
/// new rows' names wins, at a row of that name. Otherwise the selected
/// worktree, when it is still there, stays selected at a row naming the
/// same path. When it is gone (or nothing was selected), the old index
/// is kept while it still falls inside the new rows, so the row that took
/// the removed worktree's place is selected; past the end it becomes the
/// last row; with nothing selected the first row; with no rows, nothing.
pub proof fn law_reload_selection(
    v: SelectionView,
    old_paths: Seq<Seq<char>>,
    new_paths: Seq<Seq<char>>,
    new_names: Seq<Seq<char>>,
    pending: Option<Seq<char>>,
)
    requires
        new_paths.len() <= usize::MAX,
        new_names.len() <= usize::MAX,
    ensures
        ({
            let r = reloaded(v, old_paths, new_paths, new_names, pending);
            let n = new_paths.len();
            let pend_found = pending is Some && new_names.contains(pending->0);
            let anchor = anchor_path(v, old_paths);
            let anchor_found = anchor is Some && path_row(new_paths, anchor->0) >= 0;
            &&& pend_found ==> r.selected is Some && r.selected->0 < new_names.len()
                && new_names[r.selected->0 as int] == pending->0
            &&& !pend_found && anchor_found ==> r.selected is Some && r.selected->0 < n
                && same_path(new_paths[r.selected->0 as int], anchor->0)
            &&& !pend_found && !anchor_found && v.selected is Some && v.selected->0 < n ==> r.selected == v.selected
            &&& !pend_found && !anchor_found && v.selected is Some && v.selected->0 >= n && n > 0
                ==> r.selected == Some((n - 1) as usize)
            &&& !pend_found && !anchor_found && v.selected is None && n > 0 ==> r.selected == Some(0usize)
            &&& !pend_found && !anchor_found && n == 0 ==> r.selected is None
        }),
{
    if let Some(b) = pending {
        lemma_position_of_facts(new_names, b);
    }
    if let Some(a) = anchor_path(v, old_paths) {
        lemma_position_of_facts(path_keys(new_paths), path_components(a));
        let k = path_row(new_paths, a);
        if k >= 0 {
            assert(path_keys(new_paths)[k] == path_components(new_paths[k]));
            assert(same_path(new_paths[k], a));
        }
    }
    let r = reloaded(v, old_paths, new_paths, new_names, pending);
    let pend_found = pending is Some && new_names.contains(pending->0);
    if pend_found {
        assert(r.selected is Some && r.selected->0 < new_names.len());
        assert(new_names[r.selected->0 as int] == pending->0);
    }
}

} // verus!
