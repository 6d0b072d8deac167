//! A right-click context menu's model: its rows, which of them can be
//! chosen, and keyboard navigation among them. Where the menu is drawn is
//! the host's business.
use vstd::prelude::*;

verus! {

/// One row of a context menu: a selectable action, or a divider.
pub struct MenuItem {
    pub id: String,
    pub label: String,
    pub icon: Option<&'static str>,
    pub shortcut: Option<String>,
    pub danger: bool,
    pub enabled: bool,
    pub is_separator: bool,
}

/// Keyboard navigation may land on an enabled action, never on a divider.
pub open spec fn selectable(item: MenuItem) -> bool {
    !item.is_separator && item.enabled
}

impl MenuItem {
    /// A selectable action, enabled by default.
    pub fn action(id: &str, label: &str) -> (r: MenuItem)
        ensures
            r.id@ == id@,
            r.label@ == label@,
            r.icon.is_none(),
            r.shortcut.is_none(),
            !r.danger,
            r.enabled,
            !r.is_separator,
    {
        MenuItem {
            id: id.to_owned(),
            label: label.to_owned(),
            icon: None,
            shortcut: None,
            danger: false,
            enabled: true,
            is_separator: false,
        }
    }

    /// A thin rule between groups of actions.
    pub fn separator() -> (r: MenuItem)
        ensures
            r.id@.len() == 0,
            r.label@.len() == 0,
            r.icon.is_none(),
            r.shortcut.is_none(),
            !r.danger,
            !r.enabled,
            r.is_separator,
    {
        MenuItem {
            id: String::new(),
            label: String::new(),
            icon: None,
            shortcut: None,
            danger: false,
            enabled: false,
            is_separator: true,
        }
    }

    /// With a leading icon.
    pub fn icon(self, path: &'static str) -> (r: MenuItem)
        ensures
            r == (MenuItem { icon: Some(path), ..self }),
    {
        MenuItem { icon: Some(path), ..self }
    }

    /// With a trailing shortcut hint.
    pub fn shortcut(self, hint: &str) -> (r: MenuItem)
        ensures
            r.shortcut.is_some() && r.shortcut->0@ == hint@,
            r.id == self.id && r.label == self.label && r.icon == self.icon,
            r.danger == self.danger && r.enabled == self.enabled && r.is_separator == self.is_separator,
    {
        MenuItem { shortcut: Some(hint.to_owned()), ..self }
    }

    /// Marked destructive.
    pub fn danger(self) -> (r: MenuItem)
        ensures
            r == (MenuItem { danger: true, ..self }),
    {
        MenuItem { danger: true, ..self }
    }

    /// Greyed out and inert.
    pub fn disabled(self) -> (r: MenuItem)
        ensures
            r == (MenuItem { enabled: false, ..self }),
    {
        MenuItem { enabled: false, ..self }
    }

    /// Whether keyboard navigation may land here.
    pub fn is_selectable(&self) -> (r: bool)
        ensures
            r == selectable(*self),
    {
        !self.is_separator && self.enabled
    }
}

/// Index of the first action (not divider) with id `id`, or `-1`.
pub open spec fn action_index(items: Seq<MenuItem>, id: Seq<char>) -> int
    decreases items.len(),
{
    if items.len() == 0 {
        -1
    } else {
        let k = action_index(items.drop_last(), id);
        if k >= 0 {
            k
        } else if !items.last().is_separator && items.last().id@ == id {
            items.len() - 1
        } else {
            -1
        }
    }
}

proof fn lemma_action_index(items: Seq<MenuItem>, id: Seq<char>, i: int)
    requires
        0 <= i <= items.len(),
        i < items.len() ==> !items[i].is_separator && items[i].id@ == id,
        forall|j: int| 0 <= j < i ==> items[j].is_separator || items[j].id@ != id,
    ensures
        action_index(items, id) == (if i < items.len() { i } else { -1 }),
    decreases items.len(),
{
    if items.len() > 0 {
        let init = items.drop_last();
        if i < items.len() - 1 {
            assert(init[i] == items[i]);
            assert forall|j: int| 0 <= j < i implies init[j].is_separator || init[j].id@ != id by {
                assert(init[j] == items[j]);
            }
            lemma_action_index(init, id, i);
        } else {
            assert forall|j: int| 0 <= j < init.len() implies init[j].is_separator || init[j].id@ != id by {
                assert(init[j] == items[j]);
            }
            lemma_action_index(init, id, init.len() as int);
        }
    }
}

/// The action a click or key names: the first action with that id, and
/// only if it is enabled.
pub open spec fn chosen(items: Seq<MenuItem>, id: Seq<char>) -> Option<int> {
    let k = action_index(items, id);
    if k >= 0 && items[k].enabled {
        Some(k)
    } else {
        None
    }
}

/// The id of the first action with id `id`, if that action is enabled:
/// the one gate every path to choosing an item goes through, so a
/// disabled item is never chosen.
pub fn selectable_id<'a>(items: &'a Vec<MenuItem>, id: &str) -> (r: Option<&'a String>)
    ensures
        match chosen(items@, id@) {
            Some(k) => r.is_some() && *r.unwrap() == items@[k].id,
            None => r.is_none(),
        },
{
    let target = id.to_owned();
    let mut i: usize = 0;
    while i < items.len()
        invariant
            i <= items@.len(),
            target@ == id@,
            forall|j: int| 0 <= j < i ==> items@[j].is_separator || items@[j].id@ != id@,
        decreases items.len() - i,
    {
        if !items[i].is_separator && items[i].id == target {
            proof {
                lemma_action_index(items@, id@, i as int);
            }
            if items[i].enabled {
                return Some(&items[i].id);
            }
            return None;
        }
        i = i + 1;
    }
    proof {
        lemma_action_index(items@, id@, items@.len() as int);
    }
    None
}

/// Where a search for the next selectable row starts: the current row,
/// else just before the first row (moving down) or just after the last
/// (moving up).
pub open spec fn search_start(len: int, current: Option<usize>, dir: i32) -> int {
    match current {
        Some(ix) => (ix as i64) as int,
        None => if dir >= 0 { -1 } else { len },
    }
}

/// The first selectable row met by stepping `dir` rows at a time from
/// `cursor`, wrapping around the ends, within `steps` steps.
pub open spec fn scan(items: Seq<MenuItem>, cursor: int, dir: int, steps: nat) -> Option<int>
    decreases steps,
{
    if steps == 0 || items.len() == 0 {
        None
    } else {
        let c = (cursor + dir) % (items.len() as int);
        if selectable(items[c]) {
            Some(c)
        } else {
            scan(items, c, dir, (steps - 1) as nat)
        }
    }
}

/// The next selectable row after `current` in direction `dir`, wrapping
/// around and skipping dividers and disabled rows, within one lap.
pub open spec fn next_selectable_of(items: Seq<MenuItem>, current: Option<usize>, dir: i32) -> Option<int> {
    scan(items, search_start(items.len() as int, current, dir), dir as int, items.len())
}

/// The next selectable (enabled, non-divider) row after `current` in
/// direction `dir` (`1` down, `-1` up), wrapping around; `None` if no row
/// qualifies.
pub fn next_selectable(items: &Vec<MenuItem>, current: Option<usize>, dir: i32) -> (r: Option<usize>)
    requires
        current matches Some(ix) ==> i64::MIN <= (ix as i64) + dir <= i64::MAX,
    ensures
        match next_selectable_of(items@, current, dir) {
            Some(k) => r == Some(k as usize),
            None => r.is_none(),
        },
{
    let len = items.len();
    if len == 0 {
        return None;
    }
    let ghost n = len as int;
    let len_i: i128 = len as i128;
    let mut cursor: i128 = match current {
        Some(ix) => (ix as i64) as i128,
        None => if dir >= 0 { -1 } else { len_i },
    };
    let mut left: usize = len;
    while left > 0
        invariant
            len == items@.len(),
            n == len,
            len_i == len as i128,
            left <= len,
            -0x1_0000_0000_0000_0000 <= cursor <= 0x1_0000_0000_0000_0000,
            scan(items@, cursor as int, dir as int, left as nat) == next_selectable_of(items@, current, dir),
        decreases left,
    {
        let t: i128 = cursor + dir as i128;
        let c: i128 = match t.checked_rem_euclid(len_i) {
            Some(c) => c,
            None => {
                assert(false);
                0
            },
        };
        if items[c as usize].is_selectable() {
            return Some(c as usize);
        }
        cursor = c;
        left = left - 1;
    }
    None
}

/// The open menu: its rows and the keyboard highlight.
pub struct OpenMenu {
    pub items: Vec<MenuItem>,
    pub highlighted: Option<usize>,
}

/// A context menu, closed or open.
pub struct ContextMenu {
    pub state: Option<OpenMenu>,
}

impl ContextMenu {
    /// A closed menu.
    pub fn new() -> (r: ContextMenu)
        ensures
            r.state.is_none(),
    {
        ContextMenu { state: None }
    }

    /// Opens on `items`, replacing whatever the menu showed, with nothing
    /// highlighted.
    pub fn open(&mut self, items: Vec<MenuItem>)
        ensures
            final(self).state matches Some(m) && m.items@ == items@ && m.highlighted.is_none(),
    {
        self.state = Some(OpenMenu { items, highlighted: None });
    }

    /// Closes the menu.
    pub fn close(&mut self)
        ensures
            final(self).state.is_none(),
    {
        self.state = None;
    }

    /// Whether the menu is open.
    pub fn is_open(&self) -> (r: bool)
        ensures
            r == self.state.is_some(),
    {
        self.state.is_some()
    }
    /// Up or down arrow: moves the highlight to the next selectable row in
    /// direction `dir`, wrapping around; nothing happens while closed.
    pub fn move_highlight(&mut self, dir: i32)
        requires
            old(self).state matches Some(m) ==> (m.highlighted matches Some(ix) ==> i64::MIN <= (ix as i64) + dir <= i64::MAX),
        ensures
            old(self).state.is_none() ==> final(self).state.is_none(),
            old(self).state matches Some(m) ==> (final(self).state matches Some(f) && f.items@ == m.items@
                && match next_selectable_of(m.items@, m.highlighted, dir) {
                    Some(k) => f.highlighted == Some(k as usize),
                    None => f.highlighted.is_none(),
                }),
    {
        match self.state.take() {
            None => {},
            Some(m) => {
                let next = next_selectable(&m.items, m.highlighted, dir);
                self.state = Some(OpenMenu { items: m.items, highlighted: next });
            },
        }
    }

    /// Enter: chooses the highlighted row when it is selectable, closing
    /// the menu and giving back its id; otherwise nothing happens.
    pub fn activate_highlighted(&mut self) -> (r: Option<String>)
        ensures
            match old(self).state {
                Some(m) => match m.highlighted {
                    Some(ix) => if ix < m.items@.len() && selectable(m.items@[ix as int]) {
                        final(self).state.is_none() && r.is_some() && r->0 == m.items@[ix as int].id
                    } else {
                        r.is_none() && final(self).state == old(self).state
                    },
                    None => r.is_none() && final(self).state == old(self).state,
                },
                None => r.is_none() && final(self).state.is_none(),
            },
    {
        match self.state.take() {
            None => None,
            Some(m) => match m.highlighted {
                Some(ix) => {
                    if ix < m.items.len() && m.items[ix].is_selectable() {
                        let id = m.items[ix].id.clone();
                        Some(id)
                    } else {
                        self.state = Some(m);
                        None
                    }
                },
                None => {
                    self.state = Some(m);
                    None
                },
            },
        }
    }

    /// A click on the row with id `id`: when it names an enabled action
    /// the menu closes and the choice stands (`true`); otherwise nothing
    /// happens.
    pub fn select(&mut self, id: &str) -> (r: bool)
        ensures
            match old(self).state {
                Some(m) => if chosen(m.items@, id@).is_some() {
                    r && final(self).state.is_none()
                } else {
                    !r && final(self).state == old(self).state
                },
                None => !r && final(self).state.is_none(),
            },
    {
        match self.state.take() {
            None => false,
            Some(m) => {
                let allowed = selectable_id(&m.items, id).is_some();
                if !allowed {
                    self.state = Some(m);
                }
                allowed
            },
        }
    }
}

/// A choice only ever names an enabled action: a divider or a disabled
/// row is never chosen.
pub proof fn law_chosen_is_enabled_action(items: Seq<MenuItem>, id: Seq<char>)
    ensures
        chosen(items, id) matches Some(k) ==> 0 <= k < items.len() && selectable(items[k]) && items[k].id@ == id,
{
    lemma_action_index_facts(items, id);
}

proof fn lemma_action_index_facts(items: Seq<MenuItem>, id: Seq<char>)
    ensures
        -1 <= action_index(items, id) < items.len(),
        action_index(items, id) >= 0 ==> !items[action_index(items, id)].is_separator && items[action_index(items, id)].id@ == id,
    decreases items.len(),
{
    if items.len() > 0 {
        lemma_action_index_facts(items.drop_last(), id);
        let k = action_index(items.drop_last(), id);
        if k >= 0 {
            assert(items[k] == items.drop_last()[k]);
        }
    }
}

proof fn lemma_scan_lands_on_selectable(items: Seq<MenuItem>, cursor: int, dir: int, steps: nat)
    ensures
        scan(items, cursor, dir, steps) matches Some(k) ==> 0 <= k < items.len() && selectable(items[k]),
    decreases steps,
{
    if steps > 0 && items.len() > 0 {
        let c = (cursor + dir) % (items.len() as int);
        if !selectable(items[c]) {
            lemma_scan_lands_on_selectable(items, c, dir, (steps - 1) as nat);
        }
    }
}

/// Keyboard navigation only ever lands on a row it may land on: an
/// enabled action, never a divider or a disabled row.
pub proof fn law_navigation_lands_on_selectable(items: Seq<MenuItem>, current: Option<usize>, dir: i32)
    ensures
        next_selectable_of(items, current, dir) matches Some(k) ==> 0 <= k < items.len() && selectable(items[k]),
{
    lemma_scan_lands_on_selectable(items, search_start(items.len() as int, current, dir), dir as int, items.len());
}

/// The row visited at step `k` of a scan from `c` by `d` over `n` rows.
pub open spec fn visit(c: int, d: int, n: int, k: int) -> int {
    (c + k * d) % n
}

proof fn lemma_scan_none(items: Seq<MenuItem>, c: int, d: int, m: nat)
    requires
        items.len() > 0,
    ensures
        scan(items, c, d, m) is None ==> forall|k: int| 1 <= k <= m ==> !selectable(items[#[trigger] visit(c, d, items.len() as int, k)]),
    decreases m,
{
    if m > 0 {
        let n = items.len() as int;
        let c1 = (c + d) % n;
        lemma_scan_none(items, c1, d, (m - 1) as nat);
        if scan(items, c, d, m) is None {
            assert forall|k: int| 1 <= k <= m implies !selectable(items[#[trigger] visit(c, d, n, k)]) by {
                if k == 1 {
                    assert(c + k * d == c + d);
                } else {
                    vstd::arithmetic::div_mod::lemma_add_mod_noop_right((k - 1) * d, c + d, n);
                    assert((k - 1) * d + (c + d) == c + k * d) by (nonlinear_arith);
                    assert(visit(c1, d, n, k - 1) == visit(c, d, n, k));
                }
            }
        }
    }
}

/// With `dir` one row up or down, navigation misses no row: it finds a
/// selectable row whenever there is one.
pub proof fn law_navigation_finds_a_selectable_row(items: Seq<MenuItem>, current: Option<usize>, dir: i32, j: int)
    requires
        dir == 1 || dir == -1,
        0 <= j < items.len(),
        selectable(items[j]),
    ensures
        next_selectable_of(items, current, dir) is Some,
{
    let n = items.len() as int;
    let c0 = search_start(n, current, dir);
    lemma_scan_none(items, c0, dir as int, items.len());
    let k0 = if dir == 1 { (j - c0) % n } else { (c0 - j) % n };
    let k = if k0 == 0 { n } else { k0 };
    assert(0 <= k0 < n);
    assert(visit(c0, dir as int, n, k) == j) by {
        vstd::arithmetic::div_mod::lemma_add_mod_noop_right(c0, j - c0, n);
        vstd::arithmetic::div_mod::lemma_add_mod_noop_right(c0, -(c0 - j), n);
        vstd::arithmetic::div_mod::lemma_add_mod_noop_right(c0, c0 - j, n);
        vstd::arithmetic::div_mod::lemma_mod_add_multiples_vanish(c0, n);
        vstd::arithmetic::div_mod::lemma_small_mod(j as nat, n as nat);
        if dir == 1 {
            assert(c0 + k * 1 == c0 + k);
            if k0 == 0 {
                vstd::arithmetic::div_mod::lemma_fundamental_div_mod(j - c0, n);
                assert(c0 % n == j % n) by {
                    vstd::arithmetic::div_mod::lemma_add_mod_noop_right(c0, j - c0, n);
                }
            }
        } else {
            assert(c0 + k * -1 == c0 - k);
            vstd::arithmetic::div_mod::lemma_sub_mod_noop_right(c0, c0 - j, n);
            if k0 == 0 {
                vstd::arithmetic::div_mod::lemma_mod_sub_multiples_vanish(c0, n);
            }
        }
    }
}

} // verus!
