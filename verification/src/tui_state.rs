//! The state of the two interactive views and how keys change it: the
//! port table's selection, and the process tree's selection, scrolling and
//! collapsed subtrees.
use vstd::prelude::*;

use crate::proc_view::FlatRow;

verus! {

/// A key press, as the views tell keys apart.
#[derive(Debug, Clone, Copy, PartialEq, Eq, Structural)]
pub enum TuiKey {
    Char(char),
    Up,
    Down,
    Enter,
    Esc,
    Home,
    End,
    PageUp,
    PageDown,
    Other,
}

// ---------------------------------------------------------------------
// The port table
// ---------------------------------------------------------------------

/// What a key asks of the port table.
#[derive(Debug, Clone, Copy, PartialEq, Eq, Structural)]
pub enum PortCommand {
    Quit,
    MoveUp,
    MoveDown,
    KillSelected,
    Refresh,
    Nothing,
}

/// What each key asks of the port table.
pub open spec fn port_command_spec(k: TuiKey) -> PortCommand {
    match k {
        TuiKey::Char('q') | TuiKey::Esc => PortCommand::Quit,
        TuiKey::Up | TuiKey::Char('k') => PortCommand::MoveUp,
        TuiKey::Down | TuiKey::Char('j') => PortCommand::MoveDown,
        TuiKey::Char('x') => PortCommand::KillSelected,
        TuiKey::Char('r') => PortCommand::Refresh,
        _ => PortCommand::Nothing,
    }
}

/// What a key asks of the port table.
pub fn port_command(k: TuiKey) -> (r: PortCommand)
    ensures
        r == port_command_spec(k),
{
    match k {
        TuiKey::Char('q') | TuiKey::Esc => PortCommand::Quit,
        TuiKey::Up | TuiKey::Char('k') => PortCommand::MoveUp,
        TuiKey::Down | TuiKey::Char('j') => PortCommand::MoveDown,
        TuiKey::Char('x') => PortCommand::KillSelected,
        TuiKey::Char('r') => PortCommand::Refresh,
        _ => PortCommand::Nothing,
    }
}

/// The selected row of the port table, if any.
#[derive(Debug, Clone, Copy, PartialEq, Eq, Structural)]
pub struct PortSelection {
    pub selected: Option<usize>,
}

/// The selection after moving up in a table of `len` rows: wraps from the
/// first row to the last; with nothing selected the first row is selected.
pub open spec fn up_spec(sel: Option<usize>, len: nat) -> Option<usize> {
    if len == 0 {
        sel
    } else {
        match sel {
            Some(i) => if i == 0 {
                Some((len - 1) as usize)
            } else {
                Some((i - 1) as usize)
            },
            None => Some(0),
        }
    }
}

/// The selection after moving down in a table of `len` rows: wraps from
/// the last row to the first.
pub open spec fn down_spec(sel: Option<usize>, len: nat) -> Option<usize> {
    if len == 0 {
        sel
    } else {
        match sel {
            Some(i) => if i >= len - 1 {
                Some(0)
            } else {
                Some((i + 1) as usize)
            },
            None => Some(0),
        }
    }
}

/// The selection after the table was refilled with `len` rows: none in an
/// empty table, the last row if it was past the end.
pub open spec fn refresh_spec(sel: Option<usize>, len: nat) -> Option<usize> {
    if len == 0 {
        None
    } else {
        match sel {
            Some(i) => if i >= len {
                Some((len - 1) as usize)
            } else {
                sel
            },
            None => None,
        }
    }
}

impl PortSelection {
    /// Nothing selected.
    pub fn new() -> (r: Self)
        ensures
            r.selected is None,
    {
        PortSelection { selected: None }
    }

    /// Moves the selection up in a table of `len` rows.
    pub fn move_up(&mut self, len: usize)
        ensures
            final(self).selected == up_spec(old(self).selected, len as nat),
    {
        if len == 0 {
            return;
        }
        let i = match self.selected {
            Some(i) => if i == 0 {
                len - 1
            } else {
                i - 1
            },
            None => 0,
        };
        self.selected = Some(i);
    }

    /// Moves the selection down in a table of `len` rows.
    pub fn move_down(&mut self, len: usize)
        ensures
            final(self).selected == down_spec(old(self).selected, len as nat),
    {
        if len == 0 {
            return;
        }
        let i = match self.selected {
            Some(i) => if i >= len - 1 {
                0
            } else {
                i + 1
            },
            None => 0,
        };
        self.selected = Some(i);
    }

    /// Keeps the selection inside a table that now has `len` rows.
    pub fn after_refresh(&mut self, len: usize)
        ensures
            final(self).selected == refresh_spec(old(self).selected, len as nat),
    {
        if len == 0 {
            self.selected = None;
        } else {
            match self.selected {
                Some(sel) => {
                    if sel >= len {
                        self.selected = Some(len - 1);
                    }
                },
                None => {},
            }
        }
    }

    /// The index of the selected row, if it is inside a table of `len` rows.
    pub fn selected_index(&self, len: usize) -> (r: Option<usize>)
        ensures
            r == match self.selected {
                Some(i) => if i < len {
                    Some(i)
                } else {
                    None
                },
                None => None,
            },
    {
        match self.selected {
            Some(i) => if i < len {
                Some(i)
            } else {
                None
            },
            None => None,
        }
    }
}

/// Moving down and then up returns to the row that was selected.
pub proof fn law_down_then_up(i: usize, len: nat)
    requires
        i < len,
        len <= usize::MAX,
    ensures
        up_spec(down_spec(Some(i), len), len) == Some(i),
{
}

/// Moving up and then down returns to the row that was selected.
pub proof fn law_up_then_down(i: usize, len: nat)
    requires
        i < len,
        len <= usize::MAX,
    ensures
        down_spec(up_spec(Some(i), len), len) == Some(i),
{
}

/// In a non-empty table every move and every refresh leave a row of the
/// table selected.
pub proof fn law_selection_in_table(sel: Option<usize>, len: nat)
    requires
        len > 0,
        len <= usize::MAX,
        sel matches Some(i) ==> i < len,
    ensures
        up_spec(sel, len) matches Some(i) && i < len,
        down_spec(sel, len) matches Some(i) && i < len,
        refresh_spec(sel, len) matches Some(i) ==> i < len,
{
}

// ---------------------------------------------------------------------
// The process tree view
// ---------------------------------------------------------------------

/// What a row of the tree view needs: depth, pid, whether it has children.
pub type RowShape = (usize, u32, bool);

/// The shape of a flat row.
pub open spec fn shape(r: FlatRow) -> RowShape {
    (r.depth, r.pid, r.has_children)
}

/// The shapes of the rows.
pub open spec fn shapes(rows: Seq<FlatRow>) -> Seq<RowShape> {
    rows.map_values(|r: FlatRow| shape(r))
}

/// The indices of the visible rows from row `i` on, while the descendants
/// of a collapsed row at depth `skip` are being skipped.
pub open spec fn visible_from(rows: Seq<RowShape>, collapsed: Set<u32>, i: int, skip: Option<usize>) -> Seq<
    int,
>
    decreases rows.len() - i,
{
    if i < 0 || i >= rows.len() {
        Seq::empty()
    } else if skip matches Some(d) && rows[i].0 > d {
        visible_from(rows, collapsed, i + 1, skip)
    } else {
        let next = if collapsed.contains(rows[i].1) && rows[i].2 {
            Some(rows[i].0)
        } else {
            None
        };
        seq![i] + visible_from(rows, collapsed, i + 1, next)
    }
}

/// The indices of the rows shown: all rows but the descendants of
/// collapsed rows that have children.
pub open spec fn visible_spec(rows: Seq<RowShape>, collapsed: Set<u32>) -> Seq<int> {
    visible_from(rows, collapsed, 0, None)
}

/// What each key does to the tree view.
#[derive(Debug, Clone, Copy, PartialEq, Eq, Structural)]
pub enum TreeCommand {
    Quit,
    MoveUp,
    MoveDown,
    Toggle,
    First,
    Last,
    PageUp,
    PageDown,
    Nothing,
}

/// What each key asks of the tree view.
pub open spec fn tree_command_spec(k: TuiKey) -> TreeCommand {
    match k {
        TuiKey::Char('q') | TuiKey::Esc => TreeCommand::Quit,
        TuiKey::Up | TuiKey::Char('k') => TreeCommand::MoveUp,
        TuiKey::Down | TuiKey::Char('j') => TreeCommand::MoveDown,
        TuiKey::Enter | TuiKey::Char(' ') => TreeCommand::Toggle,
        TuiKey::Home => TreeCommand::First,
        TuiKey::End => TreeCommand::Last,
        TuiKey::PageUp => TreeCommand::PageUp,
        TuiKey::PageDown => TreeCommand::PageDown,
        _ => TreeCommand::Nothing,
    }
}

/// What a key asks of the tree view.
pub fn tree_command(k: TuiKey) -> (r: TreeCommand)
    ensures
        r == tree_command_spec(k),
{
    match k {
        TuiKey::Char('q') | TuiKey::Esc => TreeCommand::Quit,
        TuiKey::Up | TuiKey::Char('k') => TreeCommand::MoveUp,
        TuiKey::Down | TuiKey::Char('j') => TreeCommand::MoveDown,
        TuiKey::Enter | TuiKey::Char(' ') => TreeCommand::Toggle,
        TuiKey::Home => TreeCommand::First,
        TuiKey::End => TreeCommand::Last,
        TuiKey::PageUp => TreeCommand::PageUp,
        TuiKey::PageDown => TreeCommand::PageDown,
        _ => TreeCommand::Nothing,
    }
}

/// The process tree view: the flattened rows, the pids whose children are
/// collapsed, the selected index into the visible rows, and the first
/// visible row shown.
pub struct TreeView {
    pub rows: Vec<FlatRow>,
    pub collapsed: Vec<u32>,
    pub selected: usize,
    pub scroll_offset: usize,
}

impl TreeView {
    /// The collapsed pids as a set.
    pub open spec fn collapsed_set(&self) -> Set<u32> {
        self.collapsed@.to_set()
    }

    /// The indices of the visible rows.
    pub open spec fn visible(&self) -> Seq<int> {
        visible_spec(shapes(self.rows@), self.collapsed_set())
    }

    /// A view of `rows` with nothing collapsed, the first row selected.
    pub fn new(rows: Vec<FlatRow>) -> (r: TreeView)
        ensures
            r.rows@ == rows@,
            r.collapsed_set() == Set::<u32>::empty(),
            r.selected == 0,
            r.scroll_offset == 0,
    {
        let r = TreeView { rows, collapsed: Vec::new(), selected: 0, scroll_offset: 0 };
        assert(r.collapsed@.to_set() =~= Set::<u32>::empty());
        r
    }

    fn is_collapsed(&self, pid: u32) -> (r: bool)
        ensures
            r == self.collapsed_set().contains(pid),
    {
        let mut i: usize = 0;
        while i < self.collapsed.len()
            invariant
                i <= self.collapsed.len(),
                forall|j: int| 0 <= j < i ==> self.collapsed@[j] != pid,
            decreases self.collapsed.len() - i,
        {
            if self.collapsed[i] == pid {
                assert(self.collapsed@.contains(pid));
                return true;
            }
            i = i + 1;
        }
        assert(!self.collapsed@.contains(pid));
        false
    }

    /// The indices of the visible rows, skipping the descendants of
    /// collapsed rows.
    pub fn visible_rows(&self) -> (r: Vec<usize>)
        ensures
            r@.map_values(|i: usize| i as int) == self.visible(),
    {
        let ghost sh = shapes(self.rows@);
        let ghost cs = self.collapsed_set();
        let mut out: Vec<usize> = Vec::new();
        let mut skip: Option<usize> = None;
        let mut i: usize = 0;
        while i < self.rows.len()
            invariant
                i <= self.rows.len(),
                sh == shapes(self.rows@),
                cs == self.collapsed_set(),
                out@.map_values(|k: usize| k as int) + visible_from(sh, cs, i as int, skip)
                    == visible_spec(sh, cs),
            decreases self.rows.len() - i,
        {
            let row = &self.rows[i];
            assert(sh[i as int] == shape(*row));
            let ghost before = out@.map_values(|k: usize| k as int);
            let hidden = match skip {
                Some(d) => row.depth > d,
                None => false,
            };
            if !hidden {
                let next = if self.is_collapsed(row.pid) && row.has_children {
                    Some(row.depth)
                } else {
                    None
                };
                out.push(i);
                assert(out@.map_values(|k: usize| k as int) =~= before.push(i as int));
                assert(before.push(i as int) + visible_from(sh, cs, i + 1, next) =~= before
                    + visible_from(sh, cs, i as int, skip));
                skip = next;
            }
            i = i + 1;
        }
        assert(visible_from(sh, cs, i as int, skip) =~= Seq::<int>::empty());
        assert(out@.map_values(|k: usize| k as int) =~= visible_spec(sh, cs));
        out
    }

    /// Collapses or expands the selected row, if it has children.
    pub fn toggle_collapse(&mut self)
        ensures
            final(self).rows == old(self).rows,
            final(self).selected == old(self).selected,
            final(self).scroll_offset == old(self).scroll_offset,
            final(self).collapsed_set() == toggle_spec(
                old(self).collapsed_set(),
                shapes(old(self).rows@),
                old(self).visible(),
                old(self).selected,
            ),
    {
        let visible = self.visible_rows();
        let ghost vis = self.visible();
        proof {
            lemma_visible_bounds(shapes(self.rows@), self.collapsed_set(), 0, None);
        }
        if self.selected < visible.len() {
            let idx = visible[self.selected];
            assert(vis[self.selected as int] == idx as int);
            let pid = self.rows[idx].pid;
            assert(shapes(self.rows@)[idx as int] == shape(self.rows@[idx as int]));
            if self.rows[idx].has_children {
                if self.is_collapsed(pid) {
                    let ghost old_c = self.collapsed@;
                    let mut kept: Vec<u32> = Vec::new();
                    let mut j: usize = 0;
                    while j < self.collapsed.len()
                        invariant
                            j <= self.collapsed.len(),
                            old_c == self.collapsed@,
                            kept@.to_set() == old_c.take(j as int).to_set().remove(pid),
                        decreases self.collapsed.len() - j,
                    {
                        proof {
                            assert(old_c.take(j + 1) =~= old_c.take(j as int).push(old_c[j as int]));
                            old_c.take(j as int).lemma_push_to_set_commute(old_c[j as int]);
                        }
                        if self.collapsed[j] != pid {
                            let ghost kb = kept@;
                            kept.push(self.collapsed[j]);
                            proof {
                                kb.lemma_push_to_set_commute(old_c[j as int]);
                            }
                        }
                        j = j + 1;
                        assert(kept@.to_set() =~= old_c.take(j as int).to_set().remove(pid));
                    }
                    assert(old_c.take(old_c.len() as int) =~= old_c);
                    self.collapsed = kept;
                } else {
                    let ghost old_c = self.collapsed@;
                    self.collapsed.push(pid);
                    proof {
                        old_c.lemma_push_to_set_commute(pid);
                    }
                }
            }
        }
    }

    /// Moves the selection one row up.
    pub fn move_up(&mut self)
        ensures
            final(self).selected == if old(self).selected > 0 {
                (old(self).selected - 1) as usize
            } else {
                0
            },
            final(self).rows == old(self).rows,
            final(self).collapsed == old(self).collapsed,
            final(self).scroll_offset == old(self).scroll_offset,
    {
        if self.selected > 0 {
            self.selected = self.selected - 1;
        }
    }

    /// Moves the selection one row down, stopping at the last visible row.
    pub fn move_down(&mut self)
        ensures
            final(self).selected == if old(self).selected < last_index(old(self).visible().len()) {
                (old(self).selected + 1) as usize
            } else {
                old(self).selected
            },
            final(self).rows == old(self).rows,
            final(self).collapsed == old(self).collapsed,
            final(self).scroll_offset == old(self).scroll_offset,
    {
        let max = self.visible_rows().len();
        let max = if max > 0 {
            max - 1
        } else {
            0
        };
        if self.selected < max {
            self.selected = self.selected + 1;
        }
    }

    /// Scrolls so that the selected row is among the `viewport_height`
    /// rows shown.
    pub fn ensure_visible(&mut self, viewport_height: usize)
        requires
            old(self).scroll_offset + viewport_height <= usize::MAX,
        ensures
            final(self).scroll_offset == scroll_spec(
                old(self).selected,
                old(self).scroll_offset,
                viewport_height,
            ),
            final(self).rows == old(self).rows,
            final(self).collapsed == old(self).collapsed,
            final(self).selected == old(self).selected,
    {
        if viewport_height == 0 {
            return;
        }
        if self.selected < self.scroll_offset {
            self.scroll_offset = self.selected;
        } else if self.selected >= self.scroll_offset + viewport_height {
            self.scroll_offset = self.selected - viewport_height + 1;
        }
    }

    /// Applies a key; gives `true` when the key asks to quit.
    pub fn apply_key(&mut self, k: TuiKey) -> (quit: bool)
        ensures
            quit == (tree_command_spec(k) == TreeCommand::Quit),
            final(self).rows == old(self).rows,
            final(self).selected == match tree_command_spec(k) {
                TreeCommand::MoveUp => if old(self).selected > 0 {
                    (old(self).selected - 1) as usize
                } else {
                    0
                },
                TreeCommand::MoveDown => if old(self).selected < last_index(
                    old(self).visible().len(),
                ) {
                    (old(self).selected + 1) as usize
                } else {
                    old(self).selected
                },
                TreeCommand::First => 0,
                TreeCommand::Last => last_index(old(self).visible().len()) as usize,
                TreeCommand::PageUp => if old(self).selected >= 20 {
                    (old(self).selected - 20) as usize
                } else {
                    0
                },
                TreeCommand::PageDown => if old(self).selected + 20 <= last_index(
                    old(self).visible().len(),
                ) {
                    (old(self).selected + 20) as usize
                } else {
                    last_index(old(self).visible().len()) as usize
                },
                _ => old(self).selected,
            },
            tree_command_spec(k) == TreeCommand::Toggle ==> final(self).collapsed_set()
                == toggle_spec(
                old(self).collapsed_set(),
                shapes(old(self).rows@),
                old(self).visible(),
                old(self).selected,
            ),
            tree_command_spec(k) != TreeCommand::Toggle ==> final(self).collapsed
                == old(self).collapsed,
    {
        match tree_command(k) {
            TreeCommand::Quit => true,
            TreeCommand::MoveUp => {
                self.move_up();
                false
            },
            TreeCommand::MoveDown => {
                self.move_down();
                false
            },
            TreeCommand::Toggle => {
                self.toggle_collapse();
                false
            },
            TreeCommand::First => {
                self.selected = 0;
                false
            },
            TreeCommand::Last => {
                let n = self.visible_rows().len();
                self.selected = if n > 0 {
                    n - 1
                } else {
                    0
                };
                false
            },
            TreeCommand::PageUp => {
                self.selected = if self.selected >= 20 {
                    self.selected - 20
                } else {
                    0
                };
                false
            },
            TreeCommand::PageDown => {
                let n = self.visible_rows().len();
                let max = if n > 0 {
                    n - 1
                } else {
                    0
                };
                self.selected = if self.selected <= max && max - self.selected >= 20 {
                    self.selected + 20
                } else {
                    max
                };
                false
            },
            TreeCommand::Nothing => false,
        }
    }
}

/// The index of the last of `n` rows (0 when there are none).
pub open spec fn last_index(n: nat) -> nat {
    if n > 0 {
        (n - 1) as nat
    } else {
        0
    }
}

/// The first row shown after scrolling to keep `selected` in view.
pub open spec fn scroll_spec(selected: usize, offset: usize, height: usize) -> usize {
    if height == 0 {
        offset
    } else if selected < offset {
        selected
    } else if selected >= offset + height {
        (selected - height + 1) as usize
    } else {
        offset
    }
}

/// The collapsed set after toggling the selected visible row: its pid is
/// added or removed when the row has children.
pub open spec fn toggle_spec(
    collapsed: Set<u32>,
    rows: Seq<RowShape>,
    visible: Seq<int>,
    selected: usize,
) -> Set<u32> {
    if selected < visible.len() && rows[visible[selected as int]].2 {
        let pid = rows[visible[selected as int]].1;
        if collapsed.contains(pid) {
            collapsed.remove(pid)
        } else {
            collapsed.insert(pid)
        }
    } else {
        collapsed
    }
}

pub proof fn lemma_visible_bounds(rows: Seq<RowShape>, collapsed: Set<u32>, i: int, skip: Option<usize>)
    requires
        0 <= i,
    ensures
        forall|k: int|
            0 <= k < visible_from(rows, collapsed, i, skip).len() ==> i <= #[trigger] visible_from(
                rows,
                collapsed,
                i,
                skip,
            )[k] < rows.len(),
    decreases rows.len() - i,
{
    if i < rows.len() {
        if skip matches Some(d) && rows[i].0 > d {
            lemma_visible_bounds(rows, collapsed, i + 1, skip);
            assert(visible_from(rows, collapsed, i, skip) == visible_from(rows, collapsed, i + 1, skip));
        } else {
            let next = if collapsed.contains(rows[i].1) && rows[i].2 {
                Some(rows[i].0)
            } else {
                None
            };
            lemma_visible_bounds(rows, collapsed, i + 1, next);
            let v = visible_from(rows, collapsed, i, skip);
            assert(v == seq![i] + visible_from(rows, collapsed, i + 1, next));
            assert forall|k: int| 0 <= k < v.len() implies i <= #[trigger] v[k] < rows.len() by {
                if k > 0 {
                    assert(v[k] == visible_from(rows, collapsed, i + 1, next)[k - 1]);
                }
            }
        }
    }
}

/// After scrolling, the selected row lies inside the window of
/// `height` rows.
pub proof fn law_scroll_keeps_selection_in_view(selected: usize, offset: usize, height: usize)
    requires
        height > 0,
        offset + height <= usize::MAX,
    ensures
        scroll_spec(selected, offset, height) <= selected < scroll_spec(selected, offset, height)
            + height,
{
}

/// Whether no two rows share a pid.
pub open spec fn distinct_row_pids(rows: Seq<RowShape>) -> bool {
    forall|i: int, j: int| 0 <= i < j < rows.len() ==> rows[i].1 != rows[j].1
}

/// `w` starts with the elements of `v` that are at most `m`.
pub open spec fn agree_upto(v: Seq<int>, w: Seq<int>, m: int) -> bool {
    forall|k: int| 0 <= k < v.len() && #[trigger] v[k] <= m ==> k < w.len() && w[k] == v[k]
}

/// Two collapsed sets that differ at most in `p` show the same rows up to
/// row `m`, as long as no row before `m` has pid `p`.
proof fn lemma_visible_prefix(
    rows: Seq<RowShape>,
    c: Set<u32>,
    c2: Set<u32>,
    p: u32,
    m: int,
    i: int,
    skip: Option<usize>,
)
    requires
        0 <= i,
        forall|q: u32| q != p ==> (c.contains(q) <==> c2.contains(q)),
        forall|j: int| i <= j < m && j < rows.len() ==> rows[j].1 != p,
    ensures
        agree_upto(visible_from(rows, c, i, skip), visible_from(rows, c2, i, skip), m),
    decreases rows.len() - i,
{
    let v = visible_from(rows, c, i, skip);
    let w = visible_from(rows, c2, i, skip);
    lemma_visible_bounds(rows, c, i, skip);
    if i < rows.len() {
        if skip matches Some(d) && rows[i].0 > d {
            lemma_visible_prefix(rows, c, c2, p, m, i + 1, skip);
            let a = visible_from(rows, c, i + 1, skip);
            let b = visible_from(rows, c2, i + 1, skip);
            assert(v == a);
            assert(w == b);
            assert forall|k: int| 0 <= k < v.len() && #[trigger] v[k] <= m implies k < w.len() && w[k] == v[k] by {
                assert(a[k] == v[k]);
                assert(b[k] == a[k]);
            }
        } else {
            let next = if c.contains(rows[i].1) && rows[i].2 {
                Some(rows[i].0)
            } else {
                None
            };
            let next2 = if c2.contains(rows[i].1) && rows[i].2 {
                Some(rows[i].0)
            } else {
                None
            };
            lemma_visible_bounds(rows, c, i + 1, next);
            assert(v == seq![i] + visible_from(rows, c, i + 1, next));
            assert(w == seq![i] + visible_from(rows, c2, i + 1, next2));
            if i < m {
                assert(next == next2);
                lemma_visible_prefix(rows, c, c2, p, m, i + 1, next);
                assert forall|k: int| 0 <= k < v.len() && #[trigger] v[k] <= m implies k < w.len() && w[k] == v[k] by {
                    if k > 0 {
                        let a = visible_from(rows, c, i + 1, next);
                        let b = visible_from(rows, c2, i + 1, next);
                        assert(v[k] == a[k - 1]);
                        assert(b[k - 1] == a[k - 1]);
                        assert(w[k] == b[k - 1]);
                    }
                }
                } else {
                assert forall|k: int| 0 <= k < v.len() && #[trigger] v[k] <= m implies k < w.len() && w[k] == v[k] by {
                    if k > 0 {
                        let a = visible_from(rows, c, i + 1, next);
                        assert(v[k] == a[k - 1]);
                        assert(i + 1 <= a[k - 1]);
                    }
                }
                }
        }
    } else {
        assert(v.len() == 0);
    }
}

/// Expanding what was just collapsed, or collapsing what was just
/// expanded, gives back the collapsed set: toggling the same selected row
/// twice changes nothing (rows with distinct pids).
pub proof fn law_toggle_twice(rows: Seq<RowShape>, collapsed: Set<u32>, selected: usize)
    requires
        distinct_row_pids(rows),
    ensures
        ({
            let once = toggle_spec(collapsed, rows, visible_spec(rows, collapsed), selected);
            toggle_spec(once, rows, visible_spec(rows, once), selected) == collapsed
        }),
{
    let v = visible_spec(rows, collapsed);
    let once = toggle_spec(collapsed, rows, v, selected);
    let w = visible_spec(rows, once);
    lemma_visible_bounds(rows, collapsed, 0, None);
    if selected < v.len() && rows[v[selected as int]].2 {
        let m = v[selected as int];
        let p = rows[m].1;
        lemma_visible_prefix(rows, collapsed, once, p, m, 0, None);
        assert(w[selected as int] == m);
        if collapsed.contains(p) {
            assert(toggle_spec(once, rows, w, selected) =~= collapsed);
        } else {
            assert(toggle_spec(once, rows, w, selected) =~= collapsed);
        }
    } else {
        assert(once == collapsed);
    }
}

} // verus!
