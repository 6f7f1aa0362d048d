//! Operations on the whole workspace: windows, their tabs, and the trees
//! of the tabs.
use vstd::prelude::*;
use crate::ids::fresh_uuid;
use crate::keybindings::default_keybindings;
use crate::node::{default_title, new_terminal_leaf};
use crate::view::lemma_inners_view;
use crate::model::{
    tabs_view, windows_view, FocusDirection, InnerTabId, SplitOrientation, TabId, TabModel, TerminalId, WindowId,
    LayoutNode, WindowModel, WorkspaceModel,
};
use crate::layout_spec::{adjacent, apply_edit, contains, first_terminal, layout_wf, terminals, EditOp};
use crate::layout_lemmas::lemma_edit_at_leaf;
use crate::workspace_spec::{has_window_id, has_tab_id, holds_terminal, 
    direction_axis, first_index, lemma_first_index, single_tab, single_window, spec_close_tab, spec_first_terminal_in_tab,
    spec_focus_neighbor, spec_rename_tab, spec_rename_window, spec_set_active_tab, spec_set_active_terminal,
    spec_add_tab, spec_update_dynamic_title, split_applies, spec_split_terminal, closed_tab, close_terminal_safe,
    spec_close_terminal, spec_rename_inner_tab, spec_close_inner_tab, spec_add_inner_tab, spec_add_inner_tab_near, tab_exists,
    remove_from_tabs, strip_from_tabs, remove_from_windows, lemma_strip_from_tabs_append, lemma_remove_from_windows_append,
    lemma_strip_from_tabs_len, moved_tab, spec_move_to_split, spec_move_to_new_tab, spec_move_to_new_window,
    spec_move_to_new_inner_tab, with_tab_root, spec_contextual_source, window_wf, workspace_wf, tab_holding, tab_index, tab_set_focus, window_index, windows_without, TabV,
    WindowV,
};
use crate::keybindings::default_bindings;

verus! {

/// The position of the first window with id `id`.
#[verifier::loop_isolation(false)]
pub(crate) fn window_position(windows: &Vec<WindowModel>, id: WindowId) -> (r: Option<usize>)
    ensures
        window_index(windows_view(windows@), id) == match r {
            Some(k) => k as int,
            None => -1,
        },
        r matches Some(k) ==> k < windows@.len() && windows@[k as int].id == id,
{
    let ghost p = has_window_id(id);
    proof { lemma_first_index(windows_view(windows@), p); }
    let mut i: usize = 0;
    while i < windows.len()
        invariant
            i <= windows@.len(),
            window_index(windows_view(windows@), id) == first_index(windows_view(windows@), p),
            -1 <= first_index(windows_view(windows@), p) < windows@.len(),
            first_index(windows_view(windows@), p) >= 0 ==> p(windows_view(windows@)[first_index(windows_view(windows@), p)]),
            forall|j: int| 0 <= j < first_index(windows_view(windows@), p) ==> !p(#[trigger] windows_view(windows@)[j]),
            first_index(windows_view(windows@), p) == -1 ==> forall|j: int| 0 <= j < windows@.len() ==> !p(#[trigger] windows_view(windows@)[j]),
            forall|j: int| 0 <= j < i ==> (#[trigger] windows@[j]).id != id,
        decreases windows@.len() - i,
    {
        if windows[i].id == id {
            proof { assert(windows_view(windows@)[i as int] == windows@[i as int]@); assert(p(windows_view(windows@)[i as int])); }
            return Some(i);
        }
        i += 1;
    }
    proof {
        if first_index(windows_view(windows@), p) >= 0 {
            let f = first_index(windows_view(windows@), p);
            assert(windows_view(windows@)[f] == windows@[f]@);
            assert(windows@[f].id == id);
        }
    }
    None
}

/// The position of the first tab with id `id`.
#[verifier::loop_isolation(false)]
pub(crate) fn tab_position(tabs: &Vec<TabModel>, id: TabId) -> (r: Option<usize>)
    ensures
        tab_index(tabs_view(tabs@), id) == match r {
            Some(k) => k as int,
            None => -1,
        },
        r matches Some(k) ==> k < tabs@.len() && tabs@[k as int].id == id,
{
    let ghost p = has_tab_id(id);
    proof { lemma_first_index(tabs_view(tabs@), p); }
    let mut i: usize = 0;
    while i < tabs.len()
        invariant
            i <= tabs@.len(),
            tab_index(tabs_view(tabs@), id) == first_index(tabs_view(tabs@), p),
            -1 <= first_index(tabs_view(tabs@), p) < tabs@.len(),
            first_index(tabs_view(tabs@), p) >= 0 ==> p(tabs_view(tabs@)[first_index(tabs_view(tabs@), p)]),
            forall|j: int| 0 <= j < first_index(tabs_view(tabs@), p) ==> !p(#[trigger] tabs_view(tabs@)[j]),
            first_index(tabs_view(tabs@), p) == -1 ==> forall|j: int| 0 <= j < tabs@.len() ==> !p(#[trigger] tabs_view(tabs@)[j]),
            forall|j: int| 0 <= j < i ==> (#[trigger] tabs@[j]).id != id,
        decreases tabs@.len() - i,
    {
        if tabs[i].id == id {
            proof { assert(tabs_view(tabs@)[i as int] == tabs@[i as int]@); assert(p(tabs_view(tabs@)[i as int])); }
            return Some(i);
        }
        i += 1;
    }
    proof {
        if first_index(tabs_view(tabs@), p) >= 0 {
            let f = first_index(tabs_view(tabs@), p);
            assert(tabs_view(tabs@)[f] == tabs@[f]@);
            assert(tabs@[f].id == id);
        }
    }
    None
}

/// The position of the first tab whose tree holds terminal `t`.
#[verifier::loop_isolation(false)]
pub(crate) fn tab_position_holding(tabs: &Vec<TabModel>, t: TerminalId) -> (r: Option<usize>)
    ensures
        tab_holding(tabs_view(tabs@), t) == match r {
            Some(k) => k as int,
            None => -1,
        },
        r matches Some(k) ==> k < tabs@.len() && contains(tabs@[k as int].root@, t),
{
    let ghost p = holds_terminal(t);
    proof { lemma_first_index(tabs_view(tabs@), p); }
    let mut i: usize = 0;
    while i < tabs.len()
        invariant
            i <= tabs@.len(),
            tab_holding(tabs_view(tabs@), t) == first_index(tabs_view(tabs@), p),
            -1 <= first_index(tabs_view(tabs@), p) < tabs@.len(),
            first_index(tabs_view(tabs@), p) >= 0 ==> p(tabs_view(tabs@)[first_index(tabs_view(tabs@), p)]),
            forall|j: int| 0 <= j < first_index(tabs_view(tabs@), p) ==> !p(#[trigger] tabs_view(tabs@)[j]),
            first_index(tabs_view(tabs@), p) == -1 ==> forall|j: int| 0 <= j < tabs@.len() ==> !p(#[trigger] tabs_view(tabs@)[j]),
            forall|j: int| 0 <= j < i ==> !contains((#[trigger] tabs@[j]).root@, t),
        decreases tabs@.len() - i,
    {
        if tabs[i].contains_terminal(t) {
            proof { assert(tabs_view(tabs@)[i as int] == tabs@[i as int]@); assert(p(tabs_view(tabs@)[i as int])); }
            return Some(i);
        }
        i += 1;
    }
    proof {
        if first_index(tabs_view(tabs@), p) >= 0 {
            let f = first_index(tabs_view(tabs@), p);
            assert(tabs_view(tabs@)[f] == tabs@[f]@);
            assert(contains(tabs@[f].root@, t));
        }
    }
    None
}

/// Remove terminal `t` from the tabs in order until one held it (see
/// `strip_from_tabs`: `remove_from_tabs` where `collapse` holds,
/// `detach_from_tabs` where not); returns whether one held it.
#[verifier::loop_isolation(false)]
pub(crate) fn remove_terminal_from_tabs(tabs: &mut Vec<TabModel>, t: TerminalId, collapse: bool) -> (r: bool)
    ensures
        (tabs_view(final(tabs)@), r) == strip_from_tabs(tabs_view(old(tabs)@), t, collapse),
{
    let ghost orig = tabs@;
    let mut i: usize = 0;
    while i < tabs.len()
        invariant
            i <= tabs@.len(),
            tabs@.len() == orig.len(),
            strip_from_tabs(tabs_view(orig).take(i as int), t, collapse) == (tabs_view(tabs@).take(i as int), false),
            forall|j: int| i <= j < tabs@.len() ==> #[trigger] tabs@[j] == orig[j],
        decreases tabs@.len() - i,
    {
        let ghost before = tabs@;
        proof {
            assert(tabs_view(orig).take(i + 1).drop_last() =~= tabs_view(orig).take(i as int));
            assert(tabs_view(orig)[i as int] == orig[i as int]@);
        }
        let removed = tabs[i].strip_terminal(t, collapse);
        proof {
            assert(tabs_view(tabs@).take(i + 1) =~= tabs_view(before).take(i as int).push(tabs@[i as int]@));
            assert(before[i as int] == orig[i as int]);
            assert(tabs_view(orig).take(i + 1).last() == orig[i as int]@);
            assert(strip_from_tabs(tabs_view(orig).take(i + 1), t, collapse) == (tabs_view(tabs@).take(i + 1), removed));
            assert forall|j: int| i + 1 <= j < tabs@.len() implies #[trigger] tabs@[j] == orig[j] by {
                assert(tabs@[j] == before[j]);
            }
        }
        if removed {
            proof {
                let p = tabs_view(orig).take(i + 1);
                let q = tabs_view(orig).skip(i + 1);
                lemma_strip_from_tabs_append(p, q, t, collapse);
                assert(p + q =~= tabs_view(orig));
                assert(tabs_view(tabs@) =~= tabs_view(tabs@).take(i + 1) + q);
            }
            return true;
        }
        i += 1;
    }
    proof {
        assert(tabs_view(orig).take(i as int) =~= tabs_view(orig));
        assert(tabs_view(tabs@).take(i as int) =~= tabs_view(tabs@));
    }
    false
}

/// Remove terminal `t` from the windows in order until one held it (see
/// `remove_from_windows`); returns whether one held it.
#[verifier::loop_isolation(false)]
pub(crate) fn remove_terminal_from_windows(windows: &mut Vec<WindowModel>, t: TerminalId) -> (r: bool)
    ensures
        (windows_view(final(windows)@), r) == remove_from_windows(windows_view(old(windows)@), t),
{
    let ghost orig = windows@;
    let mut i: usize = 0;
    while i < windows.len()
        invariant
            i <= windows@.len(),
            windows@.len() == orig.len(),
            remove_from_windows(windows_view(orig).take(i as int), t) == (windows_view(windows@).take(i as int), false),
            forall|j: int| i <= j < windows@.len() ==> #[trigger] windows@[j] == orig[j],
        decreases windows@.len() - i,
    {
        let ghost before = windows@;
        proof {
            assert(windows_view(orig).take(i + 1).drop_last() =~= windows_view(orig).take(i as int));
            assert(windows_view(orig)[i as int] == orig[i as int]@);
        }
        let removed = remove_terminal_from_tabs(&mut windows[i].tabs, t, true);
        proof {
            assert(windows_view(windows@).take(i + 1) =~= windows_view(before).take(i as int).push(windows@[i as int]@));
            assert(before[i as int] == orig[i as int]);
            assert(windows_view(orig).take(i + 1).last() == orig[i as int]@);
            assert(remove_from_windows(windows_view(orig).take(i + 1), t) == (windows_view(windows@).take(i + 1), removed));
            assert forall|j: int| i + 1 <= j < windows@.len() implies #[trigger] windows@[j] == orig[j] by {
                assert(windows@[j] == before[j]);
            }
        }
        if removed {
            proof {
                let p = windows_view(orig).take(i + 1);
                let q = windows_view(orig).skip(i + 1);
                lemma_remove_from_windows_append(p, q, t);
                assert(p + q =~= windows_view(orig));
                assert(windows_view(windows@) =~= windows_view(windows@).take(i + 1) + q);
            }
            return true;
        }
        i += 1;
    }
    proof {
        assert(windows_view(orig).take(i as int) =~= windows_view(orig));
        assert(windows_view(windows@).take(i as int) =~= windows_view(windows@));
    }
    false
}

impl WorkspaceModel {
    /// A workspace of one window ("Terminator") with one tab of one terminal,
    /// and the default key bindings.
    pub fn new_single_terminal() -> (ws: Self)
        ensures
            ws@.len() == 1,
            ws@[0] == single_window(ws@[0].id, single_tab(ws@[0].tabs[0].id, ws@[0].tabs[0].focus)),
            ws.keybindings@ == default_bindings(),
    {
        let window_id = WindowId(fresh_uuid());
        let (tab, _term_id) = TabModel::single_terminal_tab();
        let keybindings = default_keybindings();
        let mut tabs = Vec::new();
        tabs.push(tab);
        let mut windows = Vec::new();
        windows.push(WindowModel { id: window_id, title: String::from_str("Terminator"), tabs, active_tab: 0 });
        let ws = WorkspaceModel { windows, keybindings };
        proof {
            assert(tabs_view(ws.windows@[0].tabs@) =~= seq![tab@]);
        }
        ws
    }

    /// Add a window ("Terminator") with one tab of one terminal; returns its id.
    pub fn add_window(&mut self) -> (id: WindowId)
        ensures
            final(self)@ == old(self)@.push(single_window(id, single_tab(final(self)@.last().tabs[0].id, final(self)@.last().tabs[0].focus))),
            final(self).keybindings == old(self).keybindings,
    {
        let id = WindowId(fresh_uuid());
        let (tab, _term) = TabModel::single_terminal_tab();
        let mut tabs = Vec::new();
        tabs.push(tab);
        let window = WindowModel { id, title: String::from_str("Terminator"), tabs, active_tab: 0 };
        proof {
            assert(tabs_view(window.tabs@) =~= seq![tab@]);
        }
        self.windows.push(window);
        proof {
            assert(self@ =~= old(self)@.push(window@));
        }
        id
    }

    /// Remove every window with id `window_id`.
    pub fn remove_window(&mut self, window_id: WindowId)
        ensures
            final(self)@ == windows_without(old(self)@, window_id),
            final(self).keybindings == old(self).keybindings,
    {
        let mut rest: Vec<WindowModel> = Vec::new();
        std::mem::swap(&mut rest, &mut self.windows);
        let _n = rest.len();
        let ghost all = rest@;
        let mut m: usize = 0;
        while rest.len() > 0
            invariant
                m + rest@.len() == all.len(),
                all.len() <= usize::MAX,
                forall|j: int| 0 <= j < rest@.len() ==> #[trigger] rest@[j] == all[m + j],
                windows_view(self.windows@) == windows_without(windows_view(all).take(m as int), window_id),
                self.keybindings == old(self).keybindings,
            decreases rest@.len(),
        {
            let w = rest.remove(0);
            proof {
                assert(w == all[m as int]);
                assert(windows_view(all).take(m + 1).drop_last() =~= windows_view(all).take(m as int));
            }
            if w.id != window_id {
                self.windows.push(w);
                proof {
                    assert(windows_view(self.windows@) =~= windows_without(windows_view(all).take(m as int), window_id).push(w@));
                }
            }
            m += 1;
            proof {
                assert forall|j: int| 0 <= j < rest@.len() implies #[trigger] rest@[j] == all[m + j] by {}
            }
        }
        proof {
            assert(windows_view(all).take(m as int) =~= windows_view(all));
        }
    }

    /// Set the title of the first window with id `window_id`.
    pub fn rename_window(&mut self, window_id: WindowId, title: String)
        ensures
            final(self)@ == spec_rename_window(old(self)@, window_id, title@),
            final(self).keybindings == old(self).keybindings,
    {
        match window_position(&self.windows, window_id) {
            Some(w) => {
                self.windows[w].title = title;
                proof {
                    assert(self@ =~= spec_rename_window(old(self)@, window_id, title@));
                }
            },
            None => {},
        }
    }

    /// Close tab `tab_id` of window `window_id` (see `spec_close_tab`).
    pub fn close_tab(&mut self, window_id: WindowId, tab_id: TabId) -> (r: bool)
        ensures
            (final(self)@, r) == spec_close_tab(old(self)@, window_id, tab_id),
            final(self).keybindings == old(self).keybindings,
    {
        if let Some(widx) = window_position(&self.windows, window_id) {
            if let Some(tidx) = tab_position(&self.windows[widx].tabs, tab_id) {
                self.windows[widx].tabs.remove(tidx);
                if self.windows[widx].tabs.len() == 0 {
                    self.windows.remove(widx);
                    proof {
                        assert(self@ =~= old(self)@.remove(widx as int));
                    }
                } else {
                    if self.windows[widx].active_tab >= self.windows[widx].tabs.len() {
                        self.windows[widx].active_tab = self.windows[widx].tabs.len() - 1;
                    }
                    proof {
                        assert(tabs_view(self.windows@[widx as int].tabs@) =~= old(self)@[widx as int].tabs.remove(tidx as int));
                        assert(self@ =~= spec_close_tab(old(self)@, window_id, tab_id).0);
                    }
                }
                return true;
            }
        }
        false
    }

    /// The first terminal, in depth-first order over every inner tab, of tab
    /// `tab_id` in window `window_id`.
    pub fn first_terminal_in_tab(&self, window_id: WindowId, tab_id: TabId) -> (r: Option<TerminalId>)
        ensures
            r == spec_first_terminal_in_tab(self@, window_id, tab_id),
    {
        let w = window_position(&self.windows, window_id)?;
        let k = tab_position(&self.windows[w].tabs, tab_id)?;
        let mut ids: Vec<TerminalId> = Vec::new();
        self.windows[w].tabs[k].collect_terminal_ids(&mut ids);
        proof {
            assert(tabs_view(self.windows@[w as int].tabs@)[k as int] == self.windows@[w as int].tabs@[k as int]@);
            assert(ids@ =~= terminals(self@[w as int].tabs[k as int].root));
        }
        if ids.len() > 0 {
            Some(ids[0])
        } else {
            None
        }
    }

    /// Add a tab with one new terminal to window `window_id`, after its other
    /// tabs; the active tab stays the same. Returns the tab's id.
    pub fn add_tab_to_window(&mut self, window_id: WindowId) -> (r: Option<TabId>)
        ensures
            r is Some <==> window_index(old(self)@, window_id) >= 0,
            r is None ==> final(self)@ == old(self)@,
            r matches Some(id) ==> final(self)@ == spec_add_tab(
                old(self)@,
                window_id,
                single_tab(id, final(self)@[window_index(old(self)@, window_id)].tabs.last().focus),
            ),
            final(self).keybindings == old(self).keybindings,
    {
        let w = match window_position(&self.windows, window_id) {
            Some(w) => w,
            None => return None,
        };
        let (tab, first) = TabModel::single_terminal_tab();
        let id = tab.id;
        let ghost tv = tab@;
        self.windows[w].tabs.push(tab);
        let _ = first;
        proof {
            assert(tabs_view(self.windows@[w as int].tabs@) =~= old(self)@[w as int].tabs.push(tv));
            assert(self@ =~= spec_add_tab(old(self)@, window_id, single_tab(id, first)));
        }
        Some(id)
    }

    /// Make tab `tab_id` the active tab of window `window_id`.
    pub fn set_active_tab(&mut self, window_id: WindowId, tab_id: TabId)
        ensures
            final(self)@ == spec_set_active_tab(old(self)@, window_id, tab_id),
            final(self).keybindings == old(self).keybindings,
    {
        if let Some(w) = window_position(&self.windows, window_id) {
            if let Some(idx) = tab_position(&self.windows[w].tabs, tab_id) {
                self.windows[w].active_tab = idx;
                proof {
                    assert(self@ =~= spec_set_active_tab(old(self)@, window_id, tab_id));
                }
            }
        }
    }

    /// Focus terminal `terminal_id` in tab `tab_id`; returns whether the focus
    /// changed.
    pub fn set_active_terminal(&mut self, window_id: WindowId, tab_id: TabId, terminal_id: TerminalId) -> (r: bool)
        ensures
            (final(self)@, r) == spec_set_active_terminal(old(self)@, window_id, tab_id, terminal_id),
            final(self).keybindings == old(self).keybindings,
    {
        if let Some(w) = window_position(&self.windows, window_id) {
            if let Some(k) = tab_position(&self.windows[w].tabs, tab_id) {
                let changed = self.windows[w].tabs[k].set_focus_terminal(terminal_id);
                proof {
                    assert(tabs_view(self.windows@[w as int].tabs@) =~= old(self)@[w as int].tabs.update(
                        k as int,
                        self.windows@[w as int].tabs@[k as int]@,
                    ));
                    assert(self@ =~= spec_set_active_terminal(old(self)@, window_id, tab_id, terminal_id).0);
                }
                return changed;
            }
        }
        false
    }

    /// The neighbour of `terminal_id` in `direction` within tab `tab_id`.
    pub fn focus_neighbor(
        &self,
        window_id: WindowId,
        tab_id: TabId,
        terminal_id: TerminalId,
        direction: FocusDirection,
    ) -> (r: Option<TerminalId>)
        ensures
            r == spec_focus_neighbor(self@, window_id, tab_id, terminal_id, direction),
    {
        let w = window_position(&self.windows, window_id)?;
        let k = tab_position(&self.windows[w].tabs, tab_id)?;
        let (orientation, forward) = match direction {
            FocusDirection::Left => (SplitOrientation::Horizontal, false),
            FocusDirection::Right => (SplitOrientation::Horizontal, true),
            FocusDirection::Up => (SplitOrientation::Vertical, false),
            FocusDirection::Down => (SplitOrientation::Vertical, true),
        };
        self.windows[w].tabs[k].root.find_adjacent_terminal(terminal_id, orientation, forward)
    }

    /// Split the leaf of `terminal_id` in the first tab of window `window_id`
    /// that holds it, a new terminal second, and focus the new terminal;
    /// returns the new terminal's id.
    pub fn split_terminal(
        &mut self,
        window_id: WindowId,
        terminal_id: TerminalId,
        orientation: SplitOrientation,
    ) -> (r: Option<TerminalId>)
        ensures
            r is Some <==> split_applies(old(self)@, window_id, terminal_id),
            r is None ==> final(self)@ == old(self)@,
            r matches Some(n) ==> final(self)@ == spec_split_terminal(old(self)@, window_id, terminal_id, orientation, n),
            final(self).keybindings == old(self).keybindings,
    {
        let w = match window_position(&self.windows, window_id) {
            Some(w) => w,
            None => return None,
        };
        let k = match tab_position_holding(&self.windows[w].tabs, terminal_id) {
            Some(k) => k,
            None => return None,
        };
        let new_terminal_id = TerminalId(fresh_uuid());
        proof {
            assert(tabs_view(self.windows@[w as int].tabs@)[k as int] == self.windows@[w as int].tabs@[k as int]@);
            lemma_edit_at_leaf(
                EditOp::SplitAt { target: terminal_id, orientation, new_terminal: new_terminal_id },
                self.windows@[w as int].tabs@[k as int].root@,
            );
        }
        let replaced = self.windows[w].tabs[k].replace_leaf_with_split(terminal_id, orientation, new_terminal_id);
        if replaced {
            let _ = self.windows[w].tabs[k].set_focus_terminal(new_terminal_id);
            proof {
                assert(tabs_view(self.windows@[w as int].tabs@) =~= old(self)@[w as int].tabs.update(
                    k as int,
                    self.windows@[w as int].tabs@[k as int]@,
                ));
                assert(self@ =~= spec_split_terminal(old(self)@, window_id, terminal_id, orientation, new_terminal_id));
            }
            Some(new_terminal_id)
        } else {
            None
        }
    }

    /// Whether `close_terminal(window_id, terminal_id)` may be called: where
    /// a tab of the window holds the terminal and keeps terminals after its
    /// removal, a group at the root of that tab has a valid active inner tab
    /// (see `close_terminal_safe`).
    pub fn can_close_terminal(&self, window_id: WindowId, terminal_id: TerminalId) -> (r: bool)
        ensures
            r == close_terminal_safe(self@, window_id, terminal_id),
    {
        let w = match window_position(&self.windows, window_id) {
            Some(w) => w,
            None => return true,
        };
        let k = match tab_position_holding(&self.windows[w].tabs, terminal_id) {
            Some(k) => k,
            None => return true,
        };
        proof {
            assert(tabs_view(self.windows@[w as int].tabs@)[k as int] == self.windows@[w as int].tabs@[k as int]@);
        }
        let mut tab = self.windows[w].tabs[k].deep_clone();
        tab.remove_terminal(terminal_id);
        if tab.root.is_empty() {
            return true;
        }
        match &tab.root {
            LayoutNode::Tabs(group) => {
                proof { lemma_inners_view(group.tabs@); }
                group.active < group.tabs.len()
            },
            _ => true,
        }
    }

    /// Close terminal `terminal_id` in window `window_id` (see
    /// `spec_close_terminal`): `Some` where a tab of the window held it.
    pub fn close_terminal(&mut self, window_id: WindowId, terminal_id: TerminalId) -> (r: Option<()>)
        requires
            close_terminal_safe(old(self)@, window_id, terminal_id),
        ensures
            (final(self)@, r is Some) == spec_close_terminal(old(self)@, window_id, terminal_id),
            final(self).keybindings == old(self).keybindings,
    {
        let w = window_position(&self.windows, window_id)?;
        let k = tab_position_holding(&self.windows[w].tabs, terminal_id)?;
        proof {
            assert(tabs_view(self.windows@[w as int].tabs@)[k as int] == self.windows@[w as int].tabs@[k as int]@);
        }
        let removed = self.windows[w].tabs[k].remove_terminal(terminal_id);
        if !removed {
            return None;
        }
        let ghost tab = self.windows@[w as int].tabs@[k as int]@;
        proof {
            assert(tab == closed_tab(old(self)@, window_id, terminal_id));
        }
        if self.windows[w].tabs[k].is_empty() {
            self.windows[w].tabs.remove(k);
            if self.windows[w].tabs.len() == 0 {
                self.windows.remove(w);
                proof {
                    assert(old(self)@[w as int].tabs.remove(k as int).len() == 0);
                    assert(self@ =~= old(self)@.remove(w as int));
                }
                return Some(());
            }
            if self.windows[w].active_tab >= self.windows[w].tabs.len() {
                self.windows[w].active_tab = self.windows[w].tabs.len() - 1;
            }
            proof {
                assert(tabs_view(self.windows@[w as int].tabs@) =~= old(self)@[w as int].tabs.remove(k as int));
                assert(self@ =~= spec_close_terminal(old(self)@, window_id, terminal_id).0);
            }
        } else {
            let active = self.windows[w].tabs[k].active_terminal();
            if !self.windows[w].tabs[k].contains_terminal(active) {
                if let Some(first) = self.windows[w].tabs[k].first_terminal_id() {
                    let _ = self.windows[w].tabs[k].set_focus_terminal(first);
                }
            }
            proof {
                assert(tabs_view(self.windows@[w as int].tabs@) =~= old(self)@[w as int].tabs.update(
                    k as int,
                    self.windows@[w as int].tabs@[k as int]@,
                ));
                assert(self@ =~= spec_close_terminal(old(self)@, window_id, terminal_id).0);
            }
        }
        Some(())
    }

    /// Set the title of tab `tab_id` and whether it is flexible; returns
    /// whether the tab was found.
    pub fn rename_tab(&mut self, window_id: WindowId, tab_id: TabId, title: String, flexible: bool) -> (r: bool)
        ensures
            (final(self)@, r) == spec_rename_tab(old(self)@, window_id, tab_id, title@, flexible),
            final(self).keybindings == old(self).keybindings,
    {
        if let Some(w) = window_position(&self.windows, window_id) {
            if let Some(k) = tab_position(&self.windows[w].tabs, tab_id) {
                self.windows[w].tabs[k].title = title;
                self.windows[w].tabs[k].title_flexible = flexible;
                proof {
                    assert(tabs_view(self.windows@[w as int].tabs@) =~= old(self)@[w as int].tabs.update(
                        k as int,
                        self.windows@[w as int].tabs@[k as int]@,
                    ));
                    assert(self@ =~= spec_rename_tab(old(self)@, window_id, tab_id, title@, flexible).0);
                }
                return true;
            }
        }
        false
    }

    /// Rename inner tab `inner_id`, wherever it is in the tree of tab
    /// `tab_id`, and set whether its title is flexible; returns whether it
    /// was found.
    pub fn rename_inner_tab(
        &mut self,
        window_id: WindowId,
        tab_id: TabId,
        inner_id: InnerTabId,
        title: String,
        flexible: bool,
    ) -> (r: bool)
        ensures
            (final(self)@, r) == spec_rename_inner_tab(old(self)@, window_id, tab_id, inner_id, title@, flexible),
            final(self).keybindings == old(self).keybindings,
    {
        if let Some(w) = window_position(&self.windows, window_id) {
            if let Some(k) = tab_position(&self.windows[w].tabs, tab_id) {
                proof {
                    assert(tabs_view(self.windows@[w as int].tabs@)[k as int] == self.windows@[w as int].tabs@[k as int]@);
                }
                let found = self.windows[w].tabs[k].rename_inner(inner_id, title, flexible);
                proof {
                    assert(tabs_view(self.windows@[w as int].tabs@) =~= old(self)@[w as int].tabs.update(
                        k as int,
                        self.windows@[w as int].tabs@[k as int]@,
                    ));
                    if found {
                        assert(self@ =~= spec_rename_inner_tab(old(self)@, window_id, tab_id, inner_id, title@, flexible).0);
                    } else {
                        assert(tabs_view(self.windows@[w as int].tabs@) =~= old(self)@[w as int].tabs);
                        assert(self@ =~= old(self)@);
                    }
                }
                return found;
            }
        }
        false
    }

    /// Close inner tab `inner_id` of tab `tab_id` (see `spec_close_inner_tab`);
    /// returns whether it was found.
    pub fn close_inner_tab(&mut self, window_id: WindowId, tab_id: TabId, inner_id: InnerTabId) -> (r: bool)
        ensures
            (final(self)@, r) == spec_close_inner_tab(old(self)@, window_id, tab_id, inner_id),
            final(self).keybindings == old(self).keybindings,
    {
        let w = match window_position(&self.windows, window_id) {
            Some(w) => w,
            None => return false,
        };
        let k = match tab_position(&self.windows[w].tabs, tab_id) {
            Some(k) => k,
            None => return false,
        };
        proof {
            assert(tabs_view(self.windows@[w as int].tabs@)[k as int] == self.windows@[w as int].tabs@[k as int]@);
        }
        let (changed, remove_parent_tab) = self.windows[w].tabs[k].close_inner(inner_id);
        if changed && remove_parent_tab {
            self.windows[w].tabs.remove(k);
            if self.windows[w].tabs.len() == 0 {
                self.windows.remove(w);
                proof {
                    assert(old(self)@[w as int].tabs.remove(k as int).len() == 0);
                    assert(self@ =~= old(self)@.remove(w as int));
                }
            } else {
                if self.windows[w].active_tab >= self.windows[w].tabs.len() {
                    self.windows[w].active_tab = self.windows[w].tabs.len() - 1;
                }
                proof {
                    assert(tabs_view(self.windows@[w as int].tabs@) =~= old(self)@[w as int].tabs.remove(k as int));
                    assert(self@ =~= spec_close_inner_tab(old(self)@, window_id, tab_id, inner_id).0);
                }
            }
        } else {
            proof {
                assert(tabs_view(self.windows@[w as int].tabs@) =~= old(self)@[w as int].tabs.update(
                    k as int,
                    self.windows@[w as int].tabs@[k as int]@,
                ));
                if changed {
                    assert(self@ =~= spec_close_inner_tab(old(self)@, window_id, tab_id, inner_id).0);
                } else {
                    assert(tabs_view(self.windows@[w as int].tabs@) =~= old(self)@[w as int].tabs);
                    assert(self@ =~= old(self)@);
                }
            }
        }
        changed
    }

    /// Add a new inner tab with a new terminal next to `from_terminal` in tab
    /// `tab_id`: in a new group around the leaf of `from_terminal`, or else
    /// in a group that holds it, or else in a group made of the whole tree
    /// (see `spec_add_inner_tab`); the new terminal becomes the tab's active
    /// terminal. Returns the ids of the inner tab and of the terminal.
    pub fn add_inner_tab(
        &mut self,
        window_id: WindowId,
        tab_id: TabId,
        from_terminal: TerminalId,
    ) -> (r: Option<(InnerTabId, TerminalId)>)
        ensures
            r is Some <==> tab_exists(old(self)@, window_id, tab_id),
            r is None ==> final(self)@ == old(self)@,
            r is Some ==> exists|first_inner: InnerTabId, group_inner: InnerTabId|
                final(self)@ == #[trigger] spec_add_inner_tab(
                    old(self)@,
                    window_id,
                    tab_id,
                    from_terminal,
                    r.unwrap().0,
                    r.unwrap().1,
                    first_inner,
                    group_inner,
                ),
            final(self).keybindings == old(self).keybindings,
    {
        let w = match window_position(&self.windows, window_id) {
            Some(w) => w,
            None => return None,
        };
        let k = match tab_position(&self.windows[w].tabs, tab_id) {
            Some(k) => k,
            None => return None,
        };
        proof {
            assert(tabs_view(self.windows@[w as int].tabs@)[k as int] == self.windows@[w as int].tabs@[k as int]@);
        }
        let new_terminal_id = TerminalId(fresh_uuid());
        let inner_id = InnerTabId(fresh_uuid());
        let first_inner = InnerTabId(fresh_uuid());
        let group_inner = InnerTabId(fresh_uuid());
        self.windows[w].tabs[k].add_inner(from_terminal, inner_id, new_terminal_id, first_inner, group_inner);
        proof {
            assert(tabs_view(self.windows@[w as int].tabs@) =~= old(self)@[w as int].tabs.update(
                k as int,
                self.windows@[w as int].tabs@[k as int]@,
            ));
            assert(self@ =~= spec_add_inner_tab(
                old(self)@,
                window_id,
                tab_id,
                from_terminal,
                inner_id,
                new_terminal_id,
                first_inner,
                group_inner,
            ));
        }
        let res = Some((inner_id, new_terminal_id));
        proof {
            assert(res.unwrap().0 == inner_id && res.unwrap().1 == new_terminal_id);
            assert(self@ =~= spec_add_inner_tab(
                old(self)@,
                window_id,
                tab_id,
                from_terminal,
                res.unwrap().0,
                res.unwrap().1,
                first_inner,
                group_inner,
            ));
        }
        res
    }

    /// Add a new inner tab with a new terminal to the group closest to
    /// `from_terminal` in tab `tab_id`, as a new tab asked for from a
    /// terminal does: the innermost group that holds it, or else as
    /// `add_inner_tab` (see `spec_add_inner_tab_near`); the new terminal
    /// becomes the tab's active terminal. Returns the ids of the inner tab
    /// and of the terminal.
    pub fn add_inner_tab_to_nearest_group(
        &mut self,
        window_id: WindowId,
        tab_id: TabId,
        from_terminal: TerminalId,
    ) -> (r: Option<(InnerTabId, TerminalId)>)
        ensures
            r is Some <==> tab_exists(old(self)@, window_id, tab_id),
            r is None ==> final(self)@ == old(self)@,
            r is Some ==> exists|first_inner: InnerTabId, group_inner: InnerTabId|
                final(self)@ == #[trigger] spec_add_inner_tab_near(
                    old(self)@,
                    window_id,
                    tab_id,
                    from_terminal,
                    r.unwrap().0,
                    r.unwrap().1,
                    first_inner,
                    group_inner,
                ),
            final(self).keybindings == old(self).keybindings,
    {
        let w = match window_position(&self.windows, window_id) {
            Some(w) => w,
            None => return None,
        };
        let k = match tab_position(&self.windows[w].tabs, tab_id) {
            Some(k) => k,
            None => return None,
        };
        proof {
            assert(tabs_view(self.windows@[w as int].tabs@)[k as int] == self.windows@[w as int].tabs@[k as int]@);
        }
        let new_terminal_id = TerminalId(fresh_uuid());
        let inner_id = InnerTabId(fresh_uuid());
        let first_inner = InnerTabId(fresh_uuid());
        let group_inner = InnerTabId(fresh_uuid());
        self.windows[w].tabs[k].add_inner_near(from_terminal, inner_id, new_terminal_id, first_inner, group_inner);
        proof {
            assert(tabs_view(self.windows@[w as int].tabs@) =~= old(self)@[w as int].tabs.update(
                k as int,
                self.windows@[w as int].tabs@[k as int]@,
            ));
            assert(self@ =~= spec_add_inner_tab_near(
                old(self)@,
                window_id,
                tab_id,
                from_terminal,
                inner_id,
                new_terminal_id,
                first_inner,
                group_inner,
            ));
        }
        let res = Some((inner_id, new_terminal_id));
        proof {
            assert(res.unwrap().0 == inner_id && res.unwrap().1 == new_terminal_id);
            assert(self@ =~= spec_add_inner_tab_near(
                old(self)@,
                window_id,
                tab_id,
                from_terminal,
                res.unwrap().0,
                res.unwrap().1,
                first_inner,
                group_inner,
            ));
        }
        res
    }

    /// Move terminal `moving` next to terminal `target` in window `window_id`
    /// (see `spec_move_to_split`); returns whether it was placed there.
    pub fn move_terminal_to_split(
        &mut self,
        window_id: WindowId,
        moving: TerminalId,
        target: TerminalId,
        orientation: SplitOrientation,
    ) -> (r: bool)
        ensures
            (final(self)@, r) == spec_move_to_split(old(self)@, window_id, moving, target, orientation),
            final(self).keybindings == old(self).keybindings,
    {
        let w = match window_position(&self.windows, window_id) {
            Some(w) => w,
            None => return false,
        };
        let ti = match tab_position_holding(&self.windows[w].tabs, target) {
            Some(i) => i,
            None => return false,
        };
        let removed = remove_terminal_from_tabs(&mut self.windows[w].tabs, moving, false);
        proof {
            lemma_strip_from_tabs_len(old(self)@[w as int].tabs, moving, false);
        }
        if !removed {
            proof {
                assert(self@ =~= spec_move_to_split(old(self)@, window_id, moving, target, orientation).0);
            }
            return false;
        }
        let ghost mid = self.windows@[w as int].tabs@;
        proof {
            assert(tabs_view(mid)[ti as int] == mid[ti as int]@);
        }
        let replaced = self.windows[w].tabs[ti].root.replace_leaf_with_split_existing(target, orientation, moving);
        let ghost split = self.windows@[w as int].tabs@[ti as int]@;
        proof {
            assert(split == with_tab_root(
                tabs_view(mid)[ti as int],
                apply_edit(EditOp::SplitAt { target, orientation, new_terminal: moving }, tabs_view(mid)[ti as int].root),
            ));
        }
        if replaced {
            let _ = self.windows[w].tabs[ti].set_focus_terminal(moving);
        }
        proof {
            assert(tabs_view(self.windows@[w as int].tabs@) =~= tabs_view(mid).update(
                ti as int,
                self.windows@[w as int].tabs@[ti as int]@,
            ));
            if !replaced {
                assert(tabs_view(self.windows@[w as int].tabs@) =~= tabs_view(mid));
            }
            assert(self@ =~= spec_move_to_split(old(self)@, window_id, moving, target, orientation).0);
        }
        replaced
    }

    /// Move terminal `terminal_id` of window `window_id` into a new tab of
    /// its own, which becomes active (see `spec_move_to_new_tab`); returns the
    /// new tab's id.
    pub fn move_terminal_to_new_tab(&mut self, window_id: WindowId, terminal_id: TerminalId) -> (r: Option<TabId>)
        ensures
            match r {
                Some(id) => (final(self)@, true) == spec_move_to_new_tab(old(self)@, window_id, terminal_id, id),
                None => forall|id: TabId| (final(self)@, false) == #[trigger] spec_move_to_new_tab(old(self)@, window_id, terminal_id, id),
            },
            final(self).keybindings == old(self).keybindings,
    {
        let w = match window_position(&self.windows, window_id) {
            Some(w) => w,
            None => return None,
        };
        let removed = remove_terminal_from_tabs(&mut self.windows[w].tabs, terminal_id, true);
        proof {
            lemma_strip_from_tabs_len(old(self)@[w as int].tabs, terminal_id, true);
        }
        if !removed {
            proof {
                assert forall|id: TabId| (self@, false) == #[trigger] spec_move_to_new_tab(old(self)@, window_id, terminal_id, id) by {
                    assert(self@ =~= spec_move_to_new_tab(old(self)@, window_id, terminal_id, id).0);
                }
            }
            return None;
        }
        let ghost mid = self.windows@[w as int].tabs@;
        let tab = TabModel {
            id: TabId(fresh_uuid()),
            root: new_terminal_leaf(terminal_id),
            focus: terminal_id,
            title: default_title(),
            title_flexible: true,
            dynamic_title: String::new(),
        };
        let id = tab.id;
        let ghost tv = tab@;
        self.windows[w].tabs.push(tab);
        self.windows[w].active_tab = self.windows[w].tabs.len() - 1;
        proof {
            assert(tv == moved_tab(id, terminal_id));
            assert(tabs_view(self.windows@[w as int].tabs@) =~= tabs_view(mid).push(tv));
            assert(self@ =~= spec_move_to_new_tab(old(self)@, window_id, terminal_id, id).0);
        }
        Some(id)
    }

    /// Move terminal `terminal_id` into a new window of one tab (see
    /// `spec_move_to_new_window`); returns the new window's id.
    pub fn move_terminal_to_new_window(&mut self, terminal_id: TerminalId) -> (r: Option<WindowId>)
        ensures
            match r {
                Some(id) => (final(self)@, true) == spec_move_to_new_window(
                    old(self)@,
                    terminal_id,
                    id,
                    final(self)@.last().tabs[0].id,
                ),
                None => forall|id: WindowId, tab: TabId|
                    (final(self)@, false) == #[trigger] spec_move_to_new_window(old(self)@, terminal_id, id, tab),
            },
            final(self).keybindings == old(self).keybindings,
    {
        let removed = remove_terminal_from_windows(&mut self.windows, terminal_id);
        if !removed {
            proof {
                assert forall|id: WindowId, tab: TabId|
                    (self@, false) == #[trigger] spec_move_to_new_window(old(self)@, terminal_id, id, tab) by {
                    assert(self@ =~= spec_move_to_new_window(old(self)@, terminal_id, id, tab).0);
                }
            }
            return None;
        }
        let ghost mid = self@;
        let id = WindowId(fresh_uuid());
        let tab = TabModel {
            id: TabId(fresh_uuid()),
            root: new_terminal_leaf(terminal_id),
            focus: terminal_id,
            title: default_title(),
            title_flexible: true,
            dynamic_title: String::new(),
        };
        let ghost tv = tab@;
        let mut tabs = Vec::new();
        tabs.push(tab);
        let window = WindowModel { id, title: String::from_str("Terminator"), tabs, active_tab: 0 };
        proof {
            assert(tabs_view(window.tabs@) =~= seq![tv]);
            assert(tv == moved_tab(tv.id, terminal_id));
        }
        self.windows.push(window);
        proof {
            assert(self@ =~= mid.push(window@));
            assert(self@ =~= spec_move_to_new_window(old(self)@, terminal_id, id, self@.last().tabs[0].id).0);
        }
        Some(id)
    }

    /// Move terminal `moving` out of its tab in window `window_id` into a new
    /// inner tab of the group that has inner tab `target_inner` in tab
    /// `tab_id` (see `spec_move_to_new_inner_tab`); returns whether it was
    /// placed there.
    pub fn move_terminal_to_new_inner_tab(
        &mut self,
        window_id: WindowId,
        tab_id: TabId,
        target_inner: InnerTabId,
        moving: TerminalId,
    ) -> (r: bool)
        ensures
            exists|new_inner: InnerTabId|
                #[trigger] spec_move_to_new_inner_tab(old(self)@, window_id, tab_id, target_inner, moving, new_inner) == (
                final(self)@,
                r,
            ),
            final(self).keybindings == old(self).keybindings,
    {
        let new_inner = InnerTabId(fresh_uuid());
        let r = self.move_terminal_to_new_inner_tab_with_id(window_id, tab_id, target_inner, moving, new_inner);
        proof {
            assert(spec_move_to_new_inner_tab(old(self)@, window_id, tab_id, target_inner, moving, new_inner) == (self@, r));
        }
        r
    }

    /// `move_terminal_to_new_inner_tab`, the new inner tab's id given.
    pub(crate) fn move_terminal_to_new_inner_tab_with_id(
        &mut self,
        window_id: WindowId,
        tab_id: TabId,
        target_inner: InnerTabId,
        moving: TerminalId,
        new_inner: InnerTabId,
    ) -> (r: bool)
        ensures
            (final(self)@, r) == spec_move_to_new_inner_tab(old(self)@, window_id, tab_id, target_inner, moving, new_inner),
            final(self).keybindings == old(self).keybindings,
    {
        let w = match window_position(&self.windows, window_id) {
            Some(w) => w,
            None => return false,
        };
        let k = match tab_position(&self.windows[w].tabs, tab_id) {
            Some(k) => k,
            None => return false,
        };
        let removed = remove_terminal_from_tabs(&mut self.windows[w].tabs, moving, true);
        proof {
            lemma_strip_from_tabs_len(old(self)@[w as int].tabs, moving, true);
        }
        if !removed {
            proof {
                assert(self@ =~= spec_move_to_new_inner_tab(old(self)@, window_id, tab_id, target_inner, moving, new_inner).0);
            }
            return false;
        }
        let ghost mid = self.windows@[w as int].tabs@;
        proof {
            assert(tabs_view(mid)[k as int] == mid[k as int]@);
        }
        let placed = self.windows[w].tabs[k].root.add_existing_terminal_with_inner_id(target_inner, moving, new_inner);
        if placed {
            self.windows[w].tabs[k].focus = moving;
        }
        proof {
            assert(tabs_view(self.windows@[w as int].tabs@) =~= tabs_view(mid).update(
                k as int,
                self.windows@[w as int].tabs@[k as int]@,
            ));
            if !placed {
                assert(tabs_view(self.windows@[w as int].tabs@) =~= tabs_view(mid));
            }
            assert(self@ =~= spec_move_to_new_inner_tab(old(self)@, window_id, tab_id, target_inner, moving, new_inner).0);
        }
        placed
    }

    /// Where a new tab asked for in tab `tab_id` goes: the terminal an inner
    /// tab starts from, or none for a new top-level tab (see
    /// `spec_contextual_source`).
    pub fn contextual_new_tab_source(
        &self,
        window_id: WindowId,
        tab_id: TabId,
        focused: Option<TerminalId>,
    ) -> (r: Option<TerminalId>)
        ensures
            r == spec_contextual_source(self@, window_id, tab_id, focused),
    {
        let w = window_position(&self.windows, window_id)?;
        let k = tab_position(&self.windows[w].tabs, tab_id)?;
        proof {
            assert(tabs_view(self.windows@[w as int].tabs@)[k as int] == self.windows@[w as int].tabs@[k as int]@);
        }
        self.windows[w].tabs[k].inner_tab_source(focused)
    }

    /// Whether the workspace is well formed (see `workspace_wf`).
    #[verifier::loop_isolation(false)]
    pub fn is_well_formed(&self) -> (r: bool)
        ensures
            r == workspace_wf(self@),
    {
        let mut w: usize = 0;
        while w < self.windows.len()
            invariant
                w <= self.windows@.len(),
                forall|x: int| 0 <= x < w ==> window_wf(#[trigger] self@[x]),
            decreases self.windows@.len() - w,
        {
            let win = &self.windows[w];
            proof {
                assert(self@[w as int] == win@);
            }
            if win.active_tab >= win.tabs.len() {
                proof { assert(!window_wf(self@[w as int])); }
                return false;
            }
            let mut k: usize = 0;
            while k < win.tabs.len()
                invariant
                    k <= win.tabs@.len(),
                    win@ == self@[w as int],
                    forall|j: int| 0 <= j < k ==> layout_wf(#[trigger] win@.tabs[j].root),
                decreases win.tabs@.len() - k,
            {
                proof {
                    assert(win@.tabs[k as int] == win.tabs@[k as int]@);
                }
                if !win.tabs[k].root.is_well_formed() {
                    proof { assert(!layout_wf(win@.tabs[k as int].root)); }
                    return false;
                }
                k += 1;
            }
            w += 1;
        }
        true
    }

    /// Set the dynamic title of tab `tab_id`.
    pub fn update_tab_dynamic_title(&mut self, window_id: WindowId, tab_id: TabId, title: &str)
        ensures
            final(self)@ == spec_update_dynamic_title(old(self)@, window_id, tab_id, title@),
            final(self).keybindings == old(self).keybindings,
    {
        if let Some(w) = window_position(&self.windows, window_id) {
            if let Some(k) = tab_position(&self.windows[w].tabs, tab_id) {
                self.windows[w].tabs[k].dynamic_title = String::from_str(title);
                proof {
                    assert(tabs_view(self.windows@[w as int].tabs@) =~= old(self)@[w as int].tabs.update(
                        k as int,
                        self.windows@[w as int].tabs@[k as int]@,
                    ));
                    assert(self@ =~= spec_update_dynamic_title(old(self)@, window_id, tab_id, title@));
                }
            }
        }
    }
}

} // verus!
