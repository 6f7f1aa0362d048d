//! The workspace data model: windows, top-level tabs, and the layout tree
//! of each tab (terminal leaves, splits, and groups of inner tabs).
use vstd::prelude::*;
pub use crate::ids::{InnerTabId, NodeId, TabId, TerminalId, WindowId};
pub use crate::keybindings::{ActionId, KeybindingMap};
use crate::ids::fresh_uuid;
use crate::view::{inner_view, inners_view, lemma_inners_view, LayoutV, InnerV};
use crate::layout_spec::{
    apply_edit, contains, contains_inners, edit, find_inner_id, first_inner_containing, first_terminal, is_empty,
    remove, strip, single_inner, terminals, EditOp,
};
use crate::layout_lemmas::{lemma_contains_inners, lemma_edit_at_leaf, lemma_first_inner_containing, lemma_inner_index};
use crate::workspace_spec::{
    ensure_group, inner_tab_source, single_tab, tab_add_inner, tab_add_inner_near, tab_active_terminal, tab_close_inner, tab_rename_inner, tab_set_focus, tab_wf, TabV, WindowV,
};
use crate::node::{default_title, first_inner_holding, inner_position, new_single_inner};

verus! {

#[derive(Clone, Copy, Debug, PartialEq, Eq, Hash, Structural)]
pub enum SplitOrientation {
    Horizontal,
    Vertical,
}

#[derive(Clone, Copy, Debug, PartialEq, Eq, Hash, Structural)]
pub enum FocusDirection {
    Left,
    Right,
    Up,
    Down,
}

#[derive(Debug)]
pub struct TerminalLeaf {
    pub node_id: NodeId,
    pub terminal_id: TerminalId,
    pub title: String,
    pub title_flexible: bool,
}

#[derive(Debug)]
pub struct SplitNode {
    pub node_id: NodeId,
    pub orientation: SplitOrientation,
    pub children: Vec<LayoutNode>,
}

#[derive(Debug)]
pub struct TabGroup {
    pub node_id: NodeId,
    pub tabs: Vec<InnerTab>,
    pub active: usize,
}

#[derive(Debug)]
pub struct InnerTab {
    pub id: InnerTabId,
    pub title: String,
    pub root: LayoutNode,
    pub focus: TerminalId,
    pub flexible: bool,
}

#[derive(Debug)]
pub enum LayoutNode {
    Terminal(TerminalLeaf),
    Split(SplitNode),
    Tabs(TabGroup),
}

#[derive(Debug)]
pub struct WorkspaceModel {
    pub windows: Vec<WindowModel>,
    pub keybindings: KeybindingMap,
}

#[derive(Debug)]
pub struct WindowModel {
    pub id: WindowId,
    pub title: String,
    pub tabs: Vec<TabModel>,
    pub active_tab: usize,
}

#[derive(Debug)]
pub struct TabModel {
    pub id: TabId,
    pub root: LayoutNode,
    pub focus: TerminalId,
    pub title: String,
    pub title_flexible: bool,
    pub dynamic_title: String,
}

impl View for TabModel {
    type V = TabV;

    open spec fn view(&self) -> TabV {
        TabV {
            id: self.id,
            root: self.root@,
            focus: self.focus,
            title: self.title@,
            title_flexible: self.title_flexible,
            dynamic_title: self.dynamic_title@,
        }
    }
}

impl View for WindowModel {
    type V = WindowV;

    open spec fn view(&self) -> WindowV {
        WindowV {
            id: self.id,
            title: self.title@,
            tabs: tabs_view(self.tabs@),
            active_tab: self.active_tab as int,
        }
    }
}

impl View for WorkspaceModel {
    type V = Seq<WindowV>;

    /// The windows; the key bindings have a view of their own.
    open spec fn view(&self) -> Seq<WindowV> {
        windows_view(self.windows@)
    }
}

pub open spec fn tabs_view(s: Seq<TabModel>) -> Seq<TabV> {
    s.map_values(|t: TabModel| t@)
}

pub open spec fn windows_view(s: Seq<WindowModel>) -> Seq<WindowV> {
    s.map_values(|w: WindowModel| w@)
}

impl TabModel {
    /// A new tab with one new terminal; also the terminal's id.
    pub(crate) fn single_terminal_tab() -> (r: (Self, TerminalId))
        ensures
            r.0@ == single_tab(r.0.id, r.1),
    {
        let terminal_id = TerminalId(fresh_uuid());
        let node_id = NodeId(fresh_uuid());
        let leaf = TerminalLeaf { node_id, terminal_id, title: default_title(), title_flexible: true };
        let tab = TabModel {
            id: TabId(fresh_uuid()),
            root: LayoutNode::Terminal(leaf),
            focus: terminal_id,
            title: default_title(),
            title_flexible: true,
            dynamic_title: default_title(),
        };
        (tab, terminal_id)
    }

    /// The inner tab that holds the tab's focus terminal (see `find_inner_id`).
    pub fn active_inner_id(&self) -> (r: Option<InnerTabId>)
        ensures
            r == find_inner_id(self@.root, self.focus),
    {
        self.root.find_inner_id_for_terminal(self.focus)
    }

    /// The title shown for the tab: the dynamic one while the title is flexible.
    pub fn display_title(&self) -> (r: String)
        ensures
            r@ == if self.title_flexible { self.dynamic_title@ } else { self.title@ },
    {
        if self.title_flexible {
            self.dynamic_title.clone()
        } else {
            self.title.clone()
        }
    }

    pub fn is_title_flexible(&self) -> (r: bool)
        ensures
            r == self.title_flexible,
    {
        self.title_flexible
    }

    /// The terminal that has the focus (see `tab_active_terminal`).
    pub fn active_terminal(&self) -> (r: TerminalId)
        requires
            tab_wf(self@),
        ensures
            r == tab_active_terminal(self@),
    {
        match &self.root {
            LayoutNode::Tabs(group) => {
                proof {
                    lemma_inners_view(group.tabs@);
                    assert(inners_view(group.tabs@)[group.active as int] == inner_view(group.tabs@[group.active as int]));
                }
                group.tabs[group.active].focus
            },
            _ => self.focus,
        }
    }

    /// Append the tab's terminals, depth first, to `out`.
    pub fn collect_terminal_ids(&self, out: &mut Vec<TerminalId>)
        ensures
            final(out)@ == old(out)@ + terminals(self@.root),
    {
        self.root.collect_terminal_ids(out)
    }

    pub(crate) fn first_terminal_id(&self) -> (r: Option<TerminalId>)
        ensures
            r == first_terminal(self@.root),
    {
        self.root.first_terminal_id()
    }

    /// Focus terminal `id` (see `tab_set_focus`); returns whether the focus
    /// changed.
    pub(crate) fn set_focus_terminal(&mut self, id: TerminalId) -> (r: bool)
        ensures
            (final(self)@, r) == tab_set_focus(old(self)@, id),
    {
        if !self.contains_terminal(id) {
            return false;
        }
        match &mut self.root {
            LayoutNode::Tabs(group) => {
                let ghost old_tabs = group.tabs@;
                proof {
                    lemma_inners_view(old_tabs);
                    lemma_contains_inners(inners_view(old_tabs), id);
                    lemma_first_inner_containing(inners_view(old_tabs), id);
                }
                match first_inner_holding(&group.tabs, id) {
                    Some(idx) => {
                        let mut changed = false;
                        if group.active != idx {
                            group.active = idx;
                            changed = true;
                        }
                        proof {
                            assert(inners_view(old_tabs)[idx as int] == inner_view(old_tabs[idx as int]));
                        }
                        if group.tabs[idx].focus != id {
                            group.tabs[idx].focus = id;
                            changed = true;
                        }
                        proof {
                            lemma_inners_view(group.tabs@);
                            assert(inners_view(group.tabs@) =~= inners_view(old_tabs).update(
                                idx as int,
                                InnerV { focus: id, ..inners_view(old_tabs)[idx as int] },
                            ));
                        }
                        changed
                    },
                    None => false,
                }
            },
            _ => {
                if self.focus != id {
                    self.focus = id;
                    true
                } else {
                    false
                }
            },
        }
    }

    pub(crate) fn contains_terminal(&self, id: TerminalId) -> (r: bool)
        ensures
            r == contains(self@.root, id),
    {
        self.root.contains_terminal(id)
    }

    pub(crate) fn replace_leaf_with_split(
        &mut self,
        target: TerminalId,
        orientation: SplitOrientation,
        new_terminal_id: TerminalId,
    ) -> (r: bool)
        ensures
            r == (edit(EditOp::SplitAt { target, orientation, new_terminal: new_terminal_id }, old(self)@.root) is Some),
            final(self)@ == (TabV {
                root: apply_edit(EditOp::SplitAt { target, orientation, new_terminal: new_terminal_id }, old(self)@.root),
                ..old(self)@
            }),
    {
        self.root.replace_leaf_with_split(target, orientation, new_terminal_id)
    }

    pub(crate) fn remove_terminal(&mut self, target: TerminalId) -> (r: bool)
        ensures
            r == contains(old(self)@.root, target),
            final(self)@ == (TabV { root: remove(old(self)@.root, target), ..old(self)@ }),
    {
        self.root.remove_terminal(target)
    }

    /// Remove terminal `target` from the tree (see `strip`).
    pub(crate) fn strip_terminal(&mut self, target: TerminalId, collapse: bool) -> (r: bool)
        ensures
            r == contains(old(self)@.root, target),
            final(self)@ == (TabV { root: strip(old(self)@.root, target, collapse), ..old(self)@ }),
    {
        self.root.strip_terminal(target, collapse)
    }

    pub(crate) fn is_empty(&self) -> (r: bool)
        ensures
            r == is_empty(self@.root),
    {
        self.root.is_empty()
    }

    /// Make the tree a group, wrapping a tree that is not one into the single
    /// inner tab `inner_id` of a new group (see `ensure_group`).
    pub(crate) fn ensure_tabs_group(&mut self, inner_id: InnerTabId)
        ensures
            final(self)@ == ensure_group(old(self)@, inner_id),
    {
        if let LayoutNode::Tabs(_) = self.root {
            return;
        }
        let mut old_root = LayoutNode::Tabs(TabGroup { node_id: NodeId(fresh_uuid()), tabs: Vec::new(), active: 0 });
        std::mem::swap(&mut self.root, &mut old_root);
        let first_terminal = match old_root.first_terminal_id() {
            Some(t) => t,
            None => self.focus,
        };
        let inner = InnerTab {
            id: inner_id,
            title: self.title.clone(),
            root: old_root,
            focus: first_terminal,
            flexible: self.title_flexible,
        };
        if let LayoutNode::Tabs(group) = &mut self.root {
            group.tabs.push(inner);
            group.active = 0;
            proof {
                lemma_inners_view(group.tabs@);
                assert(inners_view(group.tabs@) =~= seq![inner_view(inner)]);
            }
        }
    }

    /// Add inner tab `inner_id` with the new terminal `new_terminal_id` next
    /// to `from_terminal` (see `tab_add_inner`), the ids of the inner tabs
    /// that may be made on the way given.
    pub(crate) fn add_inner(
        &mut self,
        from_terminal: TerminalId,
        inner_id: InnerTabId,
        new_terminal_id: TerminalId,
        first_inner: InnerTabId,
        group_inner: InnerTabId,
    )
        ensures
            final(self)@ == tab_add_inner(old(self)@, from_terminal, inner_id, new_terminal_id, first_inner, group_inner),
    {
        proof {
            lemma_edit_at_leaf(
                EditOp::Wrap { target: from_terminal, new_inner: inner_id, new_terminal: new_terminal_id, first_inner },
                self@.root,
            );
        }
        if self.root.wrap_terminal_with_inner_ids(from_terminal, inner_id, new_terminal_id, first_inner) {
            self.focus = new_terminal_id;
            self.set_focus_terminal(new_terminal_id);
            return;
        }
        if self.root.add_inner_tab_to_group_containing_terminal(from_terminal, inner_id, new_terminal_id) {
            self.focus = new_terminal_id;
            self.set_focus_terminal(new_terminal_id);
            return;
        }
        self.ensure_tabs_group(group_inner);
        if let LayoutNode::Tabs(group) = &mut self.root {
            let ghost old_tabs = group.tabs@;
            let inner = new_single_inner(inner_id, new_terminal_id);
            group.tabs.push(inner);
            group.active = group.tabs.len() - 1;
            proof {
                lemma_inners_view(old_tabs);
                lemma_inners_view(group.tabs@);
                assert(inners_view(group.tabs@) =~= inners_view(old_tabs).push(single_inner(inner_id, new_terminal_id)));
            }
        }
        self.focus = new_terminal_id;
        self.set_focus_terminal(new_terminal_id);
    }

    /// Add inner tab `inner_id` with the new terminal `new_terminal_id` to
    /// the group closest to `from_terminal` (see `tab_add_inner_near`), the
    /// ids of the inner tabs that may be made on the way given.
    pub(crate) fn add_inner_near(
        &mut self,
        from_terminal: TerminalId,
        inner_id: InnerTabId,
        new_terminal_id: TerminalId,
        first_inner: InnerTabId,
        group_inner: InnerTabId,
    )
        ensures
            final(self)@ == tab_add_inner_near(old(self)@, from_terminal, inner_id, new_terminal_id, first_inner, group_inner),
    {
        if self.root.add_inner_tab_to_group_containing_terminal(from_terminal, inner_id, new_terminal_id) {
            self.focus = new_terminal_id;
            self.set_focus_terminal(new_terminal_id);
            return;
        }
        self.add_inner(from_terminal, inner_id, new_terminal_id, first_inner, group_inner);
    }

    /// The terminal a new inner tab asked for in this tab starts from, or
    /// none for a new top-level tab (see `inner_tab_source`).
    pub fn inner_tab_source(&self, focused: Option<TerminalId>) -> (r: Option<TerminalId>)
        ensures
            r == inner_tab_source(self@, focused),
    {
        match focused {
            Some(t) => {
                if self.root.find_inner_id_for_terminal(t).is_some() {
                    Some(t)
                } else {
                    self.root.group_focus()
                }
            },
            None => self.root.group_focus(),
        }
    }

    /// Rename inner tab `inner_id`, wherever it is in the tree (see
    /// `tab_rename_inner`); returns whether the tree has it.
    pub(crate) fn rename_inner(&mut self, inner_id: InnerTabId, title: String, flexible: bool) -> (r: bool)
        ensures
            (final(self)@, r) == tab_rename_inner(old(self)@, inner_id, title@, flexible),
    {
        self.root.rename_inner_tab_by_id_recursive(inner_id, &title, flexible)
    }

    /// Close inner tab `inner_id` (see `tab_close_inner`); returns whether it
    /// was found and whether the tab is to go.
    pub(crate) fn close_inner(&mut self, inner_id: InnerTabId) -> (r: (bool, bool))
        ensures
            (final(self)@, r.0, r.1) == tab_close_inner(old(self)@, inner_id),
    {
        let mut changed = false;
        let mut gone = false;
        match self.root.as_tab_group_mut() {
            Some(group) => {
                let ghost old_tabs = group.tabs@;
                proof { lemma_inners_view(old_tabs); lemma_inner_index(inners_view(old_tabs), inner_id); }
                if let Some(idx) = inner_position(&group.tabs, inner_id) {
                    group.tabs.remove(idx);
                    changed = true;
                    proof {
                        lemma_inners_view(group.tabs@);
                        assert(inners_view(group.tabs@) =~= inners_view(old_tabs).remove(idx as int));
                    }
                    if group.tabs.len() == 0 {
                        gone = true;
                    } else {
                        if idx == 0 {
                            group.active = 0;
                        } else if idx - 1 < group.tabs.len() {
                            group.active = idx - 1;
                        } else {
                            group.active = group.tabs.len() - 1;
                        }
                        proof {
                            assert(inners_view(group.tabs@)[group.active as int] == inner_view(group.tabs@[group.active as int]));
                        }
                        if let Some(first) = group.tabs[group.active].root.first_terminal_id() {
                            self.focus = first;
                        }
                    }
                }
            },
            None => {},
        }
        if !changed {
            if self.root.remove_inner_tab_by_id_recursive(inner_id) {
                changed = true;
                if !self.contains_terminal(self.focus) {
                    if let Some(first) = self.first_terminal_id() {
                        self.focus = first;
                    }
                }
            }
        }
        (changed, gone)
    }
}

impl TabModel {
    /// A copy of the tab (see `LayoutNode::deep_clone`).
    pub fn deep_clone(&self) -> (r: TabModel)
        ensures
            r@ == self@,
    {
        TabModel {
            id: self.id,
            root: self.root.deep_clone(),
            focus: self.focus,
            title: self.title.clone(),
            title_flexible: self.title_flexible,
            dynamic_title: self.dynamic_title.clone(),
        }
    }
}

impl WindowModel {
    /// A copy of the window (see `LayoutNode::deep_clone`).
    pub fn deep_clone(&self) -> (r: WindowModel)
        ensures
            r@ == self@,
    {
        let mut tabs: Vec<TabModel> = Vec::new();
        let mut i: usize = 0;
        while i < self.tabs.len()
            invariant
                i <= self.tabs@.len(),
                tabs@.len() == i,
                forall|j: int| 0 <= j < i ==> (#[trigger] tabs@[j])@ == self.tabs@[j]@,
            decreases self.tabs@.len() - i,
        {
            tabs.push(self.tabs[i].deep_clone());
            i += 1;
        }
        proof {
            assert(tabs_view(tabs@) =~= tabs_view(self.tabs@));
        }
        WindowModel { id: self.id, title: self.title.clone(), tabs, active_tab: self.active_tab }
    }

    /// The active tab.
    pub fn active_tab(&self) -> (r: &TabModel)
        requires
            self.active_tab < self.tabs@.len(),
        ensures
            *r == self.tabs@[self.active_tab as int],
    {
        &self.tabs[self.active_tab]
    }
}

impl InnerTab {
    pub fn display_title(&self) -> (r: String)
        ensures
            r@ == self.title@,
    {
        self.title.clone()
    }

    pub fn is_title_flexible(&self) -> (r: bool)
        ensures
            r == self.flexible,
    {
        self.flexible
    }
}

} // verus!
