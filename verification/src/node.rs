//! Operations on the layout tree of a tab.
use vstd::prelude::*;
use crate::ids::fresh_uuid;
use crate::model::{InnerTab, InnerTabId, LayoutNode, NodeId, SplitNode, SplitOrientation, TabGroup, TerminalId, TerminalLeaf};
use crate::view::{InnerV, layout_view, lemma_inners_view, lemma_nodes_view, inner_view, inners_view, nodes_view};
use crate::layout_spec::{find_inner, group_focus, layout_wf, with_root, contains_nodes, 
    adjacent, find_inner_id, first_containing, terminals, terminals_inners, terminals_nodes, remove, strip, strip_nodes, drop_empty, remove_nodes, empty_split,
    apply_edit, contains, contains_inners, edit, edit_target, first_inner_containing, first_terminal, inner_index,
    is_empty, last_terminal, single_inner, terminal_leaf, EditOp,
};
use crate::layout_lemmas::{inner_at, lemma_find_inner_inners, lemma_find_inner_nodes, lemma_group_focus_nodes, 
    inner_id_at, lemma_find_inner_id_inners, lemma_find_inner_id_nodes, lemma_first_containing, lemma_terminals_inners_take,
    lemma_terminals_nodes_take, lemma_contains_nodes_take, lemma_strip_nodes, lemma_drop_empty_take, lemma_strip_not_leaf_of,
    lemma_contains_inners, lemma_contains_nodes, lemma_edit_at_leaf, lemma_edit_inners, lemma_edit_nodes,
    lemma_first_inner_containing, lemma_first_terminal_nodes, lemma_inner_index, lemma_last_terminal_nodes,
};

verus! {

/// The default title of a new terminal or inner tab.
pub(crate) fn default_title() -> (s: String)
    ensures
        s@ == "Terminal"@,
{
    String::from_str("Terminal")
}

/// A new leaf for terminal `t` with the default title.
pub(crate) fn new_terminal_leaf(t: TerminalId) -> (n: LayoutNode)
    ensures
        n@ == terminal_leaf(t),
{
    LayoutNode::Terminal(TerminalLeaf {
        node_id: NodeId(fresh_uuid()),
        terminal_id: t,
        title: default_title(),
        title_flexible: true,
    })
}

/// A new inner tab `id` that holds one new leaf of terminal `t`.
pub(crate) fn new_single_inner(id: InnerTabId, t: TerminalId) -> (i: InnerTab)
    ensures
        i@ == single_inner(id, t),
{
    InnerTab { id, title: default_title(), root: new_terminal_leaf(t), focus: t, flexible: true }
}

/// Whether one of the inner tabs holds terminal `t`.
pub(crate) fn inners_contain(tabs: &Vec<InnerTab>, t: TerminalId) -> (r: bool)
    ensures
        r == contains_inners(inners_view(tabs@), t),
{
    proof {
        lemma_inners_view(tabs@);
        lemma_first_inner_containing(inners_view(tabs@), t);
    }
    match first_inner_holding(tabs, t) {
        Some(_) => true,
        None => false,
    }
}

/// The index of the first inner tab that holds terminal `t`.
#[verifier::loop_isolation(false)]
pub(crate) fn first_inner_holding(tabs: &Vec<InnerTab>, t: TerminalId) -> (r: Option<usize>)
    ensures
        first_inner_containing(inners_view(tabs@), t) == match r {
            Some(k) => k as int,
            None => -1,
        },
{
    proof {
        lemma_inners_view(tabs@);
        lemma_first_inner_containing(inners_view(tabs@), t);
    }
    let mut k: usize = 0;
    while k < tabs.len()
        invariant
            k <= tabs@.len(),
            inners_view(tabs@).len() == tabs@.len(),
            forall|j: int| 0 <= j < k ==> !contains((#[trigger] inners_view(tabs@)[j]).root, t),
        decreases tabs@.len() - k,
    {
        proof { assert(inners_view(tabs@)[k as int] == inner_view(tabs@[k as int])); }
        if tabs[k].root.contains_terminal(t) {
            proof { lemma_contains_inners(inners_view(tabs@), t); }
            return Some(k);
        }
        k += 1;
    }
    None
}

/// The index of the first inner tab with id `id`.
#[verifier::loop_isolation(false)]
pub(crate) fn inner_position(tabs: &Vec<InnerTab>, id: InnerTabId) -> (r: Option<usize>)
    ensures
        inner_index(inners_view(tabs@), id) == match r {
            Some(k) => k as int,
            None => -1,
        },
{
    proof {
        lemma_inners_view(tabs@);
        lemma_inner_index(inners_view(tabs@), id);
    }
    let mut k: usize = 0;
    while k < tabs.len()
        invariant
            k <= tabs@.len(),
            inners_view(tabs@).len() == tabs@.len(),
            forall|j: int| 0 <= j < k ==> (#[trigger] inners_view(tabs@)[j]).id != id,
        decreases tabs@.len() - k,
    {
        proof { assert(inners_view(tabs@)[k as int] == inner_view(tabs@[k as int])); }
        if tabs[k].id == id {
            return Some(k);
        }
        k += 1;
    }
    None
}

impl LayoutNode {
    /// The first terminal in depth-first order, following the active inner
    /// tab of each group.
    #[verifier::loop_isolation(false)]
    pub fn first_terminal_id(&self) -> (r: Option<TerminalId>)
        ensures
            r == first_terminal(self@),
        decreases self,
    {
        match self {
            LayoutNode::Terminal(leaf) => Some(leaf.terminal_id),
            LayoutNode::Split(split) => {
                proof { lemma_nodes_view(split.children@); }
                let mut i: usize = 0;
                while i < split.children.len()
                    invariant
                        i <= split.children@.len(),
                        forall|j: int| 0 <= j < i ==> first_terminal(#[trigger] nodes_view(split.children@)[j]) is None,
                    decreases split.children@.len() - i,
                {
                    proof { assert(decreases_to!(*self => split.children@[i as int])); }
                    match split.children[i].first_terminal_id() {
                        Some(t) => {
                            proof { lemma_first_terminal_nodes(nodes_view(split.children@), i as int); }
                            return Some(t);
                        },
                        None => {},
                    }
                    i += 1;
                }
                proof { lemma_first_terminal_nodes(nodes_view(split.children@), i as int); }
                None
            },
            LayoutNode::Tabs(group) => {
                proof { lemma_inners_view(group.tabs@); }
                if group.active < group.tabs.len() {
                    proof { assert(decreases_to!(*self => group.tabs@[group.active as int].root)); }
                    group.tabs[group.active].root.first_terminal_id()
                } else {
                    None
                }
            },
        }
    }

    /// The last terminal in depth-first order, following the active inner
    /// tab of each group.
    #[verifier::loop_isolation(false)]
    pub fn last_terminal_id(&self) -> (r: Option<TerminalId>)
        ensures
            r == last_terminal(self@),
        decreases self,
    {
        match self {
            LayoutNode::Terminal(leaf) => Some(leaf.terminal_id),
            LayoutNode::Split(split) => {
                proof { lemma_nodes_view(split.children@); }
                let mut i: usize = split.children.len();
                while i > 0
                    invariant
                        i <= split.children@.len(),
                        forall|j: int| i <= j < split.children@.len() ==> last_terminal(#[trigger] nodes_view(split.children@)[j]) is None,
                    decreases i,
                {
                    proof { assert(decreases_to!(*self => split.children@[i - 1])); }
                    match split.children[i - 1].last_terminal_id() {
                        Some(t) => {
                            proof { lemma_last_terminal_nodes(nodes_view(split.children@), i - 1); }
                            return Some(t);
                        },
                        None => {},
                    }
                    i -= 1;
                }
                proof { lemma_last_terminal_nodes(nodes_view(split.children@), -1); }
                None
            },
            LayoutNode::Tabs(group) => {
                proof { lemma_inners_view(group.tabs@); }
                if group.active < group.tabs.len() {
                    proof { assert(decreases_to!(*self => group.tabs@[group.active as int].root)); }
                    group.tabs[group.active].root.last_terminal_id()
                } else {
                    None
                }
            },
        }
    }

    /// Whether the tree holds terminal `id` (in any inner tab).
    #[verifier::loop_isolation(false)]
    pub fn contains_terminal(&self, id: TerminalId) -> (r: bool)
        ensures
            r == contains(self@, id),
        decreases self,
    {
        match self {
            LayoutNode::Terminal(leaf) => {
                leaf.terminal_id == id
            },
            LayoutNode::Split(split) => {
                proof {
                    lemma_nodes_view(split.children@);
                    lemma_contains_nodes(nodes_view(split.children@), id);
                }
                let mut i: usize = 0;
                while i < split.children.len()
                    invariant
                        i <= split.children@.len(),
                        forall|j: int| 0 <= j < i ==> !contains(#[trigger] layout_view(split.children@[j]), id),
                    decreases split.children@.len() - i,
                {
                    proof { assert(decreases_to!(*self => split.children@[i as int])); }
                    if split.children[i].contains_terminal(id) {
                        proof { assert(contains(nodes_view(split.children@)[i as int], id)); }
                        return true;
                    }
                    i += 1;
                }
                proof {
                    assert forall|j: int| 0 <= j < split.children@.len() implies !contains(#[trigger] nodes_view(split.children@)[j], id) by {}
                }
                false
            },
            LayoutNode::Tabs(group) => {
                proof {
                    lemma_inners_view(group.tabs@);
                    lemma_contains_inners(inners_view(group.tabs@), id);
                }
                let mut i: usize = 0;
                while i < group.tabs.len()
                    invariant
                        i <= group.tabs@.len(),
                        forall|j: int| 0 <= j < i ==> !contains(#[trigger] layout_view(group.tabs@[j].root), id),
                    decreases group.tabs@.len() - i,
                {
                    proof { assert(decreases_to!(*self => group.tabs@[i as int].root)); }
                    if group.tabs[i].root.contains_terminal(id) {
                        proof { assert(contains(inners_view(group.tabs@)[i as int].root, id)); }
                        return true;
                    }
                    i += 1;
                }
                proof {
                    assert forall|j: int| 0 <= j < group.tabs@.len() implies !contains((#[trigger] inners_view(group.tabs@)[j]).root, id) by {
                        assert(inners_view(group.tabs@)[j] == inner_view(group.tabs@[j]));
                        assert(!contains(layout_view(group.tabs@[j].root), id));
                    }
                }
                false
            },
        }
    }

    /// Replace the first leaf of `target` (depth first) by a split of it and a
    /// new leaf of `new_terminal_id`; a group on the way makes the inner tab
    /// of the leaf its active one. Returns whether a leaf was found.
    #[verifier::loop_isolation(false)]
    pub fn replace_leaf_with_split(
        &mut self,
        target: TerminalId,
        orientation: SplitOrientation,
        new_terminal_id: TerminalId,
    ) -> (r: bool)
        ensures
            r == (edit(EditOp::SplitAt { target, orientation, new_terminal: new_terminal_id }, old(self)@) is Some),
            final(self)@ == apply_edit(EditOp::SplitAt { target, orientation, new_terminal: new_terminal_id }, old(self)@),
        decreases old(self)@,
    {
        let ghost op = EditOp::SplitAt { target, orientation, new_terminal: new_terminal_id };
        match self {
            LayoutNode::Terminal(leaf) => {
                if leaf.terminal_id == target {
                    let mut existing = LayoutNode::Split(SplitNode {
                        node_id: NodeId(fresh_uuid()),
                        orientation,
                        children: Vec::new(),
                    });
                    std::mem::swap(self, &mut existing);
                    let new_leaf = new_terminal_leaf(new_terminal_id);
                    match self {
                        LayoutNode::Split(split_node) => {
                            split_node.children.push(existing);
                            split_node.children.push(new_leaf);
                            proof {
                                lemma_nodes_view(split_node.children@);
                                assert(nodes_view(split_node.children@) =~= seq![old(self)@, terminal_leaf(new_terminal_id)]);
                            }
                            true
                        },
                        _ => false,
                    }
                } else {
                    false
                }
            },
            LayoutNode::Split(split) => {
                let ghost old_children = split.children@;
                let ghost old_split = *split;
                proof { lemma_nodes_view(old_children); }
                let mut i: usize = 0;
                while i < split.children.len()
                    invariant
                        i <= split.children@.len(),
                        split.children@.len() == old_children.len(),
                        split.orientation == old_split.orientation,
                        split.node_id == old_split.node_id,
                        nodes_view(split.children@) == nodes_view(old_children),
                        forall|j: int| 0 <= j < i ==> edit(op, #[trigger] nodes_view(old_children)[j]) is None,
                    decreases split.children@.len() - i,
                {
                    proof {
                        lemma_nodes_view(split.children@);
                        assert(decreases_to!(old(self)@ => nodes_view(old_children)[i as int]));
                    }
                    if split.children[i].replace_leaf_with_split(target, orientation, new_terminal_id) {
                        proof {
                            lemma_nodes_view(split.children@);
                            lemma_edit_nodes(op, nodes_view(old_children), i as int);
                            assert(nodes_view(split.children@) =~= nodes_view(old_children).update(
                                i as int,
                                layout_view(split.children@[i as int]),
                            ));
                        }
                        return true;
                    }
                    proof {
                        lemma_nodes_view(split.children@);
                        assert(nodes_view(split.children@) =~= nodes_view(old_children));
                    }
                    i += 1;
                }
                proof { lemma_edit_nodes(op, nodes_view(old_children), i as int); }
                false
            },
            LayoutNode::Tabs(group) => {
                let ghost old_tabs = group.tabs@;
                let ghost old_group = *group;
                proof { lemma_inners_view(old_tabs); }
                let mut idx: usize = 0;
                while idx < group.tabs.len()
                    invariant
                        idx <= group.tabs@.len(),
                        group.tabs@.len() == old_tabs.len(),
                        group.active == old_group.active,
                        group.node_id == old_group.node_id,
                        inners_view(group.tabs@) == inners_view(old_tabs),
                        forall|j: int| 0 <= j < idx ==> edit(op, (#[trigger] inners_view(old_tabs)[j]).root) is None,
                    decreases group.tabs@.len() - idx,
                {
                    proof {
                        lemma_inners_view(group.tabs@);
                        assert(decreases_to!(old(self)@ => inners_view(old_tabs)[idx as int].root));
                    }
                    if group.tabs[idx].root.replace_leaf_with_split(target, orientation, new_terminal_id) {
                        group.active = idx;
                        proof {
                            lemma_inners_view(group.tabs@);
                            lemma_edit_inners(op, inners_view(old_tabs), idx as int);
                            assert(inners_view(group.tabs@) =~= inners_view(old_tabs).update(
                                idx as int,
                                inner_view(group.tabs@[idx as int]),
                            ));
                        }
                        return true;
                    }
                    proof {
                        lemma_inners_view(group.tabs@);
                        assert(inners_view(group.tabs@) =~= inners_view(old_tabs));
                    }
                    idx += 1;
                }
                proof { lemma_edit_inners(op, inners_view(old_tabs), idx as int); }
                false
            },
        }
    }

    /// Replace the first leaf of `target` (depth first) by a split of it and a
    /// new leaf of the existing terminal `moving_terminal_id`; a group on the
    /// way makes the inner tab of the leaf its active one. Returns whether a
    /// leaf was found.
    #[verifier::loop_isolation(false)]
    pub fn replace_leaf_with_split_existing(
        &mut self,
        target: TerminalId,
        orientation: SplitOrientation,
        moving_terminal_id: TerminalId,
    ) -> (r: bool)
        ensures
            r == (edit(EditOp::SplitAt { target, orientation, new_terminal: moving_terminal_id }, old(self)@) is Some),
            final(self)@ == apply_edit(EditOp::SplitAt { target, orientation, new_terminal: moving_terminal_id }, old(self)@),
        decreases old(self)@,
    {
        let ghost op = EditOp::SplitAt { target, orientation, new_terminal: moving_terminal_id };
        match self {
            LayoutNode::Terminal(leaf) => {
                if leaf.terminal_id == target {
                    let mut existing = LayoutNode::Split(SplitNode {
                        node_id: NodeId(fresh_uuid()),
                        orientation,
                        children: Vec::new(),
                    });
                    std::mem::swap(self, &mut existing);
                    let new_leaf = new_terminal_leaf(moving_terminal_id);
                    match self {
                        LayoutNode::Split(split_node) => {
                            split_node.children.push(existing);
                            split_node.children.push(new_leaf);
                            proof {
                                lemma_nodes_view(split_node.children@);
                                assert(nodes_view(split_node.children@) =~= seq![old(self)@, terminal_leaf(moving_terminal_id)]);
                            }
                            true
                        },
                        _ => false,
                    }
                } else {
                    false
                }
            },
            LayoutNode::Split(split) => {
                let ghost old_children = split.children@;
                let ghost old_split = *split;
                proof { lemma_nodes_view(old_children); }
                let mut i: usize = 0;
                while i < split.children.len()
                    invariant
                        i <= split.children@.len(),
                        split.children@.len() == old_children.len(),
                        split.orientation == old_split.orientation,
                        split.node_id == old_split.node_id,
                        nodes_view(split.children@) == nodes_view(old_children),
                        forall|j: int| 0 <= j < i ==> edit(op, #[trigger] nodes_view(old_children)[j]) is None,
                    decreases split.children@.len() - i,
                {
                    proof {
                        lemma_nodes_view(split.children@);
                        assert(decreases_to!(old(self)@ => nodes_view(old_children)[i as int]));
                    }
                    if split.children[i].replace_leaf_with_split_existing(target, orientation, moving_terminal_id) {
                        proof {
                            lemma_nodes_view(split.children@);
                            lemma_edit_nodes(op, nodes_view(old_children), i as int);
                            assert(nodes_view(split.children@) =~= nodes_view(old_children).update(
                                i as int,
                                layout_view(split.children@[i as int]),
                            ));
                        }
                        return true;
                    }
                    proof {
                        lemma_nodes_view(split.children@);
                        assert(nodes_view(split.children@) =~= nodes_view(old_children));
                    }
                    i += 1;
                }
                proof { lemma_edit_nodes(op, nodes_view(old_children), i as int); }
                false
            },
            LayoutNode::Tabs(group) => {
                let ghost old_tabs = group.tabs@;
                let ghost old_group = *group;
                proof { lemma_inners_view(old_tabs); }
                let mut idx: usize = 0;
                while idx < group.tabs.len()
                    invariant
                        idx <= group.tabs@.len(),
                        group.tabs@.len() == old_tabs.len(),
                        group.active == old_group.active,
                        group.node_id == old_group.node_id,
                        inners_view(group.tabs@) == inners_view(old_tabs),
                        forall|j: int| 0 <= j < idx ==> edit(op, (#[trigger] inners_view(old_tabs)[j]).root) is None,
                    decreases group.tabs@.len() - idx,
                {
                    proof {
                        lemma_inners_view(group.tabs@);
                        assert(decreases_to!(old(self)@ => inners_view(old_tabs)[idx as int].root));
                    }
                    if group.tabs[idx].root.replace_leaf_with_split_existing(target, orientation, moving_terminal_id) {
                        group.active = idx;
                        proof {
                            lemma_inners_view(group.tabs@);
                            lemma_edit_inners(op, inners_view(old_tabs), idx as int);
                            assert(inners_view(group.tabs@) =~= inners_view(old_tabs).update(
                                idx as int,
                                inner_view(group.tabs@[idx as int]),
                            ));
                        }
                        return true;
                    }
                    proof {
                        lemma_inners_view(group.tabs@);
                        assert(inners_view(group.tabs@) =~= inners_view(old_tabs));
                    }
                    idx += 1;
                }
                proof { lemma_edit_inners(op, inners_view(old_tabs), idx as int); }
                false
            },
        }
    }

    /// Wrap the first leaf of `target` (depth first) into a group of two
    /// inner tabs: the leaf, as inner tab `first_inner_id`, and a new leaf of
    /// `new_terminal_id`, as inner tab `new_inner_id`, which becomes active.
    /// Returns whether a leaf was found.
    #[verifier::loop_isolation(false)]
    pub(crate) fn wrap_terminal_with_inner_ids(
        &mut self,
        target: TerminalId,
        new_inner_id: InnerTabId,
        new_terminal_id: TerminalId,
        first_inner_id: InnerTabId,
    ) -> (r: bool)
        ensures
            r == (edit(EditOp::Wrap { target, new_inner: new_inner_id, new_terminal: new_terminal_id, first_inner: first_inner_id }, old(self)@) is Some),
            final(self)@ == apply_edit(EditOp::Wrap { target, new_inner: new_inner_id, new_terminal: new_terminal_id, first_inner: first_inner_id }, old(self)@),
        decreases old(self)@,
    {
        let ghost op = EditOp::Wrap { target, new_inner: new_inner_id, new_terminal: new_terminal_id, first_inner: first_inner_id };
        match self {
            LayoutNode::Terminal(leaf) => {
                if leaf.terminal_id == target {
                    let orig_term = leaf.terminal_id;
                    let mut existing = LayoutNode::Tabs(TabGroup {
                        node_id: NodeId(fresh_uuid()),
                        tabs: Vec::new(),
                        active: 0,
                    });
                    std::mem::swap(self, &mut existing);
                    match self {
                        LayoutNode::Tabs(group) => {
                            let first_terminal = match existing.first_terminal_id() {
                                Some(t) => t,
                                None => orig_term,
                            };
                            let first_inner = InnerTab {
                                id: first_inner_id,
                                title: default_title(),
                                root: existing,
                                focus: first_terminal,
                                flexible: true,
                            };
                            let second_inner = new_single_inner(new_inner_id, new_terminal_id);
                            group.tabs.push(first_inner);
                            group.tabs.push(second_inner);
                            group.active = 1;
                            proof {
                                lemma_inners_view(group.tabs@);
                                assert(inners_view(group.tabs@) =~= seq![
                                    InnerV { id: first_inner_id, title: "Terminal"@, root: old(self)@, focus: target, flexible: true },
                                    single_inner(new_inner_id, new_terminal_id),
                                ]);
                            }
                            true
                        },
                        _ => false,
                    }
                } else {
                    false
                }
            },
            LayoutNode::Split(split) => {
                let ghost old_children = split.children@;
                let ghost old_split = *split;
                proof { lemma_nodes_view(old_children); }
                let mut i: usize = 0;
                while i < split.children.len()
                    invariant
                        i <= split.children@.len(),
                        split.children@.len() == old_children.len(),
                        split.orientation == old_split.orientation,
                        split.node_id == old_split.node_id,
                        nodes_view(split.children@) == nodes_view(old_children),
                        forall|j: int| 0 <= j < i ==> edit(op, #[trigger] nodes_view(old_children)[j]) is None,
                    decreases split.children@.len() - i,
                {
                    proof {
                        lemma_nodes_view(split.children@);
                        assert(decreases_to!(old(self)@ => nodes_view(old_children)[i as int]));
                    }
                    if split.children[i].wrap_terminal_with_inner_ids(target, new_inner_id, new_terminal_id, first_inner_id) {
                        proof {
                            lemma_nodes_view(split.children@);
                            lemma_edit_nodes(op, nodes_view(old_children), i as int);
                            assert(nodes_view(split.children@) =~= nodes_view(old_children).update(
                                i as int,
                                layout_view(split.children@[i as int]),
                            ));
                        }
                        return true;
                    }
                    proof {
                        lemma_nodes_view(split.children@);
                        assert(nodes_view(split.children@) =~= nodes_view(old_children));
                    }
                    i += 1;
                }
                proof { lemma_edit_nodes(op, nodes_view(old_children), i as int); }
                false
            },
            LayoutNode::Tabs(group) => {
                let ghost old_tabs = group.tabs@;
                let ghost old_group = *group;
                proof { lemma_inners_view(old_tabs); }
                let mut idx: usize = 0;
                while idx < group.tabs.len()
                    invariant
                        idx <= group.tabs@.len(),
                        group.tabs@.len() == old_tabs.len(),
                        group.active == old_group.active,
                        group.node_id == old_group.node_id,
                        inners_view(group.tabs@) == inners_view(old_tabs),
                        forall|j: int| 0 <= j < idx ==> edit(op, (#[trigger] inners_view(old_tabs)[j]).root) is None,
                    decreases group.tabs@.len() - idx,
                {
                    proof {
                        lemma_inners_view(group.tabs@);
                        assert(decreases_to!(old(self)@ => inners_view(old_tabs)[idx as int].root));
                        lemma_edit_at_leaf(op, inners_view(old_tabs)[idx as int].root);
                    }
                    if group.tabs[idx].root.contains_terminal(target)
                        && group.tabs[idx].root.wrap_terminal_with_inner_ids(target, new_inner_id, new_terminal_id, first_inner_id) {
                        proof {
                            lemma_inners_view(group.tabs@);
                            lemma_edit_inners(op, inners_view(old_tabs), idx as int);
                            assert(inners_view(group.tabs@) =~= inners_view(old_tabs).update(
                                idx as int,
                                inner_view(group.tabs@[idx as int]),
                            ));
                        }
                        return true;
                    }
                    proof {
                        lemma_inners_view(group.tabs@);
                        assert(inners_view(group.tabs@) =~= inners_view(old_tabs));
                    }
                    idx += 1;
                }
                proof { lemma_edit_inners(op, inners_view(old_tabs), idx as int); }
                false
            },
        }
    }

    /// Append a new inner tab `new_inner_id`, holding a new leaf of
    /// `new_terminal_id`, to the innermost group one of whose inner tabs
    /// holds `target` (the first, depth first, where several do), and make it
    /// active in that group. Returns whether such a group was found.
    #[verifier::loop_isolation(false)]
    pub fn add_inner_tab_to_group_containing_terminal(
        &mut self,
        target: TerminalId,
        new_inner_id: InnerTabId,
        new_terminal_id: TerminalId,
    ) -> (r: bool)
        ensures
            r == (edit(EditOp::AddToGroup { target, new_inner: new_inner_id, new_terminal: new_terminal_id }, old(self)@) is Some),
            final(self)@ == apply_edit(EditOp::AddToGroup { target, new_inner: new_inner_id, new_terminal: new_terminal_id }, old(self)@),
        decreases old(self)@,
    {
        let ghost op = EditOp::AddToGroup { target, new_inner: new_inner_id, new_terminal: new_terminal_id };
        match self {
            LayoutNode::Terminal(_) => false,
            LayoutNode::Split(split) => {
                let ghost old_children = split.children@;
                let ghost old_split = *split;
                proof { lemma_nodes_view(old_children); }
                let mut i: usize = 0;
                while i < split.children.len()
                    invariant
                        i <= split.children@.len(),
                        split.children@.len() == old_children.len(),
                        split.orientation == old_split.orientation,
                        split.node_id == old_split.node_id,
                        nodes_view(split.children@) == nodes_view(old_children),
                        forall|j: int| 0 <= j < i ==> edit(op, #[trigger] nodes_view(old_children)[j]) is None,
                    decreases split.children@.len() - i,
                {
                    proof {
                        lemma_nodes_view(split.children@);
                        assert(decreases_to!(old(self)@ => nodes_view(old_children)[i as int]));
                    }
                    if split.children[i].add_inner_tab_to_group_containing_terminal(target, new_inner_id, new_terminal_id) {
                        proof {
                            lemma_nodes_view(split.children@);
                            lemma_edit_nodes(op, nodes_view(old_children), i as int);
                            assert(nodes_view(split.children@) =~= nodes_view(old_children).update(
                                i as int,
                                layout_view(split.children@[i as int]),
                            ));
                        }
                        return true;
                    }
                    proof {
                        lemma_nodes_view(split.children@);
                        assert(nodes_view(split.children@) =~= nodes_view(old_children));
                    }
                    i += 1;
                }
                proof { lemma_edit_nodes(op, nodes_view(old_children), i as int); }
                false
            },
            LayoutNode::Tabs(group) => {
                let ghost old_tabs = group.tabs@;
                let ghost old_group = *group;
                proof { lemma_inners_view(old_tabs); }
                let mut idx: usize = 0;
                while idx < group.tabs.len()
                    invariant
                        idx <= group.tabs@.len(),
                        group.tabs@.len() == old_tabs.len(),
                        group.active == old_group.active,
                        group.node_id == old_group.node_id,
                        inners_view(group.tabs@) == inners_view(old_tabs),
                        forall|j: int| 0 <= j < idx ==> edit(op, (#[trigger] inners_view(old_tabs)[j]).root) is None,
                    decreases group.tabs@.len() - idx,
                {
                    proof {
                        lemma_inners_view(group.tabs@);
                        assert(decreases_to!(old(self)@ => inners_view(old_tabs)[idx as int].root));
                    }
                    if group.tabs[idx].root.add_inner_tab_to_group_containing_terminal(target, new_inner_id, new_terminal_id) {
                        proof {
                            lemma_inners_view(group.tabs@);
                            lemma_edit_inners(op, inners_view(old_tabs), idx as int);
                            assert(inners_view(group.tabs@) =~= inners_view(old_tabs).update(
                                idx as int,
                                inner_view(group.tabs@[idx as int]),
                            ));
                        }
                        return true;
                    }
                    proof {
                        lemma_inners_view(group.tabs@);
                        assert(inners_view(group.tabs@) =~= inners_view(old_tabs));
                    }
                    idx += 1;
                }
                proof { lemma_edit_inners(op, inners_view(old_tabs), idx as int); }
                if inners_contain(&group.tabs, target) {
                    let ghost mid = group.tabs@;
                    proof { lemma_inners_view(mid); }
                    group.tabs.push(new_single_inner(new_inner_id, new_terminal_id));
                    group.active = group.tabs.len() - 1;
                    proof {
                        lemma_inners_view(group.tabs@);
                        assert(inners_view(group.tabs@) =~= inners_view(mid).push(single_inner(new_inner_id, new_terminal_id)));
                    }
                    return true;
                }
                false
            },
        }
    }

    /// Remove the inner tab `inner_id` from the first group (depth first)
    /// that holds it; a group left with no inner tab becomes an empty split.
    /// Returns whether the inner tab was found.
    #[verifier::loop_isolation(false)]
    pub fn remove_inner_tab_by_id_recursive(
        &mut self,
        inner_id: InnerTabId,
    ) -> (r: bool)
        ensures
            r == (edit(EditOp::RemoveInner { inner: inner_id }, old(self)@) is Some),
            final(self)@ == apply_edit(EditOp::RemoveInner { inner: inner_id }, old(self)@),
        decreases old(self)@,
    {
        let ghost op = EditOp::RemoveInner { inner: inner_id };
        match self {
            LayoutNode::Terminal(_) => false,
            LayoutNode::Split(split) => {
                let ghost old_children = split.children@;
                let ghost old_split = *split;
                proof { lemma_nodes_view(old_children); }
                let mut i: usize = 0;
                while i < split.children.len()
                    invariant
                        i <= split.children@.len(),
                        split.children@.len() == old_children.len(),
                        split.orientation == old_split.orientation,
                        split.node_id == old_split.node_id,
                        nodes_view(split.children@) == nodes_view(old_children),
                        forall|j: int| 0 <= j < i ==> edit(op, #[trigger] nodes_view(old_children)[j]) is None,
                    decreases split.children@.len() - i,
                {
                    proof {
                        lemma_nodes_view(split.children@);
                        assert(decreases_to!(old(self)@ => nodes_view(old_children)[i as int]));
                    }
                    if split.children[i].remove_inner_tab_by_id_recursive(inner_id) {
                        proof {
                            lemma_nodes_view(split.children@);
                            lemma_edit_nodes(op, nodes_view(old_children), i as int);
                            assert(nodes_view(split.children@) =~= nodes_view(old_children).update(
                                i as int,
                                layout_view(split.children@[i as int]),
                            ));
                        }
                        return true;
                    }
                    proof {
                        lemma_nodes_view(split.children@);
                        assert(nodes_view(split.children@) =~= nodes_view(old_children));
                    }
                    i += 1;
                }
                proof { lemma_edit_nodes(op, nodes_view(old_children), i as int); }
                false
            },
            LayoutNode::Tabs(group) => {
                let ghost old_tabs = group.tabs@;
                let ghost old_group = *group;
                proof { lemma_inners_view(old_tabs); }
                proof { lemma_inner_index(inners_view(old_tabs), inner_id); }
                match inner_position(&group.tabs, inner_id) {
                    Some(idx) => {
                        group.tabs.remove(idx);
                        proof {
                            lemma_inners_view(group.tabs@);
                            assert(inners_view(group.tabs@) =~= inners_view(old_tabs).remove(idx as int));
                        }
                        if group.tabs.len() == 0 {
                            *self = LayoutNode::Split(SplitNode {
                                node_id: NodeId(fresh_uuid()),
                                orientation: SplitOrientation::Vertical,
                                children: Vec::new(),
                            });
                            proof { lemma_nodes_view(Seq::<LayoutNode>::empty()); }
                        } else {
                            if idx == 0 {
                                group.active = 0;
                            } else if idx - 1 < group.tabs.len() {
                                group.active = idx - 1;
                            } else {
                                group.active = group.tabs.len() - 1;
                            }
                        }
                        return true;
                    },
                    None => {},
                }
                let mut idx: usize = 0;
                while idx < group.tabs.len()
                    invariant
                        idx <= group.tabs@.len(),
                        group.tabs@.len() == old_tabs.len(),
                        group.active == old_group.active,
                        group.node_id == old_group.node_id,
                        inners_view(group.tabs@) == inners_view(old_tabs),
                        forall|j: int| 0 <= j < idx ==> edit(op, (#[trigger] inners_view(old_tabs)[j]).root) is None,
                    decreases group.tabs@.len() - idx,
                {
                    proof {
                        lemma_inners_view(group.tabs@);
                        assert(decreases_to!(old(self)@ => inners_view(old_tabs)[idx as int].root));
                    }
                    if group.tabs[idx].root.remove_inner_tab_by_id_recursive(inner_id) {
                        proof {
                            lemma_inners_view(group.tabs@);
                            lemma_edit_inners(op, inners_view(old_tabs), idx as int);
                            assert(inners_view(group.tabs@) =~= inners_view(old_tabs).update(
                                idx as int,
                                inner_view(group.tabs@[idx as int]),
                            ));
                        }
                        return true;
                    }
                    proof {
                        lemma_inners_view(group.tabs@);
                        assert(inners_view(group.tabs@) =~= inners_view(old_tabs));
                    }
                    idx += 1;
                }
                proof { lemma_edit_inners(op, inners_view(old_tabs), idx as int); }
                false
            },
        }
    }

    /// Give the inner tab `inner_id` of the first group (depth first) that
    /// has it the title `title`, fixed or following its terminal as
    /// `flexible` says. Returns whether the inner tab was found.
    #[verifier::loop_isolation(false)]
    pub fn rename_inner_tab_by_id_recursive(
        &mut self,
        inner_id: InnerTabId,
        title: &String,
        flexible: bool,
    ) -> (r: bool)
        ensures
            r == (edit(EditOp::RenameInner { inner: inner_id, title: title@, flexible }, old(self)@) is Some),
            final(self)@ == apply_edit(EditOp::RenameInner { inner: inner_id, title: title@, flexible }, old(self)@),
        decreases old(self)@,
    {
        let ghost op = EditOp::RenameInner { inner: inner_id, title: title@, flexible };
        match self {
            LayoutNode::Terminal(_) => false,
            LayoutNode::Split(split) => {
                let ghost old_children = split.children@;
                let ghost old_split = *split;
                proof { lemma_nodes_view(old_children); }
                let mut i: usize = 0;
                while i < split.children.len()
                    invariant
                        i <= split.children@.len(),
                        split.children@.len() == old_children.len(),
                        split.orientation == old_split.orientation,
                        split.node_id == old_split.node_id,
                        nodes_view(split.children@) == nodes_view(old_children),
                        forall|j: int| 0 <= j < i ==> edit(op, #[trigger] nodes_view(old_children)[j]) is None,
                    decreases split.children@.len() - i,
                {
                    proof {
                        lemma_nodes_view(split.children@);
                        assert(decreases_to!(old(self)@ => nodes_view(old_children)[i as int]));
                    }
                    if split.children[i].rename_inner_tab_by_id_recursive(inner_id, title, flexible) {
                        proof {
                            lemma_nodes_view(split.children@);
                            lemma_edit_nodes(op, nodes_view(old_children), i as int);
                            assert(nodes_view(split.children@) =~= nodes_view(old_children).update(
                                i as int,
                                layout_view(split.children@[i as int]),
                            ));
                        }
                        return true;
                    }
                    proof {
                        lemma_nodes_view(split.children@);
                        assert(nodes_view(split.children@) =~= nodes_view(old_children));
                    }
                    i += 1;
                }
                proof { lemma_edit_nodes(op, nodes_view(old_children), i as int); }
                false
            },
            LayoutNode::Tabs(group) => {
                let ghost old_tabs = group.tabs@;
                let ghost old_group = *group;
                proof { lemma_inners_view(old_tabs); }
                proof { lemma_inner_index(inners_view(old_tabs), inner_id); }
                match inner_position(&group.tabs, inner_id) {
                    Some(idx) => {
                        proof { assert(inners_view(old_tabs)[idx as int] == inner_view(old_tabs[idx as int])); }
                        group.tabs[idx].title = title.clone();
                        group.tabs[idx].flexible = flexible;
                        proof {
                            lemma_inners_view(group.tabs@);
                            assert(inners_view(group.tabs@) =~= inners_view(old_tabs).update(
                                idx as int,
                                InnerV { title: title@, flexible, ..inners_view(old_tabs)[idx as int] },
                            ));
                        }
                        return true;
                    },
                    None => {},
                }
                let mut idx: usize = 0;
                while idx < group.tabs.len()
                    invariant
                        idx <= group.tabs@.len(),
                        group.tabs@.len() == old_tabs.len(),
                        group.active == old_group.active,
                        group.node_id == old_group.node_id,
                        inners_view(group.tabs@) == inners_view(old_tabs),
                        forall|j: int| 0 <= j < idx ==> edit(op, (#[trigger] inners_view(old_tabs)[j]).root) is None,
                    decreases group.tabs@.len() - idx,
                {
                    proof {
                        lemma_inners_view(group.tabs@);
                        assert(decreases_to!(old(self)@ => inners_view(old_tabs)[idx as int].root));
                    }
                    if group.tabs[idx].root.rename_inner_tab_by_id_recursive(inner_id, title, flexible) {
                        proof {
                            lemma_inners_view(group.tabs@);
                            lemma_edit_inners(op, inners_view(old_tabs), idx as int);
                            assert(inners_view(group.tabs@) =~= inners_view(old_tabs).update(
                                idx as int,
                                inner_view(group.tabs@[idx as int]),
                            ));
                        }
                        return true;
                    }
                    proof {
                        lemma_inners_view(group.tabs@);
                        assert(inners_view(group.tabs@) =~= inners_view(old_tabs));
                    }
                    idx += 1;
                }
                proof { lemma_edit_inners(op, inners_view(old_tabs), idx as int); }
                false
            },
        }
    }

    /// Append a new inner tab `new_inner_id`, holding a leaf of the existing
    /// terminal `moving_terminal_id`, to the first group (depth first) that
    /// has an inner tab `target_inner`, and make it active. Returns whether
    /// such a group was found.
    #[verifier::loop_isolation(false)]
    pub(crate) fn add_existing_terminal_with_inner_id(
        &mut self,
        target_inner: InnerTabId,
        moving_terminal_id: TerminalId,
        new_inner_id: InnerTabId,
    ) -> (r: bool)
        ensures
            r == (edit(EditOp::AddExisting { target_inner, moving: moving_terminal_id, new_inner: new_inner_id }, old(self)@) is Some),
            final(self)@ == apply_edit(EditOp::AddExisting { target_inner, moving: moving_terminal_id, new_inner: new_inner_id }, old(self)@),
        decreases old(self)@,
    {
        let ghost op = EditOp::AddExisting { target_inner, moving: moving_terminal_id, new_inner: new_inner_id };
        match self {
            LayoutNode::Terminal(_) => false,
            LayoutNode::Split(split) => {
                let ghost old_children = split.children@;
                let ghost old_split = *split;
                proof { lemma_nodes_view(old_children); }
                let mut i: usize = 0;
                while i < split.children.len()
                    invariant
                        i <= split.children@.len(),
                        split.children@.len() == old_children.len(),
                        split.orientation == old_split.orientation,
                        split.node_id == old_split.node_id,
                        nodes_view(split.children@) == nodes_view(old_children),
                        forall|j: int| 0 <= j < i ==> edit(op, #[trigger] nodes_view(old_children)[j]) is None,
                    decreases split.children@.len() - i,
                {
                    proof {
                        lemma_nodes_view(split.children@);
                        assert(decreases_to!(old(self)@ => nodes_view(old_children)[i as int]));
                    }
                    if split.children[i].add_existing_terminal_with_inner_id(target_inner, moving_terminal_id, new_inner_id) {
                        proof {
                            lemma_nodes_view(split.children@);
                            lemma_edit_nodes(op, nodes_view(old_children), i as int);
                            assert(nodes_view(split.children@) =~= nodes_view(old_children).update(
                                i as int,
                                layout_view(split.children@[i as int]),
                            ));
                        }
                        return true;
                    }
                    proof {
                        lemma_nodes_view(split.children@);
                        assert(nodes_view(split.children@) =~= nodes_view(old_children));
                    }
                    i += 1;
                }
                proof { lemma_edit_nodes(op, nodes_view(old_children), i as int); }
                false
            },
            LayoutNode::Tabs(group) => {
                let ghost old_tabs = group.tabs@;
                let ghost old_group = *group;
                proof { lemma_inners_view(old_tabs); }
                proof { lemma_inner_index(inners_view(old_tabs), target_inner); }
                if inner_position(&group.tabs, target_inner).is_some() {
                    group.tabs.push(new_single_inner(new_inner_id, moving_terminal_id));
                    group.active = group.tabs.len() - 1;
                    proof {
                        lemma_inners_view(group.tabs@);
                        assert(inners_view(group.tabs@) =~= inners_view(old_tabs).push(single_inner(new_inner_id, moving_terminal_id)));
                    }
                    return true;
                }
                let mut idx: usize = 0;
                while idx < group.tabs.len()
                    invariant
                        idx <= group.tabs@.len(),
                        group.tabs@.len() == old_tabs.len(),
                        group.active == old_group.active,
                        group.node_id == old_group.node_id,
                        inners_view(group.tabs@) == inners_view(old_tabs),
                        forall|j: int| 0 <= j < idx ==> edit(op, (#[trigger] inners_view(old_tabs)[j]).root) is None,
                    decreases group.tabs@.len() - idx,
                {
                    proof {
                        lemma_inners_view(group.tabs@);
                        assert(decreases_to!(old(self)@ => inners_view(old_tabs)[idx as int].root));
                    }
                    if group.tabs[idx].root.add_existing_terminal_with_inner_id(target_inner, moving_terminal_id, new_inner_id) {
                        proof {
                            lemma_inners_view(group.tabs@);
                            lemma_edit_inners(op, inners_view(old_tabs), idx as int);
                            assert(inners_view(group.tabs@) =~= inners_view(old_tabs).update(
                                idx as int,
                                inner_view(group.tabs@[idx as int]),
                            ));
                        }
                        return true;
                    }
                    proof {
                        lemma_inners_view(group.tabs@);
                        assert(inners_view(group.tabs@) =~= inners_view(old_tabs));
                    }
                    idx += 1;
                }
                proof { lemma_edit_inners(op, inners_view(old_tabs), idx as int); }
                false
            },
        }
    }

    /// The id of the inner tab that holds terminal `target` (see `find_inner_id`).
    #[verifier::loop_isolation(false)]
    pub fn find_inner_id_for_terminal(&self, target: TerminalId) -> (r: Option<InnerTabId>)
        ensures
            r == find_inner_id(self@, target),
        decreases self,
    {
        match self {
            LayoutNode::Terminal(_) => None,
            LayoutNode::Split(split) => {
                proof { lemma_nodes_view(split.children@); }
                let mut i: usize = 0;
                while i < split.children.len()
                    invariant
                        i <= split.children@.len(),
                        forall|j: int| 0 <= j < i ==> find_inner_id(#[trigger] nodes_view(split.children@)[j], target) is None,
                    decreases split.children@.len() - i,
                {
                    proof { assert(decreases_to!(*self => split.children@[i as int])); }
                    match split.children[i].find_inner_id_for_terminal(target) {
                        Some(id) => {
                            proof { lemma_find_inner_id_nodes(nodes_view(split.children@), target, i as int); }
                            return Some(id);
                        },
                        None => {},
                    }
                    i += 1;
                }
                proof { lemma_find_inner_id_nodes(nodes_view(split.children@), target, i as int); }
                None
            },
            LayoutNode::Tabs(group) => {
                proof { lemma_inners_view(group.tabs@); }
                let mut i: usize = 0;
                while i < group.tabs.len()
                    invariant
                        i <= group.tabs@.len(),
                        forall|j: int| 0 <= j < i ==> inner_id_at(#[trigger] inners_view(group.tabs@)[j], target) is None,
                    decreases group.tabs@.len() - i,
                {
                    proof {
                        assert(decreases_to!(*self => group.tabs@[i as int].root));
                        assert(inners_view(group.tabs@)[i as int] == inner_view(group.tabs@[i as int]));
                    }
                    if group.tabs[i].root.contains_terminal(target) {
                        proof { lemma_find_inner_id_inners(inners_view(group.tabs@), target, i as int); }
                        return Some(group.tabs[i].id);
                    }
                    match group.tabs[i].root.find_inner_id_for_terminal(target) {
                        Some(id) => {
                            proof { lemma_find_inner_id_inners(inners_view(group.tabs@), target, i as int); }
                            return Some(id);
                        },
                        None => {},
                    }
                    i += 1;
                }
                proof { lemma_find_inner_id_inners(inners_view(group.tabs@), target, i as int); }
                None
            },
        }
    }

    /// Append the terminals of the tree, in depth-first order and with all
    /// inner tabs, to `out`.
    #[verifier::loop_isolation(false)]
    pub fn collect_terminal_ids(&self, out: &mut Vec<TerminalId>)
        ensures
            final(out)@ == old(out)@ + terminals(self@),
        decreases self,
    {
        match self {
            LayoutNode::Terminal(leaf) => {
                out.push(leaf.terminal_id);
                proof { assert(final(out)@ =~= old(out)@ + seq![leaf.terminal_id]) }
            },
            LayoutNode::Split(split) => {
                proof { lemma_nodes_view(split.children@); }
                let mut i: usize = 0;
                while i < split.children.len()
                    invariant
                        i <= split.children@.len(),
                        out@ == old(out)@ + terminals_nodes(nodes_view(split.children@).take(i as int)),
                    decreases split.children@.len() - i,
                {
                    proof {
                        assert(decreases_to!(*self => split.children@[i as int]));
                        lemma_terminals_nodes_take(nodes_view(split.children@), i as int);
                    }
                    split.children[i].collect_terminal_ids(out);
                    i += 1;
                }
                proof { assert(nodes_view(split.children@).take(i as int) =~= nodes_view(split.children@)); }
            },
            LayoutNode::Tabs(group) => {
                proof { lemma_inners_view(group.tabs@); }
                let mut i: usize = 0;
                while i < group.tabs.len()
                    invariant
                        i <= group.tabs@.len(),
                        out@ == old(out)@ + terminals_inners(inners_view(group.tabs@).take(i as int)),
                    decreases group.tabs@.len() - i,
                {
                    proof {
                        assert(decreases_to!(*self => group.tabs@[i as int].root));
                        assert(inners_view(group.tabs@)[i as int] == inner_view(group.tabs@[i as int]));
                        lemma_terminals_inners_take(inners_view(group.tabs@), i as int);
                    }
                    group.tabs[i].root.collect_terminal_ids(out);
                    i += 1;
                }
                proof { assert(inners_view(group.tabs@).take(i as int) =~= inners_view(group.tabs@)); }
            },
        }
    }

    /// The neighbour of `target` in a direction (see `adjacent`).
    #[verifier::loop_isolation(false)]
    pub fn find_adjacent_terminal(
        &self,
        target: TerminalId,
        orientation: SplitOrientation,
        forward: bool,
    ) -> (r: Option<TerminalId>)
        ensures
            r == adjacent(self@, target, orientation, forward),
        decreases self,
    {
        match self {
            LayoutNode::Terminal(_) => None,
            LayoutNode::Split(split) => {
                proof {
                    lemma_nodes_view(split.children@);
                    lemma_first_containing(nodes_view(split.children@), target);
                }
                let mut index: usize = 0;
                while index < split.children.len()
                    invariant
                        index <= split.children@.len(),
                        forall|j: int| 0 <= j < index ==> !contains(#[trigger] nodes_view(split.children@)[j], target),
                    decreases split.children@.len() - index,
                {
                    proof { assert(decreases_to!(*self => split.children@[index as int])); }
                    if split.children[index].contains_terminal(target) {
                        proof {
                            assert(contains(nodes_view(split.children@)[index as int], target));
                            lemma_contains_nodes(nodes_view(split.children@), target);
                            assert(first_containing(nodes_view(split.children@), target) == index);
                        }
                        match split.children[index].find_adjacent_terminal(target, orientation, forward) {
                            Some(inner) => {
                                return Some(inner);
                            },
                            None => {},
                        }
                        if split.orientation == orientation {
                            if forward {
                                if index + 1 < split.children.len() {
                                    return split.children[index + 1].first_terminal_id();
                                }
                            } else if index > 0 {
                                return split.children[index - 1].last_terminal_id();
                            }
                        }
                        return None;
                    }
                    index += 1;
                }
                None
            },
            LayoutNode::Tabs(group) => {
                proof {
                    lemma_inners_view(group.tabs@);
                    lemma_first_inner_containing(inners_view(group.tabs@), target);
                }
                let mut i: usize = 0;
                while i < group.tabs.len()
                    invariant
                        i <= group.tabs@.len(),
                        forall|j: int| 0 <= j < i ==> !contains((#[trigger] inners_view(group.tabs@)[j]).root, target),
                    decreases group.tabs@.len() - i,
                {
                    proof {
                        assert(decreases_to!(*self => group.tabs@[i as int].root));
                        assert(inners_view(group.tabs@)[i as int] == inner_view(group.tabs@[i as int]));
                    }
                    if group.tabs[i].root.contains_terminal(target) {
                        proof {
                            lemma_contains_inners(inners_view(group.tabs@), target);
                            assert(first_inner_containing(inners_view(group.tabs@), target) == i);
                        }
                        return group.tabs[i].root.find_adjacent_terminal(target, orientation, forward);
                    }
                    i += 1;
                }
                None
            },
        }
    }

    /// Remove terminal `target` from the tree (see `remove`). Returns whether
    /// the tree held it.
    pub fn remove_terminal(&mut self, target: TerminalId) -> (r: bool)
        ensures
            r == contains(old(self)@, target),
            final(self)@ == remove(old(self)@, target),
    {
        self.strip_terminal(target, true)
    }

    /// Remove terminal `target` (see `strip`).
    #[verifier::loop_isolation(false)]
    pub(crate) fn strip_terminal(&mut self, target: TerminalId, collapse: bool) -> (r: bool)
        ensures
            r == contains(old(self)@, target),
            final(self)@ == strip(old(self)@, target, collapse),
        decreases old(self)@,
    {
        match self {
            LayoutNode::Terminal(leaf) => {
                if leaf.terminal_id == target {
                    *self = LayoutNode::Split(SplitNode {
                        node_id: NodeId(fresh_uuid()),
                        orientation: SplitOrientation::Vertical,
                        children: Vec::new(),
                    });
                    proof { lemma_nodes_view(Seq::<LayoutNode>::empty()); }
                    true
                } else {
                    false
                }
            },
            LayoutNode::Split(split) => {
                let ghost old_split = *split;
                let ghost ov = nodes_view(old_split.children@);
                let ghost rv = strip_nodes(ov, target, collapse);
                proof {
                    lemma_nodes_view(old_split.children@);
                    lemma_strip_nodes(ov, target, collapse);
                    lemma_contains_nodes(ov, target);
                }
                let mut removed_any = false;
                let mut i: usize = 0;
                while i < split.children.len()
                    invariant
                        i <= split.children@.len(),
                        split.children@.len() == ov.len(),
                        split.orientation == old_split.orientation,
                        split.node_id == old_split.node_id,
                        forall|j: int| 0 <= j < i ==> #[trigger] layout_view(split.children@[j]) == rv[j],
                        forall|j: int| i <= j < ov.len() ==> #[trigger] layout_view(split.children@[j]) == ov[j],
                        removed_any == contains_nodes(ov.take(i as int), target),
                    decreases split.children@.len() - i,
                {
                    proof {
                        lemma_contains_nodes_take(ov, target, i as int);
                        assert(decreases_to!(old(self)@ => ov[i as int]));
                    }
                    if split.children[i].strip_terminal(target, collapse) {
                        removed_any = true;
                    }
                    i += 1;
                }
                proof { assert(ov.take(i as int) =~= ov); }
                // Keep the children that are neither a leaf of `target` nor empty.
                let mut rest: Vec<LayoutNode> = Vec::new();
                std::mem::swap(&mut rest, &mut split.children);
                let ghost all = rest@;
                let mut kept: Vec<LayoutNode> = Vec::new();
                let mut m: usize = 0;
                while rest.len() > 0
                    invariant
                        m + rest@.len() == all.len(),
                        all.len() == rv.len(),
                        forall|j: int| 0 <= j < all.len() ==> #[trigger] layout_view(all[j]) == rv[j],
                        forall|j: int| 0 <= j < rest@.len() ==> #[trigger] rest@[j] == all[m + j],
                        nodes_view(kept@) == drop_empty(rv.take(m as int)),
                        split.orientation == old_split.orientation,
                        split.node_id == old_split.node_id,
                    decreases rest@.len(),
                {
                    let child = rest.remove(0);
                    proof {
                        assert(child == all[m as int]);
                        lemma_drop_empty_take(rv, m as int);
                        lemma_strip_not_leaf_of(ov[m as int], target, collapse);
                        lemma_nodes_view(kept@);
                    }
                    let is_target_leaf = match &child {
                        LayoutNode::Terminal(leaf) => leaf.terminal_id == target,
                        _ => false,
                    };
                    if !is_target_leaf && !child.is_empty() {
                        kept.push(child);
                        proof {
                            lemma_nodes_view(kept@);
                            assert(nodes_view(kept@) =~= drop_empty(rv.take(m as int)).push(rv[m as int]));
                        }
                    }
                    m += 1;
                    proof {
                        assert forall|j: int| 0 <= j < rest@.len() implies #[trigger] rest@[j] == all[m + j] by {}
                    }
                }
                proof {
                    assert(rv.take(m as int) =~= rv);
                    lemma_nodes_view(kept@);
                }
                split.children = kept;
                if collapse && split.children.len() == 1 {
                    let only = split.children.remove(0);
                    *self = only;
                }
                removed_any
            },
            LayoutNode::Tabs(group) => {
                let ghost old_group = *group;
                let ghost ov = inners_view(old_group.tabs@);
                proof {
                    lemma_inners_view(old_group.tabs@);
                    lemma_first_inner_containing(ov, target);
                }
                match first_inner_holding(&group.tabs, target) {
                    Some(idx) => {
                        proof { assert(decreases_to!(old(self)@ => ov[idx as int].root)); }
                        let removed = group.tabs[idx].root.strip_terminal(target, collapse);
                        proof {
                            lemma_inners_view(group.tabs@);
                            assert(inners_view(group.tabs@) =~= ov.update(idx as int, with_root(ov[idx as int], strip(ov[idx as int].root, target, collapse))));
                        }
                        if group.tabs[idx].root.is_empty() {
                            group.tabs.remove(idx);
                            proof {
                                lemma_inners_view(group.tabs@);
                                assert(inners_view(group.tabs@) =~= ov.remove(idx as int));
                            }
                            if group.tabs.len() == 0 {
                                *self = LayoutNode::Split(SplitNode {
                                    node_id: NodeId(fresh_uuid()),
                                    orientation: SplitOrientation::Vertical,
                                    children: Vec::new(),
                                });
                                proof { lemma_nodes_view(Seq::<LayoutNode>::empty()); }
                            } else {
                                if group.active >= group.tabs.len() {
                                    group.active = group.tabs.len() - 1;
                                } else if group.active == idx && idx > 0 {
                                    group.active = idx - 1;
                                }
                            }
                        }
                        removed
                    },
                    None => false,
                }
            },
        }
    }

    /// Wrap the first leaf of `target` (depth first) into a group of two inner
    /// tabs: the leaf, under a new random id, and a new leaf of
    /// `new_terminal_id`, under `new_inner_id`, which becomes active.
    /// Returns whether a leaf was found.
    pub fn wrap_subtree_containing_terminal_with_tabs(
        &mut self,
        target: TerminalId,
        new_inner_id: InnerTabId,
        new_terminal_id: TerminalId,
    ) -> (r: bool)
        ensures
            r == contains(old(self)@, target),
            exists|first_inner: InnerTabId|
                final(self)@ == #[trigger] apply_edit(
                    EditOp::Wrap { target, new_inner: new_inner_id, new_terminal: new_terminal_id, first_inner },
                    old(self)@,
                ),
    {
        let first_inner = InnerTabId(fresh_uuid());
        proof {
            lemma_edit_at_leaf(
                EditOp::Wrap { target, new_inner: new_inner_id, new_terminal: new_terminal_id, first_inner },
                old(self)@,
            );
        }
        self.wrap_terminal_with_inner_ids(target, new_inner_id, new_terminal_id, first_inner)
    }

    /// Append a new inner tab, under a new random id and holding a leaf of the
    /// existing terminal `moving_terminal_id`, to the first group (depth first)
    /// that has an inner tab `target_inner`, and make it active. Returns
    /// whether such a group was found.
    pub fn add_existing_terminal_to_group_with_inner_id(
        &mut self,
        target_inner: InnerTabId,
        moving_terminal_id: TerminalId,
    ) -> (r: bool)
        ensures
            exists|new_inner: InnerTabId|
                r == (edit(EditOp::AddExisting { target_inner, moving: moving_terminal_id, new_inner }, old(self)@) is Some)
                && final(self)@ == #[trigger] apply_edit(
                    EditOp::AddExisting { target_inner, moving: moving_terminal_id, new_inner },
                    old(self)@,
                ),
    {
        let new_inner = InnerTabId(fresh_uuid());
        self.add_existing_terminal_with_inner_id(target_inner, moving_terminal_id, new_inner)
    }

    /// The name under which the workspace's move into a new inner tab knows
    /// the same operation: a new inner tab, under a new random id and holding
    /// a leaf of `moving_terminal_id`, is appended to the first group (depth
    /// first) that has an inner tab `target_inner`, and made active.
    pub fn add_existing_terminal_to_group_by_inner_id(
        &mut self,
        target_inner: InnerTabId,
        moving_terminal_id: TerminalId,
    ) -> (r: bool)
        ensures
            exists|new_inner: InnerTabId|
                r == (edit(EditOp::AddExisting { target_inner, moving: moving_terminal_id, new_inner }, old(self)@) is Some)
                && final(self)@ == #[trigger] apply_edit(
                    EditOp::AddExisting { target_inner, moving: moving_terminal_id, new_inner },
                    old(self)@,
                ),
    {
        let new_inner = InnerTabId(fresh_uuid());
        self.add_existing_terminal_with_inner_id(target_inner, moving_terminal_id, new_inner)
    }

    /// The group at the root of the tree, for changing it in place.
    pub(crate) fn as_tab_group_mut(&mut self) -> (r: Option<&mut TabGroup>)
        ensures
            match *old(self) {
                LayoutNode::Tabs(g) => r is Some && *r->0 == g && *final(self) == LayoutNode::Tabs(*final(r->0)),
                _ => r is None && *final(self) == *old(self),
            },
    {
        match self {
            LayoutNode::Tabs(group) => Some(group),
            _ => None,
        }
    }

    /// The focus of the first group in depth-first order (see `group_focus`).
    #[verifier::loop_isolation(false)]
    pub fn group_focus(&self) -> (r: Option<TerminalId>)
        ensures
            r == group_focus(self@),
        decreases self,
    {
        match self {
            LayoutNode::Terminal(_) => None,
            LayoutNode::Split(split) => {
                proof { lemma_nodes_view(split.children@); }
                let mut i: usize = 0;
                while i < split.children.len()
                    invariant
                        i <= split.children@.len(),
                        forall|j: int| 0 <= j < i ==> group_focus(#[trigger] nodes_view(split.children@)[j]) is None,
                    decreases split.children@.len() - i,
                {
                    proof { assert(decreases_to!(*self => split.children@[i as int])); }
                    match split.children[i].group_focus() {
                        Some(t) => {
                            proof { lemma_group_focus_nodes(nodes_view(split.children@), i as int); }
                            return Some(t);
                        },
                        None => {},
                    }
                    i += 1;
                }
                proof { lemma_group_focus_nodes(nodes_view(split.children@), i as int); }
                None
            },
            LayoutNode::Tabs(group) => {
                proof { lemma_inners_view(group.tabs@); }
                if group.active < group.tabs.len() {
                    Some(group.tabs[group.active].focus)
                } else if group.tabs.len() > 0 {
                    Some(group.tabs[0].focus)
                } else {
                    Some(TerminalId(0))
                }
            },
        }
    }

    /// The inner tab `id` in depth-first order (see `find_inner`).
    #[verifier::loop_isolation(false)]
    pub fn find_inner_tab(&self, id: InnerTabId) -> (r: Option<&InnerTab>)
        ensures
            match r {
                Some(i) => find_inner(self@, id) == Some(i@),
                None => find_inner(self@, id) is None,
            },
        decreases self,
    {
        match self {
            LayoutNode::Terminal(_) => None,
            LayoutNode::Split(split) => {
                proof { lemma_nodes_view(split.children@); }
                let mut i: usize = 0;
                while i < split.children.len()
                    invariant
                        i <= split.children@.len(),
                        forall|j: int| 0 <= j < i ==> find_inner(#[trigger] nodes_view(split.children@)[j], id) is None,
                    decreases split.children@.len() - i,
                {
                    proof { assert(decreases_to!(*self => split.children@[i as int])); }
                    match split.children[i].find_inner_tab(id) {
                        Some(found) => {
                            proof { lemma_find_inner_nodes(nodes_view(split.children@), id, i as int); }
                            return Some(found);
                        },
                        None => {},
                    }
                    i += 1;
                }
                proof { lemma_find_inner_nodes(nodes_view(split.children@), id, i as int); }
                None
            },
            LayoutNode::Tabs(group) => {
                proof { lemma_inners_view(group.tabs@); }
                let mut i: usize = 0;
                while i < group.tabs.len()
                    invariant
                        i <= group.tabs@.len(),
                        forall|j: int| 0 <= j < i ==> inner_at(#[trigger] inners_view(group.tabs@)[j], id) is None,
                    decreases group.tabs@.len() - i,
                {
                    proof {
                        assert(decreases_to!(*self => group.tabs@[i as int].root));
                        assert(inners_view(group.tabs@)[i as int] == inner_view(group.tabs@[i as int]));
                    }
                    if group.tabs[i].id == id {
                        proof { lemma_find_inner_inners(inners_view(group.tabs@), id, i as int); }
                        return Some(&group.tabs[i]);
                    }
                    match group.tabs[i].root.find_inner_tab(id) {
                        Some(found) => {
                            proof { lemma_find_inner_inners(inners_view(group.tabs@), id, i as int); }
                            return Some(found);
                        },
                        None => {},
                    }
                    i += 1;
                }
                proof { lemma_find_inner_inners(inners_view(group.tabs@), id, i as int); }
                None
            },
        }
    }

    /// Whether every group in the tree has an active inner tab (see
    /// `layout_wf`).
    #[verifier::loop_isolation(false)]
    pub fn is_well_formed(&self) -> (r: bool)
        ensures
            r == layout_wf(self@),
        decreases self,
    {
        match self {
            LayoutNode::Terminal(_) => true,
            LayoutNode::Split(split) => {
                proof { lemma_nodes_view(split.children@); }
                let mut i: usize = 0;
                while i < split.children.len()
                    invariant
                        i <= split.children@.len(),
                        forall|j: int| 0 <= j < i ==> layout_wf(#[trigger] nodes_view(split.children@)[j]),
                    decreases split.children@.len() - i,
                {
                    proof { assert(decreases_to!(*self => split.children@[i as int])); }
                    if !split.children[i].is_well_formed() {
                        proof {
                            assert(!layout_wf(nodes_view(split.children@)[i as int]));
                            assert(self@ is Split);
                            assert(self@->children == nodes_view(split.children@));
                        }
                        return false;
                    }
                    i += 1;
                }
                true
            },
            LayoutNode::Tabs(group) => {
                proof { lemma_inners_view(group.tabs@); }
                if group.active >= group.tabs.len() {
                    return false;
                }
                let mut i: usize = 0;
                while i < group.tabs.len()
                    invariant
                        i <= group.tabs@.len(),
                        forall|j: int| 0 <= j < i ==> layout_wf(#[trigger] inners_view(group.tabs@)[j].root),
                    decreases group.tabs@.len() - i,
                {
                    proof {
                        assert(decreases_to!(*self => group.tabs@[i as int].root));
                        assert(inners_view(group.tabs@)[i as int] == inner_view(group.tabs@[i as int]));
                    }
                    if !group.tabs[i].root.is_well_formed() {
                        proof { assert(!layout_wf(inners_view(group.tabs@)[i as int].root)); }
                        return false;
                    }
                    i += 1;
                }
                true
            },
        }
    }

    /// A copy of the tree, node ids included (the tree types do not derive
    /// `Clone`: their recursion runs through vectors).
    #[verifier::loop_isolation(false)]
    pub fn deep_clone(&self) -> (r: LayoutNode)
        ensures
            r@ == self@,
        decreases self,
    {
        match self {
            LayoutNode::Terminal(leaf) => LayoutNode::Terminal(
                TerminalLeaf {
                    node_id: leaf.node_id,
                    terminal_id: leaf.terminal_id,
                    title: leaf.title.clone(),
                    title_flexible: leaf.title_flexible,
                },
            ),
            LayoutNode::Split(split) => {
                proof { lemma_nodes_view(split.children@); }
                let mut children: Vec<LayoutNode> = Vec::new();
                let mut i: usize = 0;
                while i < split.children.len()
                    invariant
                        i <= split.children@.len(),
                        children@.len() == i,
                        forall|j: int| 0 <= j < i ==> (#[trigger] children@[j])@ == split.children@[j]@,
                    decreases split.children@.len() - i,
                {
                    proof { assert(decreases_to!(*self => split.children@[i as int])); }
                    let c = split.children[i].deep_clone();
                    children.push(c);
                    i += 1;
                }
                proof {
                    lemma_nodes_view(children@);
                    assert(nodes_view(children@) =~= nodes_view(split.children@));
                }
                LayoutNode::Split(SplitNode { node_id: split.node_id, orientation: split.orientation, children })
            },
            LayoutNode::Tabs(group) => {
                proof { lemma_inners_view(group.tabs@); }
                let mut tabs: Vec<InnerTab> = Vec::new();
                let mut i: usize = 0;
                while i < group.tabs.len()
                    invariant
                        i <= group.tabs@.len(),
                        tabs@.len() == i,
                        forall|j: int| 0 <= j < i ==> inner_view(#[trigger] tabs@[j]) == inner_view(group.tabs@[j]),
                    decreases group.tabs@.len() - i,
                {
                    proof { assert(decreases_to!(*self => group.tabs@[i as int].root)); }
                    let inner = &group.tabs[i];
                    let copy = InnerTab {
                        id: inner.id,
                        title: inner.title.clone(),
                        root: inner.root.deep_clone(),
                        focus: inner.focus,
                        flexible: inner.flexible,
                    };
                    tabs.push(copy);
                    i += 1;
                }
                proof {
                    lemma_inners_view(tabs@);
                    assert(inners_view(tabs@) =~= inners_view(group.tabs@));
                }
                LayoutNode::Tabs(TabGroup { node_id: group.node_id, tabs, active: group.active })
            },
        }
    }

    /// A split with no children or a group with no inner tabs.
    pub fn is_empty(&self) -> (r: bool)
        ensures
            r == is_empty(self@),
    {
        proof {
            match self {
                LayoutNode::Split(s) => lemma_nodes_view(s.children@),
                LayoutNode::Tabs(g) => lemma_inners_view(g.tabs@),
                _ => {},
            }
        }
        match self {
            LayoutNode::Terminal(_) => false,
            LayoutNode::Split(split) => split.children.len() == 0,
            LayoutNode::Tabs(group) => group.tabs.len() == 0,
        }
    }
}

} // verus!
