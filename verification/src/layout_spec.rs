//! What the operations on a layout tree compute, stated over its view.
use vstd::prelude::*;
use crate::model::{InnerTabId, SplitOrientation, TerminalId};
use crate::view::{InnerV, LayoutV};

verus! {

/// The split with no children that stands in for a removed subtree.
pub open spec fn empty_split() -> LayoutV {
    LayoutV::Split { orientation: SplitOrientation::Vertical, children: Seq::empty() }
}

/// A fresh terminal leaf with the default title.
pub open spec fn terminal_leaf(t: TerminalId) -> LayoutV {
    LayoutV::Leaf { terminal: t, title: "Terminal"@, flexible: true }
}

/// A fresh inner tab that holds one terminal.
pub open spec fn single_inner(id: InnerTabId, t: TerminalId) -> InnerV {
    InnerV { id, title: "Terminal"@, root: terminal_leaf(t), focus: t, flexible: true }
}

pub open spec fn is_empty(v: LayoutV) -> bool {
    match v {
        LayoutV::Leaf { .. } => false,
        LayoutV::Split { children, .. } => children.len() == 0,
        LayoutV::Tabs { tabs, .. } => tabs.len() == 0,
    }
}

pub open spec fn with_root(i: InnerV, root: LayoutV) -> InnerV {
    InnerV { root, ..i }
}

/// Every group in the tree has an active inner tab.
pub open spec fn layout_wf(v: LayoutV) -> bool
    decreases v,
{
    match v {
        LayoutV::Leaf { .. } => true,
        LayoutV::Split { children, .. } => forall|j: int| 0 <= j < children.len() ==> layout_wf(#[trigger] children[j]),
        LayoutV::Tabs { tabs, active } => {
            &&& 0 <= active < tabs.len()
            &&& forall|j: int| 0 <= j < tabs.len() ==> layout_wf(#[trigger] tabs[j].root)
        },
    }
}

/// A subtree in good shape: every split has two children or more, every
/// group an active inner tab, and so no inner tab an empty tree.
pub open spec fn node_shape(v: LayoutV) -> bool
    decreases v,
{
    match v {
        LayoutV::Leaf { .. } => true,
        LayoutV::Split { children, .. } => {
            &&& children.len() >= 2
            &&& forall|j: int| 0 <= j < children.len() ==> node_shape(#[trigger] children[j])
        },
        LayoutV::Tabs { tabs, active } => {
            &&& 0 <= active < tabs.len()
            &&& forall|j: int| 0 <= j < tabs.len() ==> node_shape(#[trigger] tabs[j].root)
        },
    }
}

/// Every inner tab of every group of the tree focuses a terminal that its
/// own tree holds.
pub open spec fn focus_held(v: LayoutV) -> bool
    decreases v,
{
    match v {
        LayoutV::Leaf { .. } => true,
        LayoutV::Split { children, .. } => forall|j: int| 0 <= j < children.len() ==> focus_held(#[trigger] children[j]),
        LayoutV::Tabs { tabs, .. } => forall|j: int|
            0 <= j < tabs.len() ==> contains(tabs[j].root, tabs[j].focus) && focus_held(#[trigger] tabs[j].root),
    }
}

/// A row of terminals along `o`: a leaf, or a split along `o` of one row or
/// more along `o`, so that the terminals lie side by side in that direction.
pub open spec fn row(v: LayoutV, o: SplitOrientation) -> bool
    decreases v,
{
    match v {
        LayoutV::Leaf { .. } => true,
        LayoutV::Split { orientation, children } => {
            &&& orientation == o
            &&& children.len() > 0
            &&& forall|j: int| 0 <= j < children.len() ==> row(#[trigger] children[j], o)
        },
        LayoutV::Tabs { .. } => false,
    }
}

/// A whole tree in good shape: an empty split, or a subtree in good shape.
pub open spec fn tree_shape(v: LayoutV) -> bool {
    match v {
        LayoutV::Split { children, .. } => children.len() == 0 || node_shape(v),
        _ => node_shape(v),
    }
}

// ---------------------------------------------------------------- queries

pub open spec fn contains(v: LayoutV, t: TerminalId) -> bool
    decreases v,
{
    match v {
        LayoutV::Leaf { terminal, .. } => terminal == t,
        LayoutV::Split { children, .. } => contains_nodes(children, t),
        LayoutV::Tabs { tabs, .. } => contains_inners(tabs, t),
    }
}

pub open spec fn contains_nodes(s: Seq<LayoutV>, t: TerminalId) -> bool
    decreases s,
{
    if s.len() == 0 {
        false
    } else {
        contains_nodes(s.drop_last(), t) || contains(s.last(), t)
    }
}

pub open spec fn contains_inners(s: Seq<InnerV>, t: TerminalId) -> bool
    decreases s,
{
    if s.len() == 0 {
        false
    } else {
        contains_inners(s.drop_last(), t) || contains(s.last().root, t)
    }
}

/// The terminals of a tree in depth-first order, all inner tabs included.
pub open spec fn terminals(v: LayoutV) -> Seq<TerminalId>
    decreases v,
{
    match v {
        LayoutV::Leaf { terminal, .. } => seq![terminal],
        LayoutV::Split { children, .. } => terminals_nodes(children),
        LayoutV::Tabs { tabs, .. } => terminals_inners(tabs),
    }
}

pub open spec fn terminals_nodes(s: Seq<LayoutV>) -> Seq<TerminalId>
    decreases s,
{
    if s.len() == 0 {
        Seq::empty()
    } else {
        terminals_nodes(s.drop_last()) + terminals(s.last())
    }
}

pub open spec fn terminals_inners(s: Seq<InnerV>) -> Seq<TerminalId>
    decreases s,
{
    if s.len() == 0 {
        Seq::empty()
    } else {
        terminals_inners(s.drop_last()) + terminals(s.last().root)
    }
}

/// The first terminal in depth-first order, following only the active inner
/// tab of each group.
pub open spec fn first_terminal(v: LayoutV) -> Option<TerminalId>
    decreases v,
{
    match v {
        LayoutV::Leaf { terminal, .. } => Some(terminal),
        LayoutV::Split { children, .. } => first_terminal_nodes(children),
        LayoutV::Tabs { tabs, active } => if 0 <= active < tabs.len() {
            first_terminal(tabs[active].root)
        } else {
            None
        },
    }
}

pub open spec fn first_terminal_nodes(s: Seq<LayoutV>) -> Option<TerminalId>
    decreases s,
{
    if s.len() == 0 {
        None
    } else {
        match first_terminal_nodes(s.drop_last()) {
            Some(t) => Some(t),
            None => first_terminal(s.last()),
        }
    }
}

/// The last terminal in depth-first order, following only the active inner
/// tab of each group.
pub open spec fn last_terminal(v: LayoutV) -> Option<TerminalId>
    decreases v,
{
    match v {
        LayoutV::Leaf { terminal, .. } => Some(terminal),
        LayoutV::Split { children, .. } => last_terminal_nodes(children),
        LayoutV::Tabs { tabs, active } => if 0 <= active < tabs.len() {
            last_terminal(tabs[active].root)
        } else {
            None
        },
    }
}

pub open spec fn last_terminal_nodes(s: Seq<LayoutV>) -> Option<TerminalId>
    decreases s,
{
    if s.len() == 0 {
        None
    } else {
        match last_terminal(s.last()) {
            Some(t) => Some(t),
            None => last_terminal_nodes(s.drop_last()),
        }
    }
}

/// The focus of the first group in depth-first order, not looking into
/// inner tabs: the focus of its active inner tab, else of its first one,
/// else the nil id.
pub open spec fn group_focus(v: LayoutV) -> Option<TerminalId>
    decreases v,
{
    match v {
        LayoutV::Leaf { .. } => None,
        LayoutV::Split { children, .. } => group_focus_nodes(children),
        LayoutV::Tabs { tabs, active } => Some(
            if 0 <= active < tabs.len() {
                tabs[active].focus
            } else if tabs.len() > 0 {
                tabs[0].focus
            } else {
                TerminalId(0)
            },
        ),
    }
}

pub open spec fn group_focus_nodes(s: Seq<LayoutV>) -> Option<TerminalId>
    decreases s,
{
    if s.len() == 0 {
        None
    } else {
        match group_focus_nodes(s.drop_last()) {
            Some(t) => Some(t),
            None => group_focus(s.last()),
        }
    }
}

/// The inner tab `id` in depth-first order, an inner tab coming before the
/// inner tabs nested in its tree.
pub open spec fn find_inner(v: LayoutV, id: InnerTabId) -> Option<InnerV>
    decreases v,
{
    match v {
        LayoutV::Leaf { .. } => None,
        LayoutV::Split { children, .. } => find_inner_nodes(children, id),
        LayoutV::Tabs { tabs, .. } => find_inner_inners(tabs, id),
    }
}

pub open spec fn find_inner_nodes(s: Seq<LayoutV>, id: InnerTabId) -> Option<InnerV>
    decreases s,
{
    if s.len() == 0 {
        None
    } else {
        match find_inner_nodes(s.drop_last(), id) {
            Some(i) => Some(i),
            None => find_inner(s.last(), id),
        }
    }
}

pub open spec fn find_inner_inners(s: Seq<InnerV>, id: InnerTabId) -> Option<InnerV>
    decreases s,
{
    if s.len() == 0 {
        None
    } else {
        match find_inner_inners(s.drop_last(), id) {
            Some(i) => Some(i),
            None => if s.last().id == id {
                Some(s.last())
            } else {
                find_inner(s.last().root, id)
            },
        }
    }
}

/// The id of the inner tab whose tree holds `t` directly or within a
/// nested group: in depth-first order, the first inner tab holding `t` in a
/// group, which, where groups nest, is the outermost one.
pub open spec fn find_inner_id(v: LayoutV, t: TerminalId) -> Option<InnerTabId>
    decreases v,
{
    match v {
        LayoutV::Leaf { .. } => None,
        LayoutV::Split { children, .. } => find_inner_id_nodes(children, t),
        LayoutV::Tabs { tabs, .. } => find_inner_id_inners(tabs, t),
    }
}

pub open spec fn find_inner_id_nodes(s: Seq<LayoutV>, t: TerminalId) -> Option<InnerTabId>
    decreases s,
{
    if s.len() == 0 {
        None
    } else {
        match find_inner_id_nodes(s.drop_last(), t) {
            Some(id) => Some(id),
            None => find_inner_id(s.last(), t),
        }
    }
}

pub open spec fn find_inner_id_inners(s: Seq<InnerV>, t: TerminalId) -> Option<InnerTabId>
    decreases s,
{
    if s.len() == 0 {
        None
    } else {
        match find_inner_id_inners(s.drop_last(), t) {
            Some(id) => Some(id),
            None => if contains(s.last().root, t) {
                Some(s.last().id)
            } else {
                find_inner_id(s.last().root, t)
            },
        }
    }
}

/// The neighbour of `t` in direction `orientation` (`forward`: right or
/// down): within the innermost split of that orientation on the path to
/// `t` that has a sibling on that side, the terminal of the sibling
/// subtree nearest to `t` (its first terminal going forward, its last one
/// going back). Only the first child or inner tab holding `t` is followed.
pub open spec fn adjacent(v: LayoutV, t: TerminalId, orientation: SplitOrientation, forward: bool) -> Option<TerminalId>
    decreases v,
{
    match v {
        LayoutV::Leaf { .. } => None,
        LayoutV::Split { orientation: so, children } => {
            let i = first_containing(children, t);
            if 0 <= i < children.len() {
                match adjacent(children[i], t, orientation, forward) {
                    Some(x) => Some(x),
                    None => if so == orientation {
                        if forward {
                            if i + 1 < children.len() {
                                first_terminal(children[i + 1])
                            } else {
                                None
                            }
                        } else if i > 0 {
                            last_terminal(children[i - 1])
                        } else {
                            None
                        }
                    } else {
                        None
                    },
                }
            } else {
                None
            }
        },
        LayoutV::Tabs { tabs, .. } => {
            let k = first_inner_containing(tabs, t);
            if 0 <= k < tabs.len() {
                adjacent(tabs[k].root, t, orientation, forward)
            } else {
                None
            }
        },
    }
}

/// The index of the first child that holds `t`, or -1.
pub open spec fn first_containing(s: Seq<LayoutV>, t: TerminalId) -> int
    decreases s.len(),
{
    if s.len() == 0 {
        -1
    } else if first_containing(s.drop_last(), t) >= 0 {
        first_containing(s.drop_last(), t)
    } else if contains(s.last(), t) {
        s.len() - 1
    } else {
        -1
    }
}

/// The index of the first inner tab whose tree holds `t`, or -1.
pub open spec fn first_inner_containing(s: Seq<InnerV>, t: TerminalId) -> int
    decreases s.len(),
{
    if s.len() == 0 {
        -1
    } else if first_inner_containing(s.drop_last(), t) >= 0 {
        first_inner_containing(s.drop_last(), t)
    } else if contains(s.last().root, t) {
        s.len() - 1
    } else {
        -1
    }
}

/// The index of the first inner tab with id `id`, or -1.
pub open spec fn inner_index(s: Seq<InnerV>, id: InnerTabId) -> int
    decreases s.len(),
{
    if s.len() == 0 {
        -1
    } else if inner_index(s.drop_last(), id) >= 0 {
        inner_index(s.drop_last(), id)
    } else if s.last().id == id {
        s.len() - 1
    } else {
        -1
    }
}


// ---------------------------------------------------------------- edits

/// The edits that change one place of a tree: the first place, in
/// depth-first order, where the edit applies.
pub enum EditOp {
    /// Replace the leaf of `target` by a split of it and a new terminal.
    SplitAt { target: TerminalId, orientation: SplitOrientation, new_terminal: TerminalId },
    /// Wrap the leaf of `target` into a group of two inner tabs: the leaf
    /// (under the id `first_inner`) and a new terminal (under `new_inner`).
    Wrap { target: TerminalId, new_inner: InnerTabId, new_terminal: TerminalId, first_inner: InnerTabId },
    /// Append a new inner tab to the innermost group whose inner tab holds
    /// `target`.
    AddToGroup { target: TerminalId, new_inner: InnerTabId, new_terminal: TerminalId },
    /// Remove the inner tab `inner` from the group that holds it.
    RemoveInner { inner: InnerTabId },
    /// Append an inner tab holding `moving` to the group of `target_inner`.
    AddExisting { target_inner: InnerTabId, moving: TerminalId, new_inner: InnerTabId },
    /// Give the inner tab `inner` the title `title`, fixed or following its
    /// terminal as `flexible` says.
    RenameInner { inner: InnerTabId, title: Seq<char>, flexible: bool },
}

/// The terminal that an edit is placed by, where it has one.
pub open spec fn edit_target(op: EditOp) -> TerminalId {
    match op {
        EditOp::SplitAt { target, .. } => target,
        EditOp::Wrap { target, .. } => target,
        EditOp::AddToGroup { target, .. } => target,
        _ => TerminalId(0),
    }
}

/// The tree after the edit, or `None` where the edit applies nowhere.
pub open spec fn edit(op: EditOp, v: LayoutV) -> Option<LayoutV>
    decreases v,
{
    match v {
        LayoutV::Leaf { terminal, .. } => match op {
            EditOp::SplitAt { target, orientation, new_terminal } => if terminal == target {
                Some(LayoutV::Split { orientation, children: seq![v, terminal_leaf(new_terminal)] })
            } else {
                None
            },
            EditOp::Wrap { target, new_inner, new_terminal, first_inner } => if terminal == target {
                Some(LayoutV::Tabs {
                    tabs: seq![
                        InnerV { id: first_inner, title: "Terminal"@, root: v, focus: terminal, flexible: true },
                        single_inner(new_inner, new_terminal),
                    ],
                    active: 1,
                })
            } else {
                None
            },
            _ => None,
        },
        LayoutV::Split { orientation, children } => match edit_nodes(op, children) {
            Some(cs) => Some(LayoutV::Split { orientation, children: cs }),
            None => None,
        },
        LayoutV::Tabs { tabs, active } => {
            let dflt = match edit_inners(op, tabs) {
                Some((ts, _)) => Some(LayoutV::Tabs { tabs: ts, active }),
                None => None,
            };
            match op {
            EditOp::SplitAt { .. } => match edit_inners(op, tabs) {
                Some((ts, i)) => Some(LayoutV::Tabs { tabs: ts, active: i }),
                None => None,
            },
            EditOp::AddToGroup { target, new_inner, new_terminal } => if dflt is Some {
                dflt
            } else if contains_inners(tabs, target) {
                Some(LayoutV::Tabs { tabs: tabs.push(single_inner(new_inner, new_terminal)), active: tabs.len() as int })
            } else {
                None
            },
            EditOp::RemoveInner { inner } => if inner_index(tabs, inner) >= 0 {
                let k = inner_index(tabs, inner);
                let ts = tabs.remove(k);
                if ts.len() == 0 {
                    Some(empty_split())
                } else {
                    Some(LayoutV::Tabs { tabs: ts, active: after_removal_active(k, ts.len() as int) })
                }
            } else {
                dflt
            },
            EditOp::AddExisting { target_inner, moving, new_inner } => if inner_index(tabs, target_inner) >= 0 {
                Some(LayoutV::Tabs { tabs: tabs.push(single_inner(new_inner, moving)), active: tabs.len() as int })
            } else {
                dflt
            },
            EditOp::RenameInner { inner, title, flexible } => if inner_index(tabs, inner) >= 0 {
                let j = inner_index(tabs, inner);
                Some(LayoutV::Tabs { tabs: tabs.update(j, InnerV { title, flexible, ..tabs[j] }), active })
            } else {
                dflt
            },
            EditOp::Wrap { .. } => dflt,
            }
        },
    }
}

/// The active index of a group after the inner tab at `k` was removed and
/// `len` inner tabs remain.
pub open spec fn after_removal_active(k: int, len: int) -> int {
    if k == 0 {
        0
    } else if k - 1 < len {
        k - 1
    } else {
        len - 1
    }
}

/// The children after the edit of the first child where it applies.
pub open spec fn edit_nodes(op: EditOp, s: Seq<LayoutV>) -> Option<Seq<LayoutV>>
    decreases s,
{
    if s.len() == 0 {
        None
    } else {
        match edit_nodes(op, s.drop_last()) {
            Some(p) => Some(p.push(s.last())),
            None => match edit(op, s.last()) {
                Some(c) => Some(s.drop_last().push(c)),
                None => None,
            },
        }
    }
}

/// The inner tabs after the edit of the first inner tree where it applies,
/// and the index of that inner tab.
pub open spec fn edit_inners(op: EditOp, s: Seq<InnerV>) -> Option<(Seq<InnerV>, int)>
    decreases s,
{
    if s.len() == 0 {
        None
    } else {
        match edit_inners(op, s.drop_last()) {
            Some((p, i)) => Some((p.push(s.last()), i)),
            None => match edit(op, s.last().root) {
                Some(r) => Some((s.drop_last().push(with_root(s.last(), r)), s.len() - 1)),
                None => None,
            },
        }
    }
}

/// The tree after `op`: the edited tree, or the same tree where it applies nowhere.
pub open spec fn apply_edit(op: EditOp, v: LayoutV) -> LayoutV {
    match edit(op, v) {
        Some(w) => w,
        None => v,
    }
}

// ---------------------------------------------------------------- removal

/// The tree after removing terminal `t`: every leaf of `t` under splits
/// and under the first inner tab that holds `t` becomes an empty split,
/// splits drop their empty children and give way to their only child,
/// and a group drops an inner tab that became empty.
pub open spec fn remove(v: LayoutV, t: TerminalId) -> LayoutV {
    strip(v, t, true)
}

pub open spec fn remove_nodes(s: Seq<LayoutV>, t: TerminalId) -> Seq<LayoutV> {
    strip_nodes(s, t, true)
}

/// Removal of terminal `t` (see `remove`), where a split left with one
/// child gives way to it only if `collapse` holds.
pub open spec fn strip(v: LayoutV, t: TerminalId, collapse: bool) -> LayoutV
    decreases v,
{
    match v {
        LayoutV::Leaf { terminal, .. } => if terminal == t {
            empty_split()
        } else {
            v
        },
        LayoutV::Split { orientation, children } => {
            let cs = drop_empty(strip_nodes(children, t, collapse));
            if collapse && cs.len() == 1 {
                cs[0]
            } else {
                LayoutV::Split { orientation, children: cs }
            }
        },
        LayoutV::Tabs { tabs, active } => {
            let k = first_inner_containing(tabs, t);
            if 0 <= k < tabs.len() {
                let r = strip(tabs[k].root, t, collapse);
                if is_empty(r) {
                    let ts = tabs.remove(k);
                    if ts.len() == 0 {
                        empty_split()
                    } else {
                        LayoutV::Tabs {
                            tabs: ts,
                            active: if active >= ts.len() {
                                ts.len() - 1
                            } else if active == k && k > 0 {
                                k - 1
                            } else {
                                active
                            },
                        }
                    }
                } else {
                    LayoutV::Tabs { tabs: tabs.update(k, with_root(tabs[k], r)), active }
                }
            } else {
                v
            }
        },
    }
}

pub open spec fn strip_nodes(s: Seq<LayoutV>, t: TerminalId, collapse: bool) -> Seq<LayoutV>
    decreases s,
{
    if s.len() == 0 {
        Seq::empty()
    } else {
        strip_nodes(s.drop_last(), t, collapse).push(strip(s.last(), t, collapse))
    }
}

/// The subtrees of `s` that are not empty, in order.
pub open spec fn drop_empty(s: Seq<LayoutV>) -> Seq<LayoutV>
    decreases s.len(),
{
    if s.len() == 0 {
        Seq::empty()
    } else if is_empty(s.last()) {
        drop_empty(s.drop_last())
    } else {
        drop_empty(s.drop_last()).push(s.last())
    }
}

} // verus!
