//! What the operations on the workspace compute, stated over its view.
use vstd::prelude::*;
use crate::model::{FocusDirection, InnerTabId, SplitOrientation, TabId, TerminalId, WindowId};
use crate::view::{InnerV, LayoutV};
use crate::layout_spec::{
    strip, adjacent, after_removal_active,
    apply_edit, contains, edit, first_inner_containing, first_terminal, inner_index, is_empty, remove,
    single_inner, terminal_leaf, EditOp, layout_wf, find_inner_id, group_focus, terminals,
};

verus! {

/// A top-level tab as the specifications see it.
pub struct TabV {
    pub id: TabId,
    pub root: LayoutV,
    pub focus: TerminalId,
    pub title: Seq<char>,
    pub title_flexible: bool,
    pub dynamic_title: Seq<char>,
}

/// A window as the specifications see it.
pub struct WindowV {
    pub id: WindowId,
    pub title: Seq<char>,
    pub tabs: Seq<TabV>,
    pub active_tab: int,
}

/// The index of the first element of `s` that satisfies `p`, or -1.
pub open spec fn first_index<A>(s: Seq<A>, p: spec_fn(A) -> bool) -> int
    decreases s.len(),
{
    if s.len() == 0 {
        -1
    } else if first_index(s.drop_last(), p) >= 0 {
        first_index(s.drop_last(), p)
    } else if p(s.last()) {
        s.len() - 1
    } else {
        -1
    }
}

pub proof fn lemma_first_index<A>(s: Seq<A>, p: spec_fn(A) -> bool)
    ensures
        -1 <= first_index(s, p) < s.len(),
        first_index(s, p) >= 0 ==> p(s[first_index(s, p)]),
        forall|j: int| 0 <= j < first_index(s, p) ==> !p(#[trigger] s[j]),
        first_index(s, p) == -1 ==> forall|j: int| 0 <= j < s.len() ==> !p(#[trigger] s[j]),
    decreases s.len(),
{
    if s.len() > 0 {
        lemma_first_index(s.drop_last(), p);
        assert forall|j: int| 0 <= j < s.len() - 1 implies s.drop_last()[j] == s[j] by {}
    }
}

/// The first element that satisfies `p` is the one at `i` when none before it does.
pub proof fn lemma_first_index_at<A>(s: Seq<A>, p: spec_fn(A) -> bool, i: int)
    requires
        0 <= i < s.len(),
        p(s[i]),
        forall|j: int| 0 <= j < i ==> !p(#[trigger] s[j]),
    ensures
        first_index(s, p) == i,
{
    lemma_first_index(s, p);
    let f = first_index(s, p);
    if f == -1 {
        assert(!p(s[i]));
    }
    if f > i {
        assert(!p(s[i]));
    }
    if 0 <= f < i {
        assert(!p(s[f]));
    }
}

/// Sequences on which `p` holds at the same places have the same first index.
pub proof fn lemma_first_index_same<A>(s: Seq<A>, r: Seq<A>, p: spec_fn(A) -> bool)
    requires
        s.len() == r.len(),
        forall|j: int| 0 <= j < s.len() ==> p(#[trigger] s[j]) == p(r[j]),
    ensures
        first_index(s, p) == first_index(r, p),
    decreases s.len(),
{
    if s.len() > 0 {
        assert forall|j: int| 0 <= j < s.len() - 1 implies p(#[trigger] s.drop_last()[j]) == p(r.drop_last()[j]) by {
            assert(p(s[j]) == p(r[j]));
        }
        lemma_first_index_same(s.drop_last(), r.drop_last(), p);
        assert(p(s[s.len() - 1]) == p(r[r.len() - 1]));
    }
}

/// The index of the first window with id `id`, or -1.
pub open spec fn window_index(ws: Seq<WindowV>, id: WindowId) -> int {
    first_index(ws, has_window_id(id))
}

pub open spec fn has_window_id(id: WindowId) -> spec_fn(WindowV) -> bool {
    |w: WindowV| w.id == id
}

pub open spec fn has_tab_id(id: TabId) -> spec_fn(TabV) -> bool {
    |t: TabV| t.id == id
}

pub open spec fn holds_terminal(t: TerminalId) -> spec_fn(TabV) -> bool {
    |x: TabV| contains(x.root, t)
}

/// The index of the first tab with id `id`, or -1.
pub open spec fn tab_index(tabs: Seq<TabV>, id: TabId) -> int {
    first_index(tabs, has_tab_id(id))
}

/// The index of the first tab whose tree holds terminal `t`, or -1.
pub open spec fn tab_holding(tabs: Seq<TabV>, t: TerminalId) -> int {
    first_index(tabs, holds_terminal(t))
}

/// A new tab with one terminal, as a workspace or a new window starts with.
pub open spec fn single_tab(id: TabId, t: TerminalId) -> TabV {
    TabV {
        id,
        root: terminal_leaf(t),
        focus: t,
        title: "Terminal"@,
        title_flexible: true,
        dynamic_title: "Terminal"@,
    }
}

/// A new tab made for a terminal moved out of another tab.
pub open spec fn moved_tab(id: TabId, t: TerminalId) -> TabV {
    TabV {
        id,
        root: terminal_leaf(t),
        focus: t,
        title: "Terminal"@,
        title_flexible: true,
        dynamic_title: Seq::empty(),
    }
}

/// A new window with one tab.
pub open spec fn single_window(id: WindowId, tab: TabV) -> WindowV {
    WindowV { id, title: "Terminator"@, tabs: seq![tab], active_tab: 0 }
}

/// The terminal that has the focus in a tab: in a group at the root, the
/// focus of its active inner tab.
pub open spec fn tab_active_terminal(tab: TabV) -> TerminalId {
    match tab.root {
        LayoutV::Tabs { tabs, active } => tabs[active].focus,
        _ => tab.focus,
    }
}

/// A group at the root of a tab has a valid active inner tab.
pub open spec fn tab_wf(tab: TabV) -> bool {
    tab.root matches LayoutV::Tabs { tabs, active } ==> 0 <= active < tabs.len()
}

/// A window is well formed: it has tabs and a valid active tab, and every
/// group in the tree of each of its tabs a valid active inner tab.
pub open spec fn window_wf(win: WindowV) -> bool {
    &&& 0 <= win.active_tab < win.tabs.len()
    &&& forall|k: int| 0 <= k < win.tabs.len() ==> layout_wf(#[trigger] win.tabs[k].root)
}

/// Every window of the workspace is well formed.
pub open spec fn workspace_wf(ws: Seq<WindowV>) -> bool {
    forall|w: int| 0 <= w < ws.len() ==> window_wf(#[trigger] ws[w])
}

/// Focus terminal `id` in a tab: the result and whether the focus changed.
/// Nothing changes where the tab does not hold `id`; in a group at the root
/// the first inner tab that holds `id` becomes active and focuses `id`.
pub open spec fn tab_set_focus(tab: TabV, id: TerminalId) -> (TabV, bool) {
    if !contains(tab.root, id) {
        (tab, false)
    } else {
        match tab.root {
            LayoutV::Tabs { tabs, active } => {
                let idx = first_inner_containing(tabs, id);
                (
                    TabV {
                        root: LayoutV::Tabs {
                            tabs: tabs.update(idx, InnerV { focus: id, ..tabs[idx] }),
                            active: idx,
                        },
                        ..tab
                    },
                    active != idx || tabs[idx].focus != id,
                )
            },
            _ => (TabV { focus: id, ..tab }, tab.focus != id),
        }
    }
}

pub open spec fn with_tab_root(tab: TabV, root: LayoutV) -> TabV {
    TabV { root, ..tab }
}

/// Remove terminal `t` from the tabs in order until one held it; the tabs
/// tried before are rewritten by the removal as well. Also whether a tab
/// held it.
pub open spec fn remove_from_tabs(tabs: Seq<TabV>, t: TerminalId) -> (Seq<TabV>, bool) {
    strip_from_tabs(tabs, t, true)
}

/// Take terminal `t` out of the tabs in order until one held it, to place
/// it elsewhere: as `remove_from_tabs`, but a split left with one child
/// stays a split (see `strip`); also whether a tab held it.
pub open spec fn detach_from_tabs(tabs: Seq<TabV>, t: TerminalId) -> (Seq<TabV>, bool) {
    strip_from_tabs(tabs, t, false)
}

/// Removal of terminal `t` from the tabs in order (see `strip`).
pub open spec fn strip_from_tabs(tabs: Seq<TabV>, t: TerminalId, collapse: bool) -> (Seq<TabV>, bool)
    decreases tabs.len(),
{
    if tabs.len() == 0 {
        (tabs, false)
    } else {
        let (p, done) = strip_from_tabs(tabs.drop_last(), t, collapse);
        if done {
            (p.push(tabs.last()), true)
        } else {
            (p.push(with_tab_root(tabs.last(), strip(tabs.last().root, t, collapse))), contains(tabs.last().root, t))
        }
    }
}

/// Wrap the tree of a tab into a group of one inner tab `inner_id` that
/// carries the tab's title, unless it is a group already.
pub open spec fn ensure_group(tab: TabV, inner_id: InnerTabId) -> TabV {
    match tab.root {
        LayoutV::Tabs { .. } => tab,
        _ => TabV {
            root: LayoutV::Tabs {
                tabs: seq![
                    InnerV {
                        id: inner_id,
                        title: tab.title,
                        root: tab.root,
                        focus: match first_terminal(tab.root) {
                            Some(f) => f,
                            None => tab.focus,
                        },
                        flexible: tab.title_flexible,
                    },
                ],
                active: 0,
            },
            ..tab
        },
    }
}

/// The active tab index of a window after `len` tabs remain.
pub open spec fn clamp_active(active: int, len: int) -> int {
    if active >= len {
        len - 1
    } else {
        active
    }
}

/// The windows after tab `k` of window `w` was removed: the window goes where
/// it has no tab left.
pub open spec fn drop_tab(ws: Seq<WindowV>, w: int, k: int) -> Seq<WindowV> {
    let tabs = ws[w].tabs.remove(k);
    if tabs.len() == 0 {
        ws.remove(w)
    } else {
        ws.update(w, WindowV { tabs, active_tab: clamp_active(ws[w].active_tab, tabs.len() as int), ..ws[w] })
    }
}

pub open spec fn with_tab(ws: Seq<WindowV>, w: int, k: int, tab: TabV) -> Seq<WindowV> {
    ws.update(w, WindowV { tabs: ws[w].tabs.update(k, tab), ..ws[w] })
}

pub open spec fn with_tabs(ws: Seq<WindowV>, w: int, tabs: Seq<TabV>) -> Seq<WindowV> {
    ws.update(w, WindowV { tabs, ..ws[w] })
}

/// Remove terminal `t` from the windows in order until one held it (see
/// `remove_from_tabs`); also whether one held it.
pub open spec fn remove_from_windows(ws: Seq<WindowV>, t: TerminalId) -> (Seq<WindowV>, bool)
    decreases ws.len(),
{
    if ws.len() == 0 {
        (ws, false)
    } else {
        let (p, done) = remove_from_windows(ws.drop_last(), t);
        if done {
            (p.push(ws.last()), true)
        } else {
            let (tabs, found) = remove_from_tabs(ws.last().tabs, t);
            (p.push(WindowV { tabs, ..ws.last() }), found)
        }
    }
}

/// The windows without those with id `id`.
pub open spec fn windows_without(ws: Seq<WindowV>, id: WindowId) -> Seq<WindowV>
    decreases ws.len(),
{
    if ws.len() == 0 {
        ws
    } else if ws.last().id == id {
        windows_without(ws.drop_last(), id)
    } else {
        windows_without(ws.drop_last(), id).push(ws.last())
    }
}

pub open spec fn spec_rename_window(ws: Seq<WindowV>, id: WindowId, title: Seq<char>) -> Seq<WindowV> {
    let w = window_index(ws, id);
    if w >= 0 {
        ws.update(w, WindowV { title, ..ws[w] })
    } else {
        ws
    }
}

/// Close tab `tid` of window `wid`; a window left without tabs goes.
pub open spec fn spec_close_tab(ws: Seq<WindowV>, wid: WindowId, tid: TabId) -> (Seq<WindowV>, bool) {
    let w = window_index(ws, wid);
    if w < 0 {
        (ws, false)
    } else {
        let k = tab_index(ws[w].tabs, tid);
        if k < 0 {
            (ws, false)
        } else {
            (drop_tab(ws, w, k), true)
        }
    }
}

pub open spec fn spec_first_terminal_in_tab(ws: Seq<WindowV>, wid: WindowId, tid: TabId) -> Option<TerminalId> {
    let w = window_index(ws, wid);
    if w < 0 {
        None
    } else {
        let k = tab_index(ws[w].tabs, tid);
        if k < 0 {
            None
        } else {
            first_in_order(terminals(ws[w].tabs[k].root))
        }
    }
}

/// The first of a sequence of terminals, where there is one.
pub open spec fn first_in_order(s: Seq<TerminalId>) -> Option<TerminalId> {
    if s.len() > 0 {
        Some(s[0])
    } else {
        None
    }
}

/// Append `tab` to window `wid`; the active tab stays the same.
pub open spec fn spec_add_tab(ws: Seq<WindowV>, wid: WindowId, tab: TabV) -> Seq<WindowV> {
    let w = window_index(ws, wid);
    if w < 0 {
        ws
    } else {
        ws.update(w, WindowV { tabs: ws[w].tabs.push(tab), ..ws[w] })
    }
}

pub open spec fn spec_set_active_tab(ws: Seq<WindowV>, wid: WindowId, tid: TabId) -> Seq<WindowV> {
    let w = window_index(ws, wid);
    if w < 0 {
        ws
    } else {
        let k = tab_index(ws[w].tabs, tid);
        if k < 0 {
            ws
        } else {
            ws.update(w, WindowV { active_tab: k, ..ws[w] })
        }
    }
}

pub open spec fn spec_set_active_terminal(ws: Seq<WindowV>, wid: WindowId, tid: TabId, t: TerminalId) -> (Seq<WindowV>, bool) {
    let w = window_index(ws, wid);
    if w < 0 {
        (ws, false)
    } else {
        let k = tab_index(ws[w].tabs, tid);
        if k < 0 {
            (ws, false)
        } else {
            let (tab, changed) = tab_set_focus(ws[w].tabs[k], t);
            (with_tab(ws, w, k, tab), changed)
        }
    }
}

/// The split orientation and side that a focus direction moves along.
pub open spec fn direction_axis(direction: FocusDirection) -> (SplitOrientation, bool) {
    match direction {
        FocusDirection::Left => (SplitOrientation::Horizontal, false),
        FocusDirection::Right => (SplitOrientation::Horizontal, true),
        FocusDirection::Up => (SplitOrientation::Vertical, false),
        FocusDirection::Down => (SplitOrientation::Vertical, true),
    }
}

pub open spec fn spec_focus_neighbor(
    ws: Seq<WindowV>,
    wid: WindowId,
    tid: TabId,
    t: TerminalId,
    direction: FocusDirection,
) -> Option<TerminalId> {
    let w = window_index(ws, wid);
    if w < 0 {
        None
    } else {
        let k = tab_index(ws[w].tabs, tid);
        if k < 0 {
            None
        } else {
            adjacent(ws[w].tabs[k].root, t, direction_axis(direction).0, direction_axis(direction).1)
        }
    }
}

/// Whether `split_terminal` finds the terminal: window `wid` has a tab holding `t`.
pub open spec fn split_applies(ws: Seq<WindowV>, wid: WindowId, t: TerminalId) -> bool {
    let w = window_index(ws, wid);
    w >= 0 && tab_holding(ws[w].tabs, t) >= 0
}

/// Split the leaf of `t` in the first tab of window `wid` that holds it, the
/// new terminal `new_terminal` second, and focus the new terminal.
pub open spec fn spec_split_terminal(
    ws: Seq<WindowV>,
    wid: WindowId,
    t: TerminalId,
    orientation: SplitOrientation,
    new_terminal: TerminalId,
) -> Seq<WindowV> {
    let w = window_index(ws, wid);
    let k = tab_holding(ws[w].tabs, t);
    let tab = ws[w].tabs[k];
    let split = with_tab_root(tab, apply_edit(EditOp::SplitAt { target: t, orientation, new_terminal }, tab.root));
    with_tab(ws, w, k, tab_set_focus(split, new_terminal).0)
}

/// The tab of window `wid` that holds `t` after `t` was removed from it, where
/// `close_terminal` finds one.
pub open spec fn closed_tab(ws: Seq<WindowV>, wid: WindowId, t: TerminalId) -> TabV {
    let w = window_index(ws, wid);
    let k = tab_holding(ws[w].tabs, t);
    with_tab_root(ws[w].tabs[k], remove(ws[w].tabs[k].root, t))
}

/// `close_terminal` reads the focus of a tab that keeps terminals after the
/// removal: a group at its root then needs a valid active inner tab.
pub open spec fn close_terminal_safe(ws: Seq<WindowV>, wid: WindowId, t: TerminalId) -> bool {
    split_applies(ws, wid, t) ==> (!is_empty(closed_tab(ws, wid, t).root) ==> tab_wf(closed_tab(ws, wid, t)))
}

/// Close terminal `t` in window `wid`: remove it from the first tab that
/// holds it; a tab left empty goes (and a window left without tabs); else
/// the focus moves to the tab's first terminal where the focused terminal
/// is gone. Also whether a tab held `t`.
pub open spec fn spec_close_terminal(ws: Seq<WindowV>, wid: WindowId, t: TerminalId) -> (Seq<WindowV>, bool) {
    if !split_applies(ws, wid, t) {
        (ws, false)
    } else {
        let w = window_index(ws, wid);
        let k = tab_holding(ws[w].tabs, t);
        let tab = closed_tab(ws, wid, t);
        if is_empty(tab.root) {
            (drop_tab(ws, w, k), true)
        } else if !contains(tab.root, tab_active_terminal(tab)) {
            match first_terminal(tab.root) {
                Some(f) => (with_tab(ws, w, k, tab_set_focus(tab, f).0), true),
                None => (with_tab(ws, w, k, tab), true),
            }
        } else {
            (with_tab(ws, w, k, tab), true)
        }
    }
}

pub open spec fn spec_rename_tab(
    ws: Seq<WindowV>,
    wid: WindowId,
    tid: TabId,
    title: Seq<char>,
    flexible: bool,
) -> (Seq<WindowV>, bool) {
    let w = window_index(ws, wid);
    if w < 0 {
        (ws, false)
    } else {
        let k = tab_index(ws[w].tabs, tid);
        if k < 0 {
            (ws, false)
        } else {
            (with_tab(ws, w, k, TabV { title, title_flexible: flexible, ..ws[w].tabs[k] }), true)
        }
    }
}

/// Rename inner tab `iid`, in the first group (depth first) of a tab's
/// tree that has it; also whether one has it.
pub open spec fn tab_rename_inner(tab: TabV, iid: InnerTabId, title: Seq<char>, flexible: bool) -> (TabV, bool) {
    let op = EditOp::RenameInner { inner: iid, title, flexible };
    (with_tab_root(tab, apply_edit(op, tab.root)), edit(op, tab.root) is Some)
}

/// Rename an inner tab, wherever it is in the tab's tree.
pub open spec fn spec_rename_inner_tab(
    ws: Seq<WindowV>,
    wid: WindowId,
    tid: TabId,
    iid: InnerTabId,
    title: Seq<char>,
    flexible: bool,
) -> (Seq<WindowV>, bool) {
    if !tab_exists(ws, wid, tid) {
        (ws, false)
    } else {
        let w = window_index(ws, wid);
        let k = tab_index(ws[w].tabs, tid);
        let (tab, found) = tab_rename_inner(ws[w].tabs[k], iid, title, flexible);
        if found {
            (with_tab(ws, w, k, tab), true)
        } else {
            (ws, false)
        }
    }
}

/// Add inner tab `inner` with new terminal `n` next to terminal `from` in a
/// tab: wrap the leaf of `from` into a new group (its inner tab under
/// `first_inner`), or else append it to the innermost group one of whose
/// inner tabs holds `from`, or else turn the whole tree into a group (its
/// first inner tab under `group_inner`) and append there. The new terminal
/// then gets the focus of the tab (see `tab_set_focus`).
pub open spec fn tab_add_inner(
    tab: TabV,
    from: TerminalId,
    inner: InnerTabId,
    n: TerminalId,
    first_inner: InnerTabId,
    group_inner: InnerTabId,
) -> TabV {
    let wrap = EditOp::Wrap { target: from, new_inner: inner, new_terminal: n, first_inner };
    let add = EditOp::AddToGroup { target: from, new_inner: inner, new_terminal: n };
    let root = if contains(tab.root, from) {
        apply_edit(wrap, tab.root)
    } else if edit(add, tab.root) is Some {
        apply_edit(add, tab.root)
    } else {
        match ensure_group(tab, group_inner).root {
            LayoutV::Tabs { tabs, .. } => LayoutV::Tabs { tabs: tabs.push(single_inner(inner, n)), active: tabs.len() as int },
            _ => tab.root,
        }
    };
    tab_set_focus(TabV { root, focus: n, ..tab }, n).0
}

/// Add inner tab `inner` with new terminal `n` to the group closest to
/// terminal `from`: append it to the innermost group one of whose inner tabs
/// holds `from` and give the new terminal the focus of the tab; where no
/// group holds `from`, as `tab_add_inner`.
pub open spec fn tab_add_inner_near(
    tab: TabV,
    from: TerminalId,
    inner: InnerTabId,
    n: TerminalId,
    first_inner: InnerTabId,
    group_inner: InnerTabId,
) -> TabV {
    let add = EditOp::AddToGroup { target: from, new_inner: inner, new_terminal: n };
    if edit(add, tab.root) is Some {
        tab_set_focus(TabV { root: apply_edit(add, tab.root), focus: n, ..tab }, n).0
    } else {
        tab_add_inner(tab, from, inner, n, first_inner, group_inner)
    }
}

/// Add an inner tab to tab `tid` of window `wid`, in the group closest to
/// terminal `from` (see `tab_add_inner_near`).
pub open spec fn spec_add_inner_tab_near(
    ws: Seq<WindowV>,
    wid: WindowId,
    tid: TabId,
    from: TerminalId,
    inner: InnerTabId,
    n: TerminalId,
    first_inner: InnerTabId,
    group_inner: InnerTabId,
) -> Seq<WindowV> {
    let w = window_index(ws, wid);
    let k = tab_index(ws[w].tabs, tid);
    with_tab(ws, w, k, tab_add_inner_near(ws[w].tabs[k], from, inner, n, first_inner, group_inner))
}

/// Add an inner tab to tab `tid` of window `wid` (see `tab_add_inner`).
pub open spec fn spec_add_inner_tab(
    ws: Seq<WindowV>,
    wid: WindowId,
    tid: TabId,
    from: TerminalId,
    inner: InnerTabId,
    n: TerminalId,
    first_inner: InnerTabId,
    group_inner: InnerTabId,
) -> Seq<WindowV> {
    let w = window_index(ws, wid);
    let k = tab_index(ws[w].tabs, tid);
    with_tab(ws, w, k, tab_add_inner(ws[w].tabs[k], from, inner, n, first_inner, group_inner))
}

/// Whether window `wid` has tab `tid`.
pub open spec fn tab_exists(ws: Seq<WindowV>, wid: WindowId, tid: TabId) -> bool {
    let w = window_index(ws, wid);
    w >= 0 && tab_index(ws[w].tabs, tid) >= 0
}

/// Move terminal `moving` out of its tab in window `wid` into a new inner tab
/// `new_inner` of the group of inner tab `target_inner` in tab `tid`.
pub open spec fn spec_move_to_new_inner_tab(
    ws: Seq<WindowV>,
    wid: WindowId,
    tid: TabId,
    target_inner: InnerTabId,
    moving: TerminalId,
    new_inner: InnerTabId,
) -> (Seq<WindowV>, bool) {
    if !tab_exists(ws, wid, tid) {
        (ws, false)
    } else {
        let w = window_index(ws, wid);
        let k = tab_index(ws[w].tabs, tid);
        let (tabs, removed) = remove_from_tabs(ws[w].tabs, moving);
        let op = EditOp::AddExisting { target_inner, moving, new_inner };
        if !removed {
            (with_tabs(ws, w, tabs), false)
        } else if edit(op, tabs[k].root) is Some {
            (with_tabs(ws, w, tabs.update(k, TabV { root: apply_edit(op, tabs[k].root), focus: moving, ..tabs[k] })), true)
        } else {
            (with_tabs(ws, w, tabs), false)
        }
    }
}

/// Close inner tab `iid` in a tab: the tab after it, whether the inner tab
/// was found, and whether the tab is to go. From the group at the root:
/// the next inner tab to the left becomes active and the tab focuses its
/// first terminal; the tab is to go with the group's last inner tab.
/// Deeper in the tree: the first group that has it drops it, and the focus
/// moves to the tab's first terminal where the focused terminal is gone.
pub open spec fn tab_close_inner(tab: TabV, iid: InnerTabId) -> (TabV, bool, bool) {
    match tab.root {
        LayoutV::Tabs { tabs, active } if inner_index(tabs, iid) >= 0 => {
            let idx = inner_index(tabs, iid);
            let ts = tabs.remove(idx);
            if ts.len() == 0 {
                (with_tab_root(tab, LayoutV::Tabs { tabs: ts, active }), true, true)
            } else {
                let a = after_removal_active(idx, ts.len() as int);
                let focus = match first_terminal(ts[a].root) {
                    Some(f) => f,
                    None => tab.focus,
                };
                (TabV { root: LayoutV::Tabs { tabs: ts, active: a }, focus, ..tab }, true, false)
            }
        },
        _ => match edit(EditOp::RemoveInner { inner: iid }, tab.root) {
            Some(root) => {
                let focus = if !contains(root, tab.focus) {
                    match first_terminal(root) {
                        Some(f) => f,
                        None => tab.focus,
                    }
                } else {
                    tab.focus
                };
                (TabV { root, focus, ..tab }, true, false)
            },
            None => (tab, false, false),
        },
    }
}

/// Close inner tab `iid` of tab `tid` in window `wid` (see `tab_close_inner`);
/// a tab that is to go goes, and a window left without tabs.
pub open spec fn spec_close_inner_tab(ws: Seq<WindowV>, wid: WindowId, tid: TabId, iid: InnerTabId) -> (Seq<WindowV>, bool) {
    if !tab_exists(ws, wid, tid) {
        (ws, false)
    } else {
        let w = window_index(ws, wid);
        let k = tab_index(ws[w].tabs, tid);
        let (tab, found, gone) = tab_close_inner(ws[w].tabs[k], iid);
        if !found {
            (ws, false)
        } else if gone {
            (drop_tab(ws, w, k), true)
        } else {
            (with_tab(ws, w, k, tab), true)
        }
    }
}

pub open spec fn spec_update_dynamic_title(ws: Seq<WindowV>, wid: WindowId, tid: TabId, title: Seq<char>) -> Seq<WindowV> {
    if !tab_exists(ws, wid, tid) {
        ws
    } else {
        let w = window_index(ws, wid);
        let k = tab_index(ws[w].tabs, tid);
        with_tab(ws, w, k, TabV { dynamic_title: title, ..ws[w].tabs[k] })
    }
}

/// Move terminal `moving` next to terminal `target` in window `wid`: take
/// it out of the window's tabs, leaving the splits around it in place (see
/// `detach_from_tabs`), then split the leaf of `target` in the tab
/// that held `target` before, with `moving` second, and focus `moving`.
pub open spec fn spec_move_to_split(
    ws: Seq<WindowV>,
    wid: WindowId,
    moving: TerminalId,
    target: TerminalId,
    orientation: SplitOrientation,
) -> (Seq<WindowV>, bool) {
    if !split_applies(ws, wid, target) {
        (ws, false)
    } else {
        let w = window_index(ws, wid);
        let ti = tab_holding(ws[w].tabs, target);
        let (tabs, removed) = detach_from_tabs(ws[w].tabs, moving);
        let op = EditOp::SplitAt { target, orientation, new_terminal: moving };
        if !removed {
            (with_tabs(ws, w, tabs), false)
        } else if edit(op, tabs[ti].root) is Some {
            let tab = with_tab_root(tabs[ti], apply_edit(op, tabs[ti].root));
            (with_tabs(ws, w, tabs.update(ti, tab_set_focus(tab, moving).0)), true)
        } else {
            (with_tabs(ws, w, tabs), false)
        }
    }
}

/// Move terminal `t` of window `wid` into a new tab `new_tab`, which becomes
/// active.
pub open spec fn spec_move_to_new_tab(ws: Seq<WindowV>, wid: WindowId, t: TerminalId, new_tab: TabId) -> (Seq<WindowV>, bool) {
    let w = window_index(ws, wid);
    if w < 0 {
        (ws, false)
    } else {
        let (tabs, removed) = remove_from_tabs(ws[w].tabs, t);
        if !removed {
            (with_tabs(ws, w, tabs), false)
        } else {
            (ws.update(w, WindowV { tabs: tabs.push(moved_tab(new_tab, t)), active_tab: tabs.len() as int, ..ws[w] }), true)
        }
    }
}

/// Move terminal `t` into a new window `new_window` with one tab `new_tab`.
pub open spec fn spec_move_to_new_window(ws: Seq<WindowV>, t: TerminalId, new_window: WindowId, new_tab: TabId) -> (Seq<WindowV>, bool) {
    let (rest, removed) = remove_from_windows(ws, t);
    if !removed {
        (rest, false)
    } else {
        (rest.push(single_window(new_window, moved_tab(new_tab, t))), true)
    }
}

/// Once a prefix of the tabs removed the terminal, the tabs after it stay.
pub proof fn lemma_strip_from_tabs_append(p: Seq<TabV>, q: Seq<TabV>, t: TerminalId, collapse: bool)
    requires
        strip_from_tabs(p, t, collapse).1,
    ensures
        strip_from_tabs(p + q, t, collapse) == (strip_from_tabs(p, t, collapse).0 + q, true),
    decreases q.len(),
{
    if q.len() == 0 {
        assert(p + q =~= p);
        assert(strip_from_tabs(p, t, collapse).0 + q =~= strip_from_tabs(p, t, collapse).0);
    } else {
        lemma_strip_from_tabs_append(p, q.drop_last(), t, collapse);
        assert((p + q).drop_last() =~= p + q.drop_last());
        assert(strip_from_tabs(p, t, collapse).0 + q =~= (strip_from_tabs(p, t, collapse).0 + q.drop_last()).push(q.last()));
    }
}

pub proof fn lemma_strip_from_tabs_len(s: Seq<TabV>, t: TerminalId, collapse: bool)
    ensures
        strip_from_tabs(s, t, collapse).0.len() == s.len(),
    decreases s.len(),
{
    if s.len() > 0 {
        lemma_strip_from_tabs_len(s.drop_last(), t, collapse);
    }
}

pub proof fn lemma_remove_from_windows_append(p: Seq<WindowV>, q: Seq<WindowV>, t: TerminalId)
    requires
        remove_from_windows(p, t).1,
    ensures
        remove_from_windows(p + q, t) == (remove_from_windows(p, t).0 + q, true),
    decreases q.len(),
{
    if q.len() == 0 {
        assert(p + q =~= p);
        assert(remove_from_windows(p, t).0 + q =~= remove_from_windows(p, t).0);
    } else {
        lemma_remove_from_windows_append(p, q.drop_last(), t);
        assert((p + q).drop_last() =~= p + q.drop_last());
        assert(remove_from_windows(p, t).0 + q =~= (remove_from_windows(p, t).0 + q.drop_last()).push(q.last()));
    }
}

pub proof fn lemma_remove_from_windows_len(s: Seq<WindowV>, t: TerminalId)
    ensures
        remove_from_windows(s, t).0.len() == s.len(),
    decreases s.len(),
{
    if s.len() > 0 {
        lemma_remove_from_windows_len(s.drop_last(), t);
    }
}


/// Where a new tab asked for in the context of a tab goes: the terminal an
/// inner tab starts from, or none for a new top-level tab. The focused
/// terminal where an inner tab holds it; else the focus of the tree's first
/// group; none where the tree has no group.
pub open spec fn inner_tab_source(tab: TabV, focused: Option<TerminalId>) -> Option<TerminalId> {
    match focused {
        Some(t) => if find_inner_id(tab.root, t) is Some {
            Some(t)
        } else {
            group_focus(tab.root)
        },
        None => group_focus(tab.root),
    }
}

/// Where a new tab asked for in tab `tid` of window `wid` goes (see
/// `inner_tab_source`); none where the window has no such tab.
pub open spec fn spec_contextual_source(
    ws: Seq<WindowV>,
    wid: WindowId,
    tid: TabId,
    focused: Option<TerminalId>,
) -> Option<TerminalId> {
    if !tab_exists(ws, wid, tid) {
        None
    } else {
        let w = window_index(ws, wid);
        inner_tab_source(ws[w].tabs[tab_index(ws[w].tabs, tid)], focused)
    }
}

} // verus!
