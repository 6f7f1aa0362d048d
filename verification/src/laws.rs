//! Laws of the workspace: what every operation keeps, and what splitting a
//! terminal and closing it again give back.
use vstd::prelude::*;
use crate::model::{FocusDirection, InnerTabId, SplitOrientation, TabId, TerminalId, WindowId};
use crate::view::{InnerV, LayoutV};
use crate::layout_spec::{
    adjacent, after_removal_active, apply_edit, contains, edit, first_inner_containing, inner_index, layout_wf,
    remove, remove_nodes, drop_empty, focus_held, row, strip, single_inner, terminal_leaf, terminals, tree_shape, terminals_inners, terminals_nodes, first_terminal, is_empty, EditOp,
};
use crate::layout_lemmas::{lemma_remove_nodes, lemma_drop_empty_members, lemma_edit_at_leaf, lemma_contains_nodes, lemma_contains_inners, lemma_first_inner_containing, lemma_inner_index};
use crate::text::trim_white;
use crate::window_rules::next_index;
use crate::title_edit::{title_begin_edit, title_finish_edit, TitleV};
use crate::tree_laws::{lemma_edit_focus_held, lemma_row_adjacent, lemma_row_adjacent_back, lemma_wrap_focus_held, lemma_remove_shape, lemma_shape_holds_terminal, lemma_same_roots, lemma_edit_contains_new, lemma_contains_occurrences, lemma_remove_without, lemma_without_drops, occurrences, without, lemma_contains_nonempty, lemma_edit_wf, lemma_remove_wf, lemma_strip_wf, lemma_same_group_shape, lemma_split_at};
use crate::workspace_spec::{
    closed_tab, close_terminal_safe, strip_from_tabs, detach_from_tabs, drop_tab, ensure_group, moved_tab, remove_from_tabs, remove_from_windows,
    single_tab, single_window, spec_add_inner_tab, spec_add_inner_tab_near, tab_add_inner_near, spec_add_tab, spec_close_inner_tab, spec_close_tab,
    spec_close_terminal, spec_move_to_new_inner_tab, spec_move_to_new_tab, spec_move_to_new_window,
    spec_move_to_split, spec_rename_inner_tab, spec_rename_tab, spec_rename_window, spec_set_active_tab,
    spec_set_active_terminal, spec_split_terminal, spec_update_dynamic_title, split_applies, tab_add_inner,
    tab_close_inner, tab_exists, tab_holding, tab_index, tab_rename_inner, tab_set_focus, tab_wf, window_index,
    window_wf, windows_without, with_tab, with_tab_root, with_tabs, workspace_wf, TabV, WindowV, lemma_first_index,
    has_window_id, has_tab_id, holds_terminal, lemma_first_index_at, lemma_first_index_same, spec_focus_neighbor,
    tab_active_terminal,
};

verus! {

// ------------------------------------------------------------ helpers

proof fn lemma_window_index(ws: Seq<WindowV>, id: WindowId)
    ensures
        -1 <= window_index(ws, id) < ws.len(),
        window_index(ws, id) >= 0 ==> ws[window_index(ws, id)].id == id,
{
    lemma_first_index(ws, has_window_id(id));
}

proof fn lemma_tab_index(tabs: Seq<TabV>, id: TabId)
    ensures
        -1 <= tab_index(tabs, id) < tabs.len(),
        tab_index(tabs, id) >= 0 ==> tabs[tab_index(tabs, id)].id == id,
{
    lemma_first_index(tabs, has_tab_id(id));
}

proof fn lemma_tab_holding(tabs: Seq<TabV>, t: TerminalId)
    ensures
        -1 <= tab_holding(tabs, t) < tabs.len(),
        tab_holding(tabs, t) >= 0 ==> contains(tabs[tab_holding(tabs, t)].root, t),
        forall|j: int| 0 <= j < tab_holding(tabs, t) ==> !contains((#[trigger] tabs[j]).root, t),
        tab_holding(tabs, t) == -1 ==> forall|j: int| 0 <= j < tabs.len() ==> !contains((#[trigger] tabs[j]).root, t),
{
    lemma_first_index(tabs, holds_terminal(t));
}

/// Replacing a window by a well-formed one keeps the workspace well formed.
proof fn lemma_update_wf(ws: Seq<WindowV>, w: int, win: WindowV)
    requires
        workspace_wf(ws),
        0 <= w < ws.len(),
        window_wf(win),
    ensures
        workspace_wf(ws.update(w, win)),
{
    assert forall|x: int| 0 <= x < ws.len() implies window_wf(#[trigger] ws.update(w, win)[x]) by {
        if x != w {
            assert(ws.update(w, win)[x] == ws[x]);
        }
    }
}

/// A window whose tabs keep their number and get well-formed trees stays
/// well formed.
proof fn lemma_with_tabs_wf(ws: Seq<WindowV>, w: int, tabs: Seq<TabV>)
    requires
        workspace_wf(ws),
        0 <= w < ws.len(),
        tabs.len() == ws[w].tabs.len(),
        forall|k: int| 0 <= k < tabs.len() ==> layout_wf(#[trigger] tabs[k].root),
    ensures
        workspace_wf(with_tabs(ws, w, tabs)),
{
    assert(window_wf(ws[w]));
    lemma_update_wf(ws, w, WindowV { tabs, ..ws[w] });
}

/// Focusing a terminal that the tab holds keeps the tree holding it, and
/// makes it the tab's active terminal.
proof fn lemma_set_focus(tab: TabV, id: TerminalId)
    requires
        contains(tab.root, id),
    ensures
        contains(tab_set_focus(tab, id).0.root, id),
        tab_active_terminal(tab_set_focus(tab, id).0) == id,
        tab_set_focus(tab, id).0.focus == if tab.root is Tabs { tab.focus } else { id },
{
    match tab.root {
        LayoutV::Tabs { tabs, active } => {
            lemma_contains_inners(tabs, id);
            lemma_first_inner_containing(tabs, id);
            let idx = first_inner_containing(tabs, id);
            let ts = tabs.update(idx, InnerV { focus: id, ..tabs[idx] });
            assert forall|j: int| 0 <= j < tabs.len() implies (#[trigger] tabs[j]).root == ts[j].root by {}
            lemma_same_roots(tabs, ts, id);
            lemma_contains_inners(ts, id);
        },
        _ => {},
    }
}

/// The tab after an inner tab was added holds the new terminal, has it as
/// its focus and its active terminal, and is well formed where it was.
proof fn lemma_added_inner(
    tab: TabV,
    from: TerminalId,
    inner: InnerTabId,
    n: TerminalId,
    first_inner: InnerTabId,
    group_inner: InnerTabId,
)
    ensures
        contains(tab_add_inner(tab, from, inner, n, first_inner, group_inner).root, n),
        tab_add_inner(tab, from, inner, n, first_inner, group_inner).focus == n,
        tab_active_terminal(tab_add_inner(tab, from, inner, n, first_inner, group_inner)) == n,
        layout_wf(tab.root) ==> layout_wf(tab_add_inner(tab, from, inner, n, first_inner, group_inner).root),
{
    let wrap = EditOp::Wrap { target: from, new_inner: inner, new_terminal: n, first_inner };
    let add = EditOp::AddToGroup { target: from, new_inner: inner, new_terminal: n };
    lemma_edit_at_leaf(wrap, tab.root);
    let root = if contains(tab.root, from) {
        apply_edit(wrap, tab.root)
    } else if edit(add, tab.root) is Some {
        apply_edit(add, tab.root)
    } else {
        match ensure_group(tab, group_inner).root {
            LayoutV::Tabs { tabs, .. } => LayoutV::Tabs { tabs: tabs.push(single_inner(inner, n)), active: tabs.len() as int },
            _ => tab.root,
        }
    };
    if contains(tab.root, from) {
        lemma_edit_contains_new(wrap, tab.root);
        if layout_wf(tab.root) {
            lemma_edit_wf(wrap, tab.root);
        }
    } else if edit(add, tab.root) is Some {
        lemma_edit_contains_new(add, tab.root);
        if layout_wf(tab.root) {
            lemma_edit_wf(add, tab.root);
        }
    } else {
        match ensure_group(tab, group_inner).root {
            LayoutV::Tabs { tabs, .. } => {
                let ts = tabs.push(single_inner(inner, n));
                lemma_contains_inners(ts, n);
                assert(contains(ts[tabs.len() as int].root, n));
                if layout_wf(tab.root) {
                    assert forall|x: int| 0 <= x < tabs.len() implies layout_wf(#[trigger] tabs[x].root) by {
                        match tab.root {
                            LayoutV::Tabs { .. } => {},
                            _ => {},
                        }
                    }
                    assert forall|x: int| 0 <= x < ts.len() implies layout_wf(#[trigger] ts[x].root) by {
                        if x < tabs.len() {
                            assert(ts[x] == tabs[x]);
                        }
                    }
                }
            },
            _ => {},
        }
    }
    lemma_set_focus(TabV { root, focus: n, ..tab }, n);
    if layout_wf(tab.root) {
        lemma_set_focus_wf(TabV { root, focus: n, ..tab }, n);
    }
}

/// The tab after an inner tab was added to the group closest to a terminal
/// holds the new terminal, has it as its focus and its active terminal, and
/// is well formed where it was.
proof fn lemma_added_inner_near(
    tab: TabV,
    from: TerminalId,
    inner: InnerTabId,
    n: TerminalId,
    first_inner: InnerTabId,
    group_inner: InnerTabId,
)
    ensures
        contains(tab_add_inner_near(tab, from, inner, n, first_inner, group_inner).root, n),
        tab_add_inner_near(tab, from, inner, n, first_inner, group_inner).focus == n,
        tab_active_terminal(tab_add_inner_near(tab, from, inner, n, first_inner, group_inner)) == n,
        layout_wf(tab.root) ==> layout_wf(tab_add_inner_near(tab, from, inner, n, first_inner, group_inner).root),
{
    let add = EditOp::AddToGroup { target: from, new_inner: inner, new_terminal: n };
    if edit(add, tab.root) is Some {
        lemma_edit_contains_new(add, tab.root);
        let t1 = TabV { root: apply_edit(add, tab.root), focus: n, ..tab };
        lemma_set_focus(t1, n);
        if layout_wf(tab.root) {
            lemma_edit_wf(add, tab.root);
            lemma_set_focus_wf(t1, n);
        }
    } else {
        lemma_added_inner(tab, from, inner, n, first_inner, group_inner);
    }
}

/// Replacing a tab by one with a well-formed tree keeps the workspace well
/// formed.
proof fn lemma_with_tab_wf(ws: Seq<WindowV>, w: int, k: int, tab: TabV)
    requires
        workspace_wf(ws),
        0 <= w < ws.len(),
        0 <= k < ws[w].tabs.len(),
        layout_wf(tab.root),
    ensures
        workspace_wf(with_tab(ws, w, k, tab)),
{
    assert(window_wf(ws[w]));
    let tabs = ws[w].tabs.update(k, tab);
    assert forall|j: int| 0 <= j < tabs.len() implies layout_wf(#[trigger] tabs[j].root) by {
        if j != k {
            assert(tabs[j] == ws[w].tabs[j]);
        }
    }
    lemma_with_tabs_wf(ws, w, tabs);
}

/// Dropping a tab keeps the workspace well formed.
proof fn lemma_drop_tab_wf(ws: Seq<WindowV>, w: int, k: int)
    requires
        workspace_wf(ws),
        0 <= w < ws.len(),
        0 <= k < ws[w].tabs.len(),
    ensures
        workspace_wf(drop_tab(ws, w, k)),
{
    assert(window_wf(ws[w]));
    let tabs = ws[w].tabs.remove(k);
    if tabs.len() == 0 {
        assert forall|x: int| 0 <= x < ws.len() - 1 implies window_wf(#[trigger] ws.remove(w)[x]) by {
            if x < w {
                assert(ws.remove(w)[x] == ws[x]);
            } else {
                assert(ws.remove(w)[x] == ws[x + 1]);
            }
        }
    } else {
        assert forall|j: int| 0 <= j < tabs.len() implies layout_wf(#[trigger] tabs[j].root) by {
            if j < k {
                assert(tabs[j] == ws[w].tabs[j]);
            } else {
                assert(tabs[j] == ws[w].tabs[j + 1]);
            }
        }
        let win = WindowV { tabs, active_tab: if ws[w].active_tab >= tabs.len() { tabs.len() - 1 } else { ws[w].active_tab }, ..ws[w] };
        lemma_update_wf(ws, w, win);
    }
}

/// Focusing a terminal keeps the tree of a tab well formed.
proof fn lemma_set_focus_wf(tab: TabV, id: TerminalId)
    requires
        layout_wf(tab.root),
    ensures
        layout_wf(tab_set_focus(tab, id).0.root),
{
    if contains(tab.root, id) {
        match tab.root {
            LayoutV::Tabs { tabs, active } => {
                lemma_contains_inners(tabs, id);
                lemma_first_inner_containing(tabs, id);
                let idx = first_inner_containing(tabs, id);
                let ts = tabs.update(idx, InnerV { focus: id, ..tabs[idx] });
                assert forall|j: int| 0 <= j < ts.len() implies layout_wf(#[trigger] ts[j].root) by {
                    assert(ts[j].root == tabs[j].root);
                }
            },
            _ => {},
        }
    }
}

/// Removing a terminal from the tabs in order keeps their number and their
/// trees well formed.
proof fn lemma_remove_from_tabs_wf(tabs: Seq<TabV>, t: TerminalId)
    requires
        forall|k: int| 0 <= k < tabs.len() ==> layout_wf(#[trigger] tabs[k].root),
    ensures
        remove_from_tabs(tabs, t).0.len() == tabs.len(),
        forall|k: int| 0 <= k < tabs.len() ==> layout_wf(#[trigger] remove_from_tabs(tabs, t).0[k].root),
{
    lemma_strip_from_tabs_wf(tabs, t, true);
}

/// Removing a terminal from the tabs in order, with or without giving way
/// to only children, keeps their number and their trees well formed.
proof fn lemma_strip_from_tabs_wf(tabs: Seq<TabV>, t: TerminalId, collapse: bool)
    requires
        forall|k: int| 0 <= k < tabs.len() ==> layout_wf(#[trigger] tabs[k].root),
    ensures
        strip_from_tabs(tabs, t, collapse).0.len() == tabs.len(),
        forall|k: int| 0 <= k < tabs.len() ==> layout_wf(#[trigger] strip_from_tabs(tabs, t, collapse).0[k].root),
    decreases tabs.len(),
{
    if tabs.len() > 0 {
        let p = tabs.drop_last();
        assert forall|k: int| 0 <= k < p.len() implies layout_wf(#[trigger] p[k].root) by {
            assert(p[k] == tabs[k]);
        }
        lemma_strip_from_tabs_wf(p, t, collapse);
        lemma_strip_wf(tabs.last().root, t, collapse);
        let r = strip_from_tabs(tabs, t, collapse).0;
        assert forall|k: int| 0 <= k < tabs.len() implies layout_wf(#[trigger] r[k].root) by {
            if k < tabs.len() - 1 {
                assert(r[k] == strip_from_tabs(p, t, collapse).0[k]);
            }
        }
    }
}

/// Removing a terminal from the windows in order keeps them well formed.
proof fn lemma_remove_from_windows_wf(ws: Seq<WindowV>, t: TerminalId)
    requires
        workspace_wf(ws),
    ensures
        remove_from_windows(ws, t).0.len() == ws.len(),
        workspace_wf(remove_from_windows(ws, t).0),
    decreases ws.len(),
{
    if ws.len() > 0 {
        let p = ws.drop_last();
        assert forall|w: int| 0 <= w < p.len() implies window_wf(#[trigger] p[w]) by {
            assert(p[w] == ws[w]);
        }
        lemma_remove_from_windows_wf(p, t);
        let last = ws.last();
        assert(window_wf(ws[ws.len() - 1]));
        lemma_remove_from_tabs_wf(last.tabs, t);
        let r = remove_from_windows(ws, t).0;
        assert forall|w: int| 0 <= w < ws.len() implies window_wf(#[trigger] r[w]) by {
            if w < ws.len() - 1 {
                assert(r[w] == remove_from_windows(p, t).0[w]);
            }
        }
    }
}

// ------------------------------------------------------------ laws

/// A new workspace, one window of one tab of one terminal, is well formed.
pub proof fn law_new_workspace_wf(id: WindowId, tab: TabId, t: TerminalId)
    ensures
        workspace_wf(seq![single_window(id, single_tab(tab, t))]),
{
    let win = single_window(id, single_tab(tab, t));
    assert(window_wf(seq![win][0]));
}

/// Adding a window keeps the workspace well formed.
pub proof fn law_add_window_keeps_wf(ws: Seq<WindowV>, id: WindowId, tab: TabId, t: TerminalId)
    requires
        workspace_wf(ws),
    ensures
        workspace_wf(ws.push(single_window(id, single_tab(tab, t)))),
{
    let win = single_window(id, single_tab(tab, t));
    assert(window_wf(win));
    assert forall|x: int| 0 <= x < ws.len() + 1 implies window_wf(#[trigger] ws.push(win)[x]) by {
        if x < ws.len() {
            assert(ws.push(win)[x] == ws[x]);
        }
    }
}

/// Removing windows keeps the workspace well formed.
pub proof fn law_remove_window_keeps_wf(ws: Seq<WindowV>, id: WindowId)
    requires
        workspace_wf(ws),
    ensures
        workspace_wf(windows_without(ws, id)),
    decreases ws.len(),
{
    if ws.len() > 0 {
        let p = ws.drop_last();
        assert forall|w: int| 0 <= w < p.len() implies window_wf(#[trigger] p[w]) by {
            assert(p[w] == ws[w]);
        }
        law_remove_window_keeps_wf(p, id);
        if ws.last().id != id {
            let r = windows_without(p, id);
            assert(window_wf(ws[ws.len() - 1]));
            assert forall|w: int| 0 <= w < r.len() + 1 implies window_wf(#[trigger] r.push(ws.last())[w]) by {
                if w < r.len() {
                    assert(r.push(ws.last())[w] == r[w]);
                }
            }
        }
    }
}

/// Renaming a window keeps the workspace well formed.
pub proof fn law_rename_window_keeps_wf(ws: Seq<WindowV>, id: WindowId, title: Seq<char>)
    requires
        workspace_wf(ws),
    ensures
        workspace_wf(spec_rename_window(ws, id, title)),
{
    lemma_window_index(ws, id);
    let w = window_index(ws, id);
    if w >= 0 {
        assert(window_wf(ws[w]));
        lemma_update_wf(ws, w, WindowV { title, ..ws[w] });
    }
}

/// Closing a tab keeps the workspace well formed.
pub proof fn law_close_tab_keeps_wf(ws: Seq<WindowV>, wid: WindowId, tid: TabId)
    requires
        workspace_wf(ws),
    ensures
        workspace_wf(spec_close_tab(ws, wid, tid).0),
{
    lemma_window_index(ws, wid);
    let w = window_index(ws, wid);
    if w >= 0 {
        lemma_tab_index(ws[w].tabs, tid);
        let k = tab_index(ws[w].tabs, tid);
        if k >= 0 {
            lemma_drop_tab_wf(ws, w, k);
        }
    }
}

/// Adding a tab keeps the workspace well formed.
pub proof fn law_add_tab_keeps_wf(ws: Seq<WindowV>, wid: WindowId, tab: TabId, t: TerminalId)
    requires
        workspace_wf(ws),
    ensures
        workspace_wf(spec_add_tab(ws, wid, single_tab(tab, t))),
{
    lemma_window_index(ws, wid);
    let w = window_index(ws, wid);
    if w >= 0 {
        assert(window_wf(ws[w]));
        let tabs = ws[w].tabs.push(single_tab(tab, t));
        assert forall|j: int| 0 <= j < tabs.len() implies layout_wf(#[trigger] tabs[j].root) by {
            if j < ws[w].tabs.len() {
                assert(tabs[j] == ws[w].tabs[j]);
            }
        }
        lemma_update_wf(ws, w, WindowV { tabs, active_tab: ws[w].tabs.len() as int, ..ws[w] });
    }
}

/// Choosing the active tab keeps the workspace well formed.
pub proof fn law_set_active_tab_keeps_wf(ws: Seq<WindowV>, wid: WindowId, tid: TabId)
    requires
        workspace_wf(ws),
    ensures
        workspace_wf(spec_set_active_tab(ws, wid, tid)),
{
    lemma_window_index(ws, wid);
    let w = window_index(ws, wid);
    if w >= 0 {
        lemma_tab_index(ws[w].tabs, tid);
        let k = tab_index(ws[w].tabs, tid);
        if k >= 0 {
            assert(window_wf(ws[w]));
            lemma_update_wf(ws, w, WindowV { active_tab: k, ..ws[w] });
        }
    }
}

/// Focusing a terminal keeps the workspace well formed.
pub proof fn law_set_active_terminal_keeps_wf(ws: Seq<WindowV>, wid: WindowId, tid: TabId, t: TerminalId)
    requires
        workspace_wf(ws),
    ensures
        workspace_wf(spec_set_active_terminal(ws, wid, tid, t).0),
{
    lemma_window_index(ws, wid);
    let w = window_index(ws, wid);
    if w >= 0 {
        lemma_tab_index(ws[w].tabs, tid);
        let k = tab_index(ws[w].tabs, tid);
        if k >= 0 {
            assert(window_wf(ws[w]));
            lemma_set_focus_wf(ws[w].tabs[k], t);
            lemma_with_tab_wf(ws, w, k, tab_set_focus(ws[w].tabs[k], t).0);
        }
    }
}


/// Splitting a terminal keeps the workspace well formed.
pub proof fn law_split_terminal_keeps_wf(
    ws: Seq<WindowV>,
    wid: WindowId,
    t: TerminalId,
    o: SplitOrientation,
    n: TerminalId,
)
    requires
        workspace_wf(ws),
        split_applies(ws, wid, t),
    ensures
        workspace_wf(spec_split_terminal(ws, wid, t, o, n)),
{
    lemma_window_index(ws, wid);
    let w = window_index(ws, wid);
    lemma_tab_holding(ws[w].tabs, t);
    let k = tab_holding(ws[w].tabs, t);
    assert(window_wf(ws[w]));
    let tab = ws[w].tabs[k];
    let op = EditOp::SplitAt { target: t, orientation: o, new_terminal: n };
    if edit(op, tab.root) is Some {
        lemma_edit_wf(op, tab.root);
    }
    let split = with_tab_root(tab, apply_edit(op, tab.root));
    lemma_set_focus_wf(split, n);
    lemma_with_tab_wf(ws, w, k, tab_set_focus(split, n).0);
}

/// In a well-formed workspace closing a terminal never reads an inner tab
/// that is not there: `close_terminal` can always be called.
pub proof fn law_wf_close_terminal_safe(ws: Seq<WindowV>, wid: WindowId, t: TerminalId)
    requires
        workspace_wf(ws),
    ensures
        close_terminal_safe(ws, wid, t),
{
    if split_applies(ws, wid, t) {
        lemma_window_index(ws, wid);
        let w = window_index(ws, wid);
        lemma_tab_holding(ws[w].tabs, t);
        let k = tab_holding(ws[w].tabs, t);
        assert(window_wf(ws[w]));
        assert(layout_wf(ws[w].tabs[k].root));
        lemma_remove_wf(ws[w].tabs[k].root, t);
    }
}

/// Closing a terminal keeps the workspace well formed.
pub proof fn law_close_terminal_keeps_wf(ws: Seq<WindowV>, wid: WindowId, t: TerminalId)
    requires
        workspace_wf(ws),
    ensures
        workspace_wf(spec_close_terminal(ws, wid, t).0),
{
    if split_applies(ws, wid, t) {
        lemma_window_index(ws, wid);
        let w = window_index(ws, wid);
        lemma_tab_holding(ws[w].tabs, t);
        let k = tab_holding(ws[w].tabs, t);
        assert(window_wf(ws[w]));
        assert(layout_wf(ws[w].tabs[k].root));
        lemma_remove_wf(ws[w].tabs[k].root, t);
        let tab = closed_tab(ws, wid, t);
        if crate::layout_spec::is_empty(tab.root) {
            lemma_drop_tab_wf(ws, w, k);
        } else {
            lemma_with_tab_wf(ws, w, k, tab);
            match crate::layout_spec::first_terminal(tab.root) {
                Some(f) => {
                    lemma_set_focus_wf(tab, f);
                    lemma_with_tab_wf(ws, w, k, tab_set_focus(tab, f).0);
                },
                None => {},
            }
        }
    }
}

/// Renaming a tab keeps the workspace well formed.
pub proof fn law_rename_tab_keeps_wf(ws: Seq<WindowV>, wid: WindowId, tid: TabId, title: Seq<char>, flexible: bool)
    requires
        workspace_wf(ws),
    ensures
        workspace_wf(spec_rename_tab(ws, wid, tid, title, flexible).0),
{
    lemma_window_index(ws, wid);
    let w = window_index(ws, wid);
    if w >= 0 {
        lemma_tab_index(ws[w].tabs, tid);
        let k = tab_index(ws[w].tabs, tid);
        if k >= 0 {
            assert(window_wf(ws[w]));
            lemma_with_tab_wf(ws, w, k, TabV { title, title_flexible: flexible, ..ws[w].tabs[k] });
        }
    }
}

/// Renaming an inner tab keeps the workspace well formed.
pub proof fn law_rename_inner_tab_keeps_wf(
    ws: Seq<WindowV>,
    wid: WindowId,
    tid: TabId,
    iid: InnerTabId,
    title: Seq<char>,
    flexible: bool,
)
    requires
        workspace_wf(ws),
    ensures
        workspace_wf(spec_rename_inner_tab(ws, wid, tid, iid, title, flexible).0),
{
    if tab_exists(ws, wid, tid) {
        lemma_window_index(ws, wid);
        let w = window_index(ws, wid);
        lemma_tab_index(ws[w].tabs, tid);
        let k = tab_index(ws[w].tabs, tid);
        assert(window_wf(ws[w]));
        let tab = ws[w].tabs[k];
        assert(layout_wf(tab.root));
        let op = EditOp::RenameInner { inner: iid, title, flexible };
        if edit(op, tab.root) is Some {
            lemma_edit_wf(op, tab.root);
            lemma_with_tab_wf(ws, w, k, tab_rename_inner(tab, iid, title, flexible).0);
        }
    }
}

/// Setting the dynamic title of a tab keeps the workspace well formed.
pub proof fn law_update_dynamic_title_keeps_wf(ws: Seq<WindowV>, wid: WindowId, tid: TabId, title: Seq<char>)
    requires
        workspace_wf(ws),
    ensures
        workspace_wf(spec_update_dynamic_title(ws, wid, tid, title)),
{
    if tab_exists(ws, wid, tid) {
        lemma_window_index(ws, wid);
        let w = window_index(ws, wid);
        lemma_tab_index(ws[w].tabs, tid);
        let k = tab_index(ws[w].tabs, tid);
        assert(window_wf(ws[w]));
        lemma_with_tab_wf(ws, w, k, TabV { dynamic_title: title, ..ws[w].tabs[k] });
    }
}

/// Adding an inner tab keeps the workspace well formed.
pub proof fn law_add_inner_tab_keeps_wf(
    ws: Seq<WindowV>,
    wid: WindowId,
    tid: TabId,
    from: TerminalId,
    inner: InnerTabId,
    n: TerminalId,
    first_inner: InnerTabId,
    group_inner: InnerTabId,
)
    requires
        workspace_wf(ws),
        tab_exists(ws, wid, tid),
    ensures
        workspace_wf(spec_add_inner_tab(ws, wid, tid, from, inner, n, first_inner, group_inner)),
{
    lemma_window_index(ws, wid);
    let w = window_index(ws, wid);
    lemma_tab_index(ws[w].tabs, tid);
    let k = tab_index(ws[w].tabs, tid);
    assert(window_wf(ws[w]));
    let tab = ws[w].tabs[k];
    assert(layout_wf(tab.root));
    lemma_added_inner(tab, from, inner, n, first_inner, group_inner);
    lemma_with_tab_wf(ws, w, k, tab_add_inner(tab, from, inner, n, first_inner, group_inner));
}

/// Closing an inner tab keeps the workspace well formed.
pub proof fn law_close_inner_tab_keeps_wf(ws: Seq<WindowV>, wid: WindowId, tid: TabId, iid: InnerTabId)
    requires
        workspace_wf(ws),
    ensures
        workspace_wf(spec_close_inner_tab(ws, wid, tid, iid).0),
{
    if tab_exists(ws, wid, tid) {
        lemma_window_index(ws, wid);
        let w = window_index(ws, wid);
        lemma_tab_index(ws[w].tabs, tid);
        let k = tab_index(ws[w].tabs, tid);
        assert(window_wf(ws[w]));
        let tab = ws[w].tabs[k];
        assert(layout_wf(tab.root));
        let (tab2, found, gone) = tab_close_inner(tab, iid);
        if found && gone {
            lemma_drop_tab_wf(ws, w, k);
        } else if found {
            match tab.root {
                LayoutV::Tabs { tabs, .. } => {
                    lemma_inner_index(tabs, iid);
                    let idx = inner_index(tabs, iid);
                    if idx >= 0 {
                        let ts = tabs.remove(idx);
                        assert forall|x: int| 0 <= x < ts.len() implies layout_wf(#[trigger] ts[x].root) by {
                            if x < idx {
                                assert(ts[x] == tabs[x]);
                            } else {
                                assert(ts[x] == tabs[x + 1]);
                            }
                        }
                    } else {
                        lemma_edit_wf(EditOp::RemoveInner { inner: iid }, tab.root);
                    }
                },
                _ => {
                    lemma_edit_wf(EditOp::RemoveInner { inner: iid }, tab.root);
                },
            }
            lemma_with_tab_wf(ws, w, k, tab2);
        }
    }
}

/// Moving a terminal next to another keeps the workspace well formed.
pub proof fn law_move_to_split_keeps_wf(
    ws: Seq<WindowV>,
    wid: WindowId,
    moving: TerminalId,
    target: TerminalId,
    o: SplitOrientation,
)
    requires
        workspace_wf(ws),
    ensures
        workspace_wf(spec_move_to_split(ws, wid, moving, target, o).0),
{
    if split_applies(ws, wid, target) {
        lemma_window_index(ws, wid);
        let w = window_index(ws, wid);
        lemma_tab_holding(ws[w].tabs, target);
        let ti = tab_holding(ws[w].tabs, target);
        assert(window_wf(ws[w]));
        lemma_strip_from_tabs_wf(ws[w].tabs, moving, false);
        let tabs = detach_from_tabs(ws[w].tabs, moving).0;
        lemma_with_tabs_wf(ws, w, tabs);
        let op = EditOp::SplitAt { target, orientation: o, new_terminal: moving };
        if edit(op, tabs[ti].root) is Some {
            lemma_edit_wf(op, tabs[ti].root);
            let tab = with_tab_root(tabs[ti], apply_edit(op, tabs[ti].root));
            lemma_set_focus_wf(tab, moving);
            lemma_with_tab_wf(with_tabs(ws, w, tabs), w, ti, tab_set_focus(tab, moving).0);
            assert(with_tabs(ws, w, tabs.update(ti, tab_set_focus(tab, moving).0)) =~= with_tab(
                with_tabs(ws, w, tabs),
                w,
                ti,
                tab_set_focus(tab, moving).0,
            ));
        }
    }
}

/// Moving a terminal into a new tab keeps the workspace well formed.
pub proof fn law_move_to_new_tab_keeps_wf(ws: Seq<WindowV>, wid: WindowId, t: TerminalId, new_tab: TabId)
    requires
        workspace_wf(ws),
    ensures
        workspace_wf(spec_move_to_new_tab(ws, wid, t, new_tab).0),
{
    lemma_window_index(ws, wid);
    let w = window_index(ws, wid);
    if w >= 0 {
        assert(window_wf(ws[w]));
        lemma_remove_from_tabs_wf(ws[w].tabs, t);
        let tabs = remove_from_tabs(ws[w].tabs, t).0;
        lemma_with_tabs_wf(ws, w, tabs);
        let ts = tabs.push(moved_tab(new_tab, t));
        assert forall|x: int| 0 <= x < ts.len() implies layout_wf(#[trigger] ts[x].root) by {
            if x < tabs.len() {
                assert(ts[x] == tabs[x]);
            }
        }
        lemma_update_wf(ws, w, WindowV { tabs: ts, active_tab: tabs.len() as int, ..ws[w] });
    }
}

/// Moving a terminal into a new window keeps the workspace well formed.
pub proof fn law_move_to_new_window_keeps_wf(ws: Seq<WindowV>, t: TerminalId, new_window: WindowId, new_tab: TabId)
    requires
        workspace_wf(ws),
    ensures
        workspace_wf(spec_move_to_new_window(ws, t, new_window, new_tab).0),
{
    lemma_remove_from_windows_wf(ws, t);
    let rest = remove_from_windows(ws, t).0;
    let win = single_window(new_window, moved_tab(new_tab, t));
    assert(window_wf(win));
    assert forall|x: int| 0 <= x < rest.len() + 1 implies window_wf(#[trigger] rest.push(win)[x]) by {
        if x < rest.len() {
            assert(rest.push(win)[x] == rest[x]);
        }
    }
}

/// Moving a terminal into a new inner tab keeps the workspace well formed.
pub proof fn law_move_to_new_inner_tab_keeps_wf(
    ws: Seq<WindowV>,
    wid: WindowId,
    tid: TabId,
    target_inner: InnerTabId,
    moving: TerminalId,
    new_inner: InnerTabId,
)
    requires
        workspace_wf(ws),
    ensures
        workspace_wf(spec_move_to_new_inner_tab(ws, wid, tid, target_inner, moving, new_inner).0),
{
    if tab_exists(ws, wid, tid) {
        lemma_window_index(ws, wid);
        let w = window_index(ws, wid);
        lemma_tab_index(ws[w].tabs, tid);
        let k = tab_index(ws[w].tabs, tid);
        assert(window_wf(ws[w]));
        lemma_remove_from_tabs_wf(ws[w].tabs, moving);
        let tabs = remove_from_tabs(ws[w].tabs, moving).0;
        lemma_with_tabs_wf(ws, w, tabs);
        let op = EditOp::AddExisting { target_inner, moving, new_inner };
        if edit(op, tabs[k].root) is Some {
            lemma_edit_wf(op, tabs[k].root);
            let tab = TabV { root: apply_edit(op, tabs[k].root), focus: moving, ..tabs[k] };
            lemma_with_tab_wf(with_tabs(ws, w, tabs), w, k, tab);
            assert(with_tabs(ws, w, tabs.update(k, tab)) =~= with_tab(with_tabs(ws, w, tabs), w, k, tab));
        }
    }
}


// ------------------------------------------------------------ splitting and closing again

/// The focus direction that moves along `o`, forward (right, down) or back.
pub open spec fn direction_toward(o: SplitOrientation, forward: bool) -> FocusDirection {
    match o {
        SplitOrientation::Horizontal => if forward {
            FocusDirection::Right
        } else {
            FocusDirection::Left
        },
        SplitOrientation::Vertical => if forward {
            FocusDirection::Down
        } else {
            FocusDirection::Up
        },
    }
}

/// No tab of window `wid` holds terminal `n`.
pub open spec fn fresh_in_window(ws: Seq<WindowV>, wid: WindowId, n: TerminalId) -> bool {
    let w = window_index(ws, wid);
    forall|k: int| 0 <= k < ws[w].tabs.len() ==> !contains(#[trigger] ws[w].tabs[k].root, n)
}

/// Focusing a terminal changes which inner tab is active and where the
/// focus is, never the trees: the terminals, the neighbours and what a
/// removal leaves are the same.
proof fn lemma_set_focus_shape(tab: TabV, id: TerminalId, x: TerminalId, o: SplitOrientation, forward: bool)
    ensures
        contains(tab_set_focus(tab, id).0.root, x) == contains(tab.root, x),
        terminals(tab_set_focus(tab, id).0.root) == terminals(tab.root),
        adjacent(tab_set_focus(tab, id).0.root, x, o, forward) == adjacent(tab.root, x, o, forward),
        terminals(remove(tab_set_focus(tab, id).0.root, x)) == terminals(remove(tab.root, x)),
        tab_set_focus(tab, id).0.id == tab.id,
{
    if contains(tab.root, id) {
        match tab.root {
            LayoutV::Tabs { tabs, active } => {
                lemma_contains_inners(tabs, id);
                lemma_first_inner_containing(tabs, id);
                let idx = first_inner_containing(tabs, id);
                let ts = tabs.update(idx, InnerV { focus: id, ..tabs[idx] });
                assert forall|j: int| 0 <= j < ts.len() implies (#[trigger] ts[j]).root == tabs[j].root by {}
                lemma_same_group_shape(ts, tabs, idx, active, x, o, forward);
            },
            _ => {},
        }
    }
}

/// The tab that holds a terminal focuses it once told to.
proof fn lemma_set_focus_active(tab: TabV, id: TerminalId)
    requires
        contains(tab.root, id),
    ensures
        tab_active_terminal(tab_set_focus(tab, id).0) == id,
{
    match tab.root {
        LayoutV::Tabs { tabs, active } => {
            lemma_contains_inners(tabs, id);
            lemma_first_inner_containing(tabs, id);
        },
        _ => {},
    }
}

/// Where `split_terminal` puts things: the window and the tab stay where
/// they were, the tab now holds both terminals and focuses the new one, and
/// the first tab of the window that holds the new terminal is that tab.
proof fn lemma_after_split(ws: Seq<WindowV>, wid: WindowId, t: TerminalId, o: SplitOrientation, n: TerminalId)
    requires
        split_applies(ws, wid, t),
        fresh_in_window(ws, wid, n),
    ensures
        ({
            let w = window_index(ws, wid);
            let k = tab_holding(ws[w].tabs, t);
            let ws1 = spec_split_terminal(ws, wid, t, o, n);
            &&& 0 <= w < ws.len()
            &&& 0 <= k < ws[w].tabs.len()
            &&& ws1.len() == ws.len()
            &&& ws1[w].tabs.len() == ws[w].tabs.len()
            &&& forall|x: int| 0 <= x < ws.len() && x != w ==> ws1[x] == ws[x]
            &&& forall|j: int| 0 <= j < ws[w].tabs.len() && j != k ==> ws1[w].tabs[j] == ws[w].tabs[j]
            &&& ws1[w].tabs[k].id == ws[w].tabs[k].id
            &&& window_index(ws1, wid) == w
            &&& tab_holding(ws1[w].tabs, n) == k
            &&& contains(ws1[w].tabs[k].root, t)
            &&& contains(ws1[w].tabs[k].root, n)
            &&& tab_active_terminal(ws1[w].tabs[k]) == n
            &&& adjacent(ws1[w].tabs[k].root, t, o, true) == Some(n)
            &&& adjacent(ws1[w].tabs[k].root, n, o, false) == Some(t)
            &&& terminals(remove(ws1[w].tabs[k].root, n)) == terminals(ws[w].tabs[k].root)
        }),
{
    lemma_window_index(ws, wid);
    let w = window_index(ws, wid);
    lemma_tab_holding(ws[w].tabs, t);
    let k = tab_holding(ws[w].tabs, t);
    let tab = ws[w].tabs[k];
    let op = EditOp::SplitAt { target: t, orientation: o, new_terminal: n };
    assert(!contains(ws[w].tabs[k].root, n));
    lemma_split_at(tab.root, t, o, n);
    let split = with_tab_root(tab, apply_edit(op, tab.root));
    let tab1 = tab_set_focus(split, n).0;
    lemma_set_focus_shape(split, n, t, o, true);
    lemma_set_focus_shape(split, n, n, o, false);
    lemma_set_focus_active(split, n);
    let ws1 = spec_split_terminal(ws, wid, t, o, n);
    assert(ws1 == with_tab(ws, w, k, tab1));
    assert(ws1[w].tabs[k] == tab1);
    assert forall|x: int| 0 <= x < ws.len() implies has_window_id(wid)(#[trigger] ws1[x]) == has_window_id(wid)(ws[x]) by {
        if x != w {
            assert(ws1[x] == ws[x]);
        }
    }
    lemma_first_index_same(ws1, ws, has_window_id(wid));
    let tabs1 = ws1[w].tabs;
    assert forall|j: int| 0 <= j < k implies !holds_terminal(n)(#[trigger] tabs1[j]) by {
        assert(tabs1[j] == ws[w].tabs[j]);
    }
    lemma_first_index_at(tabs1, holds_terminal(n), k);
}

/// Splitting a terminal with a new one puts the new terminal into the tab
/// that held the first, next to it, and focuses it; every other tab and
/// window stays as it was.
pub proof fn law_split_places_and_focuses_new_terminal(
    ws: Seq<WindowV>,
    wid: WindowId,
    t: TerminalId,
    o: SplitOrientation,
    n: TerminalId,
)
    requires
        split_applies(ws, wid, t),
        fresh_in_window(ws, wid, n),
    ensures
        ({
            let w = window_index(ws, wid);
            let k = tab_holding(ws[w].tabs, t);
            let ws1 = spec_split_terminal(ws, wid, t, o, n);
            &&& ws1.len() == ws.len()
            &&& ws1[w].tabs.len() == ws[w].tabs.len()
            &&& forall|x: int| 0 <= x < ws.len() && x != w ==> ws1[x] == ws[x]
            &&& forall|j: int| 0 <= j < ws[w].tabs.len() && j != k ==> ws1[w].tabs[j] == ws[w].tabs[j]
            &&& contains(ws1[w].tabs[k].root, t)
            &&& contains(ws1[w].tabs[k].root, n)
            &&& tab_active_terminal(ws1[w].tabs[k]) == n
        }),
{
    lemma_after_split(ws, wid, t, o, n);
}

/// After splitting `t` along `o` with the new terminal `n`, moving the focus
/// forward along `o` from `t` reaches `n`, and moving back from `n` reaches
/// `t`.
pub proof fn law_split_neighbors(
    ws: Seq<WindowV>,
    wid: WindowId,
    tid: TabId,
    t: TerminalId,
    o: SplitOrientation,
    n: TerminalId,
)
    requires
        split_applies(ws, wid, t),
        fresh_in_window(ws, wid, n),
        tab_index(ws[window_index(ws, wid)].tabs, tid) == tab_holding(ws[window_index(ws, wid)].tabs, t),
    ensures
        spec_focus_neighbor(spec_split_terminal(ws, wid, t, o, n), wid, tid, t, direction_toward(o, true)) == Some(n),
        spec_focus_neighbor(spec_split_terminal(ws, wid, t, o, n), wid, tid, n, direction_toward(o, false)) == Some(t),
{
    lemma_after_split(ws, wid, t, o, n);
    let w = window_index(ws, wid);
    let ws1 = spec_split_terminal(ws, wid, t, o, n);
    assert forall|j: int| 0 <= j < ws[w].tabs.len() implies has_tab_id(tid)(#[trigger] ws1[w].tabs[j])
        == has_tab_id(tid)(ws[w].tabs[j]) by {}
    lemma_first_index_same(ws1[w].tabs, ws[w].tabs, has_tab_id(tid));
}

/// Closing the terminal that a split has just made leaves the tab with the
/// terminals it had before the split, and every other tab and window as it
/// was.
pub proof fn law_split_then_close_restores_terminals(
    ws: Seq<WindowV>,
    wid: WindowId,
    t: TerminalId,
    o: SplitOrientation,
    n: TerminalId,
)
    requires
        split_applies(ws, wid, t),
        fresh_in_window(ws, wid, n),
    ensures
        ({
            let w = window_index(ws, wid);
            let k = tab_holding(ws[w].tabs, t);
            let ws2 = spec_close_terminal(spec_split_terminal(ws, wid, t, o, n), wid, n);
            &&& ws2.1
            &&& ws2.0.len() == ws.len()
            &&& ws2.0[w].tabs.len() == ws[w].tabs.len()
            &&& terminals(ws2.0[w].tabs[k].root) == terminals(ws[w].tabs[k].root)
            &&& forall|x: int| 0 <= x < ws.len() && x != w ==> ws2.0[x] == ws[x]
            &&& forall|j: int| 0 <= j < ws[w].tabs.len() && j != k ==> ws2.0[w].tabs[j] == ws[w].tabs[j]
        }),
{
    lemma_after_split(ws, wid, t, o, n);
    let w = window_index(ws, wid);
    let k = tab_holding(ws[w].tabs, t);
    let ws1 = spec_split_terminal(ws, wid, t, o, n);
    assert(split_applies(ws1, wid, n));
    let tab = closed_tab(ws1, wid, n);
    assert(tab.root == remove(ws1[w].tabs[k].root, n));
    lemma_tab_holding(ws[w].tabs, t);
    lemma_contains_nonempty(ws[w].tabs[k].root, t);
    assert(!is_empty(tab.root)) by {
        if is_empty(tab.root) {
            match tab.root {
                LayoutV::Split { children, .. } => assert(terminals_nodes(children) =~= Seq::<TerminalId>::empty()),
                LayoutV::Tabs { tabs, .. } => assert(terminals_inners(tabs) =~= Seq::<TerminalId>::empty()),
                _ => {},
            }
        }
    }
    if !contains(tab.root, tab_active_terminal(tab)) {
        match first_terminal(tab.root) {
            Some(f) => {
                lemma_set_focus_shape(tab, f, n, o, true);
            },
            None => {},
        }
    }
}


// ------------------------------------------------------------ editable titles

/// Editing a title and committing the text the entry started with leaves
/// what the title shows as it was, where that text has no white space at
/// either end and a custom title is not empty: a custom title stays custom with its text, and a title that
/// follows the terminal keeps following it and shows the terminal's title.
pub proof fn law_unchanged_edit_keeps_title(v: TitleV)
    requires
        trim_white(if v.custom { v.label } else { v.last_dynamic }) == (if v.custom { v.label } else { v.last_dynamic }),
        v.custom ==> v.label.len() > 0,
    ensures
        ({
            let e = title_begin_edit(v);
            let r = title_finish_edit(e, e.entry);
            &&& r.custom == v.custom
            &&& !r.editing
            &&& r.label == if v.custom { v.label } else { v.last_dynamic }
            &&& !v.custom ==> r.flexible
        }),
{
}

/// Committing an edit that is empty once trimmed gives the title back to
/// the terminal: it is no longer custom, follows the terminal and shows the
/// terminal's last title.
pub proof fn law_empty_edit_restores_dynamic(v: TitleV, text: Seq<char>)
    requires
        trim_white(text).len() == 0,
    ensures
        !title_finish_edit(v, text).custom,
        title_finish_edit(v, text).flexible,
        title_finish_edit(v, text).label == v.last_dynamic,
{
}


/// Closing a terminal that occurs once in its tab takes it out of the tab
/// and keeps every other terminal of the tab in order; a tab left empty goes
/// (and a window left without tabs); otherwise every other tab and window
/// stays as it was.
pub proof fn law_close_terminal_takes_it_out(ws: Seq<WindowV>, wid: WindowId, t: TerminalId)
    requires
        split_applies(ws, wid, t),
        occurrences(
            terminals(ws[window_index(ws, wid)].tabs[tab_holding(ws[window_index(ws, wid)].tabs, t)].root),
            t,
        ) <= 1,
    ensures
        ({
            let w = window_index(ws, wid);
            let k = tab_holding(ws[w].tabs, t);
            let r = spec_close_terminal(ws, wid, t);
            let closed = closed_tab(ws, wid, t);
            &&& r.1
            &&& terminals(closed.root) == without(terminals(ws[w].tabs[k].root), t)
            &&& !contains(closed.root, t)
            &&& is_empty(closed.root) ==> r.0 == drop_tab(ws, w, k)
            &&& !is_empty(closed.root) ==> {
                &&& r.0.len() == ws.len()
                &&& r.0[w].tabs.len() == ws[w].tabs.len()
                &&& terminals(r.0[w].tabs[k].root) == terminals(closed.root)
                &&& forall|x: int| 0 <= x < ws.len() && x != w ==> r.0[x] == ws[x]
                &&& forall|j: int| 0 <= j < ws[w].tabs.len() && j != k ==> r.0[w].tabs[j] == ws[w].tabs[j]
            }
        }),
{
    lemma_window_index(ws, wid);
    let w = window_index(ws, wid);
    lemma_tab_holding(ws[w].tabs, t);
    let k = tab_holding(ws[w].tabs, t);
    let closed = closed_tab(ws, wid, t);
    lemma_remove_without(ws[w].tabs[k].root, t);
    lemma_without_drops(terminals(ws[w].tabs[k].root), t);
    lemma_contains_occurrences(closed.root, t);
    if !is_empty(closed.root) && !contains(closed.root, tab_active_terminal(closed)) {
        match first_terminal(closed.root) {
            Some(f) => {
                lemma_set_focus_shape(closed, f, t, SplitOrientation::Horizontal, true);
            },
            None => {},
        }
    }
}


/// Adding an inner tab puts its new terminal into the tab's tree and makes
/// it the tab's focus and its active terminal.
pub proof fn law_add_inner_tab_holds_and_focuses_new(
    ws: Seq<WindowV>,
    wid: WindowId,
    tid: TabId,
    from: TerminalId,
    inner: InnerTabId,
    n: TerminalId,
    first_inner: InnerTabId,
    group_inner: InnerTabId,
)
    requires
        tab_exists(ws, wid, tid),
    ensures
        ({
            let w = window_index(ws, wid);
            let k = tab_index(ws[w].tabs, tid);
            let tab = spec_add_inner_tab(ws, wid, tid, from, inner, n, first_inner, group_inner)[w].tabs[k];
            &&& contains(tab.root, n)
            &&& tab.focus == n
            &&& tab_active_terminal(tab) == n
        }),
{
    lemma_window_index(ws, wid);
    let w = window_index(ws, wid);
    lemma_tab_index(ws[w].tabs, tid);
    let k = tab_index(ws[w].tabs, tid);
    lemma_added_inner(ws[w].tabs[k], from, inner, n, first_inner, group_inner);
}


/// Where a window's tabs have distinct ids and its active tab is one of
/// them, making the tab after the active one active and then the tab before that one gives the window back as it
/// was.
pub proof fn law_cycle_forward_then_back_restores(ws: Seq<WindowV>, wid: WindowId)
    requires
        window_index(ws, wid) >= 0,
        0 <= ws[window_index(ws, wid)].active_tab < ws[window_index(ws, wid)].tabs.len(),
        ws[window_index(ws, wid)].tabs.len() > 1,
        forall|i: int, j: int|
            0 <= i < j < ws[window_index(ws, wid)].tabs.len() ==> (#[trigger] ws[window_index(ws, wid)].tabs[i]).id
                != (#[trigger] ws[window_index(ws, wid)].tabs[j]).id,
    ensures
        ({
            let w = window_index(ws, wid);
            let n = ws[w].tabs.len() as int;
            let fwd = spec_set_active_tab(ws, wid, ws[w].tabs[next_index(ws[w].active_tab, n, true)].id);
            let back = spec_set_active_tab(fwd, wid, fwd[w].tabs[next_index(fwd[w].active_tab, n, false)].id);
            &&& fwd[w].active_tab == next_index(ws[w].active_tab, n, true)
            &&& back == ws
        }),
{
    lemma_window_index(ws, wid);
    let w = window_index(ws, wid);
    let tabs = ws[w].tabs;
    let n = tabs.len() as int;
    let a = ws[w].active_tab;
    assert forall|j: int| 0 <= j < n implies tab_index(tabs, tabs[j].id) == j by {
        assert forall|i: int| 0 <= i < j implies !(#[trigger] has_tab_id(tabs[j].id)(tabs[i])) by {
            assert(tabs[i].id != tabs[j].id);
        }
        lemma_first_index_at(tabs, has_tab_id(tabs[j].id), j);
    }
    let f = next_index(a, n, true);
    let b = next_index(f, n, false);
    if a + 1 < n {
        assert(f == a + 1) by (nonlinear_arith)
            requires f == (a + 1) % n, 0 <= a, a + 1 < n;
        assert(b == a) by (nonlinear_arith)
            requires b == (f + n - 1) % n, f == a + 1, 0 <= a < n;
    } else {
        assert(f == 0) by (nonlinear_arith)
            requires f == (a + 1) % n, a + 1 == n, n > 1;
        assert(b == a) by (nonlinear_arith)
            requires b == (f + n - 1) % n, f == 0, a == n - 1, n > 1;
    }
    let fwd = spec_set_active_tab(ws, wid, tabs[f].id);
    assert(fwd == ws.update(w, WindowV { active_tab: f, ..ws[w] }));
    assert forall|j: int| 0 <= j < ws.len() implies has_window_id(wid)(#[trigger] ws[j]) == has_window_id(wid)(fwd[j]) by {}
    lemma_first_index_same(ws, fwd, has_window_id(wid));
    assert(window_index(fwd, wid) == w);
    let back = spec_set_active_tab(fwd, wid, fwd[w].tabs[b].id);
    assert(back =~= ws);
}


/// Removing a terminal from a tree in good shape (every split with two
/// children or more, every group with an active inner tab, so no inner tab
/// with an empty tree; the whole tree may be an empty split) leaves it in
/// good shape, and it is then an empty split exactly where it holds no
/// terminal any more.
pub proof fn law_remove_keeps_shape(v: LayoutV, t: TerminalId)
    requires
        tree_shape(v),
    ensures
        tree_shape(remove(v, t)),
        is_empty(remove(v, t)) <==> forall|u: TerminalId| !contains(#[trigger] remove(v, t), u),
{
    lemma_remove_shape(v, t);
    let r = remove(v, t);
    if is_empty(r) {
        match r {
            LayoutV::Split { children, .. } => {
                assert forall|u: TerminalId| !contains(#[trigger] remove(v, t), u) by {
                    lemma_contains_nodes(children, u);
                }
            },
            _ => {},
        }
    } else {
        lemma_shape_holds_terminal(r);
    }
}


/// Adding an inner tab to the group closest to a terminal keeps the
/// workspace well formed.
pub proof fn law_add_inner_tab_near_keeps_wf(
    ws: Seq<WindowV>,
    wid: WindowId,
    tid: TabId,
    from: TerminalId,
    inner: InnerTabId,
    n: TerminalId,
    first_inner: InnerTabId,
    group_inner: InnerTabId,
)
    requires
        workspace_wf(ws),
        tab_exists(ws, wid, tid),
    ensures
        workspace_wf(spec_add_inner_tab_near(ws, wid, tid, from, inner, n, first_inner, group_inner)),
{
    lemma_window_index(ws, wid);
    let w = window_index(ws, wid);
    lemma_tab_index(ws[w].tabs, tid);
    let k = tab_index(ws[w].tabs, tid);
    assert(window_wf(ws[w]));
    let tab = ws[w].tabs[k];
    assert(layout_wf(tab.root));
    lemma_added_inner_near(tab, from, inner, n, first_inner, group_inner);
    lemma_with_tab_wf(ws, w, k, tab_add_inner_near(tab, from, inner, n, first_inner, group_inner));
}

/// Adding an inner tab to the group closest to a terminal puts its new
/// terminal into the tab's tree and makes it the tab's focus and its active
/// terminal.
pub proof fn law_add_inner_tab_near_holds_and_focuses_new(
    ws: Seq<WindowV>,
    wid: WindowId,
    tid: TabId,
    from: TerminalId,
    inner: InnerTabId,
    n: TerminalId,
    first_inner: InnerTabId,
    group_inner: InnerTabId,
)
    requires
        tab_exists(ws, wid, tid),
    ensures
        ({
            let w = window_index(ws, wid);
            let k = tab_index(ws[w].tabs, tid);
            let tab = spec_add_inner_tab_near(ws, wid, tid, from, inner, n, first_inner, group_inner)[w].tabs[k];
            &&& contains(tab.root, n)
            &&& tab.focus == n
            &&& tab_active_terminal(tab) == n
        }),
{
    lemma_window_index(ws, wid);
    let w = window_index(ws, wid);
    lemma_tab_index(ws[w].tabs, tid);
    let k = tab_index(ws[w].tabs, tid);
    lemma_added_inner_near(ws[w].tabs[k], from, inner, n, first_inner, group_inner);
}


/// Focusing a terminal reports a change exactly when the tab changes: the
/// flag is true if and only if the tab after differs from the tab before.
pub proof fn law_set_focus_reports_change(tab: TabV, id: TerminalId)
    ensures
        tab_set_focus(tab, id).1 <==> tab_set_focus(tab, id).0 != tab,
{
    if contains(tab.root, id) {
        match tab.root {
            LayoutV::Tabs { tabs, active } => {
                lemma_contains_inners(tabs, id);
                lemma_first_inner_containing(tabs, id);
                let idx = first_inner_containing(tabs, id);
                let ts = tabs.update(idx, InnerV { focus: id, ..tabs[idx] });
                let after = tab_set_focus(tab, id).0;
                if active == idx && tabs[idx].focus == id {
                    assert(ts =~= tabs);
                } else if active != idx {
                    assert(after.root->active != tab.root->active);
                } else {
                    assert(after.root->tabs[idx].focus != tab.root->tabs[idx].focus);
                }
            },
            _ => {
                if tab.focus != id {
                    assert(tab_set_focus(tab, id).0.focus != tab.focus);
                }
            },
        }
    }
}

/// Setting the active terminal of a tab reports a change exactly when the
/// workspace changes; so it reports one whenever the tab's active terminal
/// changes.
pub proof fn law_set_active_terminal_reports_change(ws: Seq<WindowV>, wid: WindowId, tid: TabId, t: TerminalId)
    ensures
        spec_set_active_terminal(ws, wid, tid, t).1 <==> spec_set_active_terminal(ws, wid, tid, t).0 != ws,
{
    lemma_window_index(ws, wid);
    let w = window_index(ws, wid);
    if w >= 0 {
        lemma_tab_index(ws[w].tabs, tid);
        let k = tab_index(ws[w].tabs, tid);
        if k >= 0 {
            let tab = ws[w].tabs[k];
            law_set_focus_reports_change(tab, t);
            let after = tab_set_focus(tab, t).0;
            let r = with_tab(ws, w, k, after);
            if after == tab {
                assert(ws[w].tabs.update(k, after) =~= ws[w].tabs);
                assert(r =~= ws);
            } else {
                assert(r[w].tabs[k] != ws[w].tabs[k]);
            }
        }
    }
}


/// Closing a terminal never turns a split: what remains of a split is either
/// a split of the same orientation whose children are what remains of its
/// own children, or what remains of one of its children, which the split
/// gave way to.
pub proof fn law_remove_keeps_split_orientation(o: SplitOrientation, cs: Seq<LayoutV>, t: TerminalId)
    ensures
        (remove(LayoutV::Split { orientation: o, children: cs }, t) matches LayoutV::Split { orientation, children: ds }
            && orientation == o && forall|x: int| #![trigger ds[x]] 0 <= x < ds.len() ==> exists|j: int|
                0 <= j < cs.len() && ds[x] == #[trigger] remove(cs[j], t))
        || exists|j: int|
            0 <= j < cs.len() && remove(LayoutV::Split { orientation: o, children: cs }, t) == #[trigger] remove(
                cs[j],
                t,
            ),
{
    let rs = remove_nodes(cs, t);
    lemma_remove_nodes(cs, t);
    lemma_drop_empty_members(rs);
    let ds = drop_empty(rs);
    if ds.len() == 1 {
        let j = choose|j: int| 0 <= j < rs.len() && rs[j] == ds[0];
        assert(remove(cs[j], t) == ds[0]);
    } else {
        assert forall|x: int| #![trigger ds[x]] 0 <= x < ds.len() implies exists|j: int|
            0 <= j < cs.len() && ds[x] == #[trigger] remove(cs[j], t) by {
            let j = choose|j: int| 0 <= j < rs.len() && rs[j] == ds[x];
            assert(rs[j] == remove(cs[j], t));
        }
    }
}


/// Closing inner tab `iid` of a group whose inner tabs have distinct ids
/// takes out exactly that inner tab: the group left has no inner tab `iid`,
/// one inner tab fewer, and every other inner tab, in the same order, and
/// the inner tab before the closed one is active (the first, where the first
/// was closed); a group of that one inner tab only is gone.
pub proof fn law_close_inner_removes_exactly_it(tabs: Seq<InnerV>, active: int, iid: InnerTabId)
    requires
        exists|k: int| 0 <= k < tabs.len() && (#[trigger] tabs[k]).id == iid,
        forall|i: int, j: int| 0 <= i < j < tabs.len() ==> (#[trigger] tabs[i]).id != (#[trigger] tabs[j]).id,
    ensures
        ({
            let w = apply_edit(EditOp::RemoveInner { inner: iid }, LayoutV::Tabs { tabs, active });
            &&& tabs.len() == 1 ==> is_empty(w)
            &&& tabs.len() > 1 ==> (w matches LayoutV::Tabs { tabs: ts, active: a } && {
                &&& ts.len() == tabs.len() - 1
                &&& (tabs[0].id == iid ==> a == 0)
                &&& forall|k: int| 0 < k < tabs.len() && #[trigger] tabs[k].id == iid ==> ts[a] == tabs[k - 1]
                &&& forall|j: int| 0 <= j < ts.len() ==> (#[trigger] ts[j]).id != iid
                &&& forall|a: int, b: int| #![trigger tabs[a], tabs[b]]
                    0 <= a < b < tabs.len() && tabs[a].id != iid && tabs[b].id != iid ==> exists|x: int, y: int|
                        #![trigger ts[x], ts[y]]
                        0 <= x < y < ts.len() && ts[x] == tabs[a] && ts[y] == tabs[b]
                &&& forall|a: int| 0 <= a < tabs.len() && tabs[a].id != iid ==> ts.contains(#[trigger] tabs[a])
            })
        }),
{
    lemma_inner_index(tabs, iid);
    let k = inner_index(tabs, iid);
    let kk = choose|k: int| 0 <= k < tabs.len() && (#[trigger] tabs[k]).id == iid;
    if k < 0 {
        assert(tabs[kk].id == iid);
    }
    assert(k >= 0);
    if kk != k {
        if kk < k {
            assert(tabs[kk].id != tabs[k].id);
        } else {
            assert(tabs[k].id != tabs[kk].id);
        }
    }
    assert(kk == k);
    let ts = tabs.remove(k);
    if tabs.len() > 1 {
        assert forall|j: int| 0 <= j < ts.len() implies (#[trigger] ts[j]).id != iid by {
            let src = if j < k { j } else { j + 1 };
            assert(ts[j] == tabs[src]);
            if src < k {
                assert(tabs[src].id != tabs[k].id);
            } else {
                assert(tabs[k].id != tabs[src].id);
            }
        }
        assert forall|a: int| 0 <= a < tabs.len() && tabs[a].id != iid implies ts.contains(#[trigger] tabs[a]) by {
            let x = if a < k { a } else { a - 1 };
            assert(ts[x] == tabs[a]);
        }
        assert forall|a: int, b: int| #![trigger tabs[a], tabs[b]]
            0 <= a < b < tabs.len() && tabs[a].id != iid && tabs[b].id != iid implies exists|x: int, y: int|
                #![trigger ts[x], ts[y]]
                0 <= x < y < ts.len() && ts[x] == tabs[a] && ts[y] == tabs[b] by {
            let x = if a < k { a } else { a - 1 };
            let y = if b < k { b } else { b - 1 };
            assert(a != k && b != k);
            assert(ts[x] == tabs[a] && ts[y] == tabs[b]);
        }
    }
}


/// Wrapping the leaf of a terminal into a group of inner tabs, as adding an
/// inner tab next to it does, leaves every inner tab of every group focusing
/// a terminal that its own tree holds: the inner tab that takes the leaf
/// focuses the wrapped terminal, the new one its new terminal.
pub proof fn law_wrap_inner_tabs_focus_their_own(
    target: TerminalId,
    new_inner: InnerTabId,
    n: TerminalId,
    first_inner: InnerTabId,
    v: LayoutV,
)
    requires
        focus_held(v),
    ensures
        focus_held(apply_edit(EditOp::Wrap { target, new_inner, new_terminal: n, first_inner }, v)),
{
    lemma_wrap_focus_held(target, new_inner, n, first_inner, v);
}


/// In a row of terminals side by side along `o` (splits along `o` only,
/// nested or not, each with a child) with distinct terminals, moving the
/// focus forward along `o` from a terminal reaches the very next terminal of
/// the row, and from the last one reaches none: nested splits of the same
/// orientation behave as one, so in A | (B | C) the right of A is B.
pub proof fn law_row_forward_reaches_next(v: LayoutV, o: SplitOrientation, k: int)
    requires
        row(v, o),
        terminals(v).no_duplicates(),
        0 <= k < terminals(v).len(),
    ensures
        adjacent(v, terminals(v)[k], o, true) == if k + 1 < terminals(v).len() {
            Some(terminals(v)[k + 1])
        } else {
            None
        },
{
    lemma_row_adjacent(v, o, k);
}

/// In a row of terminals side by side along `o` with distinct terminals,
/// moving the focus back along `o` from a terminal reaches the terminal just
/// before it in the row, and from the first one reaches none: in
/// (A | B) | C the left of C is B.
pub proof fn law_row_back_reaches_previous(v: LayoutV, o: SplitOrientation, k: int)
    requires
        row(v, o),
        terminals(v).no_duplicates(),
        0 <= k < terminals(v).len(),
    ensures
        adjacent(v, terminals(v)[k], o, false) == if k > 0 {
            Some(terminals(v)[k - 1])
        } else {
            None
        },
{
    lemma_row_adjacent_back(v, o, k);
}


/// Taking a terminal out of a split to place it elsewhere keeps the split,
/// with its orientation, even where one child is left.
pub proof fn law_detach_keeps_split(o: SplitOrientation, cs: Seq<LayoutV>, t: TerminalId)
    ensures
        strip(LayoutV::Split { orientation: o, children: cs }, t, false) matches LayoutV::Split { orientation, .. }
            && orientation == o,
{
}


/// Splitting a terminal, wrapping one into a group, adding an inner tab to a
/// group (with a new or an existing terminal) and renaming an inner tab all
/// leave every inner tab of every group focusing a terminal that its own
/// tree holds.
pub proof fn law_edits_keep_inner_focus_held(op: EditOp, v: LayoutV)
    requires
        !(op is RemoveInner),
        focus_held(v),
    ensures
        focus_held(apply_edit(op, v)),
{
    lemma_edit_focus_held(op, v);
}

} // verus!
