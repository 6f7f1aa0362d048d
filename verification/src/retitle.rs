//! A terminal got a new title: the tabs whose title follows it take it as
//! their dynamic title, and the tabs, inner tabs and windows that show it
//! are to be redrawn.
use vstd::prelude::*;
use crate::view::lemma_inners_view;
use crate::model::{tabs_view, windows_view, LayoutNode, InnerTabId, TabId, TerminalId, WindowId, WorkspaceModel};
use crate::layout_spec::find_inner_id;
use crate::text::{format_terminal_title, terminal_title};
use crate::title_edit::opt_str;
use crate::workspace_spec::{tab_active_terminal, tab_wf, TabV, WindowV};

verus! {

/// A tab whose title follows the terminal `t` that it has in focus.
pub open spec fn takes_title(tab: TabV, t: TerminalId) -> bool {
    tab.title_flexible && tab_active_terminal(tab) == t
}

/// A tab after terminal `t` got the window title `wt` in directory `dir`:
/// where its title follows `t`, its dynamic title is the terminal's title,
/// with the window's title and the tab's as the fallback.
pub open spec fn retitled_tab(
    win: WindowV,
    tab: TabV,
    t: TerminalId,
    wt: Option<Seq<char>>,
    dir: Option<Seq<char>>,
) -> TabV {
    if takes_title(tab, t) {
        TabV { dynamic_title: terminal_title(wt, dir, win.title + " — "@ + tab.title, true), ..tab }
    } else {
        tab
    }
}

pub open spec fn retitled_window(win: WindowV, t: TerminalId, wt: Option<Seq<char>>, dir: Option<Seq<char>>) -> WindowV {
    WindowV { tabs: Seq::new(win.tabs.len(), |k: int| retitled_tab(win, win.tabs[k], t, wt, dir)), ..win }
}

/// The windows after terminal `t` got a new title (see `retitled_tab`).
pub open spec fn retitled(ws: Seq<WindowV>, t: TerminalId, wt: Option<Seq<char>>, dir: Option<Seq<char>>) -> Seq<WindowV> {
    Seq::new(ws.len(), |w: int| retitled_window(ws[w], t, wt, dir))
}

/// The title bar of a window shows terminal `t`'s title: a tab that takes
/// the title has the id of the active tab, whose focus is `t`.
pub open spec fn window_shows(win: WindowV, t: TerminalId) -> bool {
    &&& 0 <= win.active_tab < win.tabs.len()
    &&& tab_active_terminal(win.tabs[win.active_tab]) == t
    &&& exists|k: int| 0 <= k < win.tabs.len() && takes_title(#[trigger] win.tabs[k], t) && win.tabs[k].id == win.tabs[win.active_tab].id
}

/// The labels of the tabs that take terminal `t`'s title.
pub open spec fn tab_refreshes(ws: Seq<WindowV>, t: TerminalId) -> Set<(WindowId, TabId)> {
    Set::new(|p: (WindowId, TabId)| exists|w: int, k: int|
        0 <= w < ws.len() && 0 <= k < ws[w].tabs.len() && takes_title(#[trigger] ws[w].tabs[k], t) && p == (ws[w].id, ws[w].tabs[k].id))
}

/// The labels of the inner tabs that hold terminal `t` (see `find_inner_id`).
pub open spec fn inner_refreshes(ws: Seq<WindowV>, t: TerminalId) -> Set<(WindowId, InnerTabId)> {
    Set::new(|p: (WindowId, InnerTabId)| exists|w: int, k: int|
        0 <= w < ws.len() && 0 <= k < ws[w].tabs.len() && #[trigger] find_inner_id(ws[w].tabs[k].root, t) == Some(p.1)
            && p.0 == ws[w].id)
}

/// The title bars that show terminal `t`'s title (see `window_shows`).
pub open spec fn window_refreshes(ws: Seq<WindowV>, t: TerminalId) -> Set<WindowId> {
    Set::new(|id: WindowId| exists|w: int| 0 <= w < ws.len() && window_shows(#[trigger] ws[w], t) && ws[w].id == id)
}

/// Every tab reads the focus of an inner tab that is there.
pub open spec fn tabs_readable(ws: Seq<WindowV>) -> bool {
    forall|w: int, k: int| 0 <= w < ws.len() && 0 <= k < ws[w].tabs.len() ==> tab_wf(#[trigger] ws[w].tabs[k])
}

/// What a new title of a terminal asks to redraw; each at most once.
pub struct TitleRefresh {
    pub tabs: Vec<(WindowId, TabId)>,
    pub inner_tabs: Vec<(WindowId, InnerTabId)>,
    pub windows: Vec<WindowId>,
}

fn push_tab_once(v: &mut Vec<(WindowId, TabId)>, p: (WindowId, TabId))
    ensures
        final(v)@.to_set() == old(v)@.to_set().insert(p),
        old(v)@.no_duplicates() ==> final(v)@.no_duplicates(),
{
    let mut i: usize = 0;
    while i < v.len()
        invariant
            i <= v@.len(),
            v@ == old(v)@,
            forall|j: int| 0 <= j < i ==> v@[j] != p,
        decreases v@.len() - i,
    {
        if v[i].0 == p.0 && v[i].1 == p.1 {
            proof {
                assert(v@.to_set() =~= v@.to_set().insert(p)) by {
                    assert(v@.contains(p));
                }
            }
            return;
        }
        i += 1;
    }
    let ghost before = v@;
    v.push(p);
    proof {
        assert(v@.to_set() =~= before.to_set().insert(p)) by {
            assert forall|x| v@.to_set().contains(x) <==> before.to_set().insert(p).contains(x) by {
                if v@.contains(x) && x != p {
                    let j = choose|j: int| 0 <= j < v@.len() && v@[j] == x;
                    assert(before[j] == x);
                }
                if before.contains(x) {
                    let j = choose|j: int| 0 <= j < before.len() && before[j] == x;
                    assert(v@[j] == x);
                }
                if x == p {
                    assert(v@[before.len() as int] == p);
                }
            }
        }
    }
}

fn push_inner_once(v: &mut Vec<(WindowId, InnerTabId)>, p: (WindowId, InnerTabId))
    ensures
        final(v)@.to_set() == old(v)@.to_set().insert(p),
        old(v)@.no_duplicates() ==> final(v)@.no_duplicates(),
{
    let mut i: usize = 0;
    while i < v.len()
        invariant
            i <= v@.len(),
            v@ == old(v)@,
            forall|j: int| 0 <= j < i ==> v@[j] != p,
        decreases v@.len() - i,
    {
        if v[i].0 == p.0 && v[i].1 == p.1 {
            proof {
                assert(v@.to_set() =~= v@.to_set().insert(p)) by {
                    assert(v@.contains(p));
                }
            }
            return;
        }
        i += 1;
    }
    let ghost before = v@;
    v.push(p);
    proof {
        assert(v@.to_set() =~= before.to_set().insert(p)) by {
            assert forall|x| v@.to_set().contains(x) <==> before.to_set().insert(p).contains(x) by {
                if v@.contains(x) && x != p {
                    let j = choose|j: int| 0 <= j < v@.len() && v@[j] == x;
                    assert(before[j] == x);
                }
                if before.contains(x) {
                    let j = choose|j: int| 0 <= j < before.len() && before[j] == x;
                    assert(v@[j] == x);
                }
                if x == p {
                    assert(v@[before.len() as int] == p);
                }
            }
        }
    }
}

fn push_window_once(v: &mut Vec<WindowId>, p: WindowId)
    ensures
        final(v)@.to_set() == old(v)@.to_set().insert(p),
        old(v)@.no_duplicates() ==> final(v)@.no_duplicates(),
{
    let mut i: usize = 0;
    while i < v.len()
        invariant
            i <= v@.len(),
            v@ == old(v)@,
            forall|j: int| 0 <= j < i ==> v@[j] != p,
        decreases v@.len() - i,
    {
        if v[i] == p {
            proof {
                assert(v@.to_set() =~= v@.to_set().insert(p)) by {
                    assert(v@.contains(p));
                }
            }
            return;
        }
        i += 1;
    }
    let ghost before = v@;
    v.push(p);
    proof {
        assert(v@.to_set() =~= before.to_set().insert(p)) by {
            assert forall|x| v@.to_set().contains(x) <==> before.to_set().insert(p).contains(x) by {
                if v@.contains(x) && x != p {
                    let j = choose|j: int| 0 <= j < v@.len() && v@[j] == x;
                    assert(before[j] == x);
                }
                if before.contains(x) {
                    let j = choose|j: int| 0 <= j < before.len() && before[j] == x;
                    assert(v@[j] == x);
                }
                if x == p {
                    assert(v@[before.len() as int] == p);
                }
            }
        }
    }
}


/// The tabs that take terminal `t`'s title among the windows before `w` and
/// the tabs before `k` of window `w`.
pub open spec fn tab_refreshes_upto(ws: Seq<WindowV>, t: TerminalId, w: int, k: int) -> Set<(WindowId, TabId)> {
    Set::new(|p: (WindowId, TabId)| exists|x: int, j: int|
        ((0 <= x < w && 0 <= j < ws[x].tabs.len()) || (x == w && 0 <= j < k)) && takes_title(#[trigger] ws[x].tabs[j], t)
            && p == (ws[x].id, ws[x].tabs[j].id))
}

/// The inner tabs that hold terminal `t` among the windows before `w` and
/// the tabs before `k` of window `w`.
pub open spec fn inner_refreshes_upto(ws: Seq<WindowV>, t: TerminalId, w: int, k: int) -> Set<(WindowId, InnerTabId)> {
    Set::new(|p: (WindowId, InnerTabId)| exists|x: int, j: int|
        ((0 <= x < w && 0 <= j < ws[x].tabs.len()) || (x == w && 0 <= j < k)) && #[trigger] find_inner_id(
            ws[x].tabs[j].root,
            t,
        ) == Some(p.1) && p.0 == ws[x].id)
}

/// The title bars that show terminal `t`'s title among the windows before `w`.
pub open spec fn window_refreshes_upto(ws: Seq<WindowV>, t: TerminalId, w: int) -> Set<WindowId> {
    Set::new(|id: WindowId| exists|x: int| 0 <= x < w && window_shows(#[trigger] ws[x], t) && ws[x].id == id)
}

proof fn lemma_tab_refreshes_step(ws: Seq<WindowV>, t: TerminalId, w: int, k: int)
    requires
        0 <= w < ws.len(),
        0 <= k < ws[w].tabs.len(),
    ensures
        tab_refreshes_upto(ws, t, w, k + 1) == if takes_title(ws[w].tabs[k], t) {
            tab_refreshes_upto(ws, t, w, k).insert((ws[w].id, ws[w].tabs[k].id))
        } else {
            tab_refreshes_upto(ws, t, w, k)
        },
{
    let a = tab_refreshes_upto(ws, t, w, k + 1);
    let b = tab_refreshes_upto(ws, t, w, k);
    if takes_title(ws[w].tabs[k], t) {
        let p = (ws[w].id, ws[w].tabs[k].id);
        assert(a.contains(p));
        assert(a =~= b.insert(p));
    } else {
        assert(a =~= b);
    }
}

proof fn lemma_inner_refreshes_step(ws: Seq<WindowV>, t: TerminalId, w: int, k: int)
    requires
        0 <= w < ws.len(),
        0 <= k < ws[w].tabs.len(),
    ensures
        inner_refreshes_upto(ws, t, w, k + 1) == match find_inner_id(ws[w].tabs[k].root, t) {
            Some(i) => inner_refreshes_upto(ws, t, w, k).insert((ws[w].id, i)),
            None => inner_refreshes_upto(ws, t, w, k),
        },
{
    let a = inner_refreshes_upto(ws, t, w, k + 1);
    let b = inner_refreshes_upto(ws, t, w, k);
    match find_inner_id(ws[w].tabs[k].root, t) {
        Some(i) => {
            let p = (ws[w].id, i);
            assert(a.contains(p));
            assert(a =~= b.insert(p));
        },
        None => {
            assert(a =~= b);
        },
    }
}

proof fn lemma_refreshes_next_window(ws: Seq<WindowV>, t: TerminalId, w: int)
    requires
        0 <= w < ws.len(),
    ensures
        tab_refreshes_upto(ws, t, w, ws[w].tabs.len() as int) == tab_refreshes_upto(ws, t, w + 1, 0),
        inner_refreshes_upto(ws, t, w, ws[w].tabs.len() as int) == inner_refreshes_upto(ws, t, w + 1, 0),
        window_refreshes_upto(ws, t, w + 1) == if window_shows(ws[w], t) {
            window_refreshes_upto(ws, t, w).insert(ws[w].id)
        } else {
            window_refreshes_upto(ws, t, w)
        },
{
    assert(tab_refreshes_upto(ws, t, w, ws[w].tabs.len() as int) =~= tab_refreshes_upto(ws, t, w + 1, 0));
    assert(inner_refreshes_upto(ws, t, w, ws[w].tabs.len() as int) =~= inner_refreshes_upto(ws, t, w + 1, 0));
    let a = window_refreshes_upto(ws, t, w + 1);
    let b = window_refreshes_upto(ws, t, w);
    if window_shows(ws[w], t) {
        assert(a.contains(ws[w].id));
        assert(a =~= b.insert(ws[w].id));
    } else {
        assert(a =~= b);
    }
}

proof fn lemma_refreshes_start_end(ws: Seq<WindowV>, t: TerminalId)
    ensures
        tab_refreshes_upto(ws, t, 0, 0) == Set::<(WindowId, TabId)>::empty(),
        inner_refreshes_upto(ws, t, 0, 0) == Set::<(WindowId, InnerTabId)>::empty(),
        window_refreshes_upto(ws, t, 0) == Set::<WindowId>::empty(),
        tab_refreshes_upto(ws, t, ws.len() as int, 0) == tab_refreshes(ws, t),
        inner_refreshes_upto(ws, t, ws.len() as int, 0) == inner_refreshes(ws, t),
        window_refreshes_upto(ws, t, ws.len() as int) == window_refreshes(ws, t),
{
    assert(tab_refreshes_upto(ws, t, 0, 0) =~= Set::<(WindowId, TabId)>::empty());
    assert(inner_refreshes_upto(ws, t, 0, 0) =~= Set::<(WindowId, InnerTabId)>::empty());
    assert(window_refreshes_upto(ws, t, 0) =~= Set::<WindowId>::empty());
    assert(tab_refreshes_upto(ws, t, ws.len() as int, 0) =~= tab_refreshes(ws, t));
    assert(inner_refreshes_upto(ws, t, ws.len() as int, 0) =~= inner_refreshes(ws, t));
    assert(window_refreshes_upto(ws, t, ws.len() as int) =~= window_refreshes(ws, t));
}


impl WorkspaceModel {
    /// Whether every tab whose tree is a group has a valid active inner tab,
    /// as `refresh_terminal_title` asks (see `tabs_readable`).
    #[verifier::loop_isolation(false)]
    pub fn can_refresh_titles(&self) -> (r: bool)
        ensures
            r == tabs_readable(self@),
    {
        let mut w: usize = 0;
        while w < self.windows.len()
            invariant
                w <= self.windows@.len(),
                forall|x: int, k: int| 0 <= x < w && 0 <= k < self@[x].tabs.len() ==> tab_wf(#[trigger] self@[x].tabs[k]),
            decreases self.windows@.len() - w,
        {
            let mut k: usize = 0;
            while k < self.windows[w].tabs.len()
                invariant
                    w < self.windows@.len(),
                    k <= self.windows@[w as int].tabs@.len(),
                    forall|x: int, j: int| 0 <= x < w && 0 <= j < self@[x].tabs.len() ==> tab_wf(#[trigger] self@[x].tabs[j]),
                    forall|j: int| 0 <= j < k ==> tab_wf(#[trigger] self@[w as int].tabs[j]),
                decreases self.windows@[w as int].tabs@.len() - k,
            {
                proof {
                    assert(self@[w as int].tabs[k as int] == self.windows@[w as int].tabs@[k as int]@);
                }
                match &self.windows[w].tabs[k].root {
                    LayoutNode::Tabs(group) => {
                        proof { lemma_inners_view(group.tabs@); }
                        if group.active >= group.tabs.len() {
                            proof { assert(!tab_wf(self@[w as int].tabs[k as int])); }
                            return false;
                        }
                    },
                    _ => {},
                }
                k += 1;
            }
            w += 1;
        }
        true
    }

    /// Terminal `terminal_id` got the window title `window_title` in the
    /// directory `directory`: every tab whose title follows it takes the
    /// terminal's title as its dynamic title (see `retitled`); returns the
    /// tab labels, inner tab labels and title bars to redraw, each once.
    #[verifier::loop_isolation(false)]
    pub fn refresh_terminal_title(
        &mut self,
        terminal_id: TerminalId,
        window_title: Option<&str>,
        directory: Option<&str>,
    ) -> (r: TitleRefresh)
        requires
            tabs_readable(old(self)@),
        ensures
            final(self)@ == retitled(old(self)@, terminal_id, opt_str(window_title), opt_str(directory)),
            final(self).keybindings == old(self).keybindings,
            r.tabs@.to_set() == tab_refreshes(old(self)@, terminal_id),
            r.tabs@.no_duplicates(),
            r.inner_tabs@.to_set() == inner_refreshes(old(self)@, terminal_id),
            r.inner_tabs@.no_duplicates(),
            r.windows@.to_set() == window_refreshes(old(self)@, terminal_id),
            r.windows@.no_duplicates(),
    {
        let ghost ws0 = self@;
        let ghost wt = opt_str(window_title);
        let ghost dir = opt_str(directory);
        let ghost t = terminal_id;
        let mut out = TitleRefresh { tabs: Vec::new(), inner_tabs: Vec::new(), windows: Vec::new() };
        proof {
            lemma_refreshes_start_end(ws0, t);
            assert(out.tabs@.to_set() =~= Set::<(WindowId, TabId)>::empty());
            assert(out.inner_tabs@.to_set() =~= Set::<(WindowId, InnerTabId)>::empty());
            assert(out.windows@.to_set() =~= Set::<WindowId>::empty());
        }
        let mut w: usize = 0;
        while w < self.windows.len()
            invariant
                w <= self.windows@.len(),
                self.windows@.len() == ws0.len(),
                forall|x: int| 0 <= x < w ==> #[trigger] self@[x] == retitled_window(ws0[x], t, wt, dir),
                forall|x: int| w <= x < ws0.len() ==> #[trigger] self@[x] == ws0[x],
                self.keybindings == old(self).keybindings,
                out.tabs@.to_set() == tab_refreshes_upto(ws0, t, w as int, 0),
                out.inner_tabs@.to_set() == inner_refreshes_upto(ws0, t, w as int, 0),
                out.windows@.to_set() == window_refreshes_upto(ws0, t, w as int),
                out.tabs@.no_duplicates(),
                out.inner_tabs@.no_duplicates(),
                out.windows@.no_duplicates(),
            decreases ws0.len() - w,
        {
            let ghost win0 = ws0[w as int];
            proof {
                assert(self@[w as int] == self.windows@[w as int]@);
                assert(self@[w as int] == win0);
                assert(tabs_view(self.windows@[w as int].tabs@) == win0.tabs);
            }
            let window_id = self.windows[w].id;
            let active_index = self.windows[w].active_tab;
            let mut active_id: Option<TabId> = None;
            let mut active_term: Option<TerminalId> = None;
            if active_index < self.windows[w].tabs.len() {
                proof {
                    assert(win0.tabs[active_index as int] == self.windows@[w as int].tabs@[active_index as int]@);
                    assert(tab_wf(ws0[w as int].tabs[active_index as int]));
                }
                active_id = Some(self.windows[w].tabs[active_index].id);
                active_term = Some(self.windows[w].tabs[active_index].active_terminal());
            }
            let mut shows = false;
            let mut k: usize = 0;
            while k < self.windows[w].tabs.len()
                invariant
                    k <= self.windows@[w as int].tabs@.len(),
                    self.windows@.len() == ws0.len(),
                    self@[w as int].tabs.len() == win0.tabs.len(),
                    self@[w as int].id == win0.id,
                    self@[w as int].title == win0.title,
                    self@[w as int].active_tab == win0.active_tab,
                    window_id == win0.id,
                    forall|j: int| 0 <= j < k ==> #[trigger] self@[w as int].tabs[j] == retitled_tab(win0, win0.tabs[j], t, wt, dir),
                    forall|j: int| k <= j < win0.tabs.len() ==> #[trigger] self@[w as int].tabs[j] == win0.tabs[j],
                    forall|x: int| 0 <= x < w ==> #[trigger] self@[x] == retitled_window(ws0[x], t, wt, dir),
                    forall|x: int| w < x < ws0.len() ==> #[trigger] self@[x] == ws0[x],
                    self.keybindings == old(self).keybindings,
                    out.tabs@.to_set() == tab_refreshes_upto(ws0, t, w as int, k as int),
                    out.inner_tabs@.to_set() == inner_refreshes_upto(ws0, t, w as int, k as int),
                    out.windows@.to_set() == window_refreshes_upto(ws0, t, w as int),
                    out.tabs@.no_duplicates(),
                    out.inner_tabs@.no_duplicates(),
                    out.windows@.no_duplicates(),
                    active_id == (if 0 <= win0.active_tab < win0.tabs.len() {
                        Some(win0.tabs[win0.active_tab].id)
                    } else {
                        None::<TabId>
                    }),
                    active_term == (if 0 <= win0.active_tab < win0.tabs.len() {
                        Some(tab_active_terminal(win0.tabs[win0.active_tab]))
                    } else {
                        None::<TerminalId>
                    }),
                    shows == (0 <= win0.active_tab < win0.tabs.len() && tab_active_terminal(win0.tabs[win0.active_tab]) == t
                        && exists|j: int| 0 <= j < k && takes_title(#[trigger] win0.tabs[j], t) && win0.tabs[j].id
                            == win0.tabs[win0.active_tab].id),
                decreases win0.tabs.len() - k,
            {
                let ghost before = self@;
                proof {
                    assert(self@[w as int] == self.windows@[w as int]@);
                    assert(tabs_view(self.windows@[w as int].tabs@)[k as int] == self.windows@[w as int].tabs@[k as int]@);
                    assert(self@[w as int].tabs[k as int] == win0.tabs[k as int]);
                    assert(tab_wf(ws0[w as int].tabs[k as int]));
                    lemma_tab_refreshes_step(ws0, t, w as int, k as int);
                    lemma_inner_refreshes_step(ws0, t, w as int, k as int);
                }
                let tab_id = self.windows[w].tabs[k].id;
                let takes = self.windows[w].tabs[k].title_flexible && self.windows[w].tabs[k].active_terminal()
                    == terminal_id;
                if takes {
                    let mut fallback = self.windows[w].title.clone();
                    fallback.append(" — ");
                    fallback.append(self.windows[w].tabs[k].title.as_str());
                    let dynamic = format_terminal_title(window_title, directory, fallback.as_str(), true);
                    self.windows[w].tabs[k].dynamic_title = dynamic;
                    push_tab_once(&mut out.tabs, (window_id, tab_id));
                    match (active_id, active_term) {
                        (Some(a), Some(at)) => {
                            if a == tab_id && at == terminal_id {
                                shows = true;
                            }
                        },
                        _ => {},
                    }
                }
                match self.windows[w].tabs[k].root.find_inner_id_for_terminal(terminal_id) {
                    Some(inner_id) => push_inner_once(&mut out.inner_tabs, (window_id, inner_id)),
                    None => {},
                }
                proof {
                    assert(tabs_view(self.windows@[w as int].tabs@) =~= before[w as int].tabs.update(
                        k as int,
                        self.windows@[w as int].tabs@[k as int]@,
                    ));
                    assert(self@ =~= before.update(w as int, self.windows@[w as int]@));
                    assert(self@[w as int].tabs[k as int] == retitled_tab(win0, win0.tabs[k as int], t, wt, dir));
                    assert forall|x: int| 0 <= x < w implies #[trigger] self@[x] == retitled_window(ws0[x], t, wt, dir) by {
                        assert(self@[x] == before[x]);
                    }
                    assert forall|x: int| w < x < ws0.len() implies #[trigger] self@[x] == ws0[x] by {
                        assert(self@[x] == before[x]);
                    }
                    assert forall|j: int| 0 <= j < k + 1 implies #[trigger] self@[w as int].tabs[j] == retitled_tab(
                        win0,
                        win0.tabs[j],
                        t,
                        wt,
                        dir,
                    ) by {
                        if j < k {
                            assert(self@[w as int].tabs[j] == before[w as int].tabs[j]);
                        }
                    }
                    assert forall|j: int| k + 1 <= j < win0.tabs.len() implies #[trigger] self@[w as int].tabs[j]
                        == win0.tabs[j] by {
                        assert(self@[w as int].tabs[j] == before[w as int].tabs[j]);
                    }
                    if takes && 0 <= win0.active_tab < win0.tabs.len() && tab_active_terminal(win0.tabs[win0.active_tab]) == t
                        && win0.tabs[k as int].id == win0.tabs[win0.active_tab].id {
                        assert(takes_title(win0.tabs[k as int], t));
                    }
                }
                k += 1;
            }
            proof {
                lemma_refreshes_next_window(ws0, t, w as int);
                assert(self@[w as int] =~= retitled_window(win0, t, wt, dir)) by {
                    assert(self@[w as int].tabs =~= retitled_window(win0, t, wt, dir).tabs);
                }
            }
            if shows {
                push_window_once(&mut out.windows, window_id);
            }
            proof {
                assert(shows == window_shows(win0, t));
            }
            w += 1;
        }
        proof {
            lemma_refreshes_start_end(ws0, t);
            assert(self@ =~= retitled(ws0, t, wt, dir));
        }
        out
    }
}

} // verus!
