//! Decisions a window makes around the model: the tab that comes next, the
//! text of its title bar, how wide tab labels may be, and which terminal a
//! request for a new tab or split starts from.
use vstd::prelude::*;
use crate::model::{TabId, TerminalId, WindowModel};
use crate::workspace_spec::WindowV;

verus! {

/// The index after (`forward`) or before `active` among `len` tabs, going
/// round at either end.
pub open spec fn next_index(active: int, len: int, forward: bool) -> int {
    if forward {
        (active + 1) % len
    } else {
        (active + len - 1) % len
    }
}

/// The index after (`forward`) or before `current` among `len`, going round
/// at either end (see `next_index`).
pub fn cycle_index(current: usize, len: usize, forward: bool) -> (r: usize)
    requires
        len > 0,
        forward ==> current + 1 <= usize::MAX,
        !forward ==> current + len <= usize::MAX,
    ensures
        r == next_index(current as int, len as int, forward),
        r < len,
{
    if forward {
        (current + 1) % len
    } else {
        (current + len - 1) % len
    }
}

/// The text of a window's title bar and whether it follows the terminal:
/// the terminal's title while the active tab's title is flexible and the
/// user typed none for the bar; else the bar's own title, or the window's
/// title and the tab's.
pub open spec fn window_heading(
    window_title: Seq<char>,
    tab_title: Seq<char>,
    custom: bool,
    tab_flexible: bool,
    terminal_title: Seq<char>,
) -> (Seq<char>, bool) {
    if !custom && tab_flexible {
        (terminal_title, true)
    } else if custom {
        (window_title, false)
    } else {
        (window_title + " — "@ + tab_title, false)
    }
}

/// A label's width budget in characters: the notebook's width shared by
/// its pages, less 40 pixels for the close button, at least 40 pixels, at
/// about 9 pixels a character, between 8 and 50. A page count beyond `i32`
/// counts as negative, as the conversion to `i32` wraps it, and leaves the
/// least budget.
pub open spec fn tab_label_chars(width: i32, pages: u32) -> int {
    let w: int = if width < 1 {
        1
    } else {
        width as int
    };
    let n: int = if pages < 1 {
        1
    } else {
        pages as int
    };
    let per_px: int = if n > i32::MAX {
        40
    } else if w / n - 40 < 40 {
        40
    } else {
        w / n - 40
    };
    let chars = per_px / 9;
    if chars < 8 {
        8
    } else if chars > 50 {
        50
    } else {
        chars
    }
}

/// A label's width budget in characters (see `tab_label_chars`).
pub fn tab_label_max_chars(width: i32, pages: u32) -> (r: i32)
    ensures
        r == tab_label_chars(width, pages),
{
    let w: i32 = if width < 1 {
        1
    } else {
        width
    };
    let n: u32 = if pages < 1 {
        1
    } else {
        pages
    };
    let per_px: i32 = if n > 2147483647 {
        40
    } else {
        let q: i32 = w / (n as i32);
        if q - 40 < 40 {
            40
        } else {
            q - 40
        }
    };
    let chars: i32 = per_px / 9;
    if chars < 8 {
        8
    } else if chars > 50 {
        50
    } else {
        chars
    }
}

/// The terminal a request starts from: the one that last had the focus in
/// the window, where that was in the current tab, else the active one.
pub open spec fn preferred(
    last_focus: Option<(TabId, TerminalId)>,
    current_tab: Option<TabId>,
    active: Option<TerminalId>,
) -> Option<TerminalId> {
    match (last_focus, current_tab) {
        (Some((tab, term)), Some(cur)) => if tab == cur {
            Some(term)
        } else {
            active
        },
        _ => active,
    }
}

/// The terminal a request starts from (see `preferred`).
pub fn preferred_terminal(
    last_focus: Option<(TabId, TerminalId)>,
    current_tab: Option<TabId>,
    active: Option<TerminalId>,
) -> (r: Option<TerminalId>)
    ensures
        r == preferred(last_focus, current_tab, active),
{
    match (last_focus, current_tab) {
        (Some((tab, term)), Some(cur)) => if tab == cur {
            Some(term)
        } else {
            active
        },
        _ => active,
    }
}

impl WindowModel {
    /// The tab that comes after (`forward`) or before the active one, going
    /// round; none where the window has fewer than two tabs.
    pub fn cycle_tab_target(&self, forward: bool) -> (r: Option<TabId>)
        requires
            forward ==> self.active_tab + 1 <= usize::MAX,
            !forward ==> self.active_tab + self.tabs@.len() <= usize::MAX,
        ensures
            self.tabs@.len() <= 1 ==> r is None,
            self.tabs@.len() > 1 ==> r == Some(
                self.tabs@[next_index(self.active_tab as int, self.tabs@.len() as int, forward)].id,
            ),
    {
        let len = self.tabs.len();
        if len <= 1 {
            return None;
        }
        let next = cycle_index(self.active_tab, len, forward);
        Some(self.tabs[next].id)
    }

    /// The text of the window's title bar and whether it follows the
    /// terminal (see `window_heading`), `terminal_title` being the title of
    /// the active tab's terminal.
    pub fn heading(&self, custom: bool, terminal_title: &str) -> (r: (String, bool))
        requires
            self.active_tab < self.tabs@.len(),
        ensures
            (r.0@, r.1) == window_heading(
                self.title@,
                self.tabs@[self.active_tab as int].title@,
                custom,
                self.tabs@[self.active_tab as int].title_flexible,
                terminal_title@,
            ),
    {
        let tab = &self.tabs[self.active_tab];
        if !custom && tab.title_flexible {
            (String::from_str(terminal_title), true)
        } else if custom {
            (self.title.clone(), false)
        } else {
            let mut text = self.title.clone();
            text.append(" — ");
            text.append(tab.title.as_str());
            (text, false)
        }
    }
}

} // verus!
