//! What an editable title shows and remembers: the window's title bar and
//! the label of each tab. A title follows the terminal ("dynamic") until the
//! user types one of their own ("custom"); an empty edit gives it back to
//! the terminal. The widgets that show it live with the application.
use vstd::prelude::*;
use crate::text::{trim_white, trim_white_space};

verus! {

/// The state of an editable title as the specifications see it.
pub struct TitleV {
    /// The text the label shows.
    pub label: Seq<char>,
    /// The text in the entry while editing.
    pub entry: Seq<char>,
    /// The entry is shown in place of the label.
    pub editing: bool,
    /// The user typed the title.
    pub custom: bool,
    /// The title follows the terminal.
    pub flexible: bool,
    /// The last title the terminal gave.
    pub last_dynamic: Seq<char>,
    /// The text shown where the terminal gives none.
    pub fallback: Seq<char>,
    /// The text the current edit started from.
    pub original: Seq<char>,
    /// Whether the title was custom when the current edit started.
    pub was_custom: bool,
}

pub open spec fn opt_str(o: Option<&str>) -> Option<Seq<char>> {
    match o {
        Some(s) => Some(s@),
        None => None,
    }
}

/// A title from the terminal: shown unless the title is custom or not
/// flexible; no title shows the fallback.
pub open spec fn title_update_dynamic(v: TitleV, title: Option<Seq<char>>) -> TitleV {
    if !v.flexible || v.custom {
        v
    } else {
        match title {
            Some(t) => TitleV { label: t, last_dynamic: t, ..v },
            None => TitleV { label: v.fallback, ..v },
        }
    }
}

/// Start editing: the entry holds the custom title, or else the last title
/// the terminal gave.
pub open spec fn title_begin_edit(v: TitleV) -> TitleV {
    let current = if v.custom {
        v.label
    } else {
        v.last_dynamic
    };
    TitleV { original: current, was_custom: v.custom, entry: current, editing: true, ..v }
}

/// Finish editing with `text`: trimmed, an empty text, or on a title that
/// was not custom the text it started from, gives the title back to the
/// terminal; any other text becomes the custom title.
pub open spec fn title_finish_edit(v: TitleV, text: Seq<char>) -> TitleV {
    let t = trim_white(text);
    if t.len() == 0 || (!v.was_custom && t == v.original) {
        TitleV { custom: false, flexible: true, label: v.last_dynamic, editing: false, ..v }
    } else {
        TitleV { custom: true, flexible: false, label: t, fallback: t, editing: false, ..v }
    }
}

/// The title bar: whether it follows the terminal; when it does, it shows
/// the last title the terminal gave.
pub open spec fn bar_set_flexible(v: TitleV, flexible: bool) -> TitleV {
    if flexible {
        TitleV { flexible, label: v.last_dynamic, ..v }
    } else {
        TitleV { flexible, ..v }
    }
}

/// The title bar: show `dynamic`, custom unless `flexible`.
pub open spec fn bar_set_titles(v: TitleV, dynamic: Seq<char>, fallback: Seq<char>, flexible: bool) -> TitleV {
    TitleV { flexible, custom: !flexible, label: dynamic, fallback, last_dynamic: dynamic, editing: false, ..v }
}

/// A tab label: show `title`, custom unless `flexible`; a custom title is
/// kept as the fallback, a flexible one as the last dynamic title.
pub open spec fn label_set_text(v: TitleV, title: Seq<char>, flexible: bool) -> TitleV {
    if flexible {
        TitleV { flexible, custom: false, label: title, last_dynamic: title, ..v }
    } else {
        TitleV { flexible, custom: true, label: title, fallback: title, ..v }
    }
}

/// A tab label: whether it follows the terminal; when it does and is not
/// custom, it shows the last title the terminal gave.
pub open spec fn label_set_flexible(v: TitleV, flexible: bool) -> TitleV {
    if flexible && !v.custom {
        TitleV { flexible, label: v.last_dynamic, ..v }
    } else {
        TitleV { flexible, ..v }
    }
}

/// The state shared by the title bar and the tab labels.
struct TitleState {
    label: String,
    entry: String,
    editing: bool,
    custom: bool,
    flexible: bool,
    last_dynamic: String,
    fallback: String,
    original: String,
    was_custom: bool,
}

impl View for TitleState {
    type V = TitleV;

    closed spec fn view(&self) -> TitleV {
        TitleV {
            label: self.label@,
            entry: self.entry@,
            editing: self.editing,
            custom: self.custom,
            flexible: self.flexible,
            last_dynamic: self.last_dynamic@,
            fallback: self.fallback@,
            original: self.original@,
            was_custom: self.was_custom,
        }
    }
}

impl TitleState {
    fn new(label: String, custom: bool, flexible: bool, last_dynamic: String, fallback: String) -> (r: Self)
        ensures
            r@ == (TitleV {
                label: label@,
                entry: Seq::empty(),
                editing: false,
                custom,
                flexible,
                last_dynamic: last_dynamic@,
                fallback: fallback@,
                original: Seq::empty(),
                was_custom: false,
            }),
    {
        TitleState {
            label,
            entry: String::new(),
            editing: false,
            custom,
            flexible,
            last_dynamic,
            fallback,
            original: String::new(),
            was_custom: false,
        }
    }

    fn update_dynamic(&mut self, title: Option<&str>)
        ensures
            final(self)@ == title_update_dynamic(old(self)@, opt_str(title)),
    {
        if !self.flexible || self.custom {
            return;
        }
        match title {
            Some(t) => {
                self.label = String::from_str(t);
                self.last_dynamic = String::from_str(t);
            },
            None => {
                self.label = self.fallback.clone();
            },
        }
    }

    fn begin_edit(&mut self)
        ensures
            final(self)@ == title_begin_edit(old(self)@),
    {
        let current = if self.custom {
            self.label.clone()
        } else {
            self.last_dynamic.clone()
        };
        self.original = current.clone();
        self.was_custom = self.custom;
        self.entry = current;
        self.editing = true;
    }

    fn finish_edit(&mut self, value: Option<String>) -> (r: (bool, String))
        ensures
            final(self)@ == title_finish_edit(
                old(self)@,
                match value {
                    Some(v) => v@,
                    None => Seq::empty(),
                },
            ),
            r.0 == final(self)@.custom,
            r.1@ == final(self)@.label,
    {
        let text = match &value {
            Some(v) => trim_white_space(v.as_str()),
            None => {
                proof {
                    assert(trim_white(Seq::<char>::empty()) =~= Seq::<char>::empty());
                }
                String::new()
            },
        };
        if text.unicode_len() == 0 || (!self.was_custom && text == self.original) {
            self.custom = false;
            self.flexible = true;
            self.label = self.last_dynamic.clone();
        } else {
            self.custom = true;
            self.flexible = false;
            self.label = text.clone();
            self.fallback = text;
        }
        self.editing = false;
        (self.custom, self.label.clone())
    }
}

/// The state of the window's title bar.
pub struct EditableTitleBar {
    state: TitleState,
}

impl View for EditableTitleBar {
    type V = TitleV;

    closed spec fn view(&self) -> TitleV {
        self.state@
    }
}

impl EditableTitleBar {
    /// A title bar that shows `initial_title` and follows the terminal.
    pub fn new(initial_title: String, fallback: String) -> (r: Self)
        ensures
            r@ == (TitleV {
                label: initial_title@,
                entry: Seq::empty(),
                editing: false,
                custom: false,
                flexible: true,
                last_dynamic: initial_title@,
                fallback: fallback@,
                original: Seq::empty(),
                was_custom: false,
            }),
    {
        let last = initial_title.clone();
        EditableTitleBar { state: TitleState::new(initial_title, false, true, last, fallback) }
    }

    /// A title from the terminal (see `title_update_dynamic`).
    pub fn update_dynamic(&mut self, title: Option<&str>)
        ensures
            final(self)@ == title_update_dynamic(old(self)@, opt_str(title)),
    {
        self.state.update_dynamic(title)
    }

    /// Whether the title follows the terminal (see `bar_set_flexible`).
    pub fn set_flexible(&mut self, flexible: bool)
        ensures
            final(self)@ == bar_set_flexible(old(self)@, flexible),
    {
        self.state.flexible = flexible;
        if flexible {
            self.state.label = self.state.last_dynamic.clone();
        }
    }

    /// Show `dynamic`, custom unless `flexible` (see `bar_set_titles`).
    pub fn set_titles(&mut self, dynamic: &str, fallback: &str, flexible: bool)
        ensures
            final(self)@ == bar_set_titles(old(self)@, dynamic@, fallback@, flexible),
    {
        self.state.flexible = flexible;
        self.state.custom = !flexible;
        self.state.label = String::from_str(dynamic);
        self.state.fallback = String::from_str(fallback);
        self.state.last_dynamic = String::from_str(dynamic);
        self.state.editing = false;
    }

    /// Start editing (see `title_begin_edit`).
    pub fn begin_edit(&mut self)
        ensures
            final(self)@ == title_begin_edit(old(self)@),
    {
        self.state.begin_edit()
    }

    /// Finish editing with `text` (see `title_finish_edit`); returns whether
    /// the title is now custom and the text it shows, as the edit's
    /// listener is told.
    pub fn commit_edit(&mut self, text: &str) -> (r: (bool, String))
        ensures
            final(self)@ == title_finish_edit(old(self)@, text@),
            r.0 == final(self)@.custom,
            r.1@ == final(self)@.label,
    {
        self.state.finish_edit(Some(String::from_str(text)))
    }

    /// Finish editing with what the entry holds, or with nothing (see
    /// `title_finish_edit`).
    pub fn finish_edit(&mut self, value: Option<String>) -> (r: (bool, String))
        ensures
            final(self)@ == title_finish_edit(
                old(self)@,
                match value {
                    Some(v) => v@,
                    None => Seq::empty(),
                },
            ),
            r.0 == final(self)@.custom,
            r.1@ == final(self)@.label,
    {
        self.state.finish_edit(value)
    }

    /// Whether the user typed the title.
    pub fn is_custom(&self) -> (r: bool)
        ensures
            r == self@.custom,
    {
        self.state.custom
    }

    /// The text the label shows.
    pub fn label_text(&self) -> (r: &str)
        ensures
            r@ == self@.label,
    {
        self.state.label.as_str()
    }

    /// The text in the entry.
    pub fn entry_text(&self) -> (r: &str)
        ensures
            r@ == self@.entry,
    {
        self.state.entry.as_str()
    }

    /// Whether the entry is shown in place of the label.
    pub fn is_editing(&self) -> (r: bool)
        ensures
            r == self@.editing,
    {
        self.state.editing
    }
}

/// The state of a tab's label.
pub struct EditableTabLabel {
    state: TitleState,
}

impl View for EditableTabLabel {
    type V = TitleV;

    closed spec fn view(&self) -> TitleV {
        self.state@
    }
}

impl EditableTabLabel {
    /// A label that shows `initial_title`, custom unless `flexible`.
    pub fn new(initial_title: String, flexible: bool) -> (r: Self)
        ensures
            r@ == (TitleV {
                label: initial_title@,
                entry: Seq::empty(),
                editing: false,
                custom: !flexible,
                flexible,
                last_dynamic: initial_title@,
                fallback: initial_title@,
                original: Seq::empty(),
                was_custom: false,
            }),
    {
        let last = initial_title.clone();
        let fallback = initial_title.clone();
        EditableTabLabel { state: TitleState::new(initial_title, !flexible, flexible, last, fallback) }
    }

    /// A title from the terminal (see `title_update_dynamic`).
    pub fn update_dynamic(&mut self, title: Option<&str>)
        ensures
            final(self)@ == title_update_dynamic(old(self)@, opt_str(title)),
    {
        self.state.update_dynamic(title)
    }

    /// Show `title`, custom unless `flexible` (see `label_set_text`).
    pub fn set_text(&mut self, title: &str, flexible: bool)
        ensures
            final(self)@ == label_set_text(old(self)@, title@, flexible),
    {
        self.state.flexible = flexible;
        self.state.custom = !flexible;
        self.state.label = String::from_str(title);
        if !flexible {
            self.state.fallback = String::from_str(title);
        } else {
            self.state.last_dynamic = String::from_str(title);
        }
    }

    /// Whether the label follows the terminal (see `label_set_flexible`).
    pub fn set_flexible(&mut self, flexible: bool)
        ensures
            final(self)@ == label_set_flexible(old(self)@, flexible),
    {
        self.state.flexible = flexible;
        if flexible && !self.state.custom {
            self.state.label = self.state.last_dynamic.clone();
        }
    }

    /// Start editing (see `title_begin_edit`).
    pub fn begin_edit(&mut self)
        ensures
            final(self)@ == title_begin_edit(old(self)@),
    {
        self.state.begin_edit()
    }

    /// Finish editing with what the entry holds, or with nothing (see
    /// `title_finish_edit`); returns whether the label is now custom and
    /// the text it shows, as the edit's listener is told.
    pub fn finish_edit(&mut self, value: Option<String>) -> (r: (bool, String))
        ensures
            final(self)@ == title_finish_edit(
                old(self)@,
                match value {
                    Some(v) => v@,
                    None => Seq::empty(),
                },
            ),
            r.0 == final(self)@.custom,
            r.1@ == final(self)@.label,
    {
        self.state.finish_edit(value)
    }

    /// Whether the user typed the title.
    pub fn is_custom(&self) -> (r: bool)
        ensures
            r == self@.custom,
    {
        self.state.custom
    }

    /// The text the label shows.
    pub fn label_text(&self) -> (r: &str)
        ensures
            r@ == self@.label,
    {
        self.state.label.as_str()
    }

    /// The text in the entry.
    pub fn entry_text(&self) -> (r: &str)
        ensures
            r@ == self@.entry,
    {
        self.state.entry.as_str()
    }

    /// Whether the entry is shown in place of the label.
    pub fn is_editing(&self) -> (r: bool)
        ensures
            r == self@.editing,
    {
        self.state.editing
    }
}

} // verus!
