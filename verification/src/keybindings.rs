//! Actions of the terminal and the accelerators bound to them.
use vstd::prelude::*;
use std::collections::HashMap;

verus! {

#[derive(Clone, Copy, Debug, PartialEq, Eq, Hash, Structural)]
pub enum ActionId {
    Copy,
    Paste,
    NewWindow,
    NewTab,
    NewInnerTab,
    SplitHorizontal,
    SplitVertical,
    Close,
    CloseInnerTab,
    Settings,
    FocusLeft,
    FocusRight,
    FocusUp,
    FocusDown,
    NextTab,
    PrevTab,
}

/// The number by which the bindings of an action are kept: its place in
/// the list of actions.
pub open spec fn spec_action_code(action: ActionId) -> u64 {
    match action {
        ActionId::Copy => 0,
        ActionId::Paste => 1,
        ActionId::NewWindow => 2,
        ActionId::NewTab => 3,
        ActionId::NewInnerTab => 4,
        ActionId::SplitHorizontal => 5,
        ActionId::SplitVertical => 6,
        ActionId::Close => 7,
        ActionId::CloseInnerTab => 8,
        ActionId::Settings => 9,
        ActionId::FocusLeft => 10,
        ActionId::FocusRight => 11,
        ActionId::FocusUp => 12,
        ActionId::FocusDown => 13,
        ActionId::NextTab => 14,
        ActionId::PrevTab => 15,
    }
}

/// The number by which the bindings of `action` are kept.
fn action_code(action: ActionId) -> (r: u64)
    ensures
        r == spec_action_code(action),
{
    match action {
        ActionId::Copy => 0,
        ActionId::Paste => 1,
        ActionId::NewWindow => 2,
        ActionId::NewTab => 3,
        ActionId::NewInnerTab => 4,
        ActionId::SplitHorizontal => 5,
        ActionId::SplitVertical => 6,
        ActionId::Close => 7,
        ActionId::CloseInnerTab => 8,
        ActionId::Settings => 9,
        ActionId::FocusLeft => 10,
        ActionId::FocusRight => 11,
        ActionId::FocusUp => 12,
        ActionId::FocusDown => 13,
        ActionId::NextTab => 14,
        ActionId::PrevTab => 15,
    }
}

/// Distinct actions are kept under distinct numbers.
proof fn lemma_action_code_injective()
    ensures
        forall|a: ActionId, b: ActionId| #[trigger] spec_action_code(a) == #[trigger] spec_action_code(b) ==> a == b,
{
}

/// For each action, the accelerators bound to it.
#[derive(Clone, Debug)]
pub struct KeybindingMap {
    bindings: HashMap<u64, Vec<String>>,
}

impl View for KeybindingMap {
    type V = Map<ActionId, Seq<Seq<char>>>;

    closed spec fn view(&self) -> Map<ActionId, Seq<Seq<char>>> {
        Map::new(
            |a: ActionId| self.bindings@.contains_key(spec_action_code(a)),
            |a: ActionId| self.bindings@[spec_action_code(a)].deep_view(),
        )
    }
}

impl KeybindingMap {
    /// A map with no bindings.
    pub fn new() -> (m: Self)
        ensures
            m@ == Map::<ActionId, Seq<Seq<char>>>::empty(),
    {
        let m = KeybindingMap { bindings: HashMap::new() };
        proof {
            assert(m@ =~= Map::<ActionId, Seq<Seq<char>>>::empty());
        }
        m
    }

    /// The accelerators bound to `action`, if any.
    pub fn get(&self, action: &ActionId) -> (r: Option<&Vec<String>>)
        ensures
            match r {
                Some(v) => self@.contains_key(*action) && self@[*action] == v.deep_view(),
                None => !self@.contains_key(*action),
            },
    {
        broadcast use vstd::std_specs::hash::group_hash_axioms;
        let code = action_code(*action);
        self.bindings.get(&code)
    }

    /// Bind `action` to `accels`, in place of what it was bound to, which is
    /// returned.
    pub fn insert(&mut self, action: ActionId, accels: Vec<String>) -> (r: Option<Vec<String>>)
        ensures
            final(self)@ == old(self)@.insert(action, accels.deep_view()),
            match r {
                Some(v) => old(self)@.contains_key(action) && old(self)@[action] == v.deep_view(),
                None => !old(self)@.contains_key(action),
            },
    {
        broadcast use vstd::std_specs::hash::group_hash_axioms;
        let code = action_code(action);
        let ghost view_accels = accels.deep_view();
        let r = self.bindings.insert(code, accels);
        proof {
            lemma_action_code_injective();
            assert(self@ =~= old(self)@.insert(action, view_accels));
        }
        r
    }
}

/// The accelerators that each action is bound to by default.
pub open spec fn default_bindings() -> Map<ActionId, Seq<Seq<char>>> {
    map![
        ActionId::Copy => seq!["<Ctrl><Shift>C"@],
        ActionId::Paste => seq!["<Ctrl><Shift>V"@],
        ActionId::NewWindow => seq!["<Ctrl><Shift>N"@],
        ActionId::NewTab => seq!["<Ctrl><Shift>T"@],
        ActionId::NewInnerTab => seq!["<Ctrl><Shift>U"@],
        ActionId::SplitHorizontal => seq!["<Ctrl><Shift>E"@],
        ActionId::SplitVertical => seq!["<Ctrl><Shift>O"@],
        ActionId::Settings => seq!["<Ctrl><Shift>,"@],
        ActionId::Close => seq!["<Ctrl><Shift>W"@],
        ActionId::CloseInnerTab => seq!["<Ctrl><Shift>D"@],
        ActionId::FocusLeft => seq!["<Alt>Left"@],
        ActionId::FocusRight => seq!["<Alt>Right"@],
        ActionId::FocusUp => seq!["<Alt>Up"@],
        ActionId::FocusDown => seq!["<Alt>Down"@],
        ActionId::NextTab => seq!["<Ctrl>Page_Down"@],
        ActionId::PrevTab => seq!["<Ctrl>Page_Up"@],
    ]
}

/// One accelerator.
fn single_accel(accel: &str) -> (v: Vec<String>)
    ensures
        v.deep_view() == seq![accel@],
{
    let mut v = Vec::new();
    v.push(String::from_str(accel));
    proof {
        assert(v.deep_view() =~= seq![accel@]);
    }
    v
}

/// The default key bindings: the traditional Terminator layout.
pub fn default_keybindings() -> (m: KeybindingMap)
    ensures
        m@ == default_bindings(),
{
    let mut map = KeybindingMap::new();
    map.insert(ActionId::Copy, single_accel("<Ctrl><Shift>C"));
    map.insert(ActionId::Paste, single_accel("<Ctrl><Shift>V"));
    map.insert(ActionId::NewWindow, single_accel("<Ctrl><Shift>N"));
    map.insert(ActionId::NewTab, single_accel("<Ctrl><Shift>T"));
    map.insert(ActionId::NewInnerTab, single_accel("<Ctrl><Shift>U"));
    map.insert(ActionId::SplitHorizontal, single_accel("<Ctrl><Shift>E"));
    map.insert(ActionId::SplitVertical, single_accel("<Ctrl><Shift>O"));
    map.insert(ActionId::Settings, single_accel("<Ctrl><Shift>,"));
    map.insert(ActionId::Close, single_accel("<Ctrl><Shift>W"));
    map.insert(ActionId::CloseInnerTab, single_accel("<Ctrl><Shift>D"));
    map.insert(ActionId::FocusLeft, single_accel("<Alt>Left"));
    map.insert(ActionId::FocusRight, single_accel("<Alt>Right"));
    map.insert(ActionId::FocusUp, single_accel("<Alt>Up"));
    map.insert(ActionId::FocusDown, single_accel("<Alt>Down"));
    map.insert(ActionId::NextTab, single_accel("<Ctrl>Page_Down"));
    map.insert(ActionId::PrevTab, single_accel("<Ctrl>Page_Up"));
    proof {
        assert(map@ =~= default_bindings());
    }
    map
}

/// The name of the application action that carries out an action.
pub open spec fn spec_action_name(action: ActionId) -> &'static str {
    match action {
        ActionId::Copy => "term.copy",
        ActionId::Paste => "term.paste",
        ActionId::NewWindow => "term.new_window",
        ActionId::NewTab => "term.new_tab",
        ActionId::NewInnerTab => "term.new_inner_tab",
        ActionId::SplitHorizontal => "term.split_h",
        ActionId::SplitVertical => "term.split_v",
        ActionId::Settings => "term.settings",
        ActionId::Close => "term.close",
        ActionId::CloseInnerTab => "term.close_inner_tab",
        ActionId::FocusLeft => "term.focus_left",
        ActionId::FocusRight => "term.focus_right",
        ActionId::FocusUp => "term.focus_up",
        ActionId::FocusDown => "term.focus_down",
        ActionId::NextTab => "term.next_tab",
        ActionId::PrevTab => "term.prev_tab",
    }
}

/// The name of the application action that carries out `action`.
pub fn action_name(action: ActionId) -> (r: &'static str)
    ensures
        r == spec_action_name(action),
{
    match action {
        ActionId::Copy => "term.copy",
        ActionId::Paste => "term.paste",
        ActionId::NewWindow => "term.new_window",
        ActionId::NewTab => "term.new_tab",
        ActionId::NewInnerTab => "term.new_inner_tab",
        ActionId::SplitHorizontal => "term.split_h",
        ActionId::SplitVertical => "term.split_v",
        ActionId::Settings => "term.settings",
        ActionId::Close => "term.close",
        ActionId::CloseInnerTab => "term.close_inner_tab",
        ActionId::FocusLeft => "term.focus_left",
        ActionId::FocusRight => "term.focus_right",
        ActionId::FocusUp => "term.focus_up",
        ActionId::FocusDown => "term.focus_down",
        ActionId::NextTab => "term.next_tab",
        ActionId::PrevTab => "term.prev_tab",
    }
}

/// The actions in the order that menus and the settings list show them,
/// with their labels.
pub open spec fn action_table() -> Seq<(ActionId, &'static str)> {
    seq![
        (ActionId::Copy, "Copy"),
        (ActionId::Paste, "Paste"),
        (ActionId::NewWindow, "New Window"),
        (ActionId::NewTab, "New Tab"),
        (ActionId::NewInnerTab, "New Inner Tab"),
        (ActionId::SplitHorizontal, "Split Horizontally"),
        (ActionId::SplitVertical, "Split Vertically"),
        (ActionId::Settings, "Settings"),
        (ActionId::Close, "Close"),
        (ActionId::CloseInnerTab, "Close Inner Tab"),
        (ActionId::FocusLeft, "Focus Left"),
        (ActionId::FocusRight, "Focus Right"),
        (ActionId::FocusUp, "Focus Up"),
        (ActionId::FocusDown, "Focus Down"),
        (ActionId::NextTab, "Next Tab"),
        (ActionId::PrevTab, "Previous Tab"),
    ]
}

/// The actions in the order that menus and the settings list show them,
/// with their labels.
pub fn action_defs() -> (r: Vec<(ActionId, &'static str)>)
    ensures
        r@ == action_table(),
{
    let mut defs: Vec<(ActionId, &'static str)> = Vec::new();
    defs.push((ActionId::Copy, "Copy"));
    defs.push((ActionId::Paste, "Paste"));
    defs.push((ActionId::NewWindow, "New Window"));
    defs.push((ActionId::NewTab, "New Tab"));
    defs.push((ActionId::NewInnerTab, "New Inner Tab"));
    defs.push((ActionId::SplitHorizontal, "Split Horizontally"));
    defs.push((ActionId::SplitVertical, "Split Vertically"));
    defs.push((ActionId::Settings, "Settings"));
    defs.push((ActionId::Close, "Close"));
    defs.push((ActionId::CloseInnerTab, "Close Inner Tab"));
    defs.push((ActionId::FocusLeft, "Focus Left"));
    defs.push((ActionId::FocusRight, "Focus Right"));
    defs.push((ActionId::FocusUp, "Focus Up"));
    defs.push((ActionId::FocusDown, "Focus Down"));
    defs.push((ActionId::NextTab, "Next Tab"));
    defs.push((ActionId::PrevTab, "Previous Tab"));
    proof {
        assert(defs@ =~= action_table());
    }
    defs
}

/// The label of an action, as menus show it.
pub open spec fn spec_action_label(action: ActionId) -> &'static str {
    match action {
        ActionId::Copy => "Copy",
        ActionId::Paste => "Paste",
        ActionId::NewWindow => "New Window",
        ActionId::NewTab => "New Tab",
        ActionId::NewInnerTab => "New Inner Tab",
        ActionId::SplitHorizontal => "Split Horizontally",
        ActionId::SplitVertical => "Split Vertically",
        ActionId::Settings => "Settings",
        ActionId::Close => "Close",
        ActionId::CloseInnerTab => "Close Inner Tab",
        ActionId::FocusLeft => "Focus Left",
        ActionId::FocusRight => "Focus Right",
        ActionId::FocusUp => "Focus Up",
        ActionId::FocusDown => "Focus Down",
        ActionId::NextTab => "Next Tab",
        ActionId::PrevTab => "Previous Tab",
    }
}

/// The label of `action` in the table of actions, or the empty string.
pub fn action_label(action: ActionId) -> (r: &'static str)
    ensures
        r == spec_action_label(action),
{
    let defs = action_defs();
    let mut i: usize = 0;
    while i < defs.len()
        invariant
            defs@ == action_table(),
            i <= defs@.len(),
            forall|j: int| 0 <= j < i ==> defs@[j].0 != action,
        decreases defs@.len() - i,
    {
        if defs[i].0 == action {
            return defs[i].1;
        }
        i += 1;
    }
    proof {
        match action {
            ActionId::Copy => assert(defs@[0].0 == action),
            ActionId::Paste => assert(defs@[1].0 == action),
            ActionId::NewWindow => assert(defs@[2].0 == action),
            ActionId::NewTab => assert(defs@[3].0 == action),
            ActionId::NewInnerTab => assert(defs@[4].0 == action),
            ActionId::SplitHorizontal => assert(defs@[5].0 == action),
            ActionId::SplitVertical => assert(defs@[6].0 == action),
            ActionId::Settings => assert(defs@[7].0 == action),
            ActionId::Close => assert(defs@[8].0 == action),
            ActionId::CloseInnerTab => assert(defs@[9].0 == action),
            ActionId::FocusLeft => assert(defs@[10].0 == action),
            ActionId::FocusRight => assert(defs@[11].0 == action),
            ActionId::FocusUp => assert(defs@[12].0 == action),
            ActionId::FocusDown => assert(defs@[13].0 == action),
            ActionId::NextTab => assert(defs@[14].0 == action),
            ActionId::PrevTab => assert(defs@[15].0 == action),
        }
    }
    ""
}

} // verus!
