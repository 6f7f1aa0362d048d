use terminator2::drag::DragPayload;
use terminator2::keybindings::{action_defs, action_label, action_name, default_keybindings, KeybindingMap};
use terminator2::model::{
    ActionId, FocusDirection, InnerTabId, LayoutNode, SplitOrientation, TabId, TerminalId, WindowId, WorkspaceModel,
};
use terminator2::text::{format_terminal_title, split_once_char, split_words, trim_double_quotes, trim_white_space};
use terminator2::title_edit::{EditableTabLabel, EditableTitleBar};
use terminator2::window_rules::{cycle_index, preferred_terminal, tab_label_max_chars};

fn setup() -> (WorkspaceModel, WindowId, TabId, TerminalId) {
    let ws = WorkspaceModel::new_single_terminal();
    let window_id = ws.windows[0].id;
    let tab_id = ws.windows[0].tabs[0].id;
    let term = ws.windows[0].tabs[0].active_terminal();
    (ws, window_id, tab_id, term)
}

fn terminals_of(ws: &WorkspaceModel, w: usize, k: usize) -> Vec<TerminalId> {
    let mut out = Vec::new();
    ws.windows[w].tabs[k].collect_terminal_ids(&mut out);
    out
}

fn node_well_formed(node: &LayoutNode) -> bool {
    match node {
        LayoutNode::Terminal(_) => true,
        LayoutNode::Split(s) => s.children.iter().all(node_well_formed),
        LayoutNode::Tabs(g) => g.active < g.tabs.len() && g.tabs.iter().all(|i| node_well_formed(&i.root)),
    }
}

fn workspace_well_formed(ws: &WorkspaceModel) -> bool {
    ws.windows
        .iter()
        .all(|w| w.active_tab < w.tabs.len() && w.tabs.iter().all(|t| node_well_formed(&t.root)))
}

// ------------------------------------------------------------ ids

#[test]
fn new_ids_are_version_four_and_distinct() {
    let (mut ws, window_id, tab_id, term) = setup();
    let other = ws.add_window();
    for id in [window_id.0, tab_id.0, term.0, other.0] {
        assert_eq!((id >> 76) & 0xf, 4);
        assert_eq!((id >> 62) & 0x3, 2);
    }
    assert_ne!(window_id, other);
    assert_eq!(ws.windows.len(), 2);
    assert_eq!(ws.windows[1].title, "Terminator");
    assert_eq!(ws.windows[1].tabs.len(), 1);
}

// ------------------------------------------------------------ workspace operations

#[test]
fn new_workspace_shape() {
    let (ws, _w, _t, term) = setup();
    assert_eq!(ws.windows.len(), 1);
    assert_eq!(ws.windows[0].title, "Terminator");
    assert_eq!(ws.windows[0].active_tab, 0);
    let tab = &ws.windows[0].tabs[0];
    assert_eq!(tab.title, "Terminal");
    assert!(tab.title_flexible);
    assert_eq!(tab.dynamic_title, "Terminal");
    assert_eq!(tab.display_title(), "Terminal");
    assert_eq!(tab.focus, term);
    assert!(workspace_well_formed(&ws));
}

#[test]
fn rename_window_and_tab() {
    let (mut ws, window_id, tab_id, _term) = setup();
    ws.rename_window(window_id, "Work".to_string());
    assert_eq!(ws.windows[0].title, "Work");
    assert!(ws.rename_tab(window_id, tab_id, "Build".to_string(), false));
    assert_eq!(ws.windows[0].tabs[0].display_title(), "Build");
    assert!(!ws.windows[0].tabs[0].is_title_flexible());
    assert!(!ws.rename_tab(window_id, TabId(7), "X".to_string(), true));
    ws.update_tab_dynamic_title(window_id, tab_id, "vim");
    assert_eq!(ws.windows[0].tabs[0].dynamic_title, "vim");
    assert_eq!(ws.windows[0].tabs[0].display_title(), "Build");
    assert!(ws.rename_tab(window_id, tab_id, "Build".to_string(), true));
    assert_eq!(ws.windows[0].tabs[0].display_title(), "vim");
}

#[test]
fn add_tab_close_tab_and_active_index() {
    let (mut ws, window_id, first_tab, _term) = setup();
    let second = ws.add_tab_to_window(window_id).expect("tab added");
    let third = ws.add_tab_to_window(window_id).expect("tab added");
    assert_eq!(ws.windows[0].tabs.len(), 3);
    assert_eq!(ws.windows[0].active_tab, 0, "the first tab stays active");
    assert_eq!(ws.windows[0].active_tab().id, first_tab);
    assert_eq!(ws.windows[0].tabs[2].id, third);
    assert!(ws.add_tab_to_window(WindowId(1)).is_none());
    ws.set_active_tab(window_id, first_tab);
    assert_eq!(ws.windows[0].active_tab, 0);
    ws.set_active_tab(window_id, third);
    assert!(ws.close_tab(window_id, third));
    assert_eq!(ws.windows[0].active_tab, 1, "active index is clamped");
    assert_eq!(ws.windows[0].active_tab().id, second);
    assert!(!ws.close_tab(window_id, third));
    assert!(ws.close_tab(window_id, second));
    assert!(ws.close_tab(window_id, first_tab));
    assert!(ws.windows.is_empty(), "a window without tabs goes");
}

#[test]
fn remove_window_removes_only_that_window() {
    let (mut ws, window_id, _tab, _term) = setup();
    let other = ws.add_window();
    ws.remove_window(window_id);
    assert_eq!(ws.windows.len(), 1);
    assert_eq!(ws.windows[0].id, other);
}

#[test]
fn set_active_terminal_reports_change() {
    let (mut ws, window_id, tab_id, first) = setup();
    let second = ws.split_terminal(window_id, first, SplitOrientation::Vertical).expect("split");
    assert_eq!(ws.windows[0].tabs[0].active_terminal(), second);
    assert!(ws.set_active_terminal(window_id, tab_id, first));
    assert_eq!(ws.windows[0].tabs[0].active_terminal(), first);
    assert!(!ws.set_active_terminal(window_id, tab_id, first), "no change the second time");
    assert!(!ws.set_active_terminal(window_id, tab_id, TerminalId(3)), "unknown terminal");
}

#[test]
fn split_unknown_terminal_fails_and_changes_nothing() {
    let (mut ws, window_id, _tab, first) = setup();
    assert!(ws.split_terminal(window_id, TerminalId(5), SplitOrientation::Horizontal).is_none());
    assert!(ws.split_terminal(WindowId(5), first, SplitOrientation::Horizontal).is_none());
    assert!(matches!(ws.windows[0].tabs[0].root, LayoutNode::Terminal(_)));
    assert!(ws.close_terminal(window_id, TerminalId(5)).is_none());
}

#[test]
fn split_then_close_keeps_other_terminals() {
    let (mut ws, window_id, _tab, a) = setup();
    let b = ws.split_terminal(window_id, a, SplitOrientation::Horizontal).expect("split");
    let c = ws.split_terminal(window_id, b, SplitOrientation::Vertical).expect("split");
    let before = terminals_of(&ws, 0, 0);
    assert_eq!(before, vec![a, b, c]);
    let d = ws.split_terminal(window_id, b, SplitOrientation::Horizontal).expect("split");
    assert_eq!(terminals_of(&ws, 0, 0), vec![a, b, d, c]);
    assert_eq!(ws.windows[0].tabs[0].active_terminal(), d);
    ws.close_terminal(window_id, d).expect("closed");
    assert_eq!(terminals_of(&ws, 0, 0), before);
    assert!(workspace_well_formed(&ws));
}

#[test]
fn split_neighbors_vertical() {
    let (mut ws, window_id, tab_id, a) = setup();
    let b = ws.split_terminal(window_id, a, SplitOrientation::Vertical).expect("split");
    assert_eq!(ws.focus_neighbor(window_id, tab_id, a, FocusDirection::Down), Some(b));
    assert_eq!(ws.focus_neighbor(window_id, tab_id, b, FocusDirection::Up), Some(a));
    assert_eq!(ws.focus_neighbor(window_id, tab_id, a, FocusDirection::Right), None);
    assert_eq!(ws.focus_neighbor(window_id, tab_id, a, FocusDirection::Up), None);
}

#[test]
fn close_focused_terminal_moves_focus_to_first() {
    let (mut ws, window_id, _tab, a) = setup();
    let b = ws.split_terminal(window_id, a, SplitOrientation::Horizontal).expect("split");
    assert_eq!(ws.windows[0].tabs[0].active_terminal(), b);
    ws.close_terminal(window_id, b).expect("closed");
    assert_eq!(ws.windows[0].tabs[0].active_terminal(), a);
}

#[test]
fn rename_and_close_inner_tabs() {
    let (mut ws, window_id, tab_id, term) = setup();
    let (inner, new_term) = ws.add_inner_tab(window_id, tab_id, term).expect("inner tab");
    assert_eq!(ws.windows[0].tabs[0].active_inner_id(), Some(inner));
    assert!(ws.rename_inner_tab(window_id, tab_id, inner, "Logs".to_string(), false));
    let found = ws.windows[0].tabs[0].root.find_inner_tab(inner).expect("inner tab found");
    assert_eq!(found.display_title(), "Logs");
    assert!(!found.is_title_flexible());
    assert_eq!(found.focus, new_term);
    assert!(!ws.rename_inner_tab(window_id, tab_id, InnerTabId(9), "X".to_string(), true));
    assert!(ws.windows[0].tabs[0].root.find_inner_tab(InnerTabId(9)).is_none());
    assert!(ws.close_inner_tab(window_id, tab_id, inner));
    assert!(!ws.close_inner_tab(window_id, tab_id, inner));
    match &ws.windows[0].tabs[0].root {
        LayoutNode::Tabs(group) => {
            assert_eq!(group.tabs.len(), 1);
            assert_eq!(group.active, 0);
        },
        other => panic!("expected a group, got {:?}", other),
    }
    assert_eq!(ws.windows[0].tabs[0].focus, term);
    assert!(workspace_well_formed(&ws));
}

#[test]
fn move_terminal_to_new_tab_and_window() {
    let (mut ws, window_id, _tab, a) = setup();
    let b = ws.split_terminal(window_id, a, SplitOrientation::Horizontal).expect("split");
    let new_tab = ws.move_terminal_to_new_tab(window_id, b).expect("moved");
    assert_eq!(ws.windows[0].tabs.len(), 2);
    assert_eq!(ws.windows[0].active_tab, 1);
    assert_eq!(ws.windows[0].tabs[1].id, new_tab);
    assert_eq!(terminals_of(&ws, 0, 1), vec![b]);
    assert_eq!(ws.windows[0].tabs[1].dynamic_title, "");
    assert_eq!(terminals_of(&ws, 0, 0), vec![a]);
    assert!(ws.move_terminal_to_new_tab(window_id, TerminalId(4)).is_none());

    let new_window = ws.move_terminal_to_new_window(b).expect("moved");
    assert_eq!(ws.windows.len(), 2);
    assert_eq!(ws.windows[1].id, new_window);
    assert_eq!(ws.windows[1].title, "Terminator");
    assert_eq!(terminals_of(&ws, 1, 0), vec![b]);
    assert!(terminals_of(&ws, 0, 1).is_empty(), "the emptied tab stays");
    assert!(ws.move_terminal_to_new_window(TerminalId(4)).is_none());
    assert!(workspace_well_formed(&ws));
}

#[test]
fn move_terminal_to_split_places_it_next_to_target() {
    let (mut ws, window_id, _tab, a) = setup();
    let b = ws.split_terminal(window_id, a, SplitOrientation::Horizontal).expect("split");
    let c = ws.split_terminal(window_id, b, SplitOrientation::Horizontal).expect("split");
    assert!(ws.move_terminal_to_split(window_id, c, a, SplitOrientation::Vertical));
    assert_eq!(terminals_of(&ws, 0, 0), vec![a, c, b]);
    assert_eq!(ws.windows[0].tabs[0].active_terminal(), c);
    assert!(!ws.move_terminal_to_split(window_id, TerminalId(8), a, SplitOrientation::Vertical));
    assert!(!ws.move_terminal_to_split(window_id, c, TerminalId(8), SplitOrientation::Vertical));
}

#[test]
fn move_terminal_to_new_inner_tab_joins_group() {
    let (mut ws, window_id, tab_id, a) = setup();
    let (inner, _n) = ws.add_inner_tab(window_id, tab_id, a).expect("inner tab");
    let b = ws.split_terminal(window_id, a, SplitOrientation::Horizontal).expect("split");
    assert!(ws.move_terminal_to_new_inner_tab(window_id, tab_id, inner, b));
    match &ws.windows[0].tabs[0].root {
        LayoutNode::Tabs(group) => {
            assert_eq!(group.tabs.len(), 3);
            assert_eq!(group.active, 2);
            assert!(group.tabs[2].root.contains_terminal(b));
        },
        other => panic!("expected a group, got {:?}", other),
    }
    assert_eq!(ws.windows[0].tabs[0].focus, b);
    assert!(!ws.move_terminal_to_new_inner_tab(window_id, tab_id, InnerTabId(3), a));
}

#[test]
fn add_existing_terminal_to_group_appends_active_inner_tab() {
    let (mut ws, window_id, tab_id, a) = setup();
    let (inner, _n) = ws.add_inner_tab(window_id, tab_id, a).expect("inner tab");
    let mut root = ws.windows[0].tabs[0].root.deep_clone();
    assert!(root.add_existing_terminal_to_group_by_inner_id(inner, TerminalId(77)));
    assert!(root.add_existing_terminal_to_group_with_inner_id(inner, TerminalId(78)));
    match &root {
        LayoutNode::Tabs(group) => {
            assert_eq!(group.tabs.len(), 4);
            assert_eq!(group.active, 3);
            assert!(group.tabs[2].root.contains_terminal(TerminalId(77)));
            assert!(group.tabs[3].root.contains_terminal(TerminalId(78)));
            assert_eq!(group.tabs[2].focus, TerminalId(77));
            assert_ne!(group.tabs[2].id, group.tabs[3].id);
        },
        other => panic!("expected a group, got {:?}", other),
    }
    assert!(!root.add_existing_terminal_to_group_by_inner_id(InnerTabId(5), TerminalId(79)));
    assert!(!root.contains_terminal(TerminalId(79)));
}

#[test]
fn contextual_new_tab_source() {
    let (mut ws, window_id, tab_id, a) = setup();
    assert_eq!(ws.contextual_new_tab_source(window_id, tab_id, Some(a)), None);
    assert_eq!(ws.contextual_new_tab_source(window_id, tab_id, None), None);
    let (_inner, n) = ws.add_inner_tab(window_id, tab_id, a).expect("inner tab");
    assert_eq!(ws.contextual_new_tab_source(window_id, tab_id, Some(a)), Some(a));
    assert_eq!(ws.contextual_new_tab_source(window_id, tab_id, None), Some(n));
    assert_eq!(ws.contextual_new_tab_source(window_id, TabId(2), None), None);
    assert_eq!(ws.windows[0].tabs[0].root.group_focus(), Some(n));
}

#[test]
fn terminal_title_refresh_updates_following_tabs() {
    let (mut ws, window_id, tab_id, a) = setup();
    ws.rename_window(window_id, "Main".to_string());
    let second = ws.add_tab_to_window(window_id).expect("tab");
    ws.set_active_tab(window_id, second);
    let refresh = ws.refresh_terminal_title(a, Some("  vim  "), Some("/home/user"));
    assert_eq!(ws.windows[0].tabs[0].dynamic_title, "vim (/home/user)");
    assert_eq!(ws.windows[0].tabs[1].dynamic_title, "Terminal");
    assert_eq!(refresh.tabs, vec![(window_id, tab_id)]);
    assert!(refresh.inner_tabs.is_empty());
    assert!(refresh.windows.is_empty(), "the first tab is not the active one");
    ws.set_active_tab(window_id, tab_id);
    let refresh = ws.refresh_terminal_title(a, None, None);
    assert_eq!(ws.windows[0].tabs[0].dynamic_title, "Main — Terminal");
    assert_eq!(refresh.windows, vec![window_id]);
    let _ = second;
}

#[test]
fn terminal_title_refresh_reports_inner_tabs() {
    let (mut ws, window_id, tab_id, a) = setup();
    let (inner, n) = ws.add_inner_tab(window_id, tab_id, a).expect("inner tab");
    let refresh = ws.refresh_terminal_title(n, Some("top"), None);
    assert_eq!(refresh.inner_tabs, vec![(window_id, inner)]);
    assert_eq!(refresh.tabs, vec![(window_id, tab_id)]);
    assert_eq!(ws.windows[0].tabs[0].dynamic_title, "top");
}

// ------------------------------------------------------------ key bindings and actions

#[test]
fn keybinding_map_insert_and_get() {
    let mut map = KeybindingMap::new();
    assert!(map.get(&ActionId::Copy).is_none());
    assert!(map.insert(ActionId::Copy, vec!["<Ctrl>C".to_string()]).is_none());
    let old = map.insert(ActionId::Copy, vec!["<Ctrl><Shift>C".to_string()]);
    assert_eq!(old, Some(vec!["<Ctrl>C".to_string()]));
    assert_eq!(map.get(&ActionId::Copy), Some(&vec!["<Ctrl><Shift>C".to_string()]));
    let defaults = default_keybindings();
    assert_eq!(defaults.get(&ActionId::FocusLeft), Some(&vec!["<Alt>Left".to_string()]));
    assert_eq!(defaults.get(&ActionId::Settings), Some(&vec!["<Ctrl><Shift>,".to_string()]));
}

#[test]
fn action_names_and_labels() {
    assert_eq!(action_name(ActionId::SplitHorizontal), "term.split_h");
    assert_eq!(action_name(ActionId::CloseInnerTab), "term.close_inner_tab");
    assert_eq!(action_label(ActionId::SplitVertical), "Split Vertically");
    assert_eq!(action_label(ActionId::PrevTab), "Previous Tab");
    let defs = action_defs();
    assert_eq!(defs.len(), 16);
    assert_eq!(defs[0], (ActionId::Copy, "Copy"));
}

// ------------------------------------------------------------ text

#[test]
fn trimming() {
    assert_eq!(trim_white_space("  a b \t\n"), "a b");
    assert_eq!(trim_white_space("\u{3000}x\u{a0}"), "x");
    assert_eq!(trim_white_space("   "), "");
    assert_eq!(trim_double_quotes("\"\"id\""), "id");
    assert_eq!(trim_double_quotes("a\"b"), "a\"b");
    assert_eq!(trim_double_quotes("\"\""), "");
}

#[test]
fn words_and_split_once() {
    assert_eq!(split_words("  a  b\tc \u{2003}d "), vec!["a", "b", "c", "d"]);
    assert!(split_words(" \n ").is_empty());
    assert_eq!(split_once_char("k=v=w", '='), Some(("k".to_string(), "v=w".to_string())));
    assert_eq!(split_once_char("=x", '='), Some(("".to_string(), "x".to_string())));
    assert_eq!(split_once_char("none", '='), None);
}

#[test]
fn terminal_titles() {
    assert_eq!(format_terminal_title(Some(" bash "), Some("/tmp"), "fb", true), "bash (/tmp)");
    assert_eq!(format_terminal_title(Some(" bash "), Some("/tmp"), "fb", false), "bash");
    assert_eq!(format_terminal_title(Some("   "), Some("/tmp"), "fb", true), "/tmp");
    assert_eq!(format_terminal_title(Some("   "), None, "fb", true), "fb");
    assert_eq!(format_terminal_title(None, None, "", true), "");
}

// ------------------------------------------------------------ drag payloads

#[test]
fn drag_payload_round_trip() {
    let text = "term-move window=550e8400-e29b-41d4-a716-446655440000 tab=\"6ba7b810-9dad-11d1-80b4-00c04fd430c8\" \
                terminal=00000000-0000-0000-0000-00000000002a src=\"header\"";
    let p = DragPayload::try_from(text).expect("parses");
    assert_eq!(p.window, WindowId(0x550e8400e29b41d4a716446655440000));
    assert_eq!(p.tab, Some(TabId(0x6ba7b8109dad11d180b400c04fd430c8)));
    assert_eq!(p.inner, None);
    assert_eq!(p.terminal, TerminalId(42));
    assert_eq!(p.src, Some("header".to_string()));
}

#[test]
fn drag_payload_needs_window_and_terminal() {
    assert!(DragPayload::try_from("window=550e8400-e29b-41d4-a716-446655440000").is_err());
    assert!(DragPayload::try_from("terminal=550e8400-e29b-41d4-a716-446655440000").is_err());
    assert!(DragPayload::try_from("window=nope terminal=550e8400-e29b-41d4-a716-446655440000").is_err());
    assert!(DragPayload::try_from("").is_err());
}

#[test]
fn drag_payload_last_word_counts() {
    let text = "window=00000000-0000-0000-0000-000000000001 terminal=00000000-0000-0000-0000-000000000002 \
                window=00000000-0000-0000-0000-000000000003";
    let p = DragPayload::try_from(text).expect("parses");
    assert_eq!(p.window, WindowId(3));
    assert_eq!(p.terminal, TerminalId(2));
    assert_eq!(p.src, None);
}

#[test]
fn drag_payload_uuid_parsing() {
    assert_eq!(
        DragPayload::parse_uuid("\"550e8400-e29b-41d4-a716-446655440000\""),
        Some(0x550e8400e29b41d4a716446655440000)
    );
    assert_eq!(DragPayload::parse_uuid("550e8400e29b41d4a716446655440000"), Some(0x550e8400e29b41d4a716446655440000));
    assert_eq!(DragPayload::parse_uuid("not-a-uuid"), None);
}

#[test]
fn drag_payload_from_fields() {
    let p = DragPayload::from_fields(Some(1), None, Some(3), Some(4), Some("x".to_string())).expect("ok");
    assert_eq!(p.window, WindowId(1));
    assert_eq!(p.tab, None);
    assert_eq!(p.inner, Some(InnerTabId(3)));
    assert_eq!(p.terminal, TerminalId(4));
    assert!(DragPayload::from_fields(None, Some(2), None, Some(4), None).is_err());
    assert!(DragPayload::from_fields(Some(1), Some(2), None, None, None).is_err());
}

// ------------------------------------------------------------ editable titles

#[test]
fn title_bar_edit_and_revert() {
    let mut bar = EditableTitleBar::new("bash".to_string(), "Terminator".to_string());
    assert!(!bar.is_custom());
    bar.update_dynamic(Some("vim"));
    assert_eq!(bar.label_text(), "vim");
    bar.begin_edit();
    assert!(bar.is_editing());
    assert_eq!(bar.entry_text(), "vim");
    let (custom, text) = bar.commit_edit("  My Project ");
    assert!(custom);
    assert_eq!(text, "My Project");
    assert!(!bar.is_editing());
    bar.update_dynamic(Some("top"));
    assert_eq!(bar.label_text(), "My Project", "a custom title ignores the terminal");
    bar.begin_edit();
    assert_eq!(bar.entry_text(), "My Project");
    let (custom, text) = bar.commit_edit("   ");
    assert!(!custom);
    assert_eq!(text, "vim", "an empty edit gives the title back to the terminal");
}

#[test]
fn title_bar_unchanged_edit_keeps_following() {
    let mut bar = EditableTitleBar::new("bash".to_string(), "Terminator".to_string());
    bar.begin_edit();
    let (custom, text) = bar.commit_edit("bash");
    assert!(!custom);
    assert_eq!(text, "bash");
    bar.update_dynamic(None);
    assert_eq!(bar.label_text(), "Terminator");
    bar.set_titles("dyn", "fb", false);
    assert!(bar.is_custom());
    assert_eq!(bar.label_text(), "dyn");
    bar.set_flexible(true);
    assert_eq!(bar.label_text(), "dyn");
}

#[test]
fn tab_label_states() {
    let mut label = EditableTabLabel::new("Terminal".to_string(), false);
    assert!(label.is_custom());
    label.update_dynamic(Some("vim"));
    assert_eq!(label.label_text(), "Terminal");
    label.set_text("vim", true);
    assert!(!label.is_custom());
    assert_eq!(label.label_text(), "vim");
    label.set_text("Mine", false);
    label.set_flexible(true);
    assert_eq!(label.label_text(), "Mine", "a custom label keeps its text");
    label.begin_edit();
    assert_eq!(label.entry_text(), "Mine");
    let (custom, text) = label.finish_edit(Some("Mine".to_string()));
    assert!(custom);
    assert_eq!(text, "Mine");
    let (custom, text) = label.finish_edit(None);
    assert!(!custom);
    assert_eq!(text, "vim");
}

// ------------------------------------------------------------ window rules

#[test]
fn cycling_indices() {
    assert_eq!(cycle_index(0, 3, true), 1);
    assert_eq!(cycle_index(2, 3, true), 0);
    assert_eq!(cycle_index(0, 3, false), 2);
    assert_eq!(cycle_index(1, 3, false), 0);
    let (mut ws, window_id, first, _t) = setup();
    assert_eq!(ws.windows[0].cycle_tab_target(true), None);
    let second = ws.add_tab_to_window(window_id).expect("tab");
    assert_eq!(ws.windows[0].active_tab, 0);
    assert_eq!(ws.windows[0].cycle_tab_target(true), Some(second));
    assert_eq!(ws.windows[0].cycle_tab_target(false), Some(second));
    ws.set_active_tab(window_id, second);
    assert_eq!(ws.windows[0].cycle_tab_target(true), Some(first));
}

#[test]
fn tab_label_widths() {
    assert_eq!(tab_label_max_chars(960, 3), 31);
    assert_eq!(tab_label_max_chars(100, 10), 8);
    assert_eq!(tab_label_max_chars(10000, 1), 50);
    assert_eq!(tab_label_max_chars(0, 0), 8);
    assert_eq!(tab_label_max_chars(-5, 2), 8);
    assert_eq!(tab_label_max_chars(1000, u32::MAX), 8);
}

#[test]
fn window_headings() {
    let (mut ws, window_id, tab_id, _t) = setup();
    ws.rename_window(window_id, "Main".to_string());
    assert_eq!(ws.windows[0].heading(false, "vim"), ("vim".to_string(), true));
    assert_eq!(ws.windows[0].heading(true, "vim"), ("Main".to_string(), false));
    ws.rename_tab(window_id, tab_id, "Build".to_string(), false);
    assert_eq!(ws.windows[0].heading(false, "vim"), ("Main — Build".to_string(), false));
}

#[test]
fn preferred_terminals() {
    let t = TerminalId(1);
    let a = TerminalId(2);
    assert_eq!(preferred_terminal(Some((TabId(5), t)), Some(TabId(5)), Some(a)), Some(t));
    assert_eq!(preferred_terminal(Some((TabId(5), t)), Some(TabId(6)), Some(a)), Some(a));
    assert_eq!(preferred_terminal(None, Some(TabId(6)), None), None);
    assert_eq!(preferred_terminal(Some((TabId(5), t)), None, Some(a)), Some(a));
}

#[test]
fn operations_keep_workspace_well_formed() {
    let (mut ws, window_id, tab_id, a) = setup();
    let b = ws.split_terminal(window_id, a, SplitOrientation::Horizontal).expect("split");
    let (inner, c) = ws.add_inner_tab(window_id, tab_id, b).expect("inner");
    let d = ws.split_terminal(window_id, c, SplitOrientation::Vertical).expect("split");
    assert!(workspace_well_formed(&ws));
    ws.close_terminal(window_id, d).expect("closed");
    assert!(workspace_well_formed(&ws));
    ws.close_terminal(window_id, b).expect("closed");
    assert!(workspace_well_formed(&ws));
    assert!(ws.close_inner_tab(window_id, tab_id, inner));
    assert!(workspace_well_formed(&ws));
    let t2 = ws.add_tab_to_window(window_id).expect("tab");
    assert!(ws.close_tab(window_id, t2));
    assert!(workspace_well_formed(&ws));
}

#[test]
fn well_formedness_check() {
    let (mut ws, window_id, tab_id, a) = setup();
    assert!(ws.is_well_formed());
    let _ = ws.add_inner_tab(window_id, tab_id, a).expect("inner");
    assert!(ws.is_well_formed());
    if let LayoutNode::Tabs(group) = &mut ws.windows[0].tabs[0].root {
        group.active = 9;
    }
    assert!(!ws.is_well_formed());
    let (mut ws2, _w, _t, _a) = setup();
    ws2.windows[0].active_tab = 3;
    assert!(!ws2.is_well_formed());
}

#[test]
fn close_terminal_takes_it_out_of_its_tab() {
    let (mut ws, window_id, tab_id, a) = setup();
    let b = ws.split_terminal(window_id, a, SplitOrientation::Vertical).expect("split");
    let (_inner, c) = ws.add_inner_tab(window_id, tab_id, b).expect("inner");
    assert_eq!(terminals_of(&ws, 0, 0), vec![a, b, c]);
    ws.close_terminal(window_id, b).expect("closed");
    assert_eq!(terminals_of(&ws, 0, 0), vec![a, c]);
    assert!(!ws.windows[0].tabs[0].root.contains_terminal(b));
    ws.close_terminal(window_id, a).expect("closed");
    ws.close_terminal(window_id, c).expect("closed");
    assert!(ws.windows.is_empty(), "closing the last terminal closes the tab and the window");
}

#[test]
fn add_inner_tab_focuses_new_terminal_below_a_split() {
    let (mut ws, window_id, tab_id, a) = setup();
    let b = ws.split_terminal(window_id, a, SplitOrientation::Horizontal).expect("split");
    let (_inner, n) = ws.add_inner_tab(window_id, tab_id, b).expect("inner");
    assert!(ws.windows[0].tabs[0].root.contains_terminal(n));
    assert_eq!(ws.windows[0].tabs[0].focus, n);
    assert_eq!(ws.windows[0].tabs[0].active_terminal(), n);
    assert!(matches!(ws.windows[0].tabs[0].root, LayoutNode::Split(_)));
}

#[test]
fn deep_clone_copies_the_window() {
    let (mut ws, window_id, tab_id, a) = setup();
    let _ = ws.add_inner_tab(window_id, tab_id, a).expect("inner");
    let copy = ws.windows[0].deep_clone();
    assert_eq!(copy.id, window_id);
    assert_eq!(copy.tabs.len(), 1);
    let mut ids = Vec::new();
    copy.tabs[0].collect_terminal_ids(&mut ids);
    assert_eq!(ids, terminals_of(&ws, 0, 0));
    assert_eq!(format!("{:?}", copy.tabs[0].root), format!("{:?}", ws.windows[0].tabs[0].root));
}

// ------------------------------------------------------------ revised behaviour

#[test]
fn new_inner_tab_next_to_grouped_terminal_nests_a_group_and_gets_focus() {
    let (mut ws, window_id, tab_id, a) = setup();
    let (i1, n1) = ws.add_inner_tab(window_id, tab_id, a).expect("inner tab");
    let (i2, n2) = ws.add_inner_tab(window_id, tab_id, n1).expect("inner tab");
    match &ws.windows[0].tabs[0].root {
        LayoutNode::Tabs(group) => {
            assert_eq!(group.tabs.len(), 2);
            assert_eq!(group.active, 1);
            assert_eq!(group.tabs[1].id, i1);
            assert_eq!(group.tabs[1].focus, n2);
            match &group.tabs[1].root {
                LayoutNode::Tabs(nested) => {
                    assert_eq!(nested.tabs.len(), 2);
                    assert_eq!(nested.active, 1);
                    assert!(nested.tabs[0].root.contains_terminal(n1));
                    assert_eq!(nested.tabs[1].id, i2);
                    assert!(matches!(&nested.tabs[1].root, LayoutNode::Terminal(leaf) if leaf.terminal_id == n2));
                },
                other => panic!("expected a nested group, got {:?}", other),
            }
        },
        other => panic!("expected a group, got {:?}", other),
    }
    assert_eq!(ws.windows[0].tabs[0].active_terminal(), n2);
    assert_eq!(ws.windows[0].tabs[0].focus, n2);
}

#[test]
fn nearest_group_new_inner_tab_joins_group_and_gets_focus() {
    let (mut ws, window_id, tab_id, a) = setup();
    let (_i1, n1) = ws.add_inner_tab(window_id, tab_id, a).expect("inner tab");
    let (i2, n2) = ws.add_inner_tab_to_nearest_group(window_id, tab_id, n1).expect("inner tab");
    match &ws.windows[0].tabs[0].root {
        LayoutNode::Tabs(group) => {
            assert_eq!(group.tabs.len(), 3);
            assert_eq!(group.active, 2);
            assert_eq!(group.tabs[2].id, i2);
            assert_eq!(group.tabs[2].focus, n2);
        },
        other => panic!("expected a group, got {:?}", other),
    }
    assert_eq!(ws.windows[0].tabs[0].active_terminal(), n2);
    assert!(ws.add_inner_tab_to_nearest_group(window_id, TabId(4), a).is_none());
}

#[test]
fn nearest_group_new_inner_tab_without_group_wraps() {
    let (mut ws, window_id, tab_id, a) = setup();
    let (_i, n) = ws.add_inner_tab_to_nearest_group(window_id, tab_id, a).expect("inner tab");
    match &ws.windows[0].tabs[0].root {
        LayoutNode::Tabs(group) => {
            assert_eq!(group.tabs.len(), 2);
            assert_eq!(group.active, 1);
        },
        other => panic!("expected a group, got {:?}", other),
    }
    assert_eq!(ws.windows[0].tabs[0].active_terminal(), n);
}

#[test]
fn contextual_new_tab_adds_to_closest_group() {
    let (mut ws, window_id, tab_id, a) = setup();
    let _ = ws.add_inner_tab(window_id, tab_id, a).expect("inner tab");
    let tabs_before = ws.windows[0].tabs.len();
    let focused = ws.windows[0].tabs[0].active_terminal();
    let source = ws.contextual_new_tab_source(window_id, tab_id, Some(focused)).expect("a group is near");
    let (_i, n) = ws.add_inner_tab_to_nearest_group(window_id, tab_id, source).expect("inner tab");
    assert_eq!(ws.windows[0].tabs.len(), tabs_before);
    match &ws.windows[0].tabs[0].root {
        LayoutNode::Tabs(group) => assert_eq!(group.tabs.len(), 3),
        other => panic!("expected a group, got {:?}", other),
    }
    assert_eq!(ws.windows[0].tabs[0].active_terminal(), n);
}

#[test]
fn new_inner_tab_in_nested_group_is_focused() {
    let (mut ws, window_id, tab_id, a) = setup();
    let b = ws.split_terminal(window_id, a, SplitOrientation::Horizontal).expect("split");
    let (_i1, n1) = ws.add_inner_tab(window_id, tab_id, b).expect("wrapped");
    let (_i2, n2) = ws.add_inner_tab_to_nearest_group(window_id, tab_id, n1).expect("joined");
    match &ws.windows[0].tabs[0].root {
        LayoutNode::Split(split) => match &split.children[1] {
            LayoutNode::Tabs(group) => {
                assert_eq!(group.tabs.len(), 3);
                assert_eq!(group.active, 2);
            },
            other => panic!("expected a group, got {:?}", other),
        },
        other => panic!("expected a split, got {:?}", other),
    }
    assert_eq!(ws.windows[0].tabs[0].active_terminal(), n2);
}

#[test]
fn first_terminal_in_tab_is_depth_first() {
    let (mut ws, window_id, tab_id, a) = setup();
    let (_i, n) = ws.add_inner_tab(window_id, tab_id, a).expect("inner tab");
    assert_eq!(ws.windows[0].tabs[0].active_terminal(), n);
    assert_eq!(ws.first_terminal_in_tab(window_id, tab_id), Some(a));
    assert_eq!(ws.first_terminal_in_tab(window_id, TabId(5)), None);
}

#[test]
fn rename_nested_inner_tab() {
    let (mut ws, window_id, tab_id, a) = setup();
    let r = ws.split_terminal(window_id, a, SplitOrientation::Horizontal).expect("split");
    let br = ws.split_terminal(window_id, r, SplitOrientation::Vertical).expect("split");
    let _ = ws.add_inner_tab(window_id, tab_id, br).expect("inner tab");
    let first_inner = match &ws.windows[0].tabs[0].root {
        LayoutNode::Split(outer) => match &outer.children[1] {
            LayoutNode::Split(right) => match right.children.last() {
                Some(LayoutNode::Tabs(group)) => group.tabs[0].id,
                other => panic!("expected a group, got {:?}", other),
            },
            other => panic!("expected a split, got {:?}", other),
        },
        other => panic!("expected a split, got {:?}", other),
    };
    assert!(ws.rename_inner_tab(window_id, tab_id, first_inner, "My Custom Inner".to_string(), false));
    let inner = ws.windows[0].tabs[0].root.find_inner_tab(first_inner).expect("found");
    assert_eq!(inner.title, "My Custom Inner");
    assert!(!inner.flexible);
}

#[test]
fn move_to_split_keeps_surrounding_split() {
    let (mut ws, window_id, _tab, top) = setup();
    let bottom = ws.split_terminal(window_id, top, SplitOrientation::Vertical).expect("split");
    assert!(ws.move_terminal_to_split(window_id, bottom, top, SplitOrientation::Horizontal));
    match &ws.windows[0].tabs[0].root {
        LayoutNode::Split(outer) => {
            assert_eq!(outer.orientation, SplitOrientation::Vertical);
            match &outer.children[0] {
                LayoutNode::Split(inner) => {
                    assert_eq!(inner.orientation, SplitOrientation::Horizontal);
                    assert!(inner.children.last().unwrap().contains_terminal(bottom));
                    assert!(inner.children[0].contains_terminal(top));
                },
                other => panic!("expected a horizontal split, got {:?}", other),
            }
        },
        other => panic!("expected a vertical split, got {:?}", other),
    }
    assert_eq!(ws.windows[0].tabs[0].active_terminal(), bottom);
}

#[test]
fn cycling_forward_then_back_restores_active_tab() {
    let (mut ws, window_id, first, _t) = setup();
    let _second = ws.add_tab_to_window(window_id).expect("tab");
    let _third = ws.add_tab_to_window(window_id).expect("tab");
    ws.set_active_tab(window_id, first);
    for start in 0..3usize {
        let id = ws.windows[0].tabs[start].id;
        ws.set_active_tab(window_id, id);
        let fwd = ws.windows[0].cycle_tab_target(true).expect("next");
        ws.set_active_tab(window_id, fwd);
        assert_eq!(ws.windows[0].active_tab, (start + 1) % 3);
        let back = ws.windows[0].cycle_tab_target(false).expect("previous");
        ws.set_active_tab(window_id, back);
        assert_eq!(ws.windows[0].active_tab, start);
    }
}

#[test]
fn removal_keeps_splits_of_two_or_more() {
    let (mut ws, window_id, _tab, a) = setup();
    let b = ws.split_terminal(window_id, a, SplitOrientation::Horizontal).expect("split");
    let c = ws.split_terminal(window_id, b, SplitOrientation::Vertical).expect("split");
    let mut root = ws.windows[0].tabs[0].root.deep_clone();
    assert!(root.remove_terminal(c));
    match &root {
        LayoutNode::Split(split) => {
            assert_eq!(split.children.len(), 2);
            assert!(matches!(split.children[1], LayoutNode::Terminal(_)));
        },
        other => panic!("expected a split, got {:?}", other),
    }
    assert!(root.remove_terminal(a));
    assert!(matches!(root, LayoutNode::Terminal(_)));
    assert!(root.remove_terminal(b));
    assert!(root.is_empty());
    assert!(!root.contains_terminal(b));
}

#[test]
fn written_drag_payload_reads_back() {
    let text = DragPayload::write(
        WindowId(0x0123_4567_89ab_cdef_0011_2233_4455_6677),
        TabId(5),
        Some(InnerTabId(6)),
        TerminalId(u128::MAX),
        "inner_label",
    );
    assert_eq!(
        text,
        "term-move window=01234567-89ab-cdef-0011-223344556677 tab=00000000-0000-0000-0000-000000000005 \
         inner=00000000-0000-0000-0000-000000000006 terminal=ffffffff-ffff-ffff-ffff-ffffffffffff src=inner_label"
    );
    let p = DragPayload::try_from(text.as_str()).expect("parses");
    assert_eq!(p.window, WindowId(0x0123_4567_89ab_cdef_0011_2233_4455_6677));
    assert_eq!(p.tab, Some(TabId(5)));
    assert_eq!(p.inner, Some(InnerTabId(6)));
    assert_eq!(p.terminal, TerminalId(u128::MAX));
    assert_eq!(p.src.as_deref(), Some("inner_label"));
    let header = DragPayload::write(WindowId(1), TabId(2), None, TerminalId(3), "header");
    let q = DragPayload::try_from(header.as_str()).expect("parses");
    assert_eq!(q.inner, None);
    assert_eq!(q.terminal, TerminalId(3));
}

#[test]
fn preconditions_can_be_tested() {
    let (mut ws, window_id, tab_id, a) = setup();
    let (_i, n) = ws.add_inner_tab(window_id, tab_id, a).expect("inner tab");
    let m = ws.split_terminal(window_id, n, SplitOrientation::Horizontal).expect("split");
    assert!(ws.can_close_terminal(window_id, m));
    assert!(ws.can_close_terminal(window_id, TerminalId(77)));
    assert!(ws.can_refresh_titles());
    if let LayoutNode::Tabs(group) = &mut ws.windows[0].tabs[0].root {
        group.active = 9;
    }
    assert!(!ws.can_refresh_titles());
    assert!(!ws.can_close_terminal(window_id, m));
    assert!(ws.can_close_terminal(window_id, a), "closing the only terminal of an inner tab drops it and clamps the index");
    assert!(ws.can_close_terminal(WindowId(3), n));
}
