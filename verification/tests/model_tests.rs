use terminator2::keybindings::default_keybindings;
use terminator2::model::{
    ActionId, FocusDirection, InnerTabId, LayoutNode, SplitOrientation, TabId, TerminalId, WindowId, WorkspaceModel,
};

fn setup_workspace() -> (WorkspaceModel, WindowId, TabId, TerminalId) {
    let ws = WorkspaceModel::new_single_terminal();
    let window_id = ws.windows[0].id;
    let tab = &ws.windows[0].tabs[0];
    let tab_id = tab.id;
    let term_id = tab.active_terminal();
    (ws, window_id, tab_id, term_id)
}

#[test]
fn add_inner_tab_creates_group_and_focuses_new() {
    let (mut ws, window_id, tab_id, term_id) = setup_workspace();
    assert!(matches!(
        ws.windows[0].tabs[0].root,
        LayoutNode::Terminal(_)
    ));

    let (_inner_id, new_terminal) = ws
        .add_inner_tab(window_id, tab_id, term_id)
        .expect("should add inner tab");

    // Should now be a Tabs group with 2 inner tabs
    match &ws.windows[0].tabs[0].root {
        LayoutNode::Tabs(group) => {
            assert_eq!(group.tabs.len(), 2);
            assert_eq!(group.active, 1);
        }
        other => panic!("expected Tabs group, got {:?}", other),
    }
    // Focus should be the new terminal id
    assert_eq!(ws.windows[0].tabs[0].active_terminal(), new_terminal);
}

#[test]
fn split_and_collapse_on_close() {
    let (mut ws, window_id, _tab_id, first_term) = setup_workspace();
    // Split the only terminal
    let new_term = ws
        .split_terminal(window_id, first_term, SplitOrientation::Horizontal)
        .expect("split returns new terminal id");
    // After split, tree should be a Split with 2 children
    match &ws.windows[0].tabs[0].root {
        LayoutNode::Split(split) => {
            assert_eq!(split.children.len(), 2);
        }
        _ => panic!("expected Split after split_terminal"),
    }
    // Close the newly created terminal, should collapse back
    ws.close_terminal(window_id, new_term).expect("close ok");
    match &ws.windows[0].tabs[0].root {
        LayoutNode::Terminal(leaf) => {
            assert_eq!(leaf.terminal_id, first_term);
        }
        _ => panic!("expected Terminal after collapsing split"),
    }
}

#[test]
fn close_inner_tabs_collapses_group() {
    let (mut ws, window_id, tab_id, term_id) = setup_workspace();
    let (_id2, _new_term) = ws.add_inner_tab(window_id, tab_id, term_id).expect("added");

    let inner_ids: Vec<InnerTabId> = match &ws.windows[0].tabs[0].root {
        LayoutNode::Tabs(group) => group.tabs.iter().map(|i| i.id).collect(),
        _ => panic!("expected tabs"),
    };

    // Close the new inner tab
    assert!(ws.close_inner_tab(window_id, tab_id, inner_ids[1]));
    match &ws.windows[0].tabs[0].root {
        LayoutNode::Tabs(group) => {
            assert_eq!(group.tabs.len(), 1);
        }
        _ => panic!("expected tabs after removing one inner tab"),
    }

    // Close the remaining inner tab -> removes the parent tab; workspace becomes empty window set
    assert!(ws.close_inner_tab(window_id, tab_id, inner_ids[0]));
    // Since this was the only tab in the window, the window is removed as well
    assert!(ws.windows.iter().all(|w| w.id != window_id));
}

#[test]
fn close_terminal_removes_inner_tab_leaf() {
    let (mut ws, window_id, tab_id, term_id) = setup_workspace();
    let (_inner_id, new_term) = ws
        .add_inner_tab(window_id, tab_id, term_id)
        .expect("inner tab added");

    ws.close_terminal(window_id, new_term)
        .expect("closing inner tab terminal succeeds");

    match &ws.windows[0].tabs[0].root {
        LayoutNode::Tabs(group) => {
            assert_eq!(group.tabs.len(), 1);
            assert!(group.tabs[0].root.contains_terminal(term_id));
        }
        other => panic!("expected remaining tabs group, got {:?}", other),
    }
}

#[test]
fn default_split_keybindings_match_expected() {
    let map = default_keybindings();
    let horiz = map
        .get(&ActionId::SplitHorizontal)
        .expect("horizontal binding exists");
    assert_eq!(horiz, &["<Ctrl><Shift>E".to_string()]);

    let vert = map
        .get(&ActionId::SplitVertical)
        .expect("vertical binding exists");
    assert_eq!(vert, &["<Ctrl><Shift>O".to_string()]);

    let next = map
        .get(&ActionId::NextTab)
        .expect("next tab binding exists");
    assert_eq!(next, &["<Ctrl>Page_Down".to_string()]);

    let prev = map
        .get(&ActionId::PrevTab)
        .expect("prev tab binding exists");
    assert_eq!(prev, &["<Ctrl>Page_Up".to_string()]);
}

#[test]
fn focus_neighbor_across_splits() {
    let (mut ws, window_id, tab_id, first) = setup_workspace();
    let right = ws
        .split_terminal(window_id, first, SplitOrientation::Horizontal)
        .expect("horizontal split");

    assert_eq!(
        ws.focus_neighbor(window_id, tab_id, first, FocusDirection::Right),
        Some(right)
    );
    assert_eq!(
        ws.focus_neighbor(window_id, tab_id, right, FocusDirection::Left),
        Some(first)
    );

    let bottom = ws
        .split_terminal(window_id, right, SplitOrientation::Vertical)
        .expect("vertical split");

    assert_eq!(
        ws.focus_neighbor(window_id, tab_id, right, FocusDirection::Down),
        Some(bottom)
    );
    assert_eq!(
        ws.focus_neighbor(window_id, tab_id, bottom, FocusDirection::Up),
        Some(right)
    );
}

#[test]
fn inner_tab_should_be_nested_in_lower_right_after_o_e_u() {
    // Sequence: Ctrl+Shift+O (vertical split), Ctrl+Shift+E (horizontal split on focused), Ctrl+Shift+U (new inner tab)
    let (mut ws, window_id, tab_id, first) = setup_workspace();

    // Split vertically: create right (or bottom) sibling; per implementation, new terminal becomes the second child
    let right_or_bottom = ws
        .split_terminal(window_id, first, SplitOrientation::Vertical)
        .expect("vertical split created");

    // Split horizontally on the newly created terminal to form a bottom-right quadrant
    let bottom_right = ws
        .split_terminal(window_id, right_or_bottom, SplitOrientation::Horizontal)
        .expect("horizontal split on new child");

    // Add inner tab at the currently focused terminal (should be bottom_right)
    let maybe = ws.add_inner_tab(window_id, tab_id, bottom_right);
    assert!(maybe.is_some());

    // Validate that the tabs node appears nested within the bottom-right branch, not at the top-level
    let root = &ws.windows[0].tabs[0].root;
    match root {
        LayoutNode::Split(outer) => {
            // Expect the second child branch to contain a split with a tabs node at its last child
            match &outer.children[outer.children.len() - 1] {
                LayoutNode::Split(inner) => {
                    match &inner.children[inner.children.len() - 1] {
                        LayoutNode::Tabs(group) => {
                            assert!(group.tabs.len() >= 2, "expected at least two inner tabs");
                        }
                        other => panic!("expected nested tabs at bottom-right, got {:?}", other),
                    }
                }
                other => panic!("expected nested split as right/bottom branch, got {:?}", other),
            }
        }
        other => panic!("expected outer split as root, got {:?}", other),
    }
}

#[test]
fn close_first_inner_tab_in_nested_group() {
    // Sequence: O (vertical), E (horizontal on new), U (new inner), then close first inner tab
    let (mut ws, window_id, tab_id, first) = setup_workspace();

    let right = ws
        .split_terminal(window_id, first, SplitOrientation::Vertical)
        .expect("vertical split created");

    let bottom_right = ws
        .split_terminal(window_id, right, SplitOrientation::Horizontal)
        .expect("horizontal split on right");

    let (_inner_id, _new_term) = ws
        .add_inner_tab(window_id, tab_id, bottom_right)
        .expect("inner tab added at bottom-right");

    // Locate nested group at bottom-right and capture the first inner id
    let first_inner_id = {
        let window = &ws.windows[0];
        let tab = &window.tabs[0];
        match &tab.root {
            LayoutNode::Split(outer) => match &outer.children[1] {
                LayoutNode::Split(inner) => match inner.children.last().unwrap() {
                    LayoutNode::Tabs(group) => group.tabs.first().unwrap().id,
                    other => panic!("expected tabs node, got {:?}", other),
                },
                other => panic!("expected nested split on right, got {:?}", other),
            },
            other => panic!("expected split root, got {:?}", other),
        }
    };

    assert!(ws.close_inner_tab(window_id, tab_id, first_inner_id));

    // Verify there is still a Tabs group at bottom-right with exactly 1 inner tab
    let window = &ws.windows[0];
    let tab = &window.tabs[0];
    match &tab.root {
        LayoutNode::Split(outer) => match &outer.children[1] {
            LayoutNode::Split(inner) => match inner.children.last().unwrap() {
                LayoutNode::Tabs(group) => assert_eq!(group.tabs.len(), 1),
                other => panic!("expected tabs node after close, got {:?}", other),
            },
            other => panic!("expected nested right split after close, got {:?}", other),
        },
        other => panic!("expected split root after close, got {:?}", other),
    }

    // Ensure workspace still has one window and one top-level tab
    assert_eq!(ws.windows.len(), 1);
    assert_eq!(ws.windows[0].tabs.len(), 1);
}

#[test]
fn closing_all_inner_tabs_removes_parent_tab_and_window() {
    let (mut ws, window_id, tab_id, term) = setup_workspace();
    let (_id2, _new_term) = ws
        .add_inner_tab(window_id, tab_id, term)
        .expect("inner added");
    // Now two inner tabs at top-level group
    let (id_a, id_b) = {
        let window = &ws.windows[0];
        let tab = &window.tabs[0];
        match &tab.root {
            LayoutNode::Tabs(group) => (group.tabs[0].id, group.tabs[1].id),
            other => panic!("expected tabs at top-level, got {:?}", other),
        }
    };
    assert!(ws.close_inner_tab(window_id, tab_id, id_a));
    assert!(ws.close_inner_tab(window_id, tab_id, id_b));
    // Removing last inner removes parent tab, which removes only tab -> window list empty
    assert!(ws.windows.is_empty());
}

#[test]
fn focus_adjacent_in_nested_vertical_splits_moves_to_immediate_neighbor() {
    // Build nested vertical splits: A (top), then bottom split into B (top) and C (bottom).
    let (mut ws, window_id, tab_id, a) = setup_workspace();
    let b = ws
        .split_terminal(window_id, a, SplitOrientation::Vertical)
        .expect("split to create bottom");
    let c = ws
        .split_terminal(window_id, b, SplitOrientation::Vertical)
        .expect("split bottom into nested bottom");

    // From C, moving Up should go to B (immediate neighbor), not A.
    let up_from_c = ws
        .focus_neighbor(window_id, tab_id, c, FocusDirection::Up)
        .expect("up neighbor exists");
    assert_eq!(up_from_c, b, "expected immediate neighbor B when moving up from C");

    // From B, moving Down should go to C (immediate neighbor).
    let down_from_b = ws
        .focus_neighbor(window_id, tab_id, b, FocusDirection::Down)
        .expect("down neighbor exists");
    assert_eq!(down_from_b, c, "expected immediate neighbor C when moving down from B");
}

#[test]
fn nested_vertical_behaves_as_flat_for_navigation() {
    // Same layout as above: ensure moving Up from C twice goes to A.
    let (mut ws, window_id, tab_id, a) = setup_workspace();
    let b = ws
        .split_terminal(window_id, a, SplitOrientation::Vertical)
        .expect("split to create bottom");
    let c = ws
        .split_terminal(window_id, b, SplitOrientation::Vertical)
        .expect("split bottom into nested bottom");

    let up1 = ws
        .focus_neighbor(window_id, tab_id, c, FocusDirection::Up)
        .expect("up neighbor exists");
    assert_eq!(up1, b);
    let up2 = ws
        .focus_neighbor(window_id, tab_id, up1, FocusDirection::Up)
        .expect("up neighbor exists");
    assert_eq!(up2, a, "second up should reach A as if the tree were flattened");
}

#[test]
fn split_inside_double_nested_inner_tabs_succeeds() {
    // Build: split vertical to get right, split horizontal on right to get bottom-right.
    // Then add inner tabs at bottom-right, and again add inner tabs within that inner (double nested).
    // Now split the focused terminal (inside double-nested tabs) horizontally and expect success.
    let (mut ws, window_id, tab_id, first) = setup_workspace();
    let right = ws
        .split_terminal(window_id, first, SplitOrientation::Vertical)
        .expect("vsplit created");
    let bottom_right = ws
        .split_terminal(window_id, right, SplitOrientation::Horizontal)
        .expect("hsplit on right created");

    // Nest level 1 inner tabs
    let (_inner1, inner_term1) = ws
        .add_inner_tab(window_id, tab_id, bottom_right)
        .expect("inner level 1");
    // Focus is inner_term1 by contract of add_inner_tab; nest level 2 inside that
    let (_inner2, inner_term2) = ws
        .add_inner_tab(window_id, tab_id, inner_term1)
        .expect("inner level 2");

    // Attempt to split inner_term2 horizontally
    let new = ws.split_terminal(window_id, inner_term2, SplitOrientation::Horizontal);
    assert!(new.is_some(), "split should succeed inside nested inner tabs");

    // New terminal must be discoverable in the tree
    let window = &ws.windows[0];
    let tab = &window.tabs[0];
    let new_id = new.unwrap();
    assert!(tab.root.contains_terminal(new_id));
}

#[test]
fn closing_all_terminals_in_one_tab_removes_that_tab() {
    // Start with a single window and one tab
    let (mut ws, window_id, _first_tab_id, first_term) = setup_workspace();

    // Build a 4-terminal layout in the first tab:
    // vertical split -> two branches; then split each branch horizontally.
    let right = ws
        .split_terminal(window_id, first_term, SplitOrientation::Vertical)
        .expect("vertical split created");
    let left_new = ws
        .split_terminal(window_id, first_term, SplitOrientation::Horizontal)
        .expect("left branch horizontal split");
    let right_new = ws
        .split_terminal(window_id, right, SplitOrientation::Horizontal)
        .expect("right branch horizontal split");

    // Add a second tab to ensure the window remains after removing the first tab
    let second_tab_id = ws
        .add_tab_to_window(window_id)
        .expect("second tab added");
    // Also give it a non-trivial layout so the window isn't empty by accident
    let second_first = ws
        .first_terminal_in_tab(window_id, second_tab_id)
        .expect("second tab first terminal");
    let second_right = ws
        .split_terminal(window_id, second_first, SplitOrientation::Vertical)
        .expect("second vertical split");
    let _ = ws
        .split_terminal(window_id, second_first, SplitOrientation::Horizontal)
        .expect("second left horizontal split");
    let _ = ws
        .split_terminal(window_id, second_right, SplitOrientation::Horizontal)
        .expect("second right horizontal split");

    // Now close all four terminals that belong to the first tab
    assert!(ws.close_terminal(window_id, left_new).is_some());
    assert!(ws.close_terminal(window_id, first_term).is_some());
    assert!(ws.close_terminal(window_id, right_new).is_some());
    assert!(ws.close_terminal(window_id, right).is_some());

    // The first tab should be removed; window must retain only the second tab
    assert_eq!(ws.windows.len(), 1, "window should remain present");
    let window = &ws.windows[0];
    assert_eq!(window.tabs.len(), 1, "closing last terminal must remove the tab");
    assert_eq!(window.tabs[0].id, second_tab_id, "remaining tab should be the second tab");
    assert!(window.tabs[0].root.first_terminal_id().is_some(), "remaining tab should have terminals");
}
