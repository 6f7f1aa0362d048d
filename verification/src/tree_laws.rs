//! What splitting a terminal and removing one do to a layout tree: where the
//! terminals end up, and which neighbours moving the focus reaches.
use vstd::prelude::*;
use crate::model::{InnerTabId, SplitOrientation, TerminalId};
use crate::view::{InnerV, LayoutV};
use crate::layout_spec::{
    adjacent, apply_edit, contains, contains_inners, contains_nodes, drop_empty, edit, edit_inners, edit_nodes,
    empty_split, first_containing, first_terminal, last_terminal, first_inner_containing, is_empty, remove, remove_nodes, strip, strip_nodes, terminal_leaf, terminals,
    terminals_inners, terminals_nodes, with_root, EditOp, inner_index, layout_wf, single_inner, node_shape, tree_shape, focus_held, row,
};
use crate::layout_lemmas::{
    lemma_contains_inners, lemma_contains_nodes, lemma_edit_at_leaf, lemma_edit_inners, lemma_edit_nodes,
    lemma_first_containing, lemma_first_inner_containing, lemma_first_terminal_nodes, lemma_last_terminal_nodes, lemma_terminals_nodes_take, lemma_remove_nodes, lemma_strip_nodes, lemma_drop_empty_members, lemma_inner_index,
};

verus! {

/// The first child that holds `t` is the one at `i` when no child before it does.
pub proof fn lemma_first_containing_at(s: Seq<LayoutV>, t: TerminalId, i: int)
    requires
        0 <= i < s.len(),
        contains(s[i], t),
        forall|j: int| 0 <= j < i ==> !contains(#[trigger] s[j], t),
    ensures
        first_containing(s, t) == i,
{
    lemma_first_containing(s, t);
    lemma_contains_nodes(s, t);
    let f = first_containing(s, t);
    if f > i {
        assert(!contains(s[i], t));
    }
    if 0 <= f < i {
        assert(!contains(s[f], t));
    }
}

/// The first inner tab that holds `t` is the one at `i` when no inner tab
/// before it does.
pub proof fn lemma_first_inner_containing_at(s: Seq<InnerV>, t: TerminalId, i: int)
    requires
        0 <= i < s.len(),
        contains(s[i].root, t),
        forall|j: int| 0 <= j < i ==> !contains((#[trigger] s[j]).root, t),
    ensures
        first_inner_containing(s, t) == i,
{
    lemma_first_inner_containing(s, t);
    lemma_contains_inners(s, t);
    let f = first_inner_containing(s, t);
    if f > i {
        assert(!contains(s[i].root, t));
    }
    if 0 <= f < i {
        assert(!contains(s[f].root, t));
    }
}

/// A tree that holds a terminal lists at least one terminal.
pub proof fn lemma_contains_nonempty(v: LayoutV, t: TerminalId)
    requires
        contains(v, t),
    ensures
        terminals(v).len() > 0,
    decreases v,
{
    match v {
        LayoutV::Leaf { .. } => {},
        LayoutV::Split { children, .. } => lemma_contains_nodes_nonempty(children, t),
        LayoutV::Tabs { tabs, .. } => lemma_contains_inners_nonempty(tabs, t),
    }
}

pub proof fn lemma_contains_nodes_nonempty(s: Seq<LayoutV>, t: TerminalId)
    requires
        contains_nodes(s, t),
    ensures
        terminals_nodes(s).len() > 0,
    decreases s,
{
    if s.len() > 0 {
        if contains(s.last(), t) {
            lemma_contains_nonempty(s.last(), t);
        } else {
            lemma_contains_nodes_nonempty(s.drop_last(), t);
        }
    }
}

pub proof fn lemma_contains_inners_nonempty(s: Seq<InnerV>, t: TerminalId)
    requires
        contains_inners(s, t),
    ensures
        terminals_inners(s).len() > 0,
    decreases s,
{
    if s.len() > 0 {
        if contains(s.last().root, t) {
            lemma_contains_nonempty(s.last().root, t);
        } else {
            lemma_contains_inners_nonempty(s.drop_last(), t);
        }
    }
}

/// Children with the same terminals, one by one, list the same terminals.
pub proof fn lemma_terminals_nodes_pointwise(a: Seq<LayoutV>, b: Seq<LayoutV>)
    requires
        a.len() == b.len(),
        forall|j: int| 0 <= j < a.len() ==> terminals(#[trigger] a[j]) == terminals(b[j]),
    ensures
        terminals_nodes(a) == terminals_nodes(b),
    decreases a.len(),
{
    if a.len() > 0 {
        assert forall|j: int| 0 <= j < a.len() - 1 implies terminals(#[trigger] a.drop_last()[j]) == terminals(
            b.drop_last()[j],
        ) by {
            assert(terminals(a[j]) == terminals(b[j]));
        }
        lemma_terminals_nodes_pointwise(a.drop_last(), b.drop_last());
        assert(terminals(a[a.len() - 1]) == terminals(b[b.len() - 1]));
    }
}

/// Inner tabs with the same terminals, one by one, list the same terminals.
pub proof fn lemma_terminals_inners_pointwise(a: Seq<InnerV>, b: Seq<InnerV>)
    requires
        a.len() == b.len(),
        forall|j: int| 0 <= j < a.len() ==> terminals((#[trigger] a[j]).root) == terminals(b[j].root),
    ensures
        terminals_inners(a) == terminals_inners(b),
    decreases a.len(),
{
    if a.len() > 0 {
        assert forall|j: int| 0 <= j < a.len() - 1 implies terminals((#[trigger] a.drop_last()[j]).root) == terminals(
            b.drop_last()[j].root,
        ) by {
            assert(terminals(a[j].root) == terminals(b[j].root));
        }
        lemma_terminals_inners_pointwise(a.drop_last(), b.drop_last());
        assert(terminals(a[a.len() - 1].root) == terminals(b[b.len() - 1].root));
    }
}

/// Dropping empty subtrees drops no terminal.
pub proof fn lemma_terminals_drop_empty(s: Seq<LayoutV>)
    ensures
        terminals_nodes(drop_empty(s)) == terminals_nodes(s),
    decreases s.len(),
{
    if s.len() > 0 {
        lemma_terminals_drop_empty(s.drop_last());
        let d = drop_empty(s.drop_last());
        if is_empty(s.last()) {
            assert(terminals(s.last()) =~= Seq::<TerminalId>::empty());
            assert(terminals_nodes(s) =~= terminals_nodes(s.drop_last()));
        } else {
            assert(d.push(s.last()).drop_last() =~= d);
        }
    }
}

/// A split that collapses into its only child keeps its terminals.
pub proof fn lemma_terminals_collapse(o: SplitOrientation, rs: Seq<LayoutV>)
    ensures
        terminals(if rs.len() == 1 { rs[0] } else { LayoutV::Split { orientation: o, children: rs } })
            == terminals_nodes(rs),
{
    if rs.len() == 1 {
        assert(rs.drop_last() =~= Seq::<LayoutV>::empty());
        assert(terminals_nodes(rs.drop_last()) =~= Seq::<TerminalId>::empty());
        assert(rs.last() == rs[0]);
        assert(Seq::<TerminalId>::empty() + terminals(rs[0]) =~= terminals(rs[0]));
        assert(terminals_nodes(rs) =~= terminals(rs[0]));
    }
}

/// The terminals of a split after a removal are those of its children after it.
pub proof fn lemma_terminals_remove_split(o: SplitOrientation, cs: Seq<LayoutV>, n: TerminalId)
    ensures
        terminals(remove(LayoutV::Split { orientation: o, children: cs }, n)) == terminals_nodes(remove_nodes(cs, n)),
{
    let rs = drop_empty(remove_nodes(cs, n));
    lemma_terminals_collapse(o, rs);
    lemma_terminals_drop_empty(remove_nodes(cs, n));
}

/// Removing a terminal that a tree does not hold leaves its terminals as
/// they are.
pub proof fn lemma_remove_absent(v: LayoutV, n: TerminalId)
    requires
        !contains(v, n),
    ensures
        terminals(remove(v, n)) == terminals(v),
    decreases v,
{
    match v {
        LayoutV::Leaf { .. } => {},
        LayoutV::Split { orientation, children } => {
            lemma_contains_nodes(children, n);
            lemma_remove_nodes(children, n);
            assert forall|j: int| 0 <= j < children.len() implies terminals(#[trigger] remove_nodes(children, n)[j])
                == terminals(children[j]) by {
                lemma_remove_absent(children[j], n);
            }
            lemma_terminals_nodes_pointwise(remove_nodes(children, n), children);
            lemma_terminals_remove_split(orientation, children, n);
        },
        LayoutV::Tabs { tabs, .. } => {
            lemma_first_inner_containing(tabs, n);
        },
    }
}

/// Splitting the leaf of `t` with a terminal `n` that the tree does not
/// hold: the split applies; the tree then holds both; moving forward along
/// the split's orientation from `t` reaches `n` and moving back from `n`
/// reaches `t`; and removing `n` again leaves the terminals of the tree as
/// they were before the split.
pub proof fn lemma_split_at(v: LayoutV, t: TerminalId, o: SplitOrientation, n: TerminalId)
    requires
        contains(v, t),
        !contains(v, n),
    ensures
        edit(EditOp::SplitAt { target: t, orientation: o, new_terminal: n }, v) is Some,
        contains(apply_edit(EditOp::SplitAt { target: t, orientation: o, new_terminal: n }, v), t),
        contains(apply_edit(EditOp::SplitAt { target: t, orientation: o, new_terminal: n }, v), n),
        adjacent(apply_edit(EditOp::SplitAt { target: t, orientation: o, new_terminal: n }, v), t, o, true)
            == Some(n),
        adjacent(apply_edit(EditOp::SplitAt { target: t, orientation: o, new_terminal: n }, v), n, o, false)
            == Some(t),
        terminals(remove(apply_edit(EditOp::SplitAt { target: t, orientation: o, new_terminal: n }, v), n))
            == terminals(v),
    decreases v,
{
    let op = EditOp::SplitAt { target: t, orientation: o, new_terminal: n };
    match v {
        LayoutV::Leaf { terminal, .. } => {
            let cs = seq![v, terminal_leaf(n)];
            let v2 = LayoutV::Split { orientation: o, children: cs };
            assert(apply_edit(op, v) == v2);
            assert(cs.drop_last() =~= seq![v]);
            assert(seq![v].drop_last() =~= Seq::<LayoutV>::empty());
            assert(cs[0] == v);
            assert(cs[1] == terminal_leaf(n));
            lemma_contains_nodes(cs, t);
            lemma_contains_nodes(cs, n);
            assert(contains(cs[1], n));
            lemma_first_containing_at(cs, t, 0);
            lemma_first_containing_at(cs, n, 1);
            assert(adjacent(cs[0], t, o, true) is None);
            assert(adjacent(cs[1], n, o, false) is None);
            assert(first_terminal(cs[1]) == Some(n));
            assert(last_terminal(cs[0]) == Some(t));
            assert(adjacent(v2, t, o, true) == Some(n));
            assert(adjacent(v2, n, o, false) == Some(t));
            lemma_remove_nodes(cs, n);
            let rs = remove_nodes(cs, n);
            assert(rs[0] == v);
            assert(rs[1] == empty_split());
            lemma_terminals_remove_split(o, cs, n);
            assert(rs.drop_last() =~= seq![v]);
            assert(terminals_nodes(Seq::<LayoutV>::empty()) =~= Seq::<TerminalId>::empty());
            assert(seq![v].last() == v);
            assert(Seq::<TerminalId>::empty() + terminals(v) =~= terminals(v));
            assert(terminals_nodes(seq![v]) =~= terminals(v));
            assert(rs.last() == empty_split());
            assert(terminals(empty_split()) =~= Seq::<TerminalId>::empty());
            assert(terminals(v) + Seq::<TerminalId>::empty() =~= terminals(v));
            assert(terminals_nodes(rs) =~= terminals(v));
        },
        LayoutV::Split { orientation: so, children: cs } => {
            lemma_first_containing(cs, t);
            lemma_contains_nodes(cs, n);
            let i = first_containing(cs, t);
            assert forall|j: int| 0 <= j < i implies edit(op, #[trigger] cs[j]) is None by {
                lemma_edit_at_leaf(op, cs[j]);
            }
            lemma_edit_at_leaf(op, cs[i]);
            lemma_edit_nodes(op, cs, i);
            lemma_split_at(cs[i], t, o, n);
            let c2 = apply_edit(op, cs[i]);
            let cs2 = cs.update(i, c2);
            let v2 = LayoutV::Split { orientation: so, children: cs2 };
            assert(apply_edit(op, v) == v2);
            assert forall|j: int| 0 <= j < i implies !contains(#[trigger] cs2[j], t) by {
                assert(cs2[j] == cs[j]);
            }
            assert forall|j: int| 0 <= j < i implies !contains(#[trigger] cs2[j], n) by {
                assert(cs2[j] == cs[j]);
                assert(!contains(cs[j], n));
            }
            lemma_first_containing_at(cs2, t, i);
            lemma_first_containing_at(cs2, n, i);
            lemma_contains_nodes(cs2, t);
            lemma_contains_nodes(cs2, n);
            lemma_remove_nodes(cs2, n);
            lemma_remove_nodes(cs, n);
            assert forall|j: int| 0 <= j < cs2.len() implies terminals(#[trigger] remove_nodes(cs2, n)[j]) == terminals(
                cs[j],
            ) by {
                if j != i {
                    assert(cs2[j] == cs[j]);
                    assert(!contains(cs[j], n));
                    lemma_remove_absent(cs[j], n);
                }
            }
            lemma_terminals_nodes_pointwise(remove_nodes(cs2, n), cs);
            lemma_terminals_remove_split(so, cs2, n);
        },
        LayoutV::Tabs { tabs: ts, active } => {
            lemma_first_inner_containing(ts, t);
            lemma_contains_inners(ts, n);
            let i = first_inner_containing(ts, t);
            assert forall|j: int| 0 <= j < i implies edit(op, (#[trigger] ts[j]).root) is None by {
                lemma_edit_at_leaf(op, ts[j].root);
            }
            lemma_edit_at_leaf(op, ts[i].root);
            lemma_edit_inners(op, ts, i);
            lemma_split_at(ts[i].root, t, o, n);
            let r2 = apply_edit(op, ts[i].root);
            let ts2 = ts.update(i, with_root(ts[i], r2));
            let v2 = LayoutV::Tabs { tabs: ts2, active: i };
            assert(apply_edit(op, v) == v2);
            assert forall|j: int| 0 <= j < i implies !contains((#[trigger] ts2[j]).root, t) by {
                assert(ts2[j] == ts[j]);
            }
            assert forall|j: int| 0 <= j < i implies !contains((#[trigger] ts2[j]).root, n) by {
                assert(ts2[j] == ts[j]);
                assert(!contains(ts[j].root, n));
            }
            lemma_first_inner_containing_at(ts2, t, i);
            lemma_first_inner_containing_at(ts2, n, i);
            lemma_contains_inners(ts2, t);
            lemma_contains_inners(ts2, n);
            let r = remove(r2, n);
            lemma_contains_nonempty(ts[i].root, t);
            assert(!is_empty(r)) by {
                if is_empty(r) {
                    match r {
                        LayoutV::Split { children, .. } => assert(terminals_nodes(children) =~= Seq::<TerminalId>::empty()),
                        LayoutV::Tabs { tabs, .. } => assert(terminals_inners(tabs) =~= Seq::<TerminalId>::empty()),
                        _ => {},
                    }
                }
            }
            let ts3 = ts2.update(i, with_root(ts2[i], r));
            assert(remove(v2, n) == LayoutV::Tabs { tabs: ts3, active: i });
            assert forall|j: int| 0 <= j < ts3.len() implies terminals((#[trigger] ts3[j]).root) == terminals(ts[j].root) by {
                if j != i {
                    assert(ts3[j] == ts[j]);
                }
            }
            lemma_terminals_inners_pointwise(ts3, ts);
        },
    }
}


/// Where the edit of a sequence of children applies, it changes one child.
pub proof fn lemma_edit_nodes_some(op: EditOp, s: Seq<LayoutV>)
    requires
        edit_nodes(op, s) is Some,
    ensures
        exists|i: int|
            0 <= i < s.len() && edit(op, s[i]) is Some && edit_nodes(op, s)->0 == #[trigger] s.update(
                i,
                edit(op, s[i])->0,
            ),
    decreases s.len(),
{
    if edit_nodes(op, s.drop_last()) is Some {
        lemma_edit_nodes_some(op, s.drop_last());
        let p = s.drop_last();
        let i = choose|i: int|
            0 <= i < p.len() && edit(op, p[i]) is Some && edit_nodes(op, p)->0 == #[trigger] p.update(i, edit(op, p[i])->0);
        assert(p[i] == s[i]);
        assert(p.update(i, edit(op, p[i])->0).push(s.last()) =~= s.update(i, edit(op, s[i])->0));
    } else {
        let i = s.len() - 1;
        assert(s.drop_last().push(edit(op, s.last())->0) =~= s.update(i, edit(op, s[i])->0));
    }
}

/// The index of the inner tab whose tree an edit changes, or -1.
pub open spec fn inners_edited_at(op: EditOp, s: Seq<InnerV>) -> int {
    match edit_inners(op, s) {
        Some(p) => p.1,
        None => -1,
    }
}

/// The inner tabs after an edit, or as they are where it applies to none.
pub open spec fn inners_edited(op: EditOp, s: Seq<InnerV>) -> Seq<InnerV> {
    match edit_inners(op, s) {
        Some(p) => p.0,
        None => s,
    }
}

/// Where the edit of a sequence of inner tabs applies, it changes the tree
/// of one inner tab, whose index it gives.
pub proof fn lemma_edit_inners_some(op: EditOp, s: Seq<InnerV>)
    requires
        edit_inners(op, s) is Some,
    ensures
        0 <= inners_edited_at(op, s) < s.len(),
        edit(op, s[inners_edited_at(op, s)].root) is Some,
        inners_edited(op, s) == s.update(
            inners_edited_at(op, s),
            with_root(s[inners_edited_at(op, s)], edit(op, s[inners_edited_at(op, s)].root)->0),
        ),
    decreases s.len(),
{
    if edit_inners(op, s.drop_last()) is Some {
        lemma_edit_inners_some(op, s.drop_last());
        let p = s.drop_last();
        let i = inners_edited_at(op, p);
        assert(p[i] == s[i]);
        assert(p.update(i, with_root(p[i], edit(op, p[i].root)->0)).push(s.last()) =~= s.update(
            i,
            with_root(s[i], edit(op, s[i].root)->0),
        ));
    } else {
        let i = s.len() - 1;
        assert(s.drop_last().push(with_root(s.last(), edit(op, s.last().root)->0)) =~= s.update(
            i,
            with_root(s[i], edit(op, s[i].root)->0),
        ));
    }
}

/// Every edit keeps each group of the tree with an active inner tab.
pub proof fn lemma_edit_wf(op: EditOp, v: LayoutV)
    requires
        layout_wf(v),
        edit(op, v) is Some,
    ensures
        layout_wf(edit(op, v)->0),
    decreases v,
{
    match v {
        LayoutV::Leaf { .. } => {
            let w = edit(op, v)->0;
            match w {
                LayoutV::Split { children, .. } => {
                    assert forall|j: int| 0 <= j < children.len() implies layout_wf(#[trigger] children[j]) by {}
                },
                LayoutV::Tabs { tabs, .. } => {
                    assert forall|j: int| 0 <= j < tabs.len() implies layout_wf(#[trigger] tabs[j].root) by {}
                },
                _ => {},
            }
        },
        LayoutV::Split { orientation, children } => {
            lemma_edit_nodes_some(op, children);
            let i = choose|i: int|
                0 <= i < children.len() && edit(op, children[i]) is Some && edit_nodes(op, children)->0
                    == #[trigger] children.update(i, edit(op, children[i])->0);
            lemma_edit_wf(op, children[i]);
            let cs = children.update(i, edit(op, children[i])->0);
            assert forall|j: int| 0 <= j < cs.len() implies layout_wf(#[trigger] cs[j]) by {
                if j != i {
                    assert(layout_wf(children[j]));
                }
            }
        },
        LayoutV::Tabs { tabs, active } => {
            let w = edit(op, v)->0;
            if edit_inners(op, tabs) is Some {
                lemma_edit_inners_some(op, tabs);
                let i = inners_edited_at(op, tabs);
                assert(layout_wf(tabs[i].root));
                lemma_edit_wf(op, tabs[i].root);
                let ts = inners_edited(op, tabs);
                assert forall|j: int| 0 <= j < ts.len() implies layout_wf(#[trigger] ts[j].root) by {
                    if j != i {
                        assert(layout_wf(tabs[j].root));
                    }
                }
            }
            match op {
                EditOp::AddToGroup { target, new_inner, new_terminal } => {
                    if edit_inners(op, tabs) is None && contains_inners(tabs, target) {
                        let ts = tabs.push(single_inner(new_inner, new_terminal));
                        assert forall|j: int| 0 <= j < ts.len() implies layout_wf(#[trigger] ts[j].root) by {
                            if j < tabs.len() {
                                assert(ts[j] == tabs[j]);
                            }
                        }
                    }
                },
                EditOp::AddExisting { target_inner, moving, new_inner } => {
                    if inner_index(tabs, target_inner) >= 0 {
                        let ts = tabs.push(single_inner(new_inner, moving));
                        assert forall|j: int| 0 <= j < ts.len() implies layout_wf(#[trigger] ts[j].root) by {
                            if j < tabs.len() {
                                assert(ts[j] == tabs[j]);
                            }
                        }
                    }
                },
                EditOp::RenameInner { inner, title, flexible } => {
                    lemma_inner_index(tabs, inner);
                    let k = inner_index(tabs, inner);
                    if k >= 0 {
                        let ts = tabs.update(k, InnerV { title, flexible, ..tabs[k] });
                        assert forall|j: int| 0 <= j < ts.len() implies layout_wf(#[trigger] ts[j].root) by {
                            assert(ts[j].root == tabs[j].root);
                        }
                    }
                },
                EditOp::RemoveInner { inner } => {
                    lemma_inner_index(tabs, inner);
                    let k = inner_index(tabs, inner);
                    if k >= 0 {
                        let ts = tabs.remove(k);
                        assert forall|j: int| 0 <= j < ts.len() implies layout_wf(#[trigger] ts[j].root) by {
                            if j < k {
                                assert(ts[j] == tabs[j]);
                            } else {
                                assert(ts[j] == tabs[j + 1]);
                            }
                            assert(layout_wf(tabs[if j < k { j } else { j + 1 }].root));
                        }
                    }
                },
                _ => {},
            }
        },
    }
}

/// Removing a terminal keeps each group of the tree with an active inner tab.
pub proof fn lemma_remove_wf(v: LayoutV, t: TerminalId)
    requires
        layout_wf(v),
    ensures
        layout_wf(remove(v, t)),
{
    lemma_strip_wf(v, t, true);
}

/// Removing a terminal, with or without giving way to only children, keeps
/// each group of the tree with an active inner tab.
pub proof fn lemma_strip_wf(v: LayoutV, t: TerminalId, collapse: bool)
    requires
        layout_wf(v),
    ensures
        layout_wf(strip(v, t, collapse)),
    decreases v,
{
    match v {
        LayoutV::Leaf { .. } => {},
        LayoutV::Split { orientation, children } => {
            let rs = strip_nodes(children, t, collapse);
            lemma_strip_nodes(children, t, collapse);
            lemma_drop_empty_members(rs);
            let ds = drop_empty(rs);
            assert forall|k: int| 0 <= k < ds.len() implies layout_wf(#[trigger] ds[k]) by {
                let j = choose|j: int| 0 <= j < rs.len() && rs[j] == ds[k];
                assert(layout_wf(children[j]));
                lemma_strip_wf(children[j], t, collapse);
            }
            if ds.len() == 1 {
                assert(layout_wf(ds[0]));
            }
        },
        LayoutV::Tabs { tabs, active } => {
            let k = first_inner_containing(tabs, t);
            if 0 <= k < tabs.len() {
                assert(layout_wf(tabs[k].root));
                lemma_strip_wf(tabs[k].root, t, collapse);
                let r = strip(tabs[k].root, t, collapse);
                if is_empty(r) {
                    let ts = tabs.remove(k);
                    assert forall|j: int| 0 <= j < ts.len() implies layout_wf(#[trigger] ts[j].root) by {
                        if j < k {
                            assert(ts[j] == tabs[j]);
                        } else {
                            assert(ts[j] == tabs[j + 1]);
                        }
                        assert(layout_wf(tabs[if j < k { j } else { j + 1 }].root));
                    }
                } else {
                    let ts = tabs.update(k, with_root(tabs[k], r));
                    assert forall|j: int| 0 <= j < ts.len() implies layout_wf(#[trigger] ts[j].root) by {
                        if j != k {
                            assert(layout_wf(tabs[j].root));
                        }
                    }
                }
            }
        },
    }
}


/// Inner tabs that hold the same trees, one by one, are searched alike and
/// list the same terminals.
pub proof fn lemma_same_roots(a: Seq<InnerV>, b: Seq<InnerV>, t: TerminalId)
    requires
        a.len() == b.len(),
        forall|j: int| 0 <= j < a.len() ==> (#[trigger] a[j]).root == b[j].root,
    ensures
        first_inner_containing(a, t) == first_inner_containing(b, t),
        contains_inners(a, t) == contains_inners(b, t),
        terminals_inners(a) == terminals_inners(b),
    decreases a.len(),
{
    if a.len() > 0 {
        assert forall|j: int| 0 <= j < a.len() - 1 implies (#[trigger] a.drop_last()[j]).root == b.drop_last()[j].root by {
            assert(a[j].root == b[j].root);
        }
        lemma_same_roots(a.drop_last(), b.drop_last(), t);
        assert(a[a.len() - 1].root == b[b.len() - 1].root);
    }
}

/// Groups whose inner tabs hold the same trees, one by one, hold the same
/// terminals, find the same neighbours, and list the same terminals after a
/// removal, whatever their active inner tabs and the focus of each.
pub proof fn lemma_same_group_shape(
    a: Seq<InnerV>,
    b: Seq<InnerV>,
    ia: int,
    ib: int,
    x: TerminalId,
    o: SplitOrientation,
    forward: bool,
)
    requires
        a.len() == b.len(),
        forall|j: int| 0 <= j < a.len() ==> (#[trigger] a[j]).root == b[j].root,
    ensures
        contains(LayoutV::Tabs { tabs: a, active: ia }, x) == contains(LayoutV::Tabs { tabs: b, active: ib }, x),
        terminals(LayoutV::Tabs { tabs: a, active: ia }) == terminals(LayoutV::Tabs { tabs: b, active: ib }),
        adjacent(LayoutV::Tabs { tabs: a, active: ia }, x, o, forward) == adjacent(
            LayoutV::Tabs { tabs: b, active: ib },
            x,
            o,
            forward,
        ),
        terminals(remove(LayoutV::Tabs { tabs: a, active: ia }, x)) == terminals(
            remove(LayoutV::Tabs { tabs: b, active: ib }, x),
        ),
{
    lemma_same_roots(a, b, x);
    let k = first_inner_containing(a, x);
    if 0 <= k < a.len() {
        assert(a[k].root == b[k].root);
        let r = remove(a[k].root, x);
        if is_empty(r) {
            let ra = a.remove(k);
            let rb = b.remove(k);
            assert forall|j: int| 0 <= j < ra.len() implies (#[trigger] ra[j]).root == rb[j].root by {
                if j < k {
                    assert(ra[j] == a[j] && rb[j] == b[j]);
                } else {
                    assert(ra[j] == a[j + 1] && rb[j] == b[j + 1]);
                }
            }
            lemma_same_roots(ra, rb, x);
        } else {
            let ua = a.update(k, with_root(a[k], r));
            let ub = b.update(k, with_root(b[k], r));
            assert forall|j: int| 0 <= j < ua.len() implies (#[trigger] ua[j]).root == ub[j].root by {
                if j != k {
                    assert(a[j].root == b[j].root);
                }
            }
            lemma_same_roots(ua, ub, x);
        }
    }
}


/// How often `t` occurs in `s`.
pub open spec fn occurrences(s: Seq<TerminalId>, t: TerminalId) -> nat
    decreases s.len(),
{
    if s.len() == 0 {
        0
    } else {
        occurrences(s.drop_last(), t) + if s.last() == t {
            1nat
        } else {
            0nat
        }
    }
}

/// `s` without `t`, the other terminals in order.
pub open spec fn without(s: Seq<TerminalId>, t: TerminalId) -> Seq<TerminalId>
    decreases s.len(),
{
    if s.len() == 0 {
        s
    } else if s.last() == t {
        without(s.drop_last(), t)
    } else {
        without(s.drop_last(), t).push(s.last())
    }
}

/// Counting and dropping `t` go piece by piece over a concatenation.
pub proof fn lemma_occurrences_concat(a: Seq<TerminalId>, b: Seq<TerminalId>, t: TerminalId)
    ensures
        occurrences(a + b, t) == occurrences(a, t) + occurrences(b, t),
        without(a + b, t) == without(a, t) + without(b, t),
    decreases b.len(),
{
    if b.len() == 0 {
        assert(a + b =~= a);
        assert(without(a, t) + without(b, t) =~= without(a, t));
    } else {
        lemma_occurrences_concat(a, b.drop_last(), t);
        assert((a + b).drop_last() =~= a + b.drop_last());
        assert((a + b).last() == b.last());
        if b.last() != t {
            assert((without(a, t) + without(b.drop_last(), t)).push(b.last()) =~= without(a, t) + without(
                b.drop_last(),
                t,
            ).push(b.last()));
        }
    }
}

/// Where `t` does not occur, dropping it changes nothing.
pub proof fn lemma_without_absent(s: Seq<TerminalId>, t: TerminalId)
    requires
        occurrences(s, t) == 0,
    ensures
        without(s, t) == s,
    decreases s.len(),
{
    if s.len() > 0 {
        lemma_without_absent(s.drop_last(), t);
        assert(s.drop_last().push(s.last()) =~= s);
    }
}

/// A tree holds `t` exactly where `t` occurs among its terminals.
pub proof fn lemma_contains_occurrences(v: LayoutV, t: TerminalId)
    ensures
        contains(v, t) <==> occurrences(terminals(v), t) > 0,
    decreases v,
{
    match v {
        LayoutV::Leaf { terminal, .. } => {
            let x = terminals(v);
            assert(x == seq![terminal]);
            assert(x.drop_last() =~= Seq::<TerminalId>::empty());
            assert(x.last() == terminal);
            assert(occurrences(x.drop_last(), t) == 0);
        },
        LayoutV::Split { children, .. } => lemma_contains_occurrences_nodes(children, t),
        LayoutV::Tabs { tabs, .. } => lemma_contains_occurrences_inners(tabs, t),
    }
}

pub proof fn lemma_contains_occurrences_nodes(s: Seq<LayoutV>, t: TerminalId)
    ensures
        contains_nodes(s, t) <==> occurrences(terminals_nodes(s), t) > 0,
    decreases s,
{
    if s.len() > 0 {
        lemma_contains_occurrences_nodes(s.drop_last(), t);
        lemma_contains_occurrences(s.last(), t);
        lemma_occurrences_concat(terminals_nodes(s.drop_last()), terminals(s.last()), t);
    }
}

pub proof fn lemma_contains_occurrences_inners(s: Seq<InnerV>, t: TerminalId)
    ensures
        contains_inners(s, t) <==> occurrences(terminals_inners(s), t) > 0,
    decreases s,
{
    if s.len() > 0 {
        lemma_contains_occurrences_inners(s.drop_last(), t);
        lemma_contains_occurrences(s.last().root, t);
        lemma_occurrences_concat(terminals_inners(s.drop_last()), terminals(s.last().root), t);
    }
}

/// The terminals of inner tabs go piece by piece over a concatenation.
pub proof fn lemma_terminals_inners_concat(a: Seq<InnerV>, b: Seq<InnerV>)
    ensures
        terminals_inners(a + b) == terminals_inners(a) + terminals_inners(b),
    decreases b.len(),
{
    if b.len() == 0 {
        assert(a + b =~= a);
        assert(terminals_inners(a) + terminals_inners(b) =~= terminals_inners(a));
    } else {
        lemma_terminals_inners_concat(a, b.drop_last());
        assert((a + b).drop_last() =~= a + b.drop_last());
        assert((a + b).last() == b.last());
    }
}

/// The terminals of inner tabs: those before `k`, those of `k`, those after.
pub proof fn lemma_terminals_inners_at(s: Seq<InnerV>, k: int)
    requires
        0 <= k < s.len(),
    ensures
        terminals_inners(s) == terminals_inners(s.take(k)) + terminals(s[k].root) + terminals_inners(s.skip(k + 1)),
{
    assert(s =~= s.take(k).push(s[k]) + s.skip(k + 1));
    lemma_terminals_inners_concat(s.take(k).push(s[k]), s.skip(k + 1));
    assert(s.take(k).push(s[k]).drop_last() =~= s.take(k));
}

/// Removing a terminal that occurs at most once in a tree takes it out of
/// the tree's terminals and keeps the others in order.
pub proof fn lemma_remove_without(v: LayoutV, t: TerminalId)
    requires
        occurrences(terminals(v), t) <= 1,
    ensures
        terminals(remove(v, t)) == without(terminals(v), t),
    decreases v,
{
    match v {
        LayoutV::Leaf { terminal, .. } => {
            let x = terminals(v);
            assert(x == seq![terminal]);
            assert(x.drop_last() =~= Seq::<TerminalId>::empty());
            assert(x.last() == terminal);
            assert(without(x.drop_last(), t) =~= Seq::<TerminalId>::empty());
            if terminal == t {
                assert(terminals(empty_split()) =~= Seq::<TerminalId>::empty());
                assert(without(x, t) =~= Seq::<TerminalId>::empty());
            } else {
                assert(Seq::<TerminalId>::empty().push(terminal) =~= x);
                assert(without(x, t) =~= x);
            }
        },
        LayoutV::Split { orientation, children } => {
            lemma_remove_without_nodes(children, t);
            lemma_terminals_remove_split(orientation, children, t);
        },
        LayoutV::Tabs { tabs, active } => {
            lemma_first_inner_containing(tabs, t);
            lemma_contains_occurrences_inners(tabs, t);
            let k = first_inner_containing(tabs, t);
            if k < 0 {
                lemma_without_absent(terminals(v), t);
            } else {
                let a = tabs.take(k);
                let b = tabs.skip(k + 1);
                lemma_terminals_inners_at(tabs, k);
                lemma_occurrences_concat(terminals_inners(a) + terminals(tabs[k].root), terminals_inners(b), t);
                lemma_occurrences_concat(terminals_inners(a), terminals(tabs[k].root), t);
                lemma_contains_occurrences(tabs[k].root, t);
                assert forall|j: int| 0 <= j < a.len() implies !contains((#[trigger] a[j]).root, t) by {
                    assert(a[j] == tabs[j]);
                }
                lemma_contains_inners(a, t);
                lemma_contains_occurrences_inners(a, t);
                lemma_contains_occurrences_inners(b, t);
                lemma_without_absent(terminals_inners(a), t);
                lemma_without_absent(terminals_inners(b), t);
                lemma_remove_without(tabs[k].root, t);
                let r = remove(tabs[k].root, t);
                if is_empty(r) {
                    assert(terminals(r) =~= Seq::<TerminalId>::empty()) by {
                        match r {
                            LayoutV::Split { children, .. } => assert(terminals_nodes(children) =~= Seq::<TerminalId>::empty()),
                            LayoutV::Tabs { tabs, .. } => assert(terminals_inners(tabs) =~= Seq::<TerminalId>::empty()),
                            _ => {},
                        }
                    }
                    let ts = tabs.remove(k);
                    assert(ts =~= a + b);
                    lemma_terminals_inners_concat(a, b);
                    if ts.len() == 0 {
                        assert(terminals_inners(a) + terminals_inners(b) =~= Seq::<TerminalId>::empty()) by {
                            assert(a =~= Seq::<InnerV>::empty());
                            assert(b =~= Seq::<InnerV>::empty());
                        }
                        assert(terminals(empty_split()) =~= Seq::<TerminalId>::empty());
                    }
                    assert(without(terminals(v), t) =~= terminals_inners(a) + terminals_inners(b));
                } else {
                    let ts = tabs.update(k, with_root(tabs[k], r));
                    lemma_terminals_inners_at(ts, k);
                    assert(ts.take(k) =~= a);
                    assert(ts.skip(k + 1) =~= b);
                    assert(without(terminals(v), t) =~= terminals_inners(a) + terminals(r) + terminals_inners(b));
                }
            }
        },
    }
}

pub proof fn lemma_remove_without_nodes(s: Seq<LayoutV>, t: TerminalId)
    requires
        occurrences(terminals_nodes(s), t) <= 1,
    ensures
        terminals_nodes(remove_nodes(s, t)) == without(terminals_nodes(s), t),
    decreases s,
{
    if s.len() > 0 {
        let p = s.drop_last();
        lemma_occurrences_concat(terminals_nodes(p), terminals(s.last()), t);
        lemma_remove_without_nodes(p, t);
        lemma_remove_without(s.last(), t);
        let rs = remove_nodes(s, t);
        assert(rs.drop_last() == remove_nodes(p, t));
        assert(rs.last() == remove(s.last(), t));
    }
}


/// Once dropped, `t` no longer occurs.
pub proof fn lemma_without_drops(s: Seq<TerminalId>, t: TerminalId)
    ensures
        occurrences(without(s, t), t) == 0,
    decreases s.len(),
{
    if s.len() > 0 {
        lemma_without_drops(s.drop_last(), t);
        if s.last() != t {
            let w = without(s.drop_last(), t);
            assert(w.push(s.last()).drop_last() =~= w);
        }
    }
}


/// The terminal an edit puts into the tree, where it puts one.
pub open spec fn edit_new_terminal(op: EditOp) -> TerminalId {
    match op {
        EditOp::SplitAt { new_terminal, .. } => new_terminal,
        EditOp::Wrap { new_terminal, .. } => new_terminal,
        EditOp::AddToGroup { new_terminal, .. } => new_terminal,
        EditOp::AddExisting { moving, .. } => moving,
        EditOp::RemoveInner { .. } => TerminalId(0),
        EditOp::RenameInner { .. } => TerminalId(0),
    }
}

/// Where an edit that adds a terminal applies, the tree then holds it.
pub proof fn lemma_edit_contains_new(op: EditOp, v: LayoutV)
    requires
        !(op is RemoveInner),
        !(op is RenameInner),
        edit(op, v) is Some,
    ensures
        contains(edit(op, v)->0, edit_new_terminal(op)),
    decreases v,
{
    let n = edit_new_terminal(op);
    match v {
        LayoutV::Leaf { .. } => {
            let w = edit(op, v)->0;
            match w {
                LayoutV::Split { children, .. } => {
                    lemma_contains_nodes(children, n);
                    assert(contains(children[1], n));
                },
                LayoutV::Tabs { tabs, .. } => {
                    lemma_contains_inners(tabs, n);
                    assert(contains(tabs[1].root, n));
                },
                _ => {},
            }
        },
        LayoutV::Split { orientation, children } => {
            lemma_edit_nodes_some(op, children);
            let i = choose|i: int|
                0 <= i < children.len() && edit(op, children[i]) is Some && edit_nodes(op, children)->0
                    == #[trigger] children.update(i, edit(op, children[i])->0);
            lemma_edit_contains_new(op, children[i]);
            let cs = children.update(i, edit(op, children[i])->0);
            lemma_contains_nodes(cs, n);
            assert(contains(cs[i], n));
        },
        LayoutV::Tabs { tabs, active } => {
            let pushed = match op {
                EditOp::AddToGroup { target, .. } => edit_inners(op, tabs) is None && contains_inners(tabs, target),
                EditOp::AddExisting { target_inner, .. } => inner_index(tabs, target_inner) >= 0,
                _ => false,
            };
            if pushed {
                let ts = tabs.push(single_inner(
                    match op {
                        EditOp::AddToGroup { new_inner, .. } => new_inner,
                        EditOp::AddExisting { new_inner, .. } => new_inner,
                        _ => InnerTabId(0),
                    },
                    n,
                ));
                lemma_contains_inners(ts, n);
                assert(contains(ts[tabs.len() as int].root, n));
            } else {
                lemma_edit_inners_some(op, tabs);
                let i = inners_edited_at(op, tabs);
                lemma_edit_contains_new(op, tabs[i].root);
                let ts = inners_edited(op, tabs);
                lemma_contains_inners(ts, n);
                assert(contains(ts[i].root, n));
            }
        },
    }
}


/// Removing a terminal from a tree in good shape leaves it in good shape.
pub proof fn lemma_remove_shape(v: LayoutV, t: TerminalId)
    requires
        tree_shape(v),
    ensures
        tree_shape(remove(v, t)),
    decreases v,
{
    match v {
        LayoutV::Leaf { .. } => {},
        LayoutV::Split { orientation, children } => {
            let rs = remove_nodes(children, t);
            lemma_remove_nodes(children, t);
            lemma_drop_empty_members(rs);
            let ds = drop_empty(rs);
            assert forall|k: int| 0 <= k < ds.len() implies node_shape(#[trigger] ds[k]) by {
                let j = choose|j: int| 0 <= j < rs.len() && rs[j] == ds[k];
                assert(node_shape(children[j]));
                lemma_remove_shape(children[j], t);
                assert(!is_empty(ds[k]));
            }
            if ds.len() == 1 {
                assert(node_shape(ds[0]));
            }
        },
        LayoutV::Tabs { tabs, active } => {
            lemma_first_inner_containing(tabs, t);
            let k = first_inner_containing(tabs, t);
            if 0 <= k < tabs.len() {
                assert(node_shape(tabs[k].root));
                lemma_remove_shape(tabs[k].root, t);
                let r = remove(tabs[k].root, t);
                if is_empty(r) {
                    let ts = tabs.remove(k);
                    assert forall|j: int| 0 <= j < ts.len() implies node_shape(#[trigger] ts[j].root) by {
                        if j < k {
                            assert(ts[j] == tabs[j]);
                        } else {
                            assert(ts[j] == tabs[j + 1]);
                        }
                        assert(node_shape(tabs[if j < k { j } else { j + 1 }].root));
                    }
                } else {
                    let ts = tabs.update(k, with_root(tabs[k], r));
                    assert(node_shape(r));
                    assert forall|j: int| 0 <= j < ts.len() implies node_shape(#[trigger] ts[j].root) by {
                        if j != k {
                            assert(node_shape(tabs[j].root));
                        }
                    }
                }
            }
        },
    }
}

/// A subtree in good shape holds a terminal.
pub proof fn lemma_shape_holds_terminal(v: LayoutV)
    requires
        node_shape(v),
    ensures
        exists|t: TerminalId| #[trigger] contains(v, t),
    decreases v,
{
    match v {
        LayoutV::Leaf { terminal, .. } => {
            assert(contains(v, terminal));
        },
        LayoutV::Split { children, .. } => {
            lemma_shape_holds_terminal(children[0]);
            let t = choose|t: TerminalId| #[trigger] contains(children[0], t);
            lemma_contains_nodes(children, t);
            assert(contains(v, t));
        },
        LayoutV::Tabs { tabs, .. } => {
            lemma_shape_holds_terminal(tabs[0].root);
            let t = choose|t: TerminalId| #[trigger] contains(tabs[0].root, t);
            lemma_contains_inners(tabs, t);
            assert(contains(v, t));
        },
    }
}


/// Wrapping a leaf into a group keeps every terminal in the tree.
pub proof fn lemma_wrap_keeps_contains(
    target: TerminalId,
    new_inner: InnerTabId,
    n: TerminalId,
    first_inner: InnerTabId,
    v: LayoutV,
    x: TerminalId,
)
    requires
        edit(EditOp::Wrap { target, new_inner, new_terminal: n, first_inner }, v) is Some,
        contains(v, x),
    ensures
        contains(edit(EditOp::Wrap { target, new_inner, new_terminal: n, first_inner }, v)->0, x),
    decreases v,
{
    let op = EditOp::Wrap { target, new_inner, new_terminal: n, first_inner };
    match v {
        LayoutV::Leaf { .. } => {
            let ts = seq![
                InnerV { id: first_inner, title: "Terminal"@, root: v, focus: target, flexible: true },
                single_inner(new_inner, n),
            ];
            lemma_contains_inners(ts, x);
            assert(contains(ts[0].root, x));
        },
        LayoutV::Split { children, .. } => {
            lemma_edit_nodes_some(op, children);
            let i = choose|i: int|
                0 <= i < children.len() && edit(op, children[i]) is Some && edit_nodes(op, children)->0
                    == #[trigger] children.update(i, edit(op, children[i])->0);
            let cs = children.update(i, edit(op, children[i])->0);
            lemma_contains_nodes(children, x);
            lemma_contains_nodes(cs, x);
            let j = choose|j: int| 0 <= j < children.len() && #[trigger] contains(children[j], x);
            if j == i {
                lemma_wrap_keeps_contains(target, new_inner, n, first_inner, children[i], x);
                assert(contains(cs[i], x));
            } else {
                assert(contains(cs[j], x));
            }
        },
        LayoutV::Tabs { tabs, active } => {
            lemma_edit_inners_some(op, tabs);
            let i = inners_edited_at(op, tabs);
            let ts = inners_edited(op, tabs);
            lemma_contains_inners(tabs, x);
            lemma_contains_inners(ts, x);
            let j = choose|j: int| 0 <= j < tabs.len() && #[trigger] contains(tabs[j].root, x);
            if j == i {
                lemma_wrap_keeps_contains(target, new_inner, n, first_inner, tabs[i].root, x);
                assert(contains(ts[i].root, x));
            } else {
                assert(ts[j] == tabs[j]);
                assert(contains(ts[j].root, x));
            }
        },
    }
}

/// Wrapping a leaf into a group keeps every inner tab focusing a terminal
/// of its own tree.
pub proof fn lemma_wrap_focus_held(
    target: TerminalId,
    new_inner: InnerTabId,
    n: TerminalId,
    first_inner: InnerTabId,
    v: LayoutV,
)
    requires
        focus_held(v),
    ensures
        focus_held(apply_edit(EditOp::Wrap { target, new_inner, new_terminal: n, first_inner }, v)),
    decreases v,
{
    let op = EditOp::Wrap { target, new_inner, new_terminal: n, first_inner };
    if edit(op, v) is Some {
        match v {
            LayoutV::Leaf { terminal, .. } => {
                let ts = seq![
                    InnerV { id: first_inner, title: "Terminal"@, root: v, focus: terminal, flexible: true },
                    single_inner(new_inner, n),
                ];
                assert(contains(ts[0].root, ts[0].focus));
                assert(contains(ts[1].root, ts[1].focus));
                assert(focus_held(ts[0].root));
                assert(focus_held(ts[1].root));
            },
            LayoutV::Split { children, .. } => {
                lemma_edit_nodes_some(op, children);
                let i = choose|i: int|
                    0 <= i < children.len() && edit(op, children[i]) is Some && edit_nodes(op, children)->0
                        == #[trigger] children.update(i, edit(op, children[i])->0);
                let cs = children.update(i, edit(op, children[i])->0);
                assert forall|j: int| 0 <= j < cs.len() implies focus_held(#[trigger] cs[j]) by {
                    assert(focus_held(children[j]));
                    if j == i {
                        lemma_wrap_focus_held(target, new_inner, n, first_inner, children[i]);
                    }
                }
            },
            LayoutV::Tabs { tabs, active } => {
                lemma_edit_inners_some(op, tabs);
                let i = inners_edited_at(op, tabs);
                let ts = inners_edited(op, tabs);
                assert forall|j: int| 0 <= j < ts.len() implies contains(ts[j].root, ts[j].focus) && focus_held(
                    #[trigger] ts[j].root,
                ) by {
                    assert(contains(tabs[j].root, tabs[j].focus) && focus_held(tabs[j].root));
                    if j == i {
                        lemma_wrap_focus_held(target, new_inner, n, first_inner, tabs[i].root);
                        lemma_wrap_keeps_contains(target, new_inner, n, first_inner, tabs[i].root, tabs[i].focus);
                    } else {
                        assert(ts[j] == tabs[j]);
                    }
                }
            },
        }
    }
}


/// A terminal occurs in a sequence exactly where the sequence holds it.
pub proof fn lemma_occurrences_contains(s: Seq<TerminalId>, t: TerminalId)
    ensures
        occurrences(s, t) > 0 <==> s.contains(t),
    decreases s.len(),
{
    if s.len() > 0 {
        lemma_occurrences_contains(s.drop_last(), t);
        if s.drop_last().contains(t) {
            let j = choose|j: int| 0 <= j < s.drop_last().len() && s.drop_last()[j] == t;
            assert(s[j] == t);
        }
        if s.contains(t) && s.last() != t {
            let j = choose|j: int| 0 <= j < s.len() && s[j] == t;
            assert(s.drop_last()[j] == t);
        }
        if s.last() == t {
            assert(s[s.len() - 1] == t);
        }
    }
}

/// A tree holds a terminal exactly where its list of terminals has it.
pub proof fn lemma_contains_terminals(v: LayoutV, t: TerminalId)
    ensures
        contains(v, t) <==> terminals(v).contains(t),
{
    lemma_contains_occurrences(v, t);
    lemma_occurrences_contains(terminals(v), t);
}

/// A row has terminals, and its first terminal is the first of them.
pub proof fn lemma_row_first(v: LayoutV, o: SplitOrientation)
    requires
        row(v, o),
    ensures
        terminals(v).len() > 0,
        first_terminal(v) == Some(terminals(v)[0]),
    decreases v,
{
    match v {
        LayoutV::Split { children, .. } => {
            lemma_row_first(children[0], o);
            lemma_first_terminal_nodes(children, 0);
            lemma_terminals_nodes_take(children, 0);
            assert(children.take(0) =~= Seq::<LayoutV>::empty());
            assert(terminals_nodes(children.take(1)) =~= terminals(children[0]));
            lemma_terminals_nodes_concat(children.take(1), children.skip(1));
            assert(children.take(1) + children.skip(1) =~= children);
        },
        _ => {},
    }
}

/// The terminals of two runs of children one after the other.
pub proof fn lemma_terminals_nodes_concat(a: Seq<LayoutV>, b: Seq<LayoutV>)
    ensures
        terminals_nodes(a + b) == terminals_nodes(a) + terminals_nodes(b),
    decreases b.len(),
{
    if b.len() == 0 {
        assert(a + b =~= a);
        assert(terminals_nodes(a) + terminals_nodes(b) =~= terminals_nodes(a));
    } else {
        lemma_terminals_nodes_concat(a, b.drop_last());
        assert((a + b).drop_last() =~= a + b.drop_last());
        assert((a + b).last() == b.last());
    }
}


/// Going forward along `o` from `t` through the children `s` of a split
/// along `o`, as `adjacent` does.
pub open spec fn row_step(s: Seq<LayoutV>, t: TerminalId, o: SplitOrientation) -> Option<TerminalId> {
    let i = first_containing(s, t);
    match adjacent(s[i], t, o, true) {
        Some(x) => Some(x),
        None => if i + 1 < s.len() {
            first_terminal(s[i + 1])
        } else {
            None
        },
    }
}

/// In the first children `s` of a split `v` along `o`, all of them rows
/// along `o` with distinct terminals, going forward from the `k`th terminal
/// reaches the next one, and nothing from the last.
pub proof fn lemma_row_step(v: LayoutV, s: Seq<LayoutV>, o: SplitOrientation, k: int)
    requires
        v matches LayoutV::Split { children, .. } && s.len() <= children.len() && s == children.take(s.len() as int),
        s.len() > 0,
        forall|j: int| 0 <= j < s.len() ==> row(#[trigger] s[j], o),
        terminals_nodes(s).no_duplicates(),
        0 <= k < terminals_nodes(s).len(),
    ensures
        row_step(s, terminals_nodes(s)[k], o) == if k + 1 < terminals_nodes(s).len() {
            Some(terminals_nodes(s)[k + 1])
        } else {
            None
        },
    decreases v, s.len(),
{
    let tt = terminals_nodes(s);
    let t = tt[k];
    let p = s.drop_last();
    let c = s.last();
    let tp = terminals_nodes(p);
    let tc = terminals(c);
    assert(tt == tp + tc);
    assert(row(c, o));
    lemma_row_first(c, o);
    lemma_first_containing(s, t);
    lemma_first_containing(p, t);
    let sp = LayoutV::Split { orientation: o, children: p };
    lemma_contains_terminals(sp, t);
    lemma_contains_terminals(c, t);
    assert(s.len() - 1 < v->children.len());
    assert(c == v->children[s.len() - 1]);
    if k < tp.len() {
        assert(tt[k] == tp[k]);
        assert(tp.contains(t));
        if tc.contains(t) {
            let m = choose|m: int| 0 <= m < tc.len() && tc[m] == t;
            assert(tt[tp.len() + m] == t);
        }
        assert(!contains(c, t));
        assert(p.len() > 0);
        assert(tp.no_duplicates()) by {
            assert forall|a: int, b: int| 0 <= a < tp.len() && 0 <= b < tp.len() && a != b implies tp[a] != tp[b] by {
                assert(tt[a] == tp[a] && tt[b] == tp[b]);
            }
        }
        assert forall|j: int| 0 <= j < p.len() implies row(#[trigger] p[j], o) by {
            assert(p[j] == s[j]);
        }
        assert(p == v->children.take(p.len() as int)) by {
            assert(p =~= v->children.take(p.len() as int));
        }
        lemma_row_step(v, p, o, k);
        let i = first_containing(p, t);
        assert(first_containing(s, t) == i);
        assert(s[i] == p[i]);
        if i + 1 < p.len() {
            assert(s[i + 1] == p[i + 1]);
            assert(row(p[i + 1], o));
            lemma_row_first(p[i + 1], o);
        }
        if k + 1 == tp.len() {
            assert(tt[k + 1] == tc[0]);
        } else {
            assert(tt[k + 1] == tp[k + 1]);
        }
    } else {
        let k2 = k - tp.len();
        assert(tt[k] == tc[k2]);
        assert(tc.contains(t));
        if tp.contains(t) {
            let m = choose|m: int| 0 <= m < tp.len() && tp[m] == t;
            assert(tt[m] == t);
        }
        assert(first_containing(s, t) == s.len() - 1);
        if k + 1 < tt.len() {
            assert(tt[k + 1] == tc[k2 + 1]);
        }
        match c {
            LayoutV::Leaf { .. } => {},
            LayoutV::Split { children: ccs, .. } => {
                assert(tc == terminals_nodes(ccs));
                assert(tc.no_duplicates()) by {
                    assert forall|a: int, b: int| 0 <= a < tc.len() && 0 <= b < tc.len() && a != b implies tc[a] != tc[b] by {
                        assert(tt[tp.len() + a] == tc[a] && tt[tp.len() + b] == tc[b]);
                    }
                }
                assert(ccs.take(ccs.len() as int) =~= ccs);
                assert(decreases_to!(v => c));
                lemma_row_step(c, ccs, o, k2);
                lemma_first_containing(ccs, t);
                lemma_contains_terminals(c, t);
            },
            LayoutV::Tabs { .. } => {},
        }
    }
}

/// In a row along `o` with distinct terminals, going forward from the `k`th
/// terminal reaches the next one, and nothing from the last.
pub proof fn lemma_row_adjacent(v: LayoutV, o: SplitOrientation, k: int)
    requires
        row(v, o),
        terminals(v).no_duplicates(),
        0 <= k < terminals(v).len(),
    ensures
        adjacent(v, terminals(v)[k], o, true) == if k + 1 < terminals(v).len() {
            Some(terminals(v)[k + 1])
        } else {
            None
        },
{
    match v {
        LayoutV::Leaf { .. } => {},
        LayoutV::Split { children, .. } => {
            let t = terminals(v)[k];
            assert(children.take(children.len() as int) =~= children);
            lemma_row_step(v, children, o, k);
            lemma_contains_terminals(v, t);
            lemma_first_containing(children, t);
        },
        LayoutV::Tabs { .. } => {},
    }
}


/// A row has terminals, and its last terminal is the last of them.
pub proof fn lemma_row_last(v: LayoutV, o: SplitOrientation)
    requires
        row(v, o),
    ensures
        terminals(v).len() > 0,
        last_terminal(v) == Some(terminals(v).last()),
    decreases v,
{
    lemma_row_first(v, o);
    match v {
        LayoutV::Split { children, .. } => {
            let n = children.len() - 1;
            lemma_row_last(children[n], o);
            lemma_last_terminal_nodes(children, n);
            assert(children.last() == children[n]);
        },
        _ => {},
    }
}

/// Going back along `o` from `t` through the children `s` of a split along
/// `o`, as `adjacent` does.
pub open spec fn row_step_back(s: Seq<LayoutV>, t: TerminalId, o: SplitOrientation) -> Option<TerminalId> {
    let i = first_containing(s, t);
    match adjacent(s[i], t, o, false) {
        Some(x) => Some(x),
        None => if i > 0 {
            last_terminal(s[i - 1])
        } else {
            None
        },
    }
}

/// In the first children `s` of a split `v` along `o`, all of them rows
/// along `o` with distinct terminals, going back from the `k`th terminal
/// reaches the one before, and nothing from the first.
pub proof fn lemma_row_step_back(v: LayoutV, s: Seq<LayoutV>, o: SplitOrientation, k: int)
    requires
        v matches LayoutV::Split { children, .. } && s.len() <= children.len() && s == children.take(s.len() as int),
        s.len() > 0,
        forall|j: int| 0 <= j < s.len() ==> row(#[trigger] s[j], o),
        terminals_nodes(s).no_duplicates(),
        0 <= k < terminals_nodes(s).len(),
    ensures
        row_step_back(s, terminals_nodes(s)[k], o) == if k > 0 {
            Some(terminals_nodes(s)[k - 1])
        } else {
            None
        },
    decreases v, s.len(),
{
    let tt = terminals_nodes(s);
    let t = tt[k];
    let p = s.drop_last();
    let c = s.last();
    let tp = terminals_nodes(p);
    let tc = terminals(c);
    assert(tt == tp + tc);
    assert(row(c, o));
    lemma_row_first(c, o);
    lemma_first_containing(s, t);
    lemma_first_containing(p, t);
    let sp = LayoutV::Split { orientation: o, children: p };
    lemma_contains_terminals(sp, t);
    lemma_contains_terminals(c, t);
    assert(s.len() - 1 < v->children.len());
    assert(c == v->children[s.len() - 1]);
    if k < tp.len() {
        assert(tt[k] == tp[k]);
        assert(tp.contains(t));
        if tc.contains(t) {
            let m = choose|m: int| 0 <= m < tc.len() && tc[m] == t;
            assert(tt[tp.len() + m] == t);
        }
        assert(!contains(c, t));
        assert(p.len() > 0);
        assert(tp.no_duplicates()) by {
            assert forall|a: int, b: int| 0 <= a < tp.len() && 0 <= b < tp.len() && a != b implies tp[a] != tp[b] by {
                assert(tt[a] == tp[a] && tt[b] == tp[b]);
            }
        }
        assert forall|j: int| 0 <= j < p.len() implies row(#[trigger] p[j], o) by {
            assert(p[j] == s[j]);
        }
        assert(p == v->children.take(p.len() as int)) by {
            assert(p =~= v->children.take(p.len() as int));
        }
        lemma_row_step_back(v, p, o, k);
        let i = first_containing(p, t);
        assert(first_containing(s, t) == i);
        assert(s[i] == p[i]);
        if i > 0 {
            assert(s[i - 1] == p[i - 1]);
        }
        if k > 0 {
            assert(tt[k - 1] == tp[k - 1]);
        }
    } else {
        let k2 = k - tp.len();
        assert(tt[k] == tc[k2]);
        assert(tc.contains(t));
        if tp.contains(t) {
            let m = choose|m: int| 0 <= m < tp.len() && tp[m] == t;
            assert(tt[m] == t);
        }
        assert(first_containing(s, t) == s.len() - 1);
        if k2 > 0 {
            assert(tt[k - 1] == tc[k2 - 1]);
        } else if p.len() > 0 {
            assert(row(p.last(), o)) by {
                assert(p.last() == s[p.len() - 1]);
            }
            lemma_row_last(p.last(), o);
            assert(tp == terminals_nodes(p.drop_last()) + terminals(p.last()));
            assert(tp.last() == terminals(p.last()).last());
            assert(tt[k - 1] == tp.last());
            assert(s[s.len() - 2] == p.last());
        }
        match c {
            LayoutV::Leaf { .. } => {},
            LayoutV::Split { children: ccs, .. } => {
                assert(tc == terminals_nodes(ccs));
                assert(tc.no_duplicates()) by {
                    assert forall|a: int, b: int| 0 <= a < tc.len() && 0 <= b < tc.len() && a != b implies tc[a] != tc[b] by {
                        assert(tt[tp.len() + a] == tc[a] && tt[tp.len() + b] == tc[b]);
                    }
                }
                assert(ccs.take(ccs.len() as int) =~= ccs);
                assert(decreases_to!(v => c));
                lemma_row_step_back(c, ccs, o, k2);
                lemma_first_containing(ccs, t);
                lemma_contains_terminals(c, t);
            },
            LayoutV::Tabs { .. } => {},
        }
    }
}

/// In a row along `o` with distinct terminals, going back from the `k`th
/// terminal reaches the one before, and nothing from the first.
pub proof fn lemma_row_adjacent_back(v: LayoutV, o: SplitOrientation, k: int)
    requires
        row(v, o),
        terminals(v).no_duplicates(),
        0 <= k < terminals(v).len(),
    ensures
        adjacent(v, terminals(v)[k], o, false) == if k > 0 {
            Some(terminals(v)[k - 1])
        } else {
            None
        },
{
    match v {
        LayoutV::Leaf { .. } => {},
        LayoutV::Split { children, .. } => {
            let t = terminals(v)[k];
            assert(children.take(children.len() as int) =~= children);
            lemma_row_step_back(v, children, o, k);
            lemma_contains_terminals(v, t);
            lemma_first_containing(children, t);
        },
        LayoutV::Tabs { .. } => {},
    }
}


/// Every edit but the removal of an inner tab keeps every terminal in the
/// tree.
pub proof fn lemma_edit_keeps_contains(op: EditOp, v: LayoutV, x: TerminalId)
    requires
        !(op is RemoveInner),
        edit(op, v) is Some,
        contains(v, x),
    ensures
        contains(edit(op, v)->0, x),
    decreases v,
{
    match v {
        LayoutV::Leaf { terminal, .. } => {
            match op {
                EditOp::SplitAt { target, orientation, new_terminal } => {
                    let cs = seq![v, terminal_leaf(new_terminal)];
                    lemma_contains_nodes(cs, x);
                    assert(contains(cs[0], x));
                },
                EditOp::Wrap { target, new_inner, new_terminal, first_inner } => {
                    let ts = seq![
                        InnerV { id: first_inner, title: "Terminal"@, root: v, focus: terminal, flexible: true },
                        single_inner(new_inner, new_terminal),
                    ];
                    lemma_contains_inners(ts, x);
                    assert(contains(ts[0].root, x));
                },
                _ => {},
            }
        },
        LayoutV::Split { children, .. } => {
            lemma_edit_nodes_some(op, children);
            let i = choose|i: int|
                0 <= i < children.len() && edit(op, children[i]) is Some && edit_nodes(op, children)->0
                    == #[trigger] children.update(i, edit(op, children[i])->0);
            let cs = children.update(i, edit(op, children[i])->0);
            lemma_contains_nodes(children, x);
            lemma_contains_nodes(cs, x);
            let j = choose|j: int| 0 <= j < children.len() && #[trigger] contains(children[j], x);
            if j == i {
                lemma_edit_keeps_contains(op, children[i], x);
                assert(contains(cs[i], x));
            } else {
                assert(contains(cs[j], x));
            }
        },
        LayoutV::Tabs { tabs, active } => {
            lemma_contains_inners(tabs, x);
            let j = choose|j: int| 0 <= j < tabs.len() && #[trigger] contains(tabs[j].root, x);
            let w = edit(op, v)->0;
            let ts = w->tabs;
            let pushed = match op {
                EditOp::AddToGroup { target, .. } => edit_inners(op, tabs) is None && contains_inners(tabs, target),
                EditOp::AddExisting { target_inner, .. } => inner_index(tabs, target_inner) >= 0,
                _ => false,
            };
            let renamed = match op {
                EditOp::RenameInner { inner, .. } => inner_index(tabs, inner) >= 0,
                _ => false,
            };
            if pushed {
                assert(ts.len() == tabs.len() + 1);
                assert(ts[j] == tabs[j]);
            } else if renamed {
                match op {
                    EditOp::RenameInner { inner, title, flexible } => {
                        lemma_inner_index(tabs, inner);
                        let k = inner_index(tabs, inner);
                        assert(ts == tabs.update(k, InnerV { title, flexible, ..tabs[k] }));
                        assert(ts[j].root == tabs[j].root);
                    },
                    _ => {},
                }
            } else {
                lemma_edit_inners_some(op, tabs);
                let i = inners_edited_at(op, tabs);
                assert(ts == inners_edited(op, tabs));
                if j == i {
                    lemma_edit_keeps_contains(op, tabs[i].root, x);
                    assert(contains(ts[i].root, x));
                } else {
                    assert(ts[j] == tabs[j]);
                }
            }
            lemma_contains_inners(ts, x);
        },
    }
}

/// Every edit but the removal of an inner tab keeps every inner tab focusing
/// a terminal of its own tree.
pub proof fn lemma_edit_focus_held(op: EditOp, v: LayoutV)
    requires
        !(op is RemoveInner),
        focus_held(v),
    ensures
        focus_held(apply_edit(op, v)),
    decreases v,
{
    if edit(op, v) is Some {
        match v {
            LayoutV::Leaf { terminal, .. } => {
                match op {
                    EditOp::SplitAt { target, orientation, new_terminal } => {
                        let cs = seq![v, terminal_leaf(new_terminal)];
                        assert(focus_held(cs[0]) && focus_held(cs[1]));
                    },
                    EditOp::Wrap { target, new_inner, new_terminal, first_inner } => {
                        let ts = seq![
                            InnerV { id: first_inner, title: "Terminal"@, root: v, focus: terminal, flexible: true },
                            single_inner(new_inner, new_terminal),
                        ];
                        assert(contains(ts[0].root, ts[0].focus));
                        assert(contains(ts[1].root, ts[1].focus));
                        assert(focus_held(ts[0].root));
                        assert(focus_held(ts[1].root));
                    },
                    _ => {},
                }
            },
            LayoutV::Split { children, .. } => {
                lemma_edit_nodes_some(op, children);
                let i = choose|i: int|
                    0 <= i < children.len() && edit(op, children[i]) is Some && edit_nodes(op, children)->0
                        == #[trigger] children.update(i, edit(op, children[i])->0);
                let cs = children.update(i, edit(op, children[i])->0);
                assert forall|j: int| 0 <= j < cs.len() implies focus_held(#[trigger] cs[j]) by {
                    assert(focus_held(children[j]));
                    if j == i {
                        lemma_edit_focus_held(op, children[i]);
                    }
                }
            },
            LayoutV::Tabs { tabs, active } => {
                let w = edit(op, v)->0;
                let ts = w->tabs;
                let pushed = match op {
                    EditOp::AddToGroup { target, .. } => edit_inners(op, tabs) is None && contains_inners(tabs, target),
                    EditOp::AddExisting { target_inner, .. } => inner_index(tabs, target_inner) >= 0,
                    _ => false,
                };
                let renamed = match op {
                    EditOp::RenameInner { inner, .. } => inner_index(tabs, inner) >= 0,
                    _ => false,
                };
                if pushed {
                    assert forall|j: int| 0 <= j < ts.len() implies contains(ts[j].root, ts[j].focus) && focus_held(
                        #[trigger] ts[j].root,
                    ) by {
                        if j < tabs.len() {
                            assert(ts[j] == tabs[j]);
                            assert(contains(tabs[j].root, tabs[j].focus) && focus_held(tabs[j].root));
                        } else {
                            assert(ts[j] == single_inner(ts[j].id, ts[j].focus));
                        }
                    }
                } else if renamed {
                    assert forall|j: int| 0 <= j < ts.len() implies contains(ts[j].root, ts[j].focus) && focus_held(
                        #[trigger] ts[j].root,
                    ) by {
                        match op {
                            EditOp::RenameInner { inner, title, flexible } => {
                                lemma_inner_index(tabs, inner);
                                let k = inner_index(tabs, inner);
                                assert(ts == tabs.update(k, InnerV { title, flexible, ..tabs[k] }));
                            },
                            _ => {},
                        }
                        assert(ts[j].root == tabs[j].root && ts[j].focus == tabs[j].focus);
                        assert(contains(tabs[j].root, tabs[j].focus) && focus_held(tabs[j].root));
                    }
                } else {
                    lemma_edit_inners_some(op, tabs);
                    let i = inners_edited_at(op, tabs);
                    assert(ts == inners_edited(op, tabs));
                    assert forall|j: int| 0 <= j < ts.len() implies contains(ts[j].root, ts[j].focus) && focus_held(
                        #[trigger] ts[j].root,
                    ) by {
                        assert(contains(tabs[j].root, tabs[j].focus) && focus_held(tabs[j].root));
                        if j == i {
                            lemma_edit_focus_held(op, tabs[i].root);
                            lemma_edit_keeps_contains(op, tabs[i].root, tabs[i].focus);
                        } else {
                            assert(ts[j] == tabs[j]);
                        }
                    }
                }
            },
        }
    }
}

} // verus!
