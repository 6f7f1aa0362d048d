//! Facts about the layout specifications that the proofs of the tree
//! operations use.
use vstd::prelude::*;
use crate::model::{InnerTabId, TerminalId};
use crate::view::{InnerV, LayoutV};
use crate::layout_spec::{find_inner, find_inner_inners, find_inner_nodes, group_focus, group_focus_nodes, drop_empty, find_inner_id, find_inner_id_inners, find_inner_id_nodes, is_empty, remove, remove_nodes, strip, strip_nodes, terminals, terminals_inners, terminals_nodes, first_terminal, first_terminal_nodes, last_terminal, last_terminal_nodes, edit_target, 
    contains, contains_inners, contains_nodes, edit, edit_inners, edit_nodes, first_containing,
    first_inner_containing, inner_index, with_root, EditOp,
};

verus! {

pub proof fn lemma_contains_nodes(s: Seq<LayoutV>, t: TerminalId)
    ensures
        contains_nodes(s, t) <==> exists|i: int| 0 <= i < s.len() && #[trigger] contains(s[i], t),
    decreases s.len(),
{
    if s.len() > 0 {
        lemma_contains_nodes(s.drop_last(), t);
        assert(contains_nodes(s, t) == (contains_nodes(s.drop_last(), t) || contains(s.last(), t)));
        if contains_nodes(s.drop_last(), t) {
            let i = choose|i: int| 0 <= i < s.drop_last().len() && #[trigger] contains(s.drop_last()[i], t);
            assert(contains(s[i], t));
        }
        assert forall|i: int| 0 <= i < s.len() && #[trigger] contains(s[i], t) implies contains_nodes(s, t) by {
            if i < s.len() - 1 {
                assert(s.drop_last()[i] == s[i]);
            }
        }
    }
}

pub proof fn lemma_contains_inners(s: Seq<InnerV>, t: TerminalId)
    ensures
        contains_inners(s, t) <==> exists|i: int| 0 <= i < s.len() && #[trigger] contains(s[i].root, t),
    decreases s.len(),
{
    if s.len() > 0 {
        lemma_contains_inners(s.drop_last(), t);
        assert(contains_inners(s, t) == (contains_inners(s.drop_last(), t) || contains(s.last().root, t)));
        if contains_inners(s.drop_last(), t) {
            let i = choose|i: int| 0 <= i < s.drop_last().len() && #[trigger] contains(s.drop_last()[i].root, t);
            assert(contains(s[i].root, t));
        }
        assert forall|i: int| 0 <= i < s.len() && #[trigger] contains(s[i].root, t) implies contains_inners(s, t) by {
            if i < s.len() - 1 {
                assert(s.drop_last()[i] == s[i]);
            }
        }
    }
}

pub proof fn lemma_first_containing(s: Seq<LayoutV>, t: TerminalId)
    ensures
        -1 <= first_containing(s, t) < s.len(),
        first_containing(s, t) == -1 <==> !contains_nodes(s, t),
        first_containing(s, t) >= 0 ==> contains(s[first_containing(s, t)], t),
        forall|j: int| 0 <= j < first_containing(s, t) ==> !contains(#[trigger] s[j], t),
        first_containing(s, t) == -1 ==> forall|j: int| 0 <= j < s.len() ==> !contains(#[trigger] s[j], t),
    decreases s.len(),
{
    lemma_contains_nodes(s, t);
    if s.len() > 0 {
        lemma_first_containing(s.drop_last(), t);
        assert(contains_nodes(s, t) == (contains_nodes(s.drop_last(), t) || contains(s.last(), t)));
        assert forall|j: int| 0 <= j < s.len() - 1 implies s.drop_last()[j] == s[j] by {}
    }
}

pub proof fn lemma_first_inner_containing(s: Seq<InnerV>, t: TerminalId)
    ensures
        -1 <= first_inner_containing(s, t) < s.len(),
        first_inner_containing(s, t) == -1 <==> !contains_inners(s, t),
        first_inner_containing(s, t) >= 0 ==> contains(s[first_inner_containing(s, t)].root, t),
        forall|j: int| 0 <= j < first_inner_containing(s, t) ==> !contains(#[trigger] s[j].root, t),
        first_inner_containing(s, t) == -1 ==> forall|j: int| 0 <= j < s.len() ==> !contains(#[trigger] s[j].root, t),
    decreases s.len(),
{
    lemma_contains_inners(s, t);
    if s.len() > 0 {
        lemma_first_inner_containing(s.drop_last(), t);
        assert(contains_inners(s, t) == (contains_inners(s.drop_last(), t) || contains(s.last().root, t)));
        assert forall|j: int| 0 <= j < s.len() - 1 implies s.drop_last()[j] == s[j] by {}
    }
}

pub proof fn lemma_inner_index(s: Seq<InnerV>, id: InnerTabId)
    ensures
        -1 <= inner_index(s, id) < s.len(),
        inner_index(s, id) >= 0 ==> s[inner_index(s, id)].id == id,
        forall|j: int| 0 <= j < inner_index(s, id) ==> (#[trigger] s[j]).id != id,
        inner_index(s, id) == -1 ==> forall|j: int| 0 <= j < s.len() ==> (#[trigger] s[j]).id != id,
    decreases s.len(),
{
    if s.len() > 0 {
        lemma_inner_index(s.drop_last(), id);
        assert forall|j: int| 0 <= j < s.len() - 1 implies s.drop_last()[j] == s[j] by {}
    }
}

/// The edit of a sequence of children happens at the first child where the
/// edit applies.
pub proof fn lemma_edit_nodes(op: EditOp, s: Seq<LayoutV>, i: int)
    requires
        0 <= i <= s.len(),
        forall|j: int| 0 <= j < i ==> edit(op, #[trigger] s[j]) is None,
    ensures
        i == s.len() ==> edit_nodes(op, s) is None,
        i < s.len() && edit(op, s[i]) is Some ==> edit_nodes(op, s) == Some(s.update(i, edit(op, s[i])->0)),
    decreases s.len(),
{
    if s.len() > 0 {
        if i == s.len() {
            lemma_edit_nodes(op, s.drop_last(), i - 1);
        } else if i == s.len() - 1 {
            lemma_edit_nodes(op, s.drop_last(), i);
            if edit(op, s[i]) is Some {
                assert(s.drop_last().push(edit(op, s[i])->0) =~= s.update(i, edit(op, s[i])->0));
            }
        } else {
            lemma_edit_nodes(op, s.drop_last(), i);
            if edit(op, s[i]) is Some {
                assert(s.drop_last().update(i, edit(op, s[i])->0).push(s.last()) =~= s.update(i, edit(op, s[i])->0));
            }
        }
    }
}

/// The edit of a sequence of inner tabs happens at the first inner tab whose
/// tree the edit applies to.
pub proof fn lemma_edit_inners(op: EditOp, s: Seq<InnerV>, i: int)
    requires
        0 <= i <= s.len(),
        forall|j: int| 0 <= j < i ==> edit(op, (#[trigger] s[j]).root) is None,
    ensures
        i == s.len() ==> edit_inners(op, s) is None,
        i < s.len() && edit(op, s[i].root) is Some ==> edit_inners(op, s) == Some(
            (s.update(i, with_root(s[i], edit(op, s[i].root)->0)), i),
        ),
    decreases s.len(),
{
    if s.len() > 0 {
        if i == s.len() {
            lemma_edit_inners(op, s.drop_last(), i - 1);
        } else if i == s.len() - 1 {
            lemma_edit_inners(op, s.drop_last(), i);
            if edit(op, s[i].root) is Some {
                assert(s.drop_last().push(with_root(s[i], edit(op, s[i].root)->0)) =~= s.update(
                    i,
                    with_root(s[i], edit(op, s[i].root)->0),
                ));
            }
        } else {
            lemma_edit_inners(op, s.drop_last(), i);
            if edit(op, s[i].root) is Some {
                assert(s.drop_last().update(i, with_root(s[i], edit(op, s[i].root)->0)).push(s.last())
                    =~= s.update(i, with_root(s[i], edit(op, s[i].root)->0)));
            }
        }
    }
}


/// A split or a wrap applies exactly where its target terminal is.
pub proof fn lemma_edit_at_leaf(op: EditOp, v: LayoutV)
    requires
        op is SplitAt || op is Wrap,
    ensures
        edit(op, v) is Some <==> contains(v, edit_target(op)),
    decreases v,
{
    match v {
        LayoutV::Leaf { .. } => {},
        LayoutV::Split { children, .. } => lemma_edit_nodes_at_leaf(op, children),
        LayoutV::Tabs { tabs, .. } => lemma_edit_inners_at_leaf(op, tabs),
    }
}

pub proof fn lemma_edit_nodes_at_leaf(op: EditOp, s: Seq<LayoutV>)
    requires
        op is SplitAt || op is Wrap,
    ensures
        edit_nodes(op, s) is Some <==> contains_nodes(s, edit_target(op)),
    decreases s,
{
    if s.len() > 0 {
        lemma_edit_nodes_at_leaf(op, s.drop_last());
        lemma_edit_at_leaf(op, s.last());
    }
}

pub proof fn lemma_edit_inners_at_leaf(op: EditOp, s: Seq<InnerV>)
    requires
        op is SplitAt || op is Wrap,
    ensures
        edit_inners(op, s) is Some <==> contains_inners(s, edit_target(op)),
    decreases s,
{
    if s.len() > 0 {
        lemma_edit_inners_at_leaf(op, s.drop_last());
        lemma_edit_at_leaf(op, s.last().root);
    }
}


/// The first terminal of a sequence of children comes from the first child
/// that has one.
pub proof fn lemma_first_terminal_nodes(s: Seq<LayoutV>, i: int)
    requires
        0 <= i <= s.len(),
        forall|j: int| 0 <= j < i ==> first_terminal(#[trigger] s[j]) is None,
    ensures
        i == s.len() ==> first_terminal_nodes(s) is None,
        i < s.len() && first_terminal(s[i]) is Some ==> first_terminal_nodes(s) == first_terminal(s[i]),
    decreases s.len(),
{
    if s.len() > 0 {
        if i == s.len() {
            lemma_first_terminal_nodes(s.drop_last(), i - 1);
        } else {
            lemma_first_terminal_nodes(s.drop_last(), if i < s.len() - 1 { i } else { s.len() - 1 });
        }
    }
}

/// The last terminal of a sequence of children comes from the last child
/// that has one.
pub proof fn lemma_last_terminal_nodes(s: Seq<LayoutV>, i: int)
    requires
        -1 <= i < s.len(),
        forall|j: int| i < j < s.len() ==> last_terminal(#[trigger] s[j]) is None,
    ensures
        i == -1 ==> last_terminal_nodes(s) is None,
        i >= 0 && last_terminal(s[i]) is Some ==> last_terminal_nodes(s) == last_terminal(s[i]),
    decreases s.len(),
{
    if s.len() > 0 {
        if i < s.len() - 1 {
            assert forall|j: int| i < j < s.len() - 1 implies last_terminal(#[trigger] s.drop_last()[j]) is None by {
                assert(s.drop_last()[j] == s[j]);
            }
            lemma_last_terminal_nodes(s.drop_last(), i);
            if i >= 0 {
                assert(s.drop_last()[i] == s[i]);
            }
        }
    }
}


pub proof fn lemma_find_inner_id_nodes(s: Seq<LayoutV>, t: TerminalId, i: int)
    requires
        0 <= i <= s.len(),
        forall|j: int| 0 <= j < i ==> find_inner_id(#[trigger] s[j], t) is None,
    ensures
        i == s.len() ==> find_inner_id_nodes(s, t) is None,
        i < s.len() && find_inner_id(s[i], t) is Some ==> find_inner_id_nodes(s, t) == find_inner_id(s[i], t),
    decreases s.len(),
{
    if s.len() > 0 {
        if i == s.len() {
            lemma_find_inner_id_nodes(s.drop_last(), t, i - 1);
        } else {
            lemma_find_inner_id_nodes(s.drop_last(), t, if i < s.len() - 1 { i } else { s.len() - 1 });
        }
    }
}

/// What one inner tab contributes to `find_inner_id_inners`.
pub open spec fn inner_id_at(x: InnerV, t: TerminalId) -> Option<InnerTabId> {
    if contains(x.root, t) {
        Some(x.id)
    } else {
        find_inner_id(x.root, t)
    }
}

pub proof fn lemma_find_inner_id_inners(s: Seq<InnerV>, t: TerminalId, i: int)
    requires
        0 <= i <= s.len(),
        forall|j: int| 0 <= j < i ==> inner_id_at(#[trigger] s[j], t) is None,
    ensures
        i == s.len() ==> find_inner_id_inners(s, t) is None,
        i < s.len() && inner_id_at(s[i], t) is Some ==> find_inner_id_inners(s, t) == inner_id_at(s[i], t),
    decreases s.len(),
{
    if s.len() > 0 {
        if i == s.len() {
            lemma_find_inner_id_inners(s.drop_last(), t, i - 1);
        } else {
            lemma_find_inner_id_inners(s.drop_last(), t, if i < s.len() - 1 { i } else { s.len() - 1 });
        }
    }
}

pub proof fn lemma_terminals_nodes_take(s: Seq<LayoutV>, i: int)
    requires
        0 <= i < s.len(),
    ensures
        terminals_nodes(s.take(i + 1)) == terminals_nodes(s.take(i)) + terminals(s[i]),
{
    assert(s.take(i + 1).drop_last() =~= s.take(i));
}

pub proof fn lemma_terminals_inners_take(s: Seq<InnerV>, i: int)
    requires
        0 <= i < s.len(),
    ensures
        terminals_inners(s.take(i + 1)) == terminals_inners(s.take(i)) + terminals(s[i].root),
{
    assert(s.take(i + 1).drop_last() =~= s.take(i));
}

pub proof fn lemma_contains_nodes_take(s: Seq<LayoutV>, t: TerminalId, i: int)
    requires
        0 <= i < s.len(),
    ensures
        contains_nodes(s.take(i + 1), t) == (contains_nodes(s.take(i), t) || contains(s[i], t)),
{
    assert(s.take(i + 1).drop_last() =~= s.take(i));
}

pub proof fn lemma_remove_nodes(s: Seq<LayoutV>, t: TerminalId)
    ensures
        #[trigger] remove_nodes(s, t).len() == s.len(),
        forall|i: int| 0 <= i < s.len() ==> #[trigger] remove_nodes(s, t)[i] == remove(s[i], t),
{
    lemma_strip_nodes(s, t, true);
}

pub proof fn lemma_strip_nodes(s: Seq<LayoutV>, t: TerminalId, collapse: bool)
    ensures
        #[trigger] strip_nodes(s, t, collapse).len() == s.len(),
        forall|i: int| 0 <= i < s.len() ==> #[trigger] strip_nodes(s, t, collapse)[i] == strip(s[i], t, collapse),
    decreases s.len(),
{
    if s.len() > 0 {
        lemma_strip_nodes(s.drop_last(), t, collapse);
        assert forall|i: int| 0 <= i < s.len() implies #[trigger] strip_nodes(s, t, collapse)[i] == strip(s[i], t, collapse) by {
            if i < s.len() - 1 {
                assert(s.drop_last()[i] == s[i]);
            }
        }
    }
}

pub proof fn lemma_drop_empty_take(s: Seq<LayoutV>, i: int)
    requires
        0 <= i < s.len(),
    ensures
        drop_empty(s.take(i + 1)) == if is_empty(s[i]) {
            drop_empty(s.take(i))
        } else {
            drop_empty(s.take(i)).push(s[i])
        },
{
    assert(s.take(i + 1).drop_last() =~= s.take(i));
}

/// Every subtree that `drop_empty` keeps is one of the given ones and is not empty.
pub proof fn lemma_drop_empty_members(s: Seq<LayoutV>)
    ensures
        forall|k: int| 0 <= k < drop_empty(s).len() ==> !is_empty(#[trigger] drop_empty(s)[k])
            && exists|j: int| 0 <= j < s.len() && s[j] == drop_empty(s)[k],
    decreases s.len(),
{
    if s.len() > 0 {
        lemma_drop_empty_members(s.drop_last());
        assert forall|k: int| 0 <= k < drop_empty(s).len() implies !is_empty(#[trigger] drop_empty(s)[k])
            && exists|j: int| 0 <= j < s.len() && s[j] == drop_empty(s)[k] by {
            if k < drop_empty(s.drop_last()).len() {
                let j = choose|j: int| 0 <= j < s.drop_last().len() && s.drop_last()[j] == drop_empty(s.drop_last())[k];
                assert(s[j] == drop_empty(s)[k]);
            } else {
                assert(s[s.len() - 1] == drop_empty(s)[k]);
            }
        }
    }
}

/// Removing `t` never leaves a leaf of `t` in place of the tree.
pub proof fn lemma_strip_not_leaf_of(v: LayoutV, t: TerminalId, collapse: bool)
    ensures
        strip(v, t, collapse) matches LayoutV::Leaf { terminal, .. } ==> terminal != t,
    decreases v,
{
    match v {
        LayoutV::Leaf { .. } => {},
        LayoutV::Split { children, .. } => {
            let rs = strip_nodes(children, t, collapse);
            lemma_strip_nodes(children, t, collapse);
            lemma_drop_empty_members(rs);
            if drop_empty(rs).len() == 1 {
                let j = choose|j: int| 0 <= j < rs.len() && rs[j] == drop_empty(rs)[0];
                lemma_strip_not_leaf_of(children[j], t, collapse);
            }
        },
        LayoutV::Tabs { .. } => {},
    }
}


/// The group focus of a sequence of children comes from the first child
/// that has one.
pub proof fn lemma_group_focus_nodes(s: Seq<LayoutV>, i: int)
    requires
        0 <= i <= s.len(),
        forall|j: int| 0 <= j < i ==> group_focus(#[trigger] s[j]) is None,
    ensures
        i == s.len() ==> group_focus_nodes(s) is None,
        i < s.len() && group_focus(s[i]) is Some ==> group_focus_nodes(s) == group_focus(s[i]),
    decreases s.len(),
{
    if s.len() > 0 {
        if i == s.len() {
            lemma_group_focus_nodes(s.drop_last(), i - 1);
        } else {
            lemma_group_focus_nodes(s.drop_last(), if i < s.len() - 1 { i } else { s.len() - 1 });
        }
    }
}

/// An inner tab found among children is found in the first child that has it.
pub proof fn lemma_find_inner_nodes(s: Seq<LayoutV>, id: InnerTabId, i: int)
    requires
        0 <= i <= s.len(),
        forall|j: int| 0 <= j < i ==> find_inner(#[trigger] s[j], id) is None,
    ensures
        i == s.len() ==> find_inner_nodes(s, id) is None,
        i < s.len() && find_inner(s[i], id) is Some ==> find_inner_nodes(s, id) == find_inner(s[i], id),
    decreases s.len(),
{
    if s.len() > 0 {
        if i == s.len() {
            lemma_find_inner_nodes(s.drop_last(), id, i - 1);
        } else {
            lemma_find_inner_nodes(s.drop_last(), id, if i < s.len() - 1 { i } else { s.len() - 1 });
        }
    }
}

/// Where an inner tab stands in a group, or within the tree of one of its
/// inner tabs.
pub open spec fn inner_at(i: InnerV, id: InnerTabId) -> Option<InnerV> {
    if i.id == id {
        Some(i)
    } else {
        find_inner(i.root, id)
    }
}

/// An inner tab found among inner tabs is found at the first of them that
/// is it or has it.
pub proof fn lemma_find_inner_inners(s: Seq<InnerV>, id: InnerTabId, i: int)
    requires
        0 <= i <= s.len(),
        forall|j: int| 0 <= j < i ==> inner_at(#[trigger] s[j], id) is None,
    ensures
        i == s.len() ==> find_inner_inners(s, id) is None,
        i < s.len() && inner_at(s[i], id) is Some ==> find_inner_inners(s, id) == inner_at(s[i], id),
    decreases s.len(),
{
    if s.len() > 0 {
        if i == s.len() {
            lemma_find_inner_inners(s.drop_last(), id, i - 1);
        } else {
            lemma_find_inner_inners(s.drop_last(), id, if i < s.len() - 1 { i } else { s.len() - 1 });
        }
    }
}

} // verus!
