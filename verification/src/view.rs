//! The abstract view of a layout tree: the tree without the node ids,
//! which no operation reads.
use vstd::prelude::*;
use crate::model::{InnerTab, InnerTabId, LayoutNode, SplitOrientation, TerminalId};

verus! {

/// A layout tree as the specifications see it.
pub enum LayoutV {
    Leaf { terminal: TerminalId, title: Seq<char>, flexible: bool },
    Split { orientation: SplitOrientation, children: Seq<LayoutV> },
    Tabs { tabs: Seq<InnerV>, active: int },
}

/// An inner tab as the specifications see it.
pub struct InnerV {
    pub id: InnerTabId,
    pub title: Seq<char>,
    pub root: LayoutV,
    pub focus: TerminalId,
    pub flexible: bool,
}

pub open spec fn layout_view(n: LayoutNode) -> LayoutV
    decreases n,
{
    match n {
        LayoutNode::Terminal(l) => LayoutV::Leaf { terminal: l.terminal_id, title: l.title@, flexible: l.title_flexible },
        LayoutNode::Split(s) => LayoutV::Split { orientation: s.orientation, children: nodes_view(s.children@) },
        LayoutNode::Tabs(g) => LayoutV::Tabs { tabs: inners_view(g.tabs@), active: g.active as int },
    }
}

pub open spec fn nodes_view(s: Seq<LayoutNode>) -> Seq<LayoutV>
    decreases s,
{
    if s.len() == 0 {
        Seq::empty()
    } else {
        nodes_view(s.drop_last()).push(layout_view(s.last()))
    }
}

pub open spec fn inner_view(i: InnerTab) -> InnerV
    decreases i,
{
    InnerV { id: i.id, title: i.title@, root: layout_view(i.root), focus: i.focus, flexible: i.flexible }
}

pub open spec fn inners_view(s: Seq<InnerTab>) -> Seq<InnerV>
    decreases s,
{
    if s.len() == 0 {
        Seq::empty()
    } else {
        inners_view(s.drop_last()).push(inner_view(s.last()))
    }
}

impl View for LayoutNode {
    type V = LayoutV;

    open spec fn view(&self) -> LayoutV {
        layout_view(*self)
    }
}

impl View for InnerTab {
    type V = InnerV;

    open spec fn view(&self) -> InnerV {
        inner_view(*self)
    }
}

pub proof fn lemma_nodes_view(s: Seq<LayoutNode>)
    ensures
        #[trigger] nodes_view(s).len() == s.len(),
        forall|i: int| 0 <= i < s.len() ==> #[trigger] nodes_view(s)[i] == layout_view(s[i]),
    decreases s.len(),
{
    if s.len() > 0 {
        lemma_nodes_view(s.drop_last());
        assert forall|i: int| 0 <= i < s.len() implies #[trigger] nodes_view(s)[i] == layout_view(s[i]) by {
            if i < s.len() - 1 {
                assert(s.drop_last()[i] == s[i]);
            }
        }
    }
}

pub proof fn lemma_inners_view(s: Seq<InnerTab>)
    ensures
        #[trigger] inners_view(s).len() == s.len(),
        forall|i: int| 0 <= i < s.len() ==> #[trigger] inners_view(s)[i] == inner_view(s[i]),
    decreases s.len(),
{
    if s.len() > 0 {
        lemma_inners_view(s.drop_last());
        assert forall|i: int| 0 <= i < s.len() implies #[trigger] inners_view(s)[i] == inner_view(s[i]) by {
            if i < s.len() - 1 {
                assert(s.drop_last()[i] == s[i]);
            }
        }
    }
}

} // verus!
