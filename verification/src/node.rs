//! The input data model: a styled tree of DOM nodes, each paired with its
//! resolved style properties.

use vstd::prelude::*;

verus! {

/// A resolved style value, as produced by an upstream style resolver:
/// a keyword string, an RGB color triple, or a pixel length.
pub enum StyleValue {
    Keyword(String),
    Color(u8, u8, u8),
    Length(u64),
}

/// The content of a DOM node: either raw text, or an element with its tag
/// name and its raw (non-style) attributes in document order.
pub enum NodeType {
    Text(String),
    Element { tag_name: String, attributes: Vec<(String, String)> },
}

/// A node of the styled tree: DOM content, the resolved style properties of
/// this node in a fixed (insertion) order, and the styled children in
/// document order.
pub struct StyledNode {
    pub node: NodeType,
    pub specified_values: Vec<(String, StyleValue)>,
    pub children: Vec<StyledNode>,
}

/// Height of a styled tree: 1 for a childless node, else one more than the
/// tallest child.
pub open spec fn height(n: StyledNode) -> nat
    decreases n,
{
    1 + children_height(n.children@)
}

/// The largest height among a sequence of styled trees.
pub open spec fn children_height(cs: Seq<StyledNode>) -> nat
    decreases cs,
{
    if cs.len() == 0 {
        0
    } else {
        let h = height(cs[0]);
        let rest = children_height(cs.drop_first());
        if h > rest {
            h
        } else {
            rest
        }
    }
}

/// Every child of a sequence is at most as tall as the sequence's tallest.
pub proof fn lemma_children_height(cs: Seq<StyledNode>, i: int)
    requires
        0 <= i < cs.len(),
    ensures
        height(cs[i]) <= children_height(cs),
    decreases cs.len(),
{
    if i == 0 {
    } else {
        lemma_children_height(cs.drop_first(), i - 1);
        assert(cs.drop_first()[i - 1] == cs[i]);
    }
}

/// A child is strictly lower than its parent.
pub proof fn lemma_child_height(n: StyledNode, i: int)
    requires
        0 <= i < n.children@.len(),
    ensures
        height(n.children@[i]) < height(n),
{
    lemma_children_height(n.children@, i);
}

} // verus!
