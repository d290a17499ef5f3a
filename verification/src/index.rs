//! The index model: an ordered, labeled tree that describes an archive.
//!
//! Each node pairs a label (a file or directory base name, as bytes) with
//! one of three contents: `Absent` (an inert marker that must round-trip),
//! `Range(start, end)` (a half-open byte interval into the archive's blob,
//! standing for a file), or `Subtree` (an ordered list of children,
//! standing for a directory). An archive's index is an ordered sequence of
//! such nodes, one per packed input.

use vstd::prelude::*;

verus! {

/// Content of one executable index node.
#[derive(Debug)]
pub enum NodeContent {
    /// Inert marker: produces nothing when unpacked, but round-trips.
    Absent,
    /// A file: the half-open interval `[start, end)` into the blob.
    Range(usize, usize),
    /// A directory: its children, in visitation order.
    Subtree(Vec<Node>),
}

/// One executable index node: a label with its content.
#[derive(Debug)]
pub struct Node {
    pub label: Vec<u8>,
    pub content: NodeContent,
}

/// Content of one mathematical index node.
#[verifier::ext_equal]
pub enum GContent {
    Absent,
    Range(nat, nat),
    Subtree(Seq<GNode>),
}

/// One mathematical index node: the model that contracts speak of.
#[verifier::ext_equal]
pub struct GNode {
    pub label: Seq<u8>,
    pub content: GContent,
}

/// The model of an executable node.
pub open spec fn vnode(n: Node) -> GNode
    decreases n,
{
    GNode { label: n.label@, content: vcontent(n.content) }
}

/// The model of an executable node's content.
pub open spec fn vcontent(c: NodeContent) -> GContent
    decreases c,
{
    match c {
        NodeContent::Absent => GContent::Absent,
        NodeContent::Range(s, e) => GContent::Range(s as nat, e as nat),
        NodeContent::Subtree(children) => GContent::Subtree(vnode_seq(children@)),
    }
}

/// The model of a sequence of executable nodes.
pub open spec fn vnode_seq(s: Seq<Node>) -> Seq<GNode>
    decreases s,
{
    if s.len() == 0 {
        Seq::empty()
    } else {
        seq![vnode(s[0])] + vnode_seq(s.drop_first())
    }
}

/// `vnode_seq` maps the sequence element by element.
pub proof fn lemma_vnode_seq_index(s: Seq<Node>)
    ensures
        vnode_seq(s).len() == s.len(),
        forall|i: int| 0 <= i < s.len() ==> vnode_seq(s)[i] == vnode(#[trigger] s[i]),
    decreases s,
{
    if s.len() > 0 {
        lemma_vnode_seq_index(s.drop_first());
        assert forall|i: int| 0 <= i < s.len() implies vnode_seq(s)[i] == vnode(
            #[trigger] s[i],
        ) by {
            if i > 0 {
                assert(s.drop_first()[i - 1] == s[i]);
                assert(vnode_seq(s)[i] == vnode_seq(s.drop_first())[i - 1]);
            }
        }
    }
}

} // verus!
