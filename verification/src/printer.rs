//! The tree printer: renders an index model as an indented tree, one
//! label per line. A top-level node has no prefix; each nesting level
//! below it adds a four-column step: the line of a node at depth `d`
//! carries `d - 1` continuation marks `|   ` and then the branch mark
//! `|---`. Children follow their parent in index order. The printer
//! never touches the blob.

use vstd::prelude::*;

use crate::index::{GNode, Node, NodeContent, vnode, vnode_seq, lemma_vnode_seq_index};

verus! {

/// The newline that ends each printed line.
pub const NL: u8 = 10;

/// The branch mark `|---` put right before a nested label.
pub open spec fn marker() -> Seq<u8> {
    seq![124u8, 45u8, 45u8, 45u8]
}

/// The continuation mark `|   ` that fills one prior level.
pub open spec fn branch() -> Seq<u8> {
    seq![124u8, 32u8, 32u8, 32u8]
}

/// `k` continuation marks.
pub open spec fn repeat_branch(k: nat) -> Seq<u8>
    decreases k,
{
    if k == 0 {
        Seq::empty()
    } else {
        repeat_branch((k - 1) as nat) + branch()
    }
}

/// One top-level node: its bare label line, then its children one
/// level in.
pub open spec fn render_top_node(n: GNode) -> Seq<u8>
    decreases n, 0int,
{
    n.label + seq![NL] + (match n.content {
        crate::index::GContent::Subtree(children) => render_sub(children, Seq::empty()),
        _ => Seq::empty(),
    })
}

/// A run of top-level nodes, in order.
pub open spec fn render_top(ns: Seq<GNode>) -> Seq<u8>
    decreases ns, 1int,
{
    if ns.len() == 0 {
        Seq::empty()
    } else {
        render_top_node(ns[0]) + render_top(ns.drop_first())
    }
}

/// One nested node: the continuation marks of the levels above it, the
/// branch mark, its label, then its children one level deeper.
pub open spec fn render_node_sub(n: GNode, cont: Seq<u8>) -> Seq<u8>
    decreases n, 0int,
{
    cont + marker() + n.label + seq![NL] + (match n.content {
        crate::index::GContent::Subtree(children) => render_sub(children, cont + branch()),
        _ => Seq::empty(),
    })
}

/// A run of nested siblings, in order.
pub open spec fn render_sub(ns: Seq<GNode>, cont: Seq<u8>) -> Seq<u8>
    decreases ns, 1int,
{
    if ns.len() == 0 {
        Seq::empty()
    } else {
        render_node_sub(ns[0], cont) + render_sub(ns.drop_first(), cont)
    }
}

/// Printer fidelity, ordering half: siblings are printed one after the
/// other in index order, each with the same continuation prefix.
pub proof fn lemma_render_sub_append(a: Seq<GNode>, b: Seq<GNode>, cont: Seq<u8>)
    ensures
        render_sub(a + b, cont) =~= render_sub(a, cont) + render_sub(b, cont),
    decreases a,
{
    if a.len() == 0 {
        assert(a + b =~= b);
        assert(render_sub(a, cont) =~= Seq::<u8>::empty());
    } else {
        lemma_render_sub_append(a.drop_first(), b, cont);
        assert((a + b)[0] == a[0]);
        assert((a + b).drop_first() =~= a.drop_first() + b);
        assert(render_sub(a + b, cont) =~= render_node_sub(a[0], cont) + render_sub(
            (a + b).drop_first(),
            cont,
        ));
    }
}

pub proof fn lemma_render_top_append(a: Seq<GNode>, b: Seq<GNode>)
    ensures
        render_top(a + b) =~= render_top(a) + render_top(b),
    decreases a,
{
    if a.len() == 0 {
        assert(a + b =~= b);
        assert(render_top(a) =~= Seq::<u8>::empty());
    } else {
        lemma_render_top_append(a.drop_first(), b);
        assert((a + b)[0] == a[0]);
        assert((a + b).drop_first() =~= a.drop_first() + b);
        assert(render_top(a + b) =~= render_top_node(a[0]) + render_top((a + b).drop_first()));
    }
}

/// Printer fidelity, depth half: a subtree's line carries its own
/// continuation marks and one branch mark, and its children are
/// rendered with exactly one more continuation mark -- so a node nested
/// under `d` subtree levels is printed behind `d - 1` continuation
/// marks and one branch mark.
pub proof fn lemma_printer_depth(n: GNode, children: Seq<GNode>, cont: Seq<u8>)
    requires
        n.content == crate::index::GContent::Subtree(children),
    ensures
        render_node_sub(n, cont) == cont + marker() + n.label + seq![NL] + render_sub(
            children,
            cont + branch(),
        ),
{
}

/// Appends `src` to `out`.
fn push_all(out: &mut Vec<u8>, src: &Vec<u8>)
    ensures
        final(out)@ == old(out)@ + src@,
{
    let n = src.len();
    let mut i: usize = 0;
    while i < n
        invariant
            i <= n,
            n == src@.len(),
            out@ == old(out)@ + src@.take(i as int),
        decreases n - i,
    {
        out.push(src[i]);
        proof {
            assert(src@.take(i + 1) =~= src@.take(i as int).push(src@[i as int]));
            assert(out@ =~= old(out)@ + src@.take(i + 1));
        }
        i = i + 1;
    }
    proof {
        assert(src@.take(n as int) =~= src@);
    }
}

/// Renders one node, top level or nested, appending to `out`.
fn render_node_into(node: &Node, cont: &Vec<u8>, top: bool, out: &mut Vec<u8>)
    ensures
        final(out)@ == old(out)@ + (if top {
            render_top_node(vnode(*node))
        } else {
            render_node_sub(vnode(*node), cont@)
        }),
    decreases *node, 0int,
{
    if !top {
        push_all(out, cont);
        out.push(124);
        out.push(45);
        out.push(45);
        out.push(45);
    }
    push_all(out, &node.label);
    out.push(NL);
    let ghost head = out@;
    match &node.content {
        NodeContent::Subtree(children) => {
            let mut child_cont: Vec<u8> = Vec::new();
            if !top {
                push_all(&mut child_cont, cont);
                child_cont.push(124);
                child_cont.push(32);
                child_cont.push(32);
                child_cont.push(32);
                proof {
                    assert(child_cont@ =~= cont@ + branch());
                }
            } else {
                proof {
                    assert(child_cont@ =~= Seq::<u8>::empty());
                }
            }
            let n = children.len();
            proof {
                lemma_vnode_seq_index(children@);
            }
            let mut i: usize = 0;
            while i < n
                invariant
                    i <= n,
                    n == children@.len(),
                    node.content == NodeContent::Subtree(*children),
                    vnode_seq(children@).len() == n,
                    forall|j: int|
                        0 <= j < n ==> vnode_seq(children@)[j] == vnode(#[trigger] children@[j]),
                    out@ == head + render_sub(vnode_seq(children@).take(i as int), child_cont@),
                decreases n - i,
            {
                proof {
                    assert(node.content->Subtree_0 == *children);
                    assert(decreases_to!(*node => node.content));
                    assert(decreases_to!(node.content => node.content->Subtree_0));
                    assert(decreases_to!(node.content->Subtree_0 => node.content->Subtree_0@));
                    assert(decreases_to!(node.content->Subtree_0@ => children@[i as int]));
                    assert(decreases_to!(*node => children@[i as int]));
                }
                render_node_into(&children[i], &child_cont, false, out);
                proof {
                    let gs = vnode_seq(children@);
                    assert(gs.take(i + 1) =~= gs.take(i as int) + seq![gs[i as int]]);
                    lemma_render_sub_append(gs.take(i as int), seq![gs[i as int]], child_cont@);
                    assert(seq![gs[i as int]][0] == gs[i as int]);
                    assert(seq![gs[i as int]].drop_first() =~= Seq::<GNode>::empty());
                    assert(render_sub(Seq::<GNode>::empty(), child_cont@) =~= Seq::<u8>::empty());
                    assert(render_sub(seq![gs[i as int]], child_cont@) =~= render_node_sub(
                        gs[i as int],
                        child_cont@,
                    ));
                    assert(out@ =~= head + render_sub(gs.take(i + 1), child_cont@));
                }
                i = i + 1;
            }
            proof {
                assert(vnode_seq(children@).take(n as int) =~= vnode_seq(children@));
                assert(out@ =~= old(out)@ + (if top {
                    render_top_node(vnode(*node))
                } else {
                    render_node_sub(vnode(*node), cont@)
                }));
            }
        },
        NodeContent::Absent => {
            proof {
                assert(out@ =~= old(out)@ + (if top {
                    render_top_node(vnode(*node))
                } else {
                    render_node_sub(vnode(*node), cont@)
                }));
            }
        },
        NodeContent::Range(s, e) => {
            proof {
                assert(out@ =~= old(out)@ + (if top {
                    render_top_node(vnode(*node))
                } else {
                    render_node_sub(vnode(*node), cont@)
                }));
            }
        },
    }
}

/// Renders one node of the index as the printed tree, as text. At
/// indent 0 the node is a top-level one; at indent `4 * d` (for `d`
/// at least 1) it is printed as a node nested `d` levels deep. The
/// caller writes the returned bytes out.
pub fn printArchiveTree(node: &Node, indent: usize) -> (r: Vec<u8>)
    requires
        indent == 0 || indent >= 4,
    ensures
        indent == 0 ==> r@ == render_top_node(vnode(*node)),
        indent >= 4 ==> r@ == render_node_sub(
            vnode(*node),
            repeat_branch((((indent - 4) / 4) as nat)),
        ),
{
    let mut out: Vec<u8> = Vec::new();
    if indent == 0 {
        render_node_into(node, &Vec::new(), true, &mut out);
        proof {
            assert(out@ =~= render_top_node(vnode(*node)));
        }
        out
    } else {
        let reps = (indent - 4) / 4;
        let mut cont: Vec<u8> = Vec::new();
        let mut k: usize = 0;
        while k < reps
            invariant
                k <= reps,
                cont@ == repeat_branch(k as nat),
            decreases reps - k,
        {
            cont.push(124);
            cont.push(32);
            cont.push(32);
            cont.push(32);
            proof {
                assert(cont@ =~= repeat_branch(k as nat) + branch());
            }
            k = k + 1;
        }
        render_node_into(node, &cont, false, &mut out);
        proof {
            assert(out@ =~= render_node_sub(vnode(*node), repeat_branch(reps as nat)));
        }
        out
    }
}

/// Renders the whole index as the printed tree: each top-level node in
/// order, children indented below their parent.
pub fn render_index(nodes: &Vec<Node>) -> (r: Vec<u8>)
    ensures
        r@ == render_top(vnode_seq(nodes@)),
{
    let mut out: Vec<u8> = Vec::new();
    let n = nodes.len();
    proof {
        lemma_vnode_seq_index(nodes@);
    }
    let mut i: usize = 0;
    while i < n
        invariant
            i <= n,
            n == nodes@.len(),
            vnode_seq(nodes@).len() == n,
            forall|j: int| 0 <= j < n ==> vnode_seq(nodes@)[j] == vnode(#[trigger] nodes@[j]),
            out@ == render_top(vnode_seq(nodes@).take(i as int)),
        decreases n - i,
    {
        render_node_into(&nodes[i], &Vec::new(), true, &mut out);
        proof {
            let gs = vnode_seq(nodes@);
            assert(gs.take(i + 1) =~= gs.take(i as int) + seq![gs[i as int]]);
            lemma_render_top_append(gs.take(i as int), seq![gs[i as int]]);
            assert(seq![gs[i as int]][0] == gs[i as int]);
            assert(seq![gs[i as int]].drop_first() =~= Seq::<GNode>::empty());
            assert(render_top(Seq::<GNode>::empty()) =~= Seq::<u8>::empty());
            assert(render_top(seq![gs[i as int]]) =~= render_top_node(gs[i as int]));
            assert(out@ =~= render_top(gs.take(i + 1)));
        }
        i = i + 1;
    }
    proof {
        assert(vnode_seq(nodes@).take(n as int) =~= vnode_seq(nodes@));
    }
    out
}

} // verus!
