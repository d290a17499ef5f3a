//! The tree packer: turns a snapshot of the input forest into an index
//! model and the blob, assigning contiguous byte offsets in visitation
//! order.
//!
//! The caller walks the filesystem and hands the packer a plain-value
//! snapshot: file bytes already read (an unreadable file is marked as
//! such and degrades to an empty range), directory listings already
//! taken (an unlistable directory degrades to an empty subtree), and
//! symbolic links marked so they are omitted. Each directory carries its
//! resolved path string; a directory whose path was already visited in
//! this run contributes an empty subtree, the cycle guard.

use vstd::prelude::*;

use crate::index::{GContent, GNode, Node, NodeContent, vnode, vnode_seq, lemma_vnode_seq_index};

verus! {

/// One entry of the filesystem snapshot handed to the packer.
pub enum FsTree {
    /// A regular file and its full contents.
    File { name: Vec<u8>, bytes: Vec<u8> },
    /// A file whose contents could not be read: packs as a zero-length
    /// range rather than failing.
    UnreadableFile { name: Vec<u8> },
    /// A directory, its resolved path, and its entries in listing order.
    Dir { name: Vec<u8>, path: Vec<u8>, entries: Vec<FsTree> },
    /// A directory whose entries could not be listed: packs as an empty
    /// subtree rather than failing.
    UnlistableDir { name: Vec<u8> },
    /// A symbolic link: never followed, never packed.
    Symlink { name: Vec<u8> },
}

/// One top-level input: either a snapshot, or a path that named nothing
/// on the filesystem, which makes the whole pack fail.
pub enum FsInput {
    Missing { path: Vec<u8> },
    Present { tree: FsTree },
}

/// Why packing failed.
#[derive(Debug, Clone, PartialEq, Eq)]
pub enum PackError {
    /// A top-level input path does not exist; carries that path.
    MissingInput(Vec<u8>),
}

/// The mathematical snapshot entry.
#[verifier::ext_equal]
pub enum GFs {
    File { name: Seq<u8>, bytes: Seq<u8> },
    UnreadableFile { name: Seq<u8> },
    Dir { name: Seq<u8>, path: Seq<u8>, entries: Seq<GFs> },
    UnlistableDir { name: Seq<u8> },
    Symlink { name: Seq<u8> },
}

/// The mathematical top-level input.
#[verifier::ext_equal]
pub enum GInput {
    Missing { path: Seq<u8> },
    Present { tree: GFs },
}

/// The model of a snapshot entry.
pub open spec fn vfs(t: FsTree) -> GFs
    decreases t,
{
    match t {
        FsTree::File { name, bytes } => GFs::File { name: name@, bytes: bytes@ },
        FsTree::UnreadableFile { name } => GFs::UnreadableFile { name: name@ },
        FsTree::Dir { name, path, entries } => GFs::Dir {
            name: name@,
            path: path@,
            entries: vfs_seq(entries@),
        },
        FsTree::UnlistableDir { name } => GFs::UnlistableDir { name: name@ },
        FsTree::Symlink { name } => GFs::Symlink { name: name@ },
    }
}

pub open spec fn vfs_seq(s: Seq<FsTree>) -> Seq<GFs>
    decreases s,
{
    if s.len() == 0 {
        Seq::empty()
    } else {
        seq![vfs(s[0])] + vfs_seq(s.drop_first())
    }
}

/// The model of the top-level input list.
pub open spec fn vinput(x: FsInput) -> GInput {
    match x {
        FsInput::Missing { path } => GInput::Missing { path: path@ },
        FsInput::Present { tree } => GInput::Present { tree: vfs(tree) },
    }
}

pub open spec fn vinput_seq(s: Seq<FsInput>) -> Seq<GInput>
    decreases s,
{
    if s.len() == 0 {
        Seq::empty()
    } else {
        seq![vinput(s[0])] + vinput_seq(s.drop_first())
    }
}

/// A node option as the zero-or-one nodes it contributes to the index.
pub open spec fn opt_node(n: Option<GNode>) -> Seq<GNode> {
    match n {
        Some(node) => seq![node],
        None => Seq::empty(),
    }
}

/// Packing one snapshot entry at blob offset `off` with the visited
/// set `vis`: the node it contributes (none for a symlink), the bytes
/// it appends to the blob, and the visited set afterwards.
pub open spec fn g_pack_entry(e: GFs, off: nat, vis: Set<Seq<u8>>) -> (Option<GNode>, Seq<u8>, Set<
    Seq<u8>,
>)
    decreases e, 0int,
{
    match e {
        GFs::File { name, bytes } => (
            Some(GNode { label: name, content: GContent::Range(off, off + bytes.len()) }),
            bytes,
            vis,
        ),
        GFs::UnreadableFile { name } => (
            Some(GNode { label: name, content: GContent::Range(off, off) }),
            Seq::empty(),
            vis,
        ),
        GFs::Dir { name, path, entries } => {
            if vis.contains(path) {
                (
                    Some(GNode { label: name, content: GContent::Subtree(Seq::empty()) }),
                    Seq::empty(),
                    vis,
                )
            } else {
                let t = g_pack_list(entries, off, vis);
                (Some(GNode { label: name, content: GContent::Subtree(t.0) }), t.1, t.2.insert(
                    path,
                ))
            }
        },
        GFs::UnlistableDir { name } => (
            Some(GNode { label: name, content: GContent::Subtree(Seq::empty()) }),
            Seq::empty(),
            vis,
        ),
        GFs::Symlink { name } => (None, Seq::empty(), vis),
    }
}

/// Packing a listing in order, threading offset and visited set.
pub open spec fn g_pack_list(es: Seq<GFs>, off: nat, vis: Set<Seq<u8>>) -> (Seq<GNode>, Seq<u8>, Set<
    Seq<u8>,
>)
    decreases es, 1int,
{
    if es.len() == 0 {
        (Seq::empty(), Seq::empty(), vis)
    } else {
        let h = g_pack_entry(es[0], off, vis);
        let t = g_pack_list(es.drop_first(), off + h.1.len(), h.2);
        (opt_node(h.0) + t.0, h.1 + t.1, t.2)
    }
}

/// Packing the top-level inputs: fails with the first missing path.
pub open spec fn g_pack_inputs(ins: Seq<GInput>, off: nat, vis: Set<Seq<u8>>) -> Result<
    (Seq<GNode>, Seq<u8>, Set<Seq<u8>>),
    Seq<u8>,
>
    decreases ins,
{
    if ins.len() == 0 {
        Ok((Seq::empty(), Seq::empty(), vis))
    } else {
        match ins[0] {
            GInput::Missing { path } => Err(path),
            GInput::Present { tree } => {
                let h = g_pack_entry(tree, off, vis);
                match g_pack_inputs(ins.drop_first(), off + h.1.len(), h.2) {
                    Ok(t) => Ok((opt_node(h.0) + t.0, h.1 + t.1, t.2)),
                    Err(p) => Err(p),
                }
            },
        }
    }
}

/// The byte ranges an index names, flattened in visitation order.
pub open spec fn ranges_of(ns: Seq<GNode>) -> Seq<(nat, nat)>
    decreases ns, 1int,
{
    if ns.len() == 0 {
        Seq::empty()
    } else {
        ranges_of_node(ns[0]) + ranges_of(ns.drop_first())
    }
}

pub open spec fn ranges_of_node(n: GNode) -> Seq<(nat, nat)>
    decreases n, 0int,
{
    match n.content {
        GContent::Absent => Seq::empty(),
        GContent::Range(s, e) => seq![(s, e)],
        GContent::Subtree(children) => ranges_of(children),
    }
}

/// The ranges tile `[lo, hi)` exactly: each starts where the one
/// before it ended, none is reversed, and together they cover it all.
pub open spec fn tiles(rs: Seq<(nat, nat)>, lo: nat, hi: nat) -> bool
    decreases rs,
{
    if rs.len() == 0 {
        lo == hi
    } else {
        rs[0].0 == lo && rs[0].0 <= rs[0].1 && tiles(rs.drop_first(), rs[0].1, hi)
    }
}

proof fn lemma_tiles_append(a: Seq<(nat, nat)>, b: Seq<(nat, nat)>, lo: nat, mid: nat, hi: nat)
    requires
        tiles(a, lo, mid),
        tiles(b, mid, hi),
    ensures
        tiles(a + b, lo, hi),
    decreases a,
{
    if a.len() == 0 {
        assert(a + b =~= b);
    } else {
        lemma_tiles_append(a.drop_first(), b, a[0].1, mid, hi);
        assert((a + b).drop_first() =~= a.drop_first() + b);
        assert((a + b)[0] == a[0]);
    }
}

proof fn lemma_ranges_of_append(a: Seq<GNode>, b: Seq<GNode>)
    ensures
        ranges_of(a + b) =~= ranges_of(a) + ranges_of(b),
    decreases a,
{
    if a.len() == 0 {
        assert(a + b =~= b);
        assert(ranges_of(a) =~= Seq::<(nat, nat)>::empty());
    } else {
        lemma_ranges_of_append(a.drop_first(), b);
        assert((a + b).drop_first() =~= a.drop_first() + b);
        assert((a + b)[0] == a[0]);
        assert(ranges_of(a + b) =~= ranges_of_node(a[0]) + ranges_of((a + b).drop_first()));
    }
}

/// Offset contiguity, entry form: the ranges a packed entry names tile
/// exactly the blob bytes it appends.
pub proof fn lemma_pack_entry_tiles(e: GFs, off: nat, vis: Set<Seq<u8>>)
    ensures
        ({
            let h = g_pack_entry(e, off, vis);
            tiles(ranges_of(opt_node(h.0)), off, off + h.1.len())
        }),
    decreases e, 0int,
{
    let h = g_pack_entry(e, off, vis);
    match e {
        GFs::File { name, bytes } => {
            let n = GNode { label: name, content: GContent::Range(off, off + bytes.len()) };
            assert(opt_node(h.0) =~= seq![n]);
            assert(seq![n].drop_first() =~= Seq::<GNode>::empty());
            assert(seq![n][0] == n);
            assert(ranges_of_node(n) =~= seq![(off, off + bytes.len())]);
            assert(ranges_of(seq![n]) == ranges_of_node(seq![n][0]) + ranges_of(
                seq![n].drop_first(),
            ));
            assert(ranges_of(seq![n]) =~= seq![(off, off + bytes.len())]);
            let rs = seq![(off, off + bytes.len())];
            assert(rs.drop_first() =~= Seq::<(nat, nat)>::empty());
            assert(tiles(rs.drop_first(), off + bytes.len(), off + bytes.len()));
            assert(rs[0] == (off, off + bytes.len()));
            assert(tiles(rs, off, off + bytes.len()));
            assert(h.0 == Some(n));
            assert(h.1 == bytes);
            assert(tiles(ranges_of(opt_node(h.0)), off, off + h.1.len()));
        },
        GFs::UnreadableFile { name } => {
            let n = GNode { label: name, content: GContent::Range(off, off) };
            assert(opt_node(h.0) =~= seq![n]);
            assert(seq![n].drop_first() =~= Seq::<GNode>::empty());
            assert(seq![n][0] == n);
            assert(ranges_of_node(n) =~= seq![(off, off)]);
            assert(ranges_of(seq![n]) == ranges_of_node(seq![n][0]) + ranges_of(
                seq![n].drop_first(),
            ));
            assert(ranges_of(seq![n]) =~= seq![(off, off)]);
            assert(seq![(off, off)].drop_first() =~= Seq::<(nat, nat)>::empty());
            assert(tiles(seq![(off, off)].drop_first(), off, off));
            assert(tiles(ranges_of(opt_node(h.0)), off, off + h.1.len()));
        },
        GFs::Dir { name, path, entries } => {
            if vis.contains(path) {
                let n = GNode { label: name, content: GContent::Subtree(Seq::empty()) };
                assert(opt_node(h.0) =~= seq![n]);
                assert(seq![n].drop_first() =~= Seq::<GNode>::empty());
                assert(seq![n][0] == n);
                assert(ranges_of_node(n) =~= Seq::<(nat, nat)>::empty());
                assert(ranges_of(seq![n]) == ranges_of_node(seq![n][0]) + ranges_of(
                    seq![n].drop_first(),
                ));
                assert(ranges_of(seq![n]) =~= Seq::<(nat, nat)>::empty());
            } else {
                lemma_pack_list_tiles(entries, off, vis);
                let t = g_pack_list(entries, off, vis);
                let n = GNode { label: name, content: GContent::Subtree(t.0) };
                assert(opt_node(h.0) =~= seq![n]);
                assert(seq![n].drop_first() =~= Seq::<GNode>::empty());
                assert(seq![n][0] == n);
                assert(ranges_of_node(n) == ranges_of(t.0));
                assert(ranges_of(seq![n]) == ranges_of_node(seq![n][0]) + ranges_of(
                    seq![n].drop_first(),
                ));
                assert(ranges_of(seq![n]) =~= ranges_of(t.0));
            }
        },
        GFs::UnlistableDir { name } => {
            let n = GNode { label: name, content: GContent::Subtree(Seq::empty()) };
            assert(opt_node(h.0) =~= seq![n]);
            assert(seq![n].drop_first() =~= Seq::<GNode>::empty());
            assert(seq![n][0] == n);
            assert(ranges_of_node(n) =~= Seq::<(nat, nat)>::empty());
            assert(ranges_of(seq![n]) == ranges_of_node(seq![n][0]) + ranges_of(
                seq![n].drop_first(),
            ));
            assert(ranges_of(seq![n]) =~= Seq::<(nat, nat)>::empty());
        },
        GFs::Symlink { name } => {
            assert(opt_node(h.0) =~= Seq::<GNode>::empty());
            assert(ranges_of(opt_node(h.0)) =~= Seq::<(nat, nat)>::empty());
        },
    }
}

/// Offset contiguity, listing form.
pub proof fn lemma_pack_list_tiles(es: Seq<GFs>, off: nat, vis: Set<Seq<u8>>)
    ensures
        ({
            let t = g_pack_list(es, off, vis);
            tiles(ranges_of(t.0), off, off + t.1.len())
        }),
    decreases es, 1int,
{
    if es.len() == 0 {
        assert(ranges_of(Seq::<GNode>::empty()) =~= Seq::<(nat, nat)>::empty());
    } else {
        let h = g_pack_entry(es[0], off, vis);
        let t = g_pack_list(es.drop_first(), off + h.1.len(), h.2);
        lemma_pack_entry_tiles(es[0], off, vis);
        lemma_pack_list_tiles(es.drop_first(), off + h.1.len(), h.2);
        lemma_ranges_of_append(opt_node(h.0), t.0);
        lemma_tiles_append(
            ranges_of(opt_node(h.0)),
            ranges_of(t.0),
            off,
            off + h.1.len(),
            off + h.1.len() + t.1.len(),
        );
    }
}

/// Offset contiguity: in a packed archive the ranges of the index, in
/// visitation order, exactly tile `[0, blobLength)` with no gap and no
/// overlap.
pub proof fn lemma_pack_offsets_tile(ins: Seq<GInput>, off: nat, vis: Set<Seq<u8>>)
    ensures
        ({
            match g_pack_inputs(ins, off, vis) {
                Ok(t) => tiles(ranges_of(t.0), off, off + t.1.len()),
                Err(_) => true,
            }
        }),
    decreases ins,
{
    if ins.len() == 0 {
        assert(ranges_of(Seq::<GNode>::empty()) =~= Seq::<(nat, nat)>::empty());
    } else {
        match ins[0] {
            GInput::Missing { path } => {},
            GInput::Present { tree } => {
                let h = g_pack_entry(tree, off, vis);
                lemma_pack_entry_tiles(tree, off, vis);
                lemma_pack_offsets_tile(ins.drop_first(), off + h.1.len(), h.2);
                match g_pack_inputs(ins.drop_first(), off + h.1.len(), h.2) {
                    Ok(t) => {
                        lemma_ranges_of_append(opt_node(h.0), t.0);
                        lemma_tiles_append(
                            ranges_of(opt_node(h.0)),
                            ranges_of(t.0),
                            off,
                            off + h.1.len(),
                            off + h.1.len() + t.1.len(),
                        );
                    },
                    Err(_) => {},
                }
            },
        }
    }
}

/// Packing a directory leaves its path in the visited set, whether it
/// was skipped or fully processed.
pub proof fn lemma_pack_marks_dir(e: GFs, off: nat, vis: Set<Seq<u8>>)
    requires
        e is Dir,
    ensures
        g_pack_entry(e, off, vis).2.contains(e->Dir_path),
{
}

/// Cycle guard: a directory whose path is already in the visited set
/// contributes an empty subtree under its own label and not one byte of
/// blob, and leaves the visited set as it was. Together with
/// `lemma_pack_marks_dir` and `lemma_pack_offsets_tile`: packing the
/// same directory reachable from two inputs processes it once, the
/// second reference is empty, and the ranges still tile the blob.
pub proof fn lemma_cycle_guard(e: GFs, off: nat, vis: Set<Seq<u8>>)
    requires
        e is Dir,
        vis.contains(e->Dir_path),
    ensures
        g_pack_entry(e, off, vis).0 == Some(
            GNode { label: e->Dir_name, content: GContent::Subtree(Seq::empty()) },
        ),
        g_pack_entry(e, off, vis).1 == Seq::<u8>::empty(),
        g_pack_entry(e, off, vis).2 == vis,
{
}

/// Symlink exclusion: removing a symlink entry from a listing changes
/// nothing about what packing produces -- the index carries no node for
/// it and the blob none of its target's bytes.
pub proof fn lemma_symlink_excluded(es: Seq<GFs>, i: int, off: nat, vis: Set<Seq<u8>>)
    requires
        0 <= i < es.len(),
        es[i] is Symlink,
    ensures
        g_pack_list(es, off, vis).0 == g_pack_list(es.remove(i), off, vis).0,
        g_pack_list(es, off, vis).1 == g_pack_list(es.remove(i), off, vis).1,
        g_pack_list(es, off, vis).2 == g_pack_list(es.remove(i), off, vis).2,
    decreases es,
{
    if i == 0 {
        let h = g_pack_entry(es[0], off, vis);
        assert(h.0 is None);
        assert(opt_node(h.0) =~= Seq::<GNode>::empty());
        assert(es.remove(0) =~= es.drop_first());
        let t = g_pack_list(es.drop_first(), off, vis);
        assert(opt_node(h.0) + t.0 =~= t.0);
        assert(h.1 + t.1 =~= t.1);
    } else {
        let h = g_pack_entry(es[0], off, vis);
        assert(es.remove(i)[0] == es[0]);
        assert(es.remove(i).drop_first() =~= es.drop_first().remove(i - 1));
        assert(es.drop_first()[i - 1] == es[i]);
        lemma_symlink_excluded(es.drop_first(), i - 1, off + h.1.len(), h.2);
    }
}

/// The set of paths a visited list stands for.
pub open spec fn vset(vs: Seq<Vec<u8>>) -> Set<Seq<u8>> {
    Set::new(|p: Seq<u8>| exists|i: int| 0 <= i < vs.len() && vs[i]@ == p)
}

proof fn lemma_vset_push(vs: Seq<Vec<u8>>, x: Vec<u8>)
    ensures
        vset(vs.push(x)) =~= vset(vs).insert(x@),
{
    assert forall|p: Seq<u8>| vset(vs.push(x)).contains(p) implies vset(vs).insert(x@).contains(
        p,
    ) by {
        let i = choose|i: int| 0 <= i < vs.push(x).len() && vs.push(x)[i]@ == p;
        if i < vs.len() {
            assert(vs[i]@ == p);
        }
    }
    assert forall|p: Seq<u8>| vset(vs).insert(x@).contains(p) implies vset(vs.push(x)).contains(
        p,
    ) by {
        if p == x@ {
            assert(vs.push(x)[vs.len() as int]@ == p);
        } else {
            let i = choose|i: int| 0 <= i < vs.len() && vs[i]@ == p;
            assert(vs.push(x)[i]@ == p);
        }
    }
}

/// `vfs_seq` maps the sequence element by element.
pub proof fn lemma_vfs_seq_index(s: Seq<FsTree>)
    ensures
        vfs_seq(s).len() == s.len(),
        forall|i: int| 0 <= i < s.len() ==> vfs_seq(s)[i] == vfs(#[trigger] s[i]),
    decreases s,
{
    if s.len() > 0 {
        lemma_vfs_seq_index(s.drop_first());
        assert forall|i: int| 0 <= i < s.len() implies vfs_seq(s)[i] == vfs(#[trigger] s[i]) by {
            if i > 0 {
                assert(s.drop_first()[i - 1] == s[i]);
                assert(vfs_seq(s)[i] == vfs_seq(s.drop_first())[i - 1]);
            }
        }
    }
}

/// Two byte vectors hold the same bytes.
fn bytes_eq(a: &Vec<u8>, b: &Vec<u8>) -> (r: bool)
    ensures
        r == (a@ == b@),
{
    if a.len() != b.len() {
        proof {
            assert(a@ != b@);
        }
        return false;
    }
    let n = a.len();
    let mut i: usize = 0;
    while i < n
        invariant
            i <= n,
            n == a@.len(),
            n == b@.len(),
            forall|k: int| 0 <= k < i ==> a@[k] == b@[k],
        decreases n - i,
    {
        if a[i] != b[i] {
            proof {
                assert(a@[i as int] != b@[i as int]);
            }
            return false;
        }
        i = i + 1;
    }
    proof {
        assert(a@ =~= b@);
    }
    true
}

/// Whether `p` is one of the visited paths.
fn contains_path(visited: &Vec<Vec<u8>>, p: &Vec<u8>) -> (r: bool)
    ensures
        r == vset(visited@).contains(p@),
{
    let n = visited.len();
    let mut i: usize = 0;
    while i < n
        invariant
            i <= n,
            n == visited@.len(),
            forall|k: int| 0 <= k < i ==> visited@[k]@ != p@,
        decreases n - i,
    {
        if bytes_eq(&visited[i], p) {
            proof {
                assert(visited@[i as int]@ == p@);
            }
            return true;
        }
        i = i + 1;
    }
    proof {
        assert forall|j: int| 0 <= j < visited@.len() implies visited@[j]@ != p@ by {}
    }
    false
}

/// Packs one snapshot entry: appends its bytes to `blob`, updates the
/// visited paths, and returns its index node (none for a symlink).
pub fn pack_entry(tree: FsTree, blob: &mut Vec<u8>, visited: &mut Vec<Vec<u8>>) -> (r: Option<Node>)
    ensures
        ({
            let g = g_pack_entry(vfs(tree), old(blob)@.len() as nat, vset(old(visited)@));
            &&& (match r {
                Some(node) => g.0 == Some(vnode(node)),
                None => g.0 is None,
            })
            &&& final(blob)@ == old(blob)@ + g.1
            &&& vset(final(visited)@) == g.2
        }),
    decreases tree, 0int,
{
    match tree {
        FsTree::File { name, bytes } => {
            let start = blob.len();
            let m = bytes.len();
            let mut k: usize = 0;
            while k < m
                invariant
                    k <= m,
                    m == bytes@.len(),
                    blob@ == old(blob)@ + bytes@.take(k as int),
                decreases m - k,
            {
                blob.push(bytes[k]);
                proof {
                    assert(bytes@.take(k + 1) =~= bytes@.take(k as int).push(bytes@[k as int]));
                    assert(blob@ =~= old(blob)@ + bytes@.take(k + 1));
                }
                k = k + 1;
            }
            let end = blob.len();
            proof {
                assert(bytes@.take(m as int) =~= bytes@);
            }
            Some(Node { label: name, content: NodeContent::Range(start, end) })
        },
        FsTree::UnreadableFile { name } => {
            let here = blob.len();
            proof {
                assert(blob@ =~= old(blob)@ + Seq::<u8>::empty());
            }
            Some(Node { label: name, content: NodeContent::Range(here, here) })
        },
        FsTree::Dir { name, path, entries } => {
            if contains_path(visited, &path) {
                proof {
                    assert(blob@ =~= old(blob)@ + Seq::<u8>::empty());
                    assert(vnode_seq(Seq::<Node>::empty()) =~= Seq::<GNode>::empty());
                }
                Some(Node { label: name, content: NodeContent::Subtree(Vec::new()) })
            } else {
                let children = pack_list(entries, blob, visited);
                let ghost mid = visited@;
                visited.push(path);
                proof {
                    lemma_vset_push(mid, path);
                }
                Some(Node { label: name, content: NodeContent::Subtree(children) })
            }
        },
        FsTree::UnlistableDir { name } => {
            proof {
                assert(blob@ =~= old(blob)@ + Seq::<u8>::empty());
                assert(vnode_seq(Seq::<Node>::empty()) =~= Seq::<GNode>::empty());
            }
            Some(Node { label: name, content: NodeContent::Subtree(Vec::new()) })
        },
        FsTree::Symlink { name } => {
            proof {
                assert(blob@ =~= old(blob)@ + Seq::<u8>::empty());
            }
            None
        },
    }
}

/// Packs a listing in order.
pub fn pack_list(entries: Vec<FsTree>, blob: &mut Vec<u8>, visited: &mut Vec<Vec<u8>>) -> (r: Vec<
    Node,
>)
    ensures
        ({
            let g = g_pack_list(vfs_seq(entries@), old(blob)@.len() as nat, vset(old(visited)@));
            &&& vnode_seq(r@) == g.0
            &&& final(blob)@ == old(blob)@ + g.1
            &&& vset(final(visited)@) == g.2
        }),
    decreases entries@, 1int,
{
    if entries.len() == 0 {
        proof {
            assert(blob@ =~= old(blob)@ + Seq::<u8>::empty());
            assert(vnode_seq(Seq::<Node>::empty()) =~= Seq::<GNode>::empty());
        }
        Vec::new()
    } else {
        let ghost es0 = entries@;
        let mut rem = entries;
        let head = rem.remove(0);
        proof {
            assert(head == es0[0]);
            assert(rem@ =~= es0.drop_first());
            assert(vfs_seq(es0) == seq![vfs(es0[0])] + vfs_seq(es0.drop_first()));
        }
        let n0 = pack_entry(head, blob, visited);
        let mut rest = pack_list(rem, blob, visited);
        let ghost gn0 = n0;
        let ghost grest = rest@;
        let mut out: Vec<Node> = Vec::new();
        match n0 {
            Some(node) => {
                out.push(node);
            },
            None => {},
        }
        out.append(&mut rest);
        proof {
            let g = g_pack_list(vfs_seq(es0), old(blob)@.len() as nat, vset(old(visited)@));
            let h = g_pack_entry(vfs(es0[0]), old(blob)@.len() as nat, vset(old(visited)@));
            assert(vfs_seq(es0)[0] == vfs(es0[0]));
            assert(vfs_seq(es0).drop_first() =~= vfs_seq(es0.drop_first()));
            match gn0 {
                Some(node) => {
                    assert(out@ =~= seq![node] + grest);
                    lemma_vnode_seq_index(out@);
                    lemma_vnode_seq_index(grest);
                    assert forall|q: int| 0 <= q < out@.len() implies vnode_seq(out@)[q] == (
                    opt_node(h.0) + vnode_seq(grest))[q] by {
                        if q > 0 {
                            assert(out@[q] == grest[q - 1]);
                        }
                    }
                    assert(vnode_seq(out@) =~= opt_node(h.0) + vnode_seq(grest));
                },
                None => {
                    assert(out@ =~= grest);
                    assert(vnode_seq(out@) =~= opt_node(h.0) + vnode_seq(grest));
                },
            }
            assert(final(blob)@ =~= old(blob)@ + g.1);
        }
        out
    }
}

/// Packs the top-level inputs from offset zero; fails with the first
/// missing input path.
fn pack_inputs_go(inputs: Vec<FsInput>, blob: &mut Vec<u8>, visited: &mut Vec<Vec<u8>>) -> (r:
    Result<Vec<Node>, PackError>)
    ensures
        ({
            let g = g_pack_inputs(
                vinput_seq(inputs@),
                old(blob)@.len() as nat,
                vset(old(visited)@),
            );
            match r {
                Ok(nodes) => match g {
                    Ok(t) => vnode_seq(nodes@) == t.0 && final(blob)@ == old(blob)@ + t.1 && vset(
                        final(visited)@,
                    ) == t.2,
                    Err(_) => false,
                },
                Err(PackError::MissingInput(p)) => match g {
                    Ok(_) => false,
                    Err(q) => p@ == q,
                },
            }
        }),
    decreases inputs@,
{
    if inputs.len() == 0 {
        proof {
            assert(blob@ =~= old(blob)@ + Seq::<u8>::empty());
            assert(vnode_seq(Seq::<Node>::empty()) =~= Seq::<GNode>::empty());
        }
        Ok(Vec::new())
    } else {
        let ghost ins0 = inputs@;
        let mut rem = inputs;
        let head = rem.remove(0);
        proof {
            assert(head == ins0[0]);
            assert(rem@ =~= ins0.drop_first());
            assert(vinput_seq(ins0) == seq![vinput(ins0[0])] + vinput_seq(ins0.drop_first()));
            assert(vinput_seq(ins0)[0] == vinput(ins0[0]));
            assert(vinput_seq(ins0).drop_first() =~= vinput_seq(ins0.drop_first()));
        }
        match head {
            FsInput::Missing { path } => Err(PackError::MissingInput(path)),
            FsInput::Present { tree } => {
                let n0 = pack_entry(tree, blob, visited);
                match pack_inputs_go(rem, blob, visited) {
                    Ok(rest) => {
                        let ghost h = g_pack_entry(
                            vinput_seq(ins0)[0]->Present_tree,
                            old(blob)@.len() as nat,
                            vset(old(visited)@),
                        );
                        let ghost gn0 = n0;
                        let ghost grest = rest@;
                        let mut out: Vec<Node> = Vec::new();
                        match n0 {
                            Some(node) => {
                                out.push(node);
                            },
                            None => {},
                        }
                        let mut rest2 = rest;
                        out.append(&mut rest2);
                        proof {
                            match gn0 {
                                Some(node) => {
                                    assert(out@ =~= seq![node] + grest);
                                    lemma_vnode_seq_index(out@);
                                    lemma_vnode_seq_index(grest);
                                    assert forall|q: int|
                                        0 <= q < out@.len() implies vnode_seq(out@)[q] == (opt_node(
                                        h.0,
                                    ) + vnode_seq(grest))[q] by {
                                        if q > 0 {
                                            assert(out@[q] == grest[q - 1]);
                                        }
                                    }
                                    assert(vnode_seq(out@) =~= opt_node(h.0) + vnode_seq(grest));
                                },
                                None => {
                                    assert(out@ =~= grest);
                                    assert(vnode_seq(out@) =~= opt_node(h.0) + vnode_seq(grest));
                                },
                            }
                        }
                        Ok(out)
                    },
                    Err(e) => Err(e),
                }
            },
        }
    }
}

/// Packs the ordered top-level inputs into an index model and the blob.
///
/// Succeeds exactly when no input is missing; the result is the model
/// packing `g_pack_inputs` describes, started at offset zero with no
/// directory yet visited.
pub fn pack_inputs(inputs: Vec<FsInput>) -> (r: Result<(Vec<Node>, Vec<u8>), PackError>)
    ensures
        ({
            let g = g_pack_inputs(vinput_seq(inputs@), 0, Set::empty());
            match r {
                Ok(pr) => match g {
                    Ok(t) => vnode_seq(pr.0@) == t.0 && pr.1@ == t.1,
                    Err(_) => false,
                },
                Err(PackError::MissingInput(p)) => match g {
                    Ok(_) => false,
                    Err(q) => p@ == q,
                },
            }
        }),
{
    let mut blob: Vec<u8> = Vec::new();
    let mut visited: Vec<Vec<u8>> = Vec::new();
    proof {
        assert(vset(Seq::<Vec<u8>>::empty()) =~= Set::<Seq<u8>>::empty());
    }
    match pack_inputs_go(inputs, &mut blob, &mut visited) {
        Ok(nodes) => {
            proof {
                assert(Seq::<u8>::empty() + g_pack_inputs(
                    vinput_seq(inputs@),
                    0,
                    Set::empty(),
                )->Ok_0.1 =~= g_pack_inputs(vinput_seq(inputs@), 0, Set::empty())->Ok_0.1);
            }
            Ok((nodes, blob))
        },
        Err(e) => Err(e),
    }
}

} // verus!
