//! The tree unpacker: recovers the file tree an index and blob
//! describe, as a plan of directory creations and file writes that the
//! caller carries out on the real filesystem, in order.
//!
//! Round-trip identity is proved here: packing a snapshot of regular
//! files and ordinary directories and unpacking the result yields the
//! same tree, byte for byte and name for name.

use vstd::prelude::*;

use crate::index::{GContent, GNode, Node, NodeContent, vnode, vnode_seq, lemma_vnode_seq_index};
use crate::pack::{g_pack_entry, g_pack_list, g_pack_inputs, opt_node, GFs, GInput};

verus! {

/// One recovered tree entry: what unpacking an index node yields.
#[verifier::ext_equal]
pub enum GOut {
    File { name: Seq<u8>, bytes: Seq<u8> },
    Dir { name: Seq<u8>, entries: Seq<GOut> },
}

/// Unpacking one node against the blob: nothing for `Absent`, the
/// sliced bytes for a range (or failure when the slice leaves the
/// blob), the recovered children for a subtree.
pub open spec fn g_unpack_node(n: GNode, blob: Seq<u8>) -> Option<Seq<GOut>>
    decreases n, 0int,
{
    match n.content {
        GContent::Absent => Some(Seq::empty()),
        GContent::Range(s, e) => if s <= e && e <= blob.len() {
            Some(seq![GOut::File { name: n.label, bytes: blob.subrange(s as int, e as int) }])
        } else {
            None
        },
        GContent::Subtree(children) => match g_unpack_list(children, blob) {
            Some(outs) => Some(seq![GOut::Dir { name: n.label, entries: outs }]),
            None => None,
        },
    }
}

pub open spec fn g_unpack_list(ns: Seq<GNode>, blob: Seq<u8>) -> Option<Seq<GOut>>
    decreases ns, 1int,
{
    if ns.len() == 0 {
        Some(Seq::empty())
    } else {
        match g_unpack_node(ns[0], blob) {
            Some(h) => match g_unpack_list(ns.drop_first(), blob) {
                Some(t) => Some(h + t),
                None => None,
            },
            None => None,
        }
    }
}

/// Unpacking a concatenation is unpacking the parts.
pub proof fn lemma_unpack_append(a: Seq<GNode>, b: Seq<GNode>, blob: Seq<u8>)
    ensures
        match (g_unpack_list(a, blob), g_unpack_list(b, blob)) {
            (Some(x), Some(y)) => g_unpack_list(a + b, blob) == Some(x + y),
            _ => g_unpack_list(a + b, blob) is None,
        },
    decreases a,
{
    if a.len() == 0 {
        assert(a + b =~= b);
        match g_unpack_list(b, blob) {
            Some(y) => {
                assert(Seq::<GOut>::empty() + y =~= y);
            },
            None => {},
        }
    } else {
        lemma_unpack_append(a.drop_first(), b, blob);
        assert((a + b)[0] == a[0]);
        assert((a + b).drop_first() =~= a.drop_first() + b);
        match (g_unpack_node(a[0], blob), g_unpack_list(a.drop_first(), blob), g_unpack_list(
            b,
            blob,
        )) {
            (Some(h), Some(x), Some(y)) => {
                assert(h + (x + y) =~= (h + x) + y);
            },
            _ => {},
        }
    }
}

/// The tree a plain snapshot should unpack to: files with their bytes,
/// directories with their entries, nothing for a symlink, an empty
/// range or subtree for what degraded.
pub open spec fn shape(e: GFs) -> Seq<GOut>
    decreases e, 0int,
{
    match e {
        GFs::File { name, bytes } => seq![GOut::File { name, bytes }],
        GFs::UnreadableFile { name } => seq![GOut::File { name, bytes: Seq::empty() }],
        GFs::Dir { name, path, entries } => seq![
            GOut::Dir { name, entries: shape_list(entries) },
        ],
        GFs::UnlistableDir { name } => seq![GOut::Dir { name, entries: Seq::empty() }],
        GFs::Symlink { name } => Seq::empty(),
    }
}

pub open spec fn shape_list(es: Seq<GFs>) -> Seq<GOut>
    decreases es, 1int,
{
    if es.len() == 0 {
        Seq::empty()
    } else {
        shape(es[0]) + shape_list(es.drop_first())
    }
}

/// A snapshot of regular files and ordinary directories only.
pub open spec fn plain(e: GFs) -> bool
    decreases e, 0int,
{
    match e {
        GFs::File { .. } => true,
        GFs::Dir { entries, .. } => plain_list(entries),
        _ => false,
    }
}

pub open spec fn plain_list(es: Seq<GFs>) -> bool
    decreases es, 1int,
{
    forall|i: int| 0 <= i < es.len() ==> plain(#[trigger] es[i])
}

/// Every directory path in a snapshot, children before the directory
/// itself, in visitation-completion order.
pub open spec fn dir_paths(e: GFs) -> Seq<Seq<u8>>
    decreases e, 0int,
{
    match e {
        GFs::Dir { path, entries, .. } => dir_paths_list(entries).push(path),
        _ => Seq::empty(),
    }
}

pub open spec fn dir_paths_list(es: Seq<GFs>) -> Seq<Seq<u8>>
    decreases es, 1int,
{
    if es.len() == 0 {
        Seq::empty()
    } else {
        dir_paths(es[0]) + dir_paths_list(es.drop_first())
    }
}

/// Round trip, entry form: packing one plain entry whose directory
/// paths are distinct and unvisited, then unpacking its node against
/// any blob that carries the packed bytes at the packed offsets, gives
/// the entry's own shape; and the visited set afterwards is the old one
/// plus exactly the entry's directory paths.
pub proof fn lemma_rt_pack_entry(e: GFs, off: nat, vis: Set<Seq<u8>>, blob_full: Seq<u8>)
    requires
        plain(e),
        dir_paths(e).no_duplicates(),
        forall|p: Seq<u8>| dir_paths(e).contains(p) ==> !vis.contains(p),
        off + g_pack_entry(e, off, vis).1.len() <= blob_full.len(),
        blob_full.subrange(off as int, (off + g_pack_entry(e, off, vis).1.len()) as int)
            == g_pack_entry(e, off, vis).1,
    ensures
        ({
            let h = g_pack_entry(e, off, vis);
            &&& h.0 is Some
            &&& g_unpack_node(h.0->0, blob_full) == Some(shape(e))
            &&& h.2 =~= vis + dir_paths(e).to_set()
        }),
    decreases e, 0int,
{
    let h = g_pack_entry(e, off, vis);
    match e {
        GFs::File { name, bytes } => {
            assert(h.1 == bytes);
            assert(blob_full.subrange(off as int, (off + bytes.len()) as int) == bytes);
            assert(g_unpack_node(h.0->0, blob_full) == Some(
                seq![GOut::File { name, bytes }],
            ));
            assert forall|p: Seq<u8>| #[trigger]
                (vis + dir_paths(e).to_set()).contains(p) implies vis.contains(p) by {
                if dir_paths(e).to_set().contains(p) {
                    assert(dir_paths(e).contains(p));
                }
            }
            assert(h.2 =~= vis + dir_paths(e).to_set());
        },
        GFs::Dir { name, path, entries } => {
            let dps = dir_paths(e);
            assert(dps == dir_paths_list(entries).push(path));
            assert(dps[dps.len() - 1] == path);
            assert(dps.contains(path));
            assert(!vis.contains(path));
            let t = g_pack_list(entries, off, vis);
            assert(h.0 == Some(GNode { label: name, content: GContent::Subtree(t.0) }));
            assert forall|i: int|
                0 <= i < dir_paths_list(entries).len() implies #[trigger] dir_paths_list(
                entries,
            )[i] == dps[i] by {}
            assert forall|p: Seq<u8>| #[trigger]
                dir_paths_list(entries).contains(p) implies dps.contains(p) by {
                let i = choose|i: int|
                    0 <= i < dir_paths_list(entries).len() && dir_paths_list(entries)[i] == p;
                assert(dps[i] == p);
            }
            assert forall|i: int, j: int|
                0 <= i < dir_paths_list(entries).len() && 0 <= j < dir_paths_list(entries).len()
                    && i != j implies dir_paths_list(entries)[i] != dir_paths_list(
                entries,
            )[j] by {
                assert(dps[i] == dir_paths_list(entries)[i]);
                assert(dps[j] == dir_paths_list(entries)[j]);
            }
            lemma_rt_pack_list(entries, off, vis, blob_full);
            assert(g_unpack_list(t.0, blob_full) == Some(shape_list(entries)));
            assert(g_unpack_node(h.0->0, blob_full) == Some(
                seq![GOut::Dir { name, entries: shape_list(entries) }],
            ));
            assert(h.2 == t.2.insert(path));
            assert forall|p: Seq<u8>| #[trigger] h.2.contains(p) implies (vis
                + dps.to_set()).contains(p) by {
                if p == path {
                    assert(dps.contains(path));
                } else {
                    assert(t.2.contains(p));
                    if !vis.contains(p) {
                        assert(dir_paths_list(entries).to_set().contains(p));
                        assert(dir_paths_list(entries).contains(p));
                        assert(dps.contains(p));
                    }
                }
            }
            assert forall|p: Seq<u8>| #[trigger] (vis + dps.to_set()).contains(p) implies
                h.2.contains(p) by {
                if vis.contains(p) {
                    assert(t.2.contains(p));
                } else {
                    assert(dps.contains(p));
                    let i = choose|i: int| 0 <= i < dps.len() && dps[i] == p;
                    if i < dps.len() - 1 {
                        assert(dir_paths_list(entries)[i] == p);
                        assert(dir_paths_list(entries).contains(p));
                        assert(dir_paths_list(entries).to_set().contains(p));
                        assert(t.2.contains(p));
                    } else {
                        assert(p == path);
                    }
                }
            }
            assert(h.2 =~= vis + dps.to_set());
        },
        _ => {},
    }
}

/// Round trip, listing form.
pub proof fn lemma_rt_pack_list(es: Seq<GFs>, off: nat, vis: Set<Seq<u8>>, blob_full: Seq<u8>)
    requires
        plain_list(es),
        dir_paths_list(es).no_duplicates(),
        forall|p: Seq<u8>| dir_paths_list(es).contains(p) ==> !vis.contains(p),
        off + g_pack_list(es, off, vis).1.len() <= blob_full.len(),
        blob_full.subrange(off as int, (off + g_pack_list(es, off, vis).1.len()) as int)
            == g_pack_list(es, off, vis).1,
    ensures
        ({
            let t = g_pack_list(es, off, vis);
            &&& g_unpack_list(t.0, blob_full) == Some(shape_list(es))
            &&& t.2 =~= vis + dir_paths_list(es).to_set()
        }),
    decreases es, 1int,
{
    let t = g_pack_list(es, off, vis);
    if es.len() == 0 {
        assert(g_unpack_list(t.0, blob_full) == Some(Seq::<GOut>::empty()));
        assert forall|p: Seq<u8>| #[trigger]
            (vis + dir_paths_list(es).to_set()).contains(p) implies vis.contains(p) by {
            if dir_paths_list(es).to_set().contains(p) {
                assert(dir_paths_list(es).contains(p));
            }
        }
        assert(t.2 =~= vis + dir_paths_list(es).to_set());
    } else {
        let head = es[0];
        let rest = es.drop_first();
        let h = g_pack_entry(head, off, vis);
        let tt = g_pack_list(rest, off + h.1.len(), h.2);
        let dh = dir_paths(head);
        let dt = dir_paths_list(rest);
        let dps = dir_paths_list(es);
        assert(dps == dh + dt);
        assert forall|p: Seq<u8>| #[trigger] dh.contains(p) implies dps.contains(p) by {
            let i = choose|i: int| 0 <= i < dh.len() && dh[i] == p;
            assert(dps[i] == p);
        }
        assert forall|p: Seq<u8>| #[trigger] dt.contains(p) implies dps.contains(p) by {
            let i = choose|i: int| 0 <= i < dt.len() && dt[i] == p;
            assert(dps[dh.len() + i] == p);
        }
        assert(dh.no_duplicates()) by {
            assert forall|i: int, j: int|
                0 <= i < dh.len() && 0 <= j < dh.len() && i != j implies dh[i] != dh[j] by {
                assert(dps[i] == dh[i]);
                assert(dps[j] == dh[j]);
            }
        }
        assert(dt.no_duplicates()) by {
            assert forall|i: int, j: int|
                0 <= i < dt.len() && 0 <= j < dt.len() && i != j implies dt[i] != dt[j] by {
                assert(dps[dh.len() + i] == dt[i]);
                assert(dps[dh.len() + j] == dt[j]);
            }
        }
        // the two windows of the full blob
        assert(t.1 == h.1 + tt.1);
        assert forall|k: int| 0 <= k < h.1.len() implies blob_full[off + k] == #[trigger] h.1[k] by {
            assert(blob_full.subrange(off as int, (off + t.1.len()) as int)[k] == blob_full[off
                + k]);
            assert((h.1 + tt.1)[k] == h.1[k]);
        }
        assert(blob_full.subrange(off as int, (off + h.1.len()) as int) =~= h.1);
        assert forall|k: int| 0 <= k < tt.1.len() implies blob_full[off + h.1.len() + k]
            == #[trigger] tt.1[k] by {
            assert(blob_full.subrange(off as int, (off + t.1.len()) as int)[h.1.len() + k]
                == blob_full[off + h.1.len() + k]);
            assert((h.1 + tt.1)[h.1.len() + k] == tt.1[k]);
        }
        assert(blob_full.subrange(
            (off + h.1.len()) as int,
            (off + h.1.len() + tt.1.len()) as int,
        ) =~= tt.1);
        assert(plain(head));
        lemma_rt_pack_entry(head, off, vis, blob_full);
        assert(h.2 =~= vis + dh.to_set());
        assert forall|p: Seq<u8>| dt.contains(p) implies !h.2.contains(p) by {
            assert(dps.contains(p));
            assert(!vis.contains(p));
            if dh.to_set().contains(p) {
                assert(dh.contains(p));
                let i = choose|i: int| 0 <= i < dh.len() && dh[i] == p;
                let j = choose|j: int| 0 <= j < dt.len() && dt[j] == p;
                assert(dps[i] == p);
                assert(dps[dh.len() + j] == p);
            }
        }
        assert(plain_list(rest)) by {
            assert forall|i: int| 0 <= i < rest.len() implies plain(#[trigger] rest[i]) by {
                assert(rest[i] == es[i + 1]);
            }
        }
        lemma_rt_pack_list(rest, off + h.1.len(), h.2, blob_full);
        assert(g_unpack_list(tt.0, blob_full) == Some(shape_list(rest)));
        assert(t.0 == opt_node(h.0) + tt.0);
        assert(opt_node(h.0) =~= seq![h.0->0]);
        assert(g_unpack_list(seq![h.0->0], blob_full) == Some(shape(head))) by {
            assert(seq![h.0->0][0] == h.0->0);
            assert(seq![h.0->0].drop_first() =~= Seq::<GNode>::empty());
            assert(g_unpack_list(Seq::<GNode>::empty(), blob_full) == Some(
                Seq::<GOut>::empty(),
            ));
            assert(shape(head) + Seq::<GOut>::empty() =~= shape(head));
        }
        lemma_unpack_append(seq![h.0->0], tt.0, blob_full);
        assert(g_unpack_list(t.0, blob_full) == Some(shape(head) + shape_list(rest)));
        assert(shape_list(es) == shape(head) + shape_list(rest));
        // visited set: union through both halves
        assert(tt.2 =~= h.2 + dt.to_set());
        assert forall|p: Seq<u8>| #[trigger] tt.2.contains(p) implies (vis
            + dps.to_set()).contains(p) by {
            if h.2.contains(p) {
                if !vis.contains(p) {
                    assert(dh.to_set().contains(p));
                    assert(dh.contains(p));
                    assert(dps.contains(p));
                }
            } else {
                assert(dt.to_set().contains(p));
                assert(dt.contains(p));
                assert(dps.contains(p));
            }
        }
        assert forall|p: Seq<u8>| #[trigger] (vis + dps.to_set()).contains(p) implies tt.2.contains(
            p,
        ) by {
            if vis.contains(p) {
                assert(h.2.contains(p));
            } else {
                assert(dps.contains(p));
                let i = choose|i: int| 0 <= i < dps.len() && dps[i] == p;
                if i < dh.len() {
                    assert(dh[i] == p);
                    assert(dh.contains(p));
                    assert(h.2.contains(p));
                } else {
                    assert(dt[i - dh.len()] == p);
                    assert(dt.contains(p));
                    assert(dt.to_set().contains(p));
                }
            }
        }
        assert(t.2 =~= vis + dps.to_set());
    }
}

/// Round-trip identity: packing a forest of regular files and ordinary
/// directories (no symlinks, nothing degraded, every directory path
/// distinct) from offset zero and unpacking the resulting index against
/// the resulting blob recovers the forest exactly.
pub proof fn lemma_round_trip(es: Seq<GFs>)
    requires
        plain_list(es),
        dir_paths_list(es).no_duplicates(),
    ensures
        ({
            let t = g_pack_list(es, 0, Set::empty());
            g_unpack_list(t.0, t.1) == Some(shape_list(es))
        }),
{
    let t = g_pack_list(es, 0, Set::empty());
    assert(t.1.subrange(0, t.1.len() as int) =~= t.1);
    lemma_rt_pack_list(es, 0, Set::empty(), t.1);
}

/// Round-trip identity at the packer's own interface: when every
/// top-level input exists, holds only regular files and ordinary
/// directories, and no directory path repeats, packing succeeds and
/// unpacking the packed index against the packed blob recovers exactly
/// the input forest.
pub proof fn lemma_round_trip_inputs(ins: Seq<GInput>)
    requires
        forall|i: int| 0 <= i < ins.len() ==> (#[trigger] ins[i]) is Present,
        plain_list(trees_of(ins)),
        dir_paths_list(trees_of(ins)).no_duplicates(),
    ensures
        match g_pack_inputs(ins, 0, Set::empty()) {
            Ok(t) => g_unpack_list(t.0, t.1) == Some(shape_list(trees_of(ins))),
            Err(_) => false,
        },
{
    lemma_pack_inputs_present(ins, 0, Set::empty());
    lemma_round_trip(trees_of(ins));
}

/// Packing all-present inputs is packing their trees.
pub proof fn lemma_pack_inputs_present(ins: Seq<GInput>, off: nat, vis: Set<Seq<u8>>)
    requires
        forall|i: int| 0 <= i < ins.len() ==> (#[trigger] ins[i]) is Present,
    ensures
        ({
            let t = g_pack_list(trees_of(ins), off, vis);
            g_pack_inputs(ins, off, vis) == Ok::<_, Seq<u8>>((t.0, t.1, t.2))
        }),
    decreases ins,
{
    if ins.len() == 0 {
        assert(trees_of(ins).len() == 0);
    } else {
        assert(ins[0] is Present);
        let h = g_pack_entry(ins[0]->Present_tree, off, vis);
        assert forall|i: int|
            0 <= i < ins.drop_first().len() implies (#[trigger] ins.drop_first()[i])
            is Present by {
            assert(ins.drop_first()[i] == ins[i + 1]);
        }
        lemma_pack_inputs_present(ins.drop_first(), off + h.1.len(), h.2);
        assert(trees_of(ins)[0] == ins[0]->Present_tree);
        assert(trees_of(ins).drop_first() =~= trees_of(ins.drop_first()));
    }
}

/// The trees inside a run of present inputs.
pub open spec fn trees_of(ins: Seq<GInput>) -> Seq<GFs>
    decreases ins,
{
    if ins.len() == 0 {
        Seq::empty()
    } else {
        match ins[0] {
            GInput::Present { tree } => seq![tree] + trees_of(ins.drop_first()),
            GInput::Missing { .. } => trees_of(ins.drop_first()),
        }
    }
}

/// One step of carrying an unpacked tree onto the filesystem.
#[derive(Debug, Clone, PartialEq, Eq)]
pub enum ExtractAction {
    /// Ensure a directory exists at this path.
    MakeDir(Vec<u8>),
    /// Create or truncate the file at this path with these bytes.
    WriteFile(Vec<u8>, Vec<u8>),
}

/// Why extraction planning failed.
#[derive(Debug, Clone, PartialEq, Eq)]
pub enum UnpackError {
    /// A range slice leaves the blob: the archive is corrupt. Carries
    /// the label of the offending node.
    CorruptSlice(Vec<u8>),
}

/// The mathematical extraction step.
#[verifier::ext_equal]
pub enum GAction {
    MakeDir(Seq<u8>),
    WriteFile(Seq<u8>, Seq<u8>),
}

/// A path joined with one more component, separated by a slash.
pub open spec fn join(base: Seq<u8>, name: Seq<u8>) -> Seq<u8> {
    base + seq![47u8] + name
}

pub open spec fn vaction(a: ExtractAction) -> GAction {
    match a {
        ExtractAction::MakeDir(p) => GAction::MakeDir(p@),
        ExtractAction::WriteFile(p, b) => GAction::WriteFile(p@, b@),
    }
}

pub open spec fn vaction_seq(s: Seq<ExtractAction>) -> Seq<GAction>
    decreases s,
{
    if s.len() == 0 {
        Seq::empty()
    } else {
        seq![vaction(s[0])] + vaction_seq(s.drop_first())
    }
}

pub proof fn lemma_vaction_seq_index(s: Seq<ExtractAction>)
    ensures
        vaction_seq(s).len() == s.len(),
        forall|i: int| 0 <= i < s.len() ==> vaction_seq(s)[i] == vaction(#[trigger] s[i]),
    decreases s,
{
    if s.len() > 0 {
        lemma_vaction_seq_index(s.drop_first());
        assert forall|i: int| 0 <= i < s.len() implies vaction_seq(s)[i] == vaction(
            #[trigger] s[i],
        ) by {
            if i > 0 {
                assert(s.drop_first()[i - 1] == s[i]);
                assert(vaction_seq(s)[i] == vaction_seq(s.drop_first())[i - 1]);
            }
        }
    }
}

proof fn lemma_vaction_seq_push(s: Seq<ExtractAction>, a: ExtractAction)
    ensures
        vaction_seq(s.push(a)) =~= vaction_seq(s).push(vaction(a)),
{
    lemma_vaction_seq_index(s);
    lemma_vaction_seq_index(s.push(a));
    assert forall|i: int| 0 <= i < s.len() + 1 implies vaction_seq(s.push(a))[i] == vaction_seq(
        s,
    ).push(vaction(a))[i] by {
        if i < s.len() {
            assert(s.push(a)[i] == s[i]);
        } else {
            assert(s.push(a)[i] == a);
        }
    }
}

/// The actions that carry one recovered entry under `base`: a file is
/// one write; a directory is its own creation, then its entries under
/// its path, in order.
pub open spec fn out_action_one(o: GOut, base: Seq<u8>) -> Seq<GAction>
    decreases o, 0int,
{
    match o {
        GOut::File { name, bytes } => seq![GAction::WriteFile(join(base, name), bytes)],
        GOut::Dir { name, entries } => seq![GAction::MakeDir(join(base, name))] + out_actions(
            entries,
            join(base, name),
        ),
    }
}

pub open spec fn out_actions(outs: Seq<GOut>, base: Seq<u8>) -> Seq<GAction>
    decreases outs, 1int,
{
    if outs.len() == 0 {
        Seq::empty()
    } else {
        out_action_one(outs[0], base) + out_actions(outs.drop_first(), base)
    }
}

pub proof fn lemma_out_actions_append(x: Seq<GOut>, y: Seq<GOut>, base: Seq<u8>)
    ensures
        out_actions(x + y, base) =~= out_actions(x, base) + out_actions(y, base),
    decreases x,
{
    if x.len() == 0 {
        assert(x + y =~= y);
        assert(out_actions(x, base) =~= Seq::<GAction>::empty());
    } else {
        lemma_out_actions_append(x.drop_first(), y, base);
        assert((x + y)[0] == x[0]);
        assert((x + y).drop_first() =~= x.drop_first() + y);
        assert(out_actions(x + y, base) =~= out_action_one(x[0], base) + out_actions(
            (x + y).drop_first(),
            base,
        ));
    }
}

/// The whole extraction plan: ensure the destination root exists, then
/// carry each recovered top-level entry under it. Fails exactly when
/// some range leaves the blob.
pub open spec fn g_plan(ns: Seq<GNode>, blob: Seq<u8>, base: Seq<u8>) -> Option<Seq<GAction>> {
    match g_unpack_list(ns, blob) {
        Some(outs) => Some(seq![GAction::MakeDir(base)] + out_actions(outs, base)),
        None => None,
    }
}

/// A fresh copy of a byte vector.
pub fn copy_bytes(src: &Vec<u8>) -> (r: Vec<u8>)
    ensures
        r@ == src@,
{
    let n = src.len();
    let mut out: Vec<u8> = Vec::new();
    let mut i: usize = 0;
    while i < n
        invariant
            i <= n,
            n == src@.len(),
            out@ == src@.take(i as int),
        decreases n - i,
    {
        out.push(src[i]);
        proof {
            assert(src@.take(i + 1) =~= src@.take(i as int).push(src@[i as int]));
        }
        i = i + 1;
    }
    proof {
        assert(src@.take(n as int) =~= src@);
    }
    out
}

/// `base`, a slash, `name`.
fn join_path(base: &Vec<u8>, name: &Vec<u8>) -> (r: Vec<u8>)
    ensures
        r@ == join(base@, name@),
{
    let mut out = copy_bytes(base);
    out.push(47);
    let n = name.len();
    let mut i: usize = 0;
    while i < n
        invariant
            i <= n,
            n == name@.len(),
            out@ == base@ + seq![47u8] + name@.take(i as int),
        decreases n - i,
    {
        out.push(name[i]);
        proof {
            assert(name@.take(i + 1) =~= name@.take(i as int).push(name@[i as int]));
            assert(out@ =~= base@ + seq![47u8] + name@.take(i + 1));
        }
        i = i + 1;
    }
    proof {
        assert(name@.take(n as int) =~= name@);
    }
    out
}

/// Plans one node's extraction under `base`, appending to `out`.
fn plan_node(node: &Node, blob: &Vec<u8>, base: &Vec<u8>, out: &mut Vec<ExtractAction>) -> (r:
    Result<(), UnpackError>)
    ensures
        match r {
            Ok(r_ok) => match g_unpack_node(vnode(*node), blob@) {
                Some(outs) => vaction_seq(final(out)@) == vaction_seq(old(out)@) + out_actions(
                    outs,
                    base@,
                ),
                None => false,
            },
            Err(_) => g_unpack_node(vnode(*node), blob@) is None,
        },
    decreases *node, 0int,
{
    match &node.content {
        NodeContent::Absent => {
            proof {
                assert(g_unpack_node(vnode(*node), blob@) == Some(Seq::<GOut>::empty()));
                assert(out_actions(Seq::<GOut>::empty(), base@) =~= Seq::<GAction>::empty());
                assert(vaction_seq(out@) =~= vaction_seq(old(out)@) + Seq::<GAction>::empty());
            }
            Ok(())
        },
        NodeContent::Range(s, e) => {
            let s = *s;
            let e = *e;
            if s <= e && e <= blob.len() {
                let mut bytes: Vec<u8> = Vec::new();
                let mut k = s;
                while k < e
                    invariant
                        s <= k <= e,
                        e <= blob@.len(),
                        bytes@ == blob@.subrange(s as int, k as int),
                    decreases e - k,
                {
                    bytes.push(blob[k]);
                    proof {
                        assert(blob@.subrange(s as int, k + 1) =~= blob@.subrange(
                            s as int,
                            k as int,
                        ).push(blob@[k as int]));
                    }
                    k = k + 1;
                }
                let dest = join_path(base, &node.label);
                let ghost before = out@;
                out.push(ExtractAction::WriteFile(dest, bytes));
                proof {
                    let gout = GOut::File {
                        name: node.label@,
                        bytes: blob@.subrange(s as int, e as int),
                    };
                    assert(g_unpack_node(vnode(*node), blob@) == Some(seq![gout]));
                    lemma_vaction_seq_push(before, out@.last());
                    assert(seq![gout].drop_first() =~= Seq::<GOut>::empty());
                    assert(seq![gout][0] == gout);
                    assert(out_actions(Seq::<GOut>::empty(), base@) =~= Seq::<GAction>::empty());
                    assert(out_actions(seq![gout], base@) == out_action_one(seq![gout][0], base@)
                        + out_actions(seq![gout].drop_first(), base@));
                    assert(out_actions(seq![gout], base@) =~= seq![
                        GAction::WriteFile(join(base@, node.label@), blob@.subrange(
                            s as int,
                            e as int,
                        )),
                    ]);
                    assert(vaction_seq(out@) =~= vaction_seq(old(out)@) + out_actions(
                        seq![gout],
                        base@,
                    ));
                }
                Ok(())
            } else {
                Err(UnpackError::CorruptSlice(copy_bytes(&node.label)))
            }
        },
        NodeContent::Subtree(children) => {
            let dir = join_path(base, &node.label);
            let ghost before = out@;
            let marker = join_path(base, &node.label);
            out.push(ExtractAction::MakeDir(marker));
            proof {
                lemma_vaction_seq_push(before, out@.last());
            }
            let ghost mid = out@;
            match plan_list(children, blob, &dir, out) {
                Ok(_) => {
                    proof {
                        match g_unpack_list(vnode_seq(children@), blob@) {
                            Some(entries) => {
                                let gout = GOut::Dir { name: node.label@, entries };
                                assert(g_unpack_node(vnode(*node), blob@) == Some(seq![gout]));
                                assert(seq![gout].drop_first() =~= Seq::<GOut>::empty());
                                assert(seq![gout][0] == gout);
                                assert(out_actions(Seq::<GOut>::empty(), base@)
                                    =~= Seq::<GAction>::empty());
                                assert(out_actions(seq![gout], base@) == out_action_one(
                                    seq![gout][0],
                                    base@,
                                ) + out_actions(seq![gout].drop_first(), base@));
                                assert(out_actions(seq![gout], base@) =~= out_action_one(
                                    gout,
                                    base@,
                                ));
                                assert(vaction_seq(out@) =~= vaction_seq(old(out)@) + out_actions(
                                    seq![gout],
                                    base@,
                                ));
                            },
                            None => {},
                        }
                    }
                    Ok(())
                },
                Err(err) => {
                    proof {
                        assert(g_unpack_node(vnode(*node), blob@) is None);
                    }
                    Err(err)
                },
            }
        },
    }
}

/// Plans a node sequence's extraction under `base`, appending to
/// `out`, in index order.
fn plan_list(nodes: &Vec<Node>, blob: &Vec<u8>, base: &Vec<u8>, out: &mut Vec<ExtractAction>) -> (r:
    Result<(), UnpackError>)
    ensures
        match r {
            Ok(r_ok) => match g_unpack_list(vnode_seq(nodes@), blob@) {
                Some(outs) => vaction_seq(final(out)@) == vaction_seq(old(out)@) + out_actions(
                    outs,
                    base@,
                ),
                None => false,
            },
            Err(_) => g_unpack_list(vnode_seq(nodes@), blob@) is None,
        },
    decreases nodes@, 1int,
{
    let n = nodes.len();
    proof {
        lemma_vnode_seq_index(nodes@);
    }
    let mut i: usize = 0;
    while i < n
        invariant
            i <= n,
            n == nodes@.len(),
            vnode_seq(nodes@).len() == n,
            forall|j: int| 0 <= j < n ==> vnode_seq(nodes@)[j] == vnode(#[trigger] nodes@[j]),
            match g_unpack_list(vnode_seq(nodes@).take(i as int), blob@) {
                Some(outs) => vaction_seq(out@) == vaction_seq(old(out)@) + out_actions(
                    outs,
                    base@,
                ),
                None => false,
            },
        decreases n - i,
    {
        let gs = Ghost(vnode_seq(nodes@));
        match plan_node(&nodes[i], blob, base, out) {
            Ok(_) => {},
            Err(err) => {
                proof {
                    let full = gs@;
                    assert(g_unpack_node(full[i as int], blob@) is None);
                    lemma_unpack_suffix_fail(full, i as int, blob@);
                }
                return Err(err);
            },
        }
        proof {
            let full = gs@;
            assert(full.take(i + 1) =~= full.take(i as int) + seq![full[i as int]]);
            lemma_unpack_append(full.take(i as int), seq![full[i as int]], blob@);
            assert(seq![full[i as int]].drop_first() =~= Seq::<GNode>::empty());
            match g_unpack_node(full[i as int], blob@) {
                Some(h) => {
                    assert(h + Seq::<GOut>::empty() =~= h);
                    assert(seq![full[i as int]][0] == full[i as int]);
                    assert(g_unpack_list(Seq::<GNode>::empty(), blob@) == Some(
                        Seq::<GOut>::empty(),
                    ));
                    assert(g_unpack_list(seq![full[i as int]], blob@) == Some(h));
                    match g_unpack_list(full.take(i as int), blob@) {
                        Some(prev) => {
                            lemma_out_actions_append(prev, h, base@);
                            assert(g_unpack_list(full.take(i + 1), blob@) == Some(prev + h));
                        },
                        None => {},
                    }
                },
                None => {},
            }
        }
        i = i + 1;
    }
    proof {
        assert(vnode_seq(nodes@).take(n as int) =~= vnode_seq(nodes@));
    }
    Ok(())
}

/// If one node fails to unpack, the whole sequence does.
proof fn lemma_unpack_suffix_fail(ns: Seq<GNode>, i: int, blob: Seq<u8>)
    requires
        0 <= i < ns.len(),
        g_unpack_node(ns[i], blob) is None,
    ensures
        g_unpack_list(ns, blob) is None,
    decreases ns,
{
    if ns.len() > 0 {
        if i == 0 {
        } else {
            assert(ns.drop_first()[i - 1] == ns[i]);
            lemma_unpack_suffix_fail(ns.drop_first(), i - 1, blob);
        }
    }
}

/// Plans the whole extraction of an index against its blob into the
/// destination root: ensure the root directory exists, then create
/// each directory and write each file, depth first, in index order.
/// Fails exactly when some range of the index leaves the blob.
pub fn plan_extraction(nodes: &Vec<Node>, blob: &Vec<u8>, dest: &Vec<u8>) -> (r: Result<
    Vec<ExtractAction>,
    UnpackError,
>)
    ensures
        match r {
            Ok(acts) => g_plan(vnode_seq(nodes@), blob@, dest@) == Some(vaction_seq(acts@)),
            Err(_) => g_plan(vnode_seq(nodes@), blob@, dest@) is None,
        },
{
    let mut out: Vec<ExtractAction> = Vec::new();
    let root = copy_bytes(dest);
    out.push(ExtractAction::MakeDir(root));
    proof {
        assert(out@.drop_first() =~= Seq::<ExtractAction>::empty());
        assert(vaction_seq(Seq::<ExtractAction>::empty()) =~= Seq::<GAction>::empty());
        assert(vaction_seq(out@) == seq![vaction(out@[0])] + vaction_seq(out@.drop_first()));
        assert(vaction(out@[0]) == GAction::MakeDir(dest@));
        assert(vaction_seq(out@) =~= seq![GAction::MakeDir(dest@)]);
    }
    let ghost start = out@;
    match plan_list(nodes, blob, dest, &mut out) {
        Ok(_) => {
            proof {
                match g_unpack_list(vnode_seq(nodes@), blob@) {
                    Some(outs) => {
                        assert(vaction_seq(out@) =~= seq![GAction::MakeDir(dest@)] + out_actions(
                            outs,
                            dest@,
                        ));
                    },
                    None => {},
                }
            }
            Ok(out)
        },
        Err(err) => Err(err),
    }
}

} // verus!
