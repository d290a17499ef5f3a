//! The archive's textual index encoding and its decimal length header.
//!
//! The index is written as a label/content tree: `{` pairs `}` where each
//! pair is a quoted label, a colon, and a content that is either `null`
//! (absent), `[start,end]` (a file's byte range), or a nested tree (a
//! directory). Quotes and backslashes inside labels are escaped with a
//! backslash. The whole archive is the decimal digits of the index text's
//! byte length, the index text itself (whose first byte is always `{`),
//! then the blob.

use vstd::prelude::*;

use crate::index::{GContent, GNode, Node, NodeContent, vnode, vnode_seq};
use crate::index::lemma_vnode_seq_index;

verus! {

pub const LBRACE: u8 = 123;

pub const RBRACE: u8 = 125;

pub const LBRACK: u8 = 91;

pub const RBRACK: u8 = 93;

pub const QUOTE: u8 = 34;

pub const COLON: u8 = 58;

pub const COMMA: u8 = 44;

pub const BACKSLASH: u8 = 92;

pub open spec fn is_digit(b: u8) -> bool {
    48 <= b <= 57
}

/// The minimal decimal digit string of `n`, most significant digit first.
pub open spec fn dec_digits(n: nat) -> Seq<u8>
    decreases n,
{
    if n < 10 {
        seq![(48 + n) as u8]
    } else {
        dec_digits(n / 10).push((48 + n % 10) as u8)
    }
}

/// The numeric value of a digit string, most significant digit first.
pub open spec fn digits_val(s: Seq<u8>) -> nat
    decreases s,
{
    if s.len() == 0 {
        0
    } else {
        (digits_val(s.drop_last()) * 10 + (s.last() - 48)) as nat
    }
}

/// One label byte as written: quotes and backslashes get a backslash.
pub open spec fn esc_byte(b: u8) -> Seq<u8> {
    if b == QUOTE || b == BACKSLASH {
        seq![BACKSLASH, b]
    } else {
        seq![b]
    }
}

/// A label as written between its quotes.
pub open spec fn esc(s: Seq<u8>) -> Seq<u8>
    decreases s,
{
    if s.len() == 0 {
        Seq::empty()
    } else {
        esc_byte(s[0]) + esc(s.drop_first())
    }
}

/// The index text of a node sequence: `{` pairs `}`.
pub open spec fn enc_nodes(ns: Seq<GNode>) -> Seq<u8>
    decreases ns, 1int,
{
    seq![LBRACE] + enc_pairs(ns) + seq![RBRACE]
}

/// The pairs of a node sequence, separated by commas.
pub open spec fn enc_pairs(ns: Seq<GNode>) -> Seq<u8>
    decreases ns, 0int,
{
    if ns.len() == 0 {
        Seq::empty()
    } else if ns.len() == 1 {
        enc_pair(ns[0])
    } else {
        enc_pair(ns[0]) + seq![COMMA] + enc_pairs(ns.drop_first())
    }
}

/// One pair: the quoted, escaped label, a colon, and the content.
pub open spec fn enc_pair(n: GNode) -> Seq<u8>
    decreases n, 0int,
{
    seq![QUOTE] + esc(n.label) + seq![QUOTE, COLON] + enc_content(n.content)
}

/// One content: `null`, `[start,end]`, or a nested tree.
pub open spec fn enc_content(c: GContent) -> Seq<u8>
    decreases c, 2int,
{
    match c {
        GContent::Absent => seq![110u8, 117u8, 108u8, 108u8],
        GContent::Range(s, e) => seq![LBRACK] + dec_digits(s) + seq![COMMA] + dec_digits(e)
            + seq![RBRACK],
        GContent::Subtree(children) => enc_nodes(children),
    }
}

/// A whole archive: the index text's length in decimal, the index text,
/// then the blob.
pub open spec fn enc_archive(ns: Seq<GNode>, blob: Seq<u8>) -> Seq<u8> {
    dec_digits(enc_nodes(ns).len()) + enc_nodes(ns) + blob
}

/// Whether every range in a content fits the machine's word size, so
/// that parsing can return it. Views of executable nodes always do.
pub open spec fn bounded_gcontent(c: GContent) -> bool
    decreases c,
{
    match c {
        GContent::Absent => true,
        GContent::Range(s, e) => s <= usize::MAX && e <= usize::MAX,
        GContent::Subtree(children) => bounded_gnodes(children),
    }
}

pub open spec fn bounded_gnodes(ns: Seq<GNode>) -> bool
    decreases ns,
{
    forall|i: int| 0 <= i < ns.len() ==> bounded_gcontent(#[trigger] ns[i].content)
}

/// The view of any executable content is bounded: its ranges came from
/// machine words.
pub proof fn lemma_vcontent_bounded(c: NodeContent)
    ensures
        bounded_gcontent(crate::index::vcontent(c)),
    decreases c, 0int,
{
    match c {
        NodeContent::Subtree(children) => {
            assert(decreases_to!(c => children));
            assert(decreases_to!(children => children@));
            lemma_vnode_seq_bounded(children@);
        },
        _ => {},
    }
}

/// The view of any executable index is bounded.
pub proof fn lemma_vnode_seq_bounded(s: Seq<Node>)
    ensures
        bounded_gnodes(vnode_seq(s)),
    decreases s, 1int,
{
    lemma_vnode_seq_index(s);
    if s.len() > 0 {
        lemma_vcontent_bounded(s[0].content);
        lemma_vnode_seq_bounded(s.drop_first());
        assert forall|i: int| 0 <= i < vnode_seq(s).len() implies bounded_gcontent(
            #[trigger] vnode_seq(s)[i].content,
        ) by {
            if i > 0 {
                lemma_vnode_seq_index(s.drop_first());
                assert(s.drop_first()[i - 1] == s[i]);
                assert(vnode_seq(s.drop_first())[i - 1] == vnode(s[i]));
            } else {
                assert(vnode_seq(s)[0] == vnode(s[0]));
            }
        }
    }
}

/// The first position at or after `i` that does not hold a decimal digit.
pub open spec fn digit_run_end(s: Seq<u8>, i: int) -> int
    decreases s.len() - i,
{
    if 0 <= i < s.len() && is_digit(s[i]) {
        digit_run_end(s, i + 1)
    } else {
        i
    }
}

/// Parses a run of one or more digits whose value fits a machine word.
pub open spec fn sp_number(s: Seq<u8>, i: int) -> Option<(nat, int)> {
    let j = digit_run_end(s, i);
    if j > i && digits_val(s.subrange(i, j)) <= usize::MAX {
        Some((digits_val(s.subrange(i, j)), j))
    } else {
        None
    }
}

/// Parses the escaped body of a label, up to and past its closing quote.
pub open spec fn sp_label(s: Seq<u8>, i: int) -> Option<(Seq<u8>, int)>
    decreases s.len() - i,
{
    if i < 0 || i >= s.len() {
        None
    } else if s[i] == QUOTE {
        Some((Seq::empty(), i + 1))
    } else if s[i] == BACKSLASH {
        if i + 1 < s.len() && (s[i + 1] == QUOTE || s[i + 1] == BACKSLASH) {
            match sp_label(s, i + 2) {
                Some((t, j)) => Some((seq![s[i + 1]] + t, j)),
                None => None,
            }
        } else {
            None
        }
    } else {
        match sp_label(s, i + 1) {
            Some((t, j)) => Some((seq![s[i]] + t, j)),
            None => None,
        }
    }
}

/// Parses a node sequence: `{` pairs `}`.
pub open spec fn sp_nodes(s: Seq<u8>, i: int) -> Option<(Seq<GNode>, int)>
    decreases s.len() - i, 1int,
{
    if 0 <= i < s.len() && s[i] == LBRACE {
        if i + 1 < s.len() && s[i + 1] == RBRACE {
            Some((Seq::empty(), i + 2))
        } else {
            match sp_pairs(s, i + 1) {
                Some((ns, j)) => if j < s.len() && s[j] == RBRACE {
                    Some((ns, j + 1))
                } else {
                    None
                },
                None => None,
            }
        }
    } else {
        None
    }
}

/// Parses one or more pairs separated by commas.
pub open spec fn sp_pairs(s: Seq<u8>, i: int) -> Option<(Seq<GNode>, int)>
    decreases s.len() - i, 3int,
{
    match sp_pair(s, i) {
        Some((n, j)) => if i <= j && j < s.len() && s[j] == COMMA {
            match sp_pairs(s, j + 1) {
                Some((ns, k)) => Some((seq![n] + ns, k)),
                None => None,
            }
        } else {
            Some((seq![n], j))
        },
        None => None,
    }
}

/// Parses one pair: a quoted label, a colon, and a content.
pub open spec fn sp_pair(s: Seq<u8>, i: int) -> Option<(GNode, int)>
    decreases s.len() - i, 0int,
{
    if 0 <= i < s.len() && s[i] == QUOTE {
        match sp_label(s, i + 1) {
            Some((lab, j)) => if i < j && j < s.len() && s[j] == COLON {
                match sp_content(s, j + 1) {
                    Some((c, k)) => Some((GNode { label: lab, content: c }, k)),
                    None => None,
                }
            } else {
                None
            },
            None => None,
        }
    } else {
        None
    }
}

/// Parses one content: a nested tree, `[start,end]`, or `null`.
pub open spec fn sp_content(s: Seq<u8>, i: int) -> Option<(GContent, int)>
    decreases s.len() - i, 2int,
{
    if 0 <= i < s.len() && s[i] == LBRACE {
        match sp_nodes(s, i) {
            Some((ns, j)) => Some((GContent::Subtree(ns), j)),
            None => None,
        }
    } else if 0 <= i < s.len() && s[i] == LBRACK {
        match sp_number(s, i + 1) {
            Some((a, j)) => if j < s.len() && s[j] == COMMA {
                match sp_number(s, j + 1) {
                    Some((b, k)) => if k < s.len() && s[k] == RBRACK {
                        Some((GContent::Range(a, b), k + 1))
                    } else {
                        None
                    },
                    None => None,
                }
            } else {
                None
            },
            None => None,
        }
    } else if 0 <= i && i + 4 <= s.len() && s[i] == 110 && s[i + 1] == 117 && s[i + 2] == 108
        && s[i + 3] == 108 {
        Some((GContent::Absent, i + 4))
    } else {
        None
    }
}

/// Whether the leading length header of an archive is malformed: no
/// digit at the start, digits to the very end, or a declared length
/// larger than what follows the digits.
pub open spec fn header_bad(s: Seq<u8>) -> bool {
    let d = digit_run_end(s, 0);
    d <= 0 || d >= s.len() || digits_val(s.subrange(0, d)) > s.len() - d
}

/// Parses a whole archive: the decimal length, then exactly that many
/// bytes of index text. Returns the index model and the blob's start.
pub open spec fn sp_archive(s: Seq<u8>) -> Option<(Seq<GNode>, int)> {
    if header_bad(s) {
        None
    } else {
        let d = digit_run_end(s, 0);
        let ell = digits_val(s.subrange(0, d));
        match sp_nodes(s, d) {
            Some((ns, j)) => if j == d + ell {
                Some((ns, j))
            } else {
                None
            },
            None => None,
        }
    }
}

/// `esc` distributes over concatenation.
pub proof fn lemma_esc_append(s1: Seq<u8>, s2: Seq<u8>)
    ensures
        esc(s1 + s2) =~= esc(s1) + esc(s2),
    decreases s1,
{
    if s1.len() == 0 {
        assert(s1 + s2 =~= s2);
    } else {
        lemma_esc_append(s1.drop_first(), s2);
        assert((s1 + s2).drop_first() =~= s1.drop_first() + s2);
        assert(esc(s1 + s2) =~= esc_byte(s1[0]) + esc(s1.drop_first() + s2));
    }
}

/// `enc_pairs` distributes over appending one more node.
pub proof fn lemma_enc_pairs_push(ns: Seq<GNode>, n: GNode)
    ensures
        ns.len() == 0 ==> enc_pairs(ns.push(n)) =~= enc_pair(n),
        ns.len() > 0 ==> enc_pairs(ns.push(n)) =~= enc_pairs(ns) + seq![COMMA] + enc_pair(n),
    decreases ns,
{
    if ns.len() == 0 {
        assert(ns.push(n)[0] == n);
    } else {
        lemma_enc_pairs_push(ns.drop_first(), n);
        assert(ns.push(n).drop_first() =~= ns.drop_first().push(n));
        assert(ns.push(n)[0] == ns[0]);
        if ns.len() == 1 {
            assert(enc_pairs(ns.push(n)) =~= enc_pair(ns[0]) + seq![COMMA] + enc_pairs(
                ns.drop_first().push(n),
            ));
        }
    }
}

/// The digits of `n` are digits, there is at least one, and they read
/// back as `n`.
pub proof fn lemma_dec_digits_props(n: nat)
    ensures
        dec_digits(n).len() >= 1,
        forall|i: int| 0 <= i < dec_digits(n).len() ==> is_digit(#[trigger] dec_digits(n)[i]),
        digits_val(dec_digits(n)) == n,
    decreases n,
{
    if n < 10 {
        let ds = dec_digits(n);
        assert(ds =~= seq![(48 + n) as u8]);
        assert(ds.drop_last() =~= Seq::<u8>::empty());
        assert(digits_val(ds.drop_last()) == 0);
        assert(ds.last() == (48 + n) as u8);
        assert(((48 + n) as u8) as nat == 48 + n);
        assert(digits_val(ds) == (0 * 10 + ((48 + n) as u8 - 48)) as nat);
    } else {
        lemma_dec_digits_props(n / 10);
        let prev = dec_digits(n / 10);
        let d: u8 = (48 + n % 10) as u8;
        let ds = dec_digits(n);
        assert(ds == prev.push(d));
        assert forall|i: int| 0 <= i < ds.len() implies is_digit(#[trigger] ds[i]) by {
            if i < prev.len() {
                assert(ds[i] == prev[i]);
            }
        }
        assert(ds.drop_last() =~= prev);
        assert(ds.last() == d);
        vstd::arithmetic::div_mod::lemma_fundamental_div_mod(n as int, 10);
        assert(digits_val(ds) == (digits_val(prev) * 10 + (d - 48)) as nat);
    }
}

/// Appending digits never shrinks the value a digit string reads as.
pub proof fn lemma_digits_val_prefix(s1: Seq<u8>, s2: Seq<u8>)
    requires
        forall|k: int| 0 <= k < s2.len() ==> is_digit(#[trigger] s2[k]),
    ensures
        digits_val(s1 + s2) >= digits_val(s1),
    decreases s2,
{
    if s2.len() == 0 {
        assert(s1 + s2 =~= s1);
    } else {
        assert(forall|k: int|
            0 <= k < s2.drop_last().len() ==> is_digit(#[trigger] s2.drop_last()[k]));
        lemma_digits_val_prefix(s1, s2.drop_last());
        assert((s1 + s2).drop_last() =~= s1 + s2.drop_last());
        assert((s1 + s2).last() == s2.last());
        assert(is_digit(s2.last()));
        assert(digits_val(s1 + s2) == (digits_val(s1 + s2.drop_last()) * 10 + ((s1 + s2).last()
            - 48)) as nat);
        assert(digits_val(s1 + s2.drop_last()) * 10 >= digits_val(s1 + s2.drop_last()));
    }
}

/// The digit run starting at `i` ends exactly at `j` when the bytes of
/// `[i, j)` are digits and `j` holds none (or is the end).
pub proof fn lemma_digit_run_end_exact(s: Seq<u8>, i: int, j: int)
    requires
        0 <= i <= j <= s.len(),
        forall|k: int| i <= k < j ==> is_digit(#[trigger] s[k]),
        j == s.len() || !is_digit(s[j]),
    ensures
        digit_run_end(s, i) == j,
    decreases j - i,
{
    if i < j {
        lemma_digit_run_end_exact(s, i + 1, j);
    }
}

/// The digit run end never moves backwards, nor past the end.
pub proof fn lemma_digit_run_end_bounds(s: Seq<u8>, i: int)
    requires
        0 <= i <= s.len(),
    ensures
        i <= digit_run_end(s, i) <= s.len(),
    decreases s.len() - i,
{
    if i < s.len() && is_digit(s[i]) {
        lemma_digit_run_end_bounds(s, i + 1);
    }
}

/// A piece sitting inside a matched window of `s` is itself a matched
/// window of `s`.
proof fn lemma_sub_eq(s: Seq<u8>, i: int, t: Seq<u8>, j: int, u: Seq<u8>)
    requires
        0 <= i,
        i + t.len() <= s.len(),
        s.subrange(i, i + t.len()) == t,
        0 <= j,
        j + u.len() <= t.len(),
        t.subrange(j, j + u.len()) == u,
    ensures
        s.subrange(i + j, i + j + u.len()) == u,
{
    assert forall|k: int| 0 <= k < u.len() implies s[i + j + k] == u[k] by {
        assert(t.subrange(j, j + u.len())[k] == t[j + k]);
        assert(s.subrange(i, i + t.len())[j + k] == s[i + j + k]);
    }
    assert(s.subrange(i + j, i + j + u.len()) =~= u);
}

/// A window equality gives the bytes of `s` pointwise.
proof fn lemma_window_bytes(s: Seq<u8>, i: int, t: Seq<u8>)
    requires
        0 <= i,
        i + t.len() <= s.len(),
        s.subrange(i, i + t.len()) == t,
    ensures
        forall|k: int| 0 <= k < t.len() ==> s[i + k] == #[trigger] t[k],
{
    assert forall|k: int| 0 <= k < t.len() implies s[i + k] == #[trigger] t[k] by {
        assert(s.subrange(i, i + t.len())[k] == s[i + k]);
    }
}

/// The parser reads the digits of `n` back as `n` when a non-digit
/// follows them.
pub proof fn lemma_sp_number_enc(v: nat, s: Seq<u8>, i: int)
    requires
        0 <= i,
        v <= usize::MAX,
        i + dec_digits(v).len() < s.len(),
        s.subrange(i, i + dec_digits(v).len() as int) == dec_digits(v),
        !is_digit(s[i + dec_digits(v).len()]),
    ensures
        sp_number(s, i) == Some((v, i + dec_digits(v).len())),
{
    let ds = dec_digits(v);
    lemma_dec_digits_props(v);
    lemma_window_bytes(s, i, ds);
    assert forall|k: int| i <= k < i + ds.len() implies is_digit(#[trigger] s[k]) by {
        assert(s[i + (k - i)] == ds[k - i]);
    }
    lemma_digit_run_end_exact(s, i, i + ds.len());
}

/// The parser reads an escaped label back unchanged, stopping at the
/// closing quote.
pub proof fn lemma_sp_label_esc(lab: Seq<u8>, s: Seq<u8>, i: int)
    requires
        0 <= i,
        i + esc(lab).len() < s.len(),
        s.subrange(i, i + esc(lab).len() as int) == esc(lab),
        s[i + esc(lab).len()] == QUOTE,
    ensures
        sp_label(s, i) == Some((lab, i + esc(lab).len() + 1)),
    decreases lab,
{
    lemma_window_bytes(s, i, esc(lab));
    if lab.len() == 0 {
        assert(s[i] == QUOTE);
        assert(sp_label(s, i) == Some((Seq::<u8>::empty(), i + 1)));
        assert(Seq::<u8>::empty() =~= lab);
    } else {
        let b = lab[0];
        let rest = lab.drop_first();
        assert(esc(lab) == esc_byte(b) + esc(rest));
        if b == QUOTE || b == BACKSLASH {
            assert(esc(lab)[0] == BACKSLASH);
            assert(esc(lab)[1] == b);
            assert(s[i] == BACKSLASH);
            assert(s[i + 1] == b);
            assert(esc(lab).subrange(2, 2 + esc(rest).len() as int) =~= esc(rest));
            lemma_sub_eq(s, i, esc(lab), 2, esc(rest));
            lemma_sp_label_esc(rest, s, i + 2);
            assert(seq![s[i + 1]] + rest =~= lab);
        } else {
            assert(esc(lab)[0] == b);
            assert(s[i] == b);
            assert(esc(lab).subrange(1, 1 + esc(rest).len() as int) =~= esc(rest));
            lemma_sub_eq(s, i, esc(lab), 1, esc(rest));
            lemma_sp_label_esc(rest, s, i + 1);
            assert(seq![s[i]] + rest =~= lab);
        }
    }
}

/// A pair's text is never empty and always opens with a quote.
proof fn lemma_enc_pair_first(n: GNode)
    ensures
        enc_pair(n).len() >= 4,
        enc_pair(n)[0] == QUOTE,
{
}

/// A nonempty pair list's text opens with a quote.
proof fn lemma_enc_pairs_first(ns: Seq<GNode>)
    requires
        ns.len() >= 1,
    ensures
        enc_pairs(ns).len() >= 4,
        enc_pairs(ns)[0] == QUOTE,
{
    lemma_enc_pair_first(ns[0]);
}

/// The parser reads an encoded node sequence back unchanged.
pub proof fn lemma_rt_nodes(ns: Seq<GNode>, s: Seq<u8>, i: int)
    requires
        0 <= i,
        bounded_gnodes(ns),
        i + enc_nodes(ns).len() <= s.len(),
        s.subrange(i, i + enc_nodes(ns).len() as int) == enc_nodes(ns),
    ensures
        sp_nodes(s, i) == Some((ns, i + enc_nodes(ns).len())),
    decreases ns, 1int,
{
    let t = enc_nodes(ns);
    lemma_window_bytes(s, i, t);
    assert(t[0] == LBRACE);
    assert(s[i] == LBRACE);
    if ns.len() == 0 {
        assert(t =~= seq![LBRACE, RBRACE]);
        assert(s[i + 1] == RBRACE);
        assert(sp_nodes(s, i) == Some((Seq::<GNode>::empty(), i + 2)));
        assert(Seq::<GNode>::empty() =~= ns);
    } else {
        let ps = enc_pairs(ns);
        lemma_enc_pairs_first(ns);
        assert(t[1] == ps[0]);
        assert(s[i + 1] == QUOTE);
        assert(t.subrange(1, 1 + ps.len() as int) =~= ps);
        lemma_sub_eq(s, i, t, 1, ps);
        assert(t[1 + ps.len() as int] == RBRACE);
        lemma_rt_pairs(ns, s, i + 1);
        assert(s[i + 1 + ps.len()] == RBRACE);
    }
}

/// The parser reads an encoded pair list back unchanged when what
/// follows it is not a comma.
pub proof fn lemma_rt_pairs(ns: Seq<GNode>, s: Seq<u8>, i: int)
    requires
        0 <= i,
        ns.len() >= 1,
        bounded_gnodes(ns),
        i + enc_pairs(ns).len() < s.len(),
        s.subrange(i, i + enc_pairs(ns).len() as int) == enc_pairs(ns),
        s[i + enc_pairs(ns).len()] != COMMA,
    ensures
        sp_pairs(s, i) == Some((ns, i + enc_pairs(ns).len())),
    decreases ns, 0int,
{
    let t = enc_pairs(ns);
    let p0 = enc_pair(ns[0]);
    lemma_window_bytes(s, i, t);
    lemma_enc_pair_first(ns[0]);
    if ns.len() == 1 {
        assert(t =~= p0);
        lemma_rt_pair(ns[0], s, i);
        assert(s[i + p0.len()] != COMMA);
        assert(seq![ns[0]] =~= ns);
    } else {
        let rest = ns.drop_first();
        assert(t == p0 + seq![COMMA] + enc_pairs(rest));
        assert(t.subrange(0, p0.len() as int) =~= p0);
        lemma_sub_eq(s, i, t, 0, p0);
        lemma_rt_pair(ns[0], s, i);
        assert(t[p0.len() as int] == COMMA);
        assert(s[i + p0.len()] == COMMA);
        assert(t.subrange(p0.len() as int + 1, t.len() as int) =~= enc_pairs(rest));
        lemma_sub_eq(s, i, t, p0.len() as int + 1, enc_pairs(rest));
        assert forall|k: int| 0 <= k < rest.len() implies bounded_gcontent(
            #[trigger] rest[k].content,
        ) by {
            assert(rest[k] == ns[k + 1]);
        }
        lemma_rt_pairs(rest, s, i + p0.len() + 1);
        assert(seq![ns[0]] + rest =~= ns);
    }
}

/// The parser reads one encoded pair back unchanged.
pub proof fn lemma_rt_pair(n: GNode, s: Seq<u8>, i: int)
    requires
        0 <= i,
        bounded_gcontent(n.content),
        i + enc_pair(n).len() <= s.len(),
        s.subrange(i, i + enc_pair(n).len() as int) == enc_pair(n),
    ensures
        sp_pair(s, i) == Some((n, i + enc_pair(n).len())),
    decreases n, 0int,
{
    let t = enc_pair(n);
    let e = esc(n.label);
    let c = enc_content(n.content);
    lemma_window_bytes(s, i, t);
    assert(t == seq![QUOTE] + e + seq![QUOTE, COLON] + c);
    assert(t[0] == QUOTE);
    assert(s[i] == QUOTE);
    assert(t.subrange(1, 1 + e.len() as int) =~= e);
    lemma_sub_eq(s, i, t, 1, e);
    assert(t[1 + e.len() as int] == QUOTE);
    assert(s[i + 1 + e.len()] == QUOTE);
    lemma_sp_label_esc(n.label, s, i + 1);
    let j = i + 1 + e.len() + 1;
    assert(t[1 + e.len() as int + 1] == COLON);
    assert(s[j] == COLON);
    assert(t.subrange(3 + e.len() as int, t.len() as int) =~= c);
    lemma_sub_eq(s, i, t, 3 + e.len() as int, c);
    lemma_rt_content(n.content, s, j + 1);
    assert(GNode { label: n.label, content: n.content } == n);
}

/// The parser reads one encoded content back unchanged.
pub proof fn lemma_rt_content(c: GContent, s: Seq<u8>, i: int)
    requires
        0 <= i,
        bounded_gcontent(c),
        i + enc_content(c).len() <= s.len(),
        s.subrange(i, i + enc_content(c).len() as int) == enc_content(c),
    ensures
        sp_content(s, i) == Some((c, i + enc_content(c).len())),
    decreases c, 2int,
{
    let t = enc_content(c);
    lemma_window_bytes(s, i, t);
    match c {
        GContent::Absent => {
            assert(t =~= seq![110u8, 117u8, 108u8, 108u8]);
            assert(s[i] == 110);
            assert(s[i + 1] == 117);
            assert(s[i + 2] == 108);
            assert(s[i + 3] == 108);
        },
        GContent::Range(a, b) => {
            let da = dec_digits(a);
            let db = dec_digits(b);
            lemma_dec_digits_props(a);
            lemma_dec_digits_props(b);
            assert(t == seq![LBRACK] + da + seq![COMMA] + db + seq![RBRACK]);
            assert(t[0] == LBRACK);
            assert(s[i] == LBRACK);
            assert(t.subrange(1, 1 + da.len() as int) =~= da);
            lemma_sub_eq(s, i, t, 1, da);
            assert(t[1 + da.len() as int] == COMMA);
            assert(s[i + 1 + da.len()] == COMMA);
            lemma_sp_number_enc(a, s, i + 1);
            let j = i + 1 + da.len();
            assert(t.subrange(2 + da.len() as int, 2 + da.len() + db.len() as int) =~= db);
            lemma_sub_eq(s, i, t, 2 + da.len() as int, db);
            assert(t[2 + da.len() as int + db.len() as int] == RBRACK);
            assert(s[j + 1 + db.len()] == RBRACK);
            lemma_sp_number_enc(b, s, j + 1);
        },
        GContent::Subtree(children) => {
            lemma_rt_nodes(children, s, i);
            assert(s[i] == LBRACE);
        },
    }
}

/// Header self-description: an archive built from any index model and
/// blob parses back to the same model, with the blob starting right
/// after the index text.
pub proof fn lemma_archive_round_trip(ns: Seq<GNode>, blob: Seq<u8>)
    requires
        bounded_gnodes(ns),
    ensures
        sp_archive(enc_archive(ns, blob)) == Some(
            (ns, dec_digits(enc_nodes(ns).len()).len() + enc_nodes(ns).len() as int),
        ),
        enc_archive(ns, blob).subrange(
            dec_digits(enc_nodes(ns).len()).len() + enc_nodes(ns).len() as int,
            enc_archive(ns, blob).len() as int,
        ) == blob,
{
    let text = enc_nodes(ns);
    let hdr = dec_digits(text.len());
    let s = enc_archive(ns, blob);
    let d = hdr.len() as int;
    lemma_dec_digits_props(text.len());
    assert(s == hdr + text + blob);
    assert(s.subrange(0, d) =~= hdr);
    lemma_window_bytes(s, 0, hdr);
    assert forall|k: int| 0 <= k < d implies is_digit(#[trigger] s[k]) by {
        assert(s[0 + k] == hdr[k]);
    }
    assert(s.subrange(d, d + text.len() as int) =~= text);
    assert(text[0] == LBRACE);
    assert(s[d] == LBRACE);
    assert(!is_digit(LBRACE));
    lemma_digit_run_end_exact(s, 0, d);
    assert(digits_val(s.subrange(0, d)) == text.len());
    assert(!header_bad(s));
    lemma_rt_nodes(ns, s, d);
}

/// Appends the decimal digits of `n` to `out`.
pub fn push_dec(out: &mut Vec<u8>, n: usize)
    ensures
        final(out)@ == old(out)@ + dec_digits(n as nat),
    decreases n,
{
    if n < 10 {
        let d: u8 = 48 + (n as u8);
        out.push(d);
        assert(out@ =~= old(out)@ + dec_digits(n as nat));
    } else {
        push_dec(out, n / 10);
        let d: u8 = 48 + ((n % 10) as u8);
        out.push(d);
        assert(out@ =~= old(out)@ + dec_digits(n as nat));
    }
}

/// Appends a label, escaped, to `out`.
fn push_escaped(out: &mut Vec<u8>, label: &Vec<u8>)
    ensures
        final(out)@ == old(out)@ + esc(label@),
{
    let n = label.len();
    let mut i: usize = 0;
    while i < n
        invariant
            n == label@.len(),
            i <= n,
            out@ == old(out)@ + esc(label@.take(i as int)),
        decreases n - i,
    {
        let b = label[i];
        proof {
            assert(label@.take(i + 1) =~= label@.take(i as int) + seq![label@[i as int]]);
            lemma_esc_append(label@.take(i as int), seq![label@[i as int]]);
            let single = seq![label@[i as int]];
            assert(single.drop_first() =~= Seq::<u8>::empty());
            assert(esc(single) == esc_byte(single[0]) + esc(single.drop_first()));
            assert(esc(single) =~= esc_byte(label@[i as int]));
        }
        if b == QUOTE || b == BACKSLASH {
            out.push(BACKSLASH);
        }
        out.push(b);
        proof {
            assert(out@ =~= old(out)@ + esc(label@.take(i + 1)));
        }
        i = i + 1;
    }
    proof {
        assert(label@.take(n as int) =~= label@);
    }
}

/// Appends the index text of `nodes` to `out`.
pub fn encode_nodes(out: &mut Vec<u8>, nodes: &Vec<Node>)
    ensures
        final(out)@ == old(out)@ + enc_nodes(vnode_seq(nodes@)),
    decreases nodes@, 1int,
{
    out.push(LBRACE);
    let n = nodes.len();
    let mut i: usize = 0;
    proof {
        lemma_vnode_seq_index(nodes@);
    }
    while i < n
        invariant
            n == nodes@.len(),
            i <= n,
            vnode_seq(nodes@).len() == n,
            forall|j: int| 0 <= j < n ==> vnode_seq(nodes@)[j] == vnode(#[trigger] nodes@[j]),
            out@ == old(out)@ + seq![LBRACE] + enc_pairs(vnode_seq(nodes@).take(i as int)),
        decreases n - i,
    {
        proof {
            assert(nodes@[i as int] == nodes@.index(i as int));
        }
        if i > 0 {
            out.push(COMMA);
        }
        encode_pair(out, &nodes[i]);
        proof {
            let gs = vnode_seq(nodes@);
            assert(gs.take(i + 1) =~= gs.take(i as int).push(gs[i as int]));
            lemma_enc_pairs_push(gs.take(i as int), gs[i as int]);
            assert(out@ =~= old(out)@ + seq![LBRACE] + enc_pairs(gs.take(i + 1)));
        }
        i = i + 1;
    }
    out.push(RBRACE);
    proof {
        assert(vnode_seq(nodes@).take(n as int) =~= vnode_seq(nodes@));
        assert(out@ =~= old(out)@ + enc_nodes(vnode_seq(nodes@)));
    }
}

/// Appends one pair to `out`.
fn encode_pair(out: &mut Vec<u8>, node: &Node)
    ensures
        final(out)@ == old(out)@ + enc_pair(vnode(*node)),
    decreases node, 0int,
{
    out.push(QUOTE);
    push_escaped(out, &node.label);
    out.push(QUOTE);
    out.push(COLON);
    match &node.content {
        NodeContent::Absent => {
            out.push(110);
            out.push(117);
            out.push(108);
            out.push(108);
        },
        NodeContent::Range(s, e) => {
            out.push(LBRACK);
            push_dec(out, *s);
            out.push(COMMA);
            push_dec(out, *e);
            out.push(RBRACK);
        },
        NodeContent::Subtree(children) => {
            encode_nodes(out, children);
        },
    }
    proof {
        assert(out@ =~= old(out)@ + enc_pair(vnode(*node)));
    }
}

/// The index text of an index model.
pub fn encode_index(nodes: &Vec<Node>) -> (r: Vec<u8>)
    ensures
        r@ == enc_nodes(vnode_seq(nodes@)),
{
    let mut out: Vec<u8> = Vec::new();
    encode_nodes(&mut out, nodes);
    proof {
        assert(out@ =~= enc_nodes(vnode_seq(nodes@)));
    }
    out
}

/// The complete archive bytes: decimal length of the index text, the
/// index text, then the blob.
pub fn build_archive(nodes: &Vec<Node>, blob: &Vec<u8>) -> (r: Vec<u8>)
    ensures
        r@ == enc_archive(vnode_seq(nodes@), blob@),
{
    let mut out: Vec<u8> = Vec::new();
    let text = encode_index(nodes);
    push_dec(&mut out, text.len());
    let mut i: usize = 0;
    let n = text.len();
    while i < n
        invariant
            n == text@.len(),
            i <= n,
            out@ == dec_digits(n as nat) + text@.take(i as int),
        decreases n - i,
    {
        out.push(text[i]);
        proof {
            assert(text@.take(i + 1) =~= text@.take(i as int).push(text@[i as int]));
            assert(out@ =~= dec_digits(n as nat) + text@.take(i + 1));
        }
        i = i + 1;
    }
    proof {
        assert(text@.take(n as int) =~= text@);
    }
    let m = blob.len();
    let mut j: usize = 0;
    while j < m
        invariant
            m == blob@.len(),
            n == text@.len(),
            j <= m,
            out@ == dec_digits(n as nat) + text@ + blob@.take(j as int),
        decreases m - j,
    {
        out.push(blob[j]);
        proof {
            assert(blob@.take(j + 1) =~= blob@.take(j as int).push(blob@[j as int]));
            assert(out@ =~= dec_digits(n as nat) + text@ + blob@.take(j + 1));
        }
        j = j + 1;
    }
    proof {
        assert(blob@.take(m as int) =~= blob@);
        assert(out@ =~= enc_archive(vnode_seq(nodes@), blob@));
    }
    out
}

} // verus!
