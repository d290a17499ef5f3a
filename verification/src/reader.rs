//! The archive reader: executable parsing of the length header and the
//! index text, proved to agree with the specification parser in
//! `codec`, byte for byte.

use vstd::prelude::*;

use crate::codec::{
    digit_run_end, digits_val, header_bad, is_digit, lemma_digit_run_end_bounds,
    lemma_digits_val_prefix, sp_archive, sp_content, sp_label, sp_nodes, sp_number, sp_pair,
    sp_pairs, BACKSLASH, COLON, COMMA, LBRACE, LBRACK, QUOTE, RBRACE, RBRACK,
};
use crate::index::{lemma_vnode_seq_index, vcontent, vnode, vnode_seq, Node, NodeContent};

verus! {

/// Why an archive could not be read.
#[derive(Clone, Copy, Debug, PartialEq, Eq, Structural)]
pub enum ArchiveError {
    /// The leading decimal length is missing, runs to the end of the
    /// file, or declares more index text than the file holds.
    CorruptHeader,
    /// The declared index text does not parse, or does not fill the
    /// declared length exactly.
    CorruptIndex,
}

/// All bytes of a digit run are digits.
pub proof fn lemma_digit_run_digits(s: Seq<u8>, i: int)
    requires
        0 <= i <= s.len(),
    ensures
        forall|k: int| i <= k < digit_run_end(s, i) ==> is_digit(#[trigger] s[k]),
    decreases s.len() - i,
{
    if i < s.len() && is_digit(s[i]) {
        lemma_digit_run_digits(s, i + 1);
        lemma_digit_run_end_bounds(s, i + 1);
    }
}

/// Finds the end of the digit run starting at `i`.
fn digit_run_end_exec(s: &Vec<u8>, i: usize) -> (r: usize)
    requires
        i <= s@.len(),
    ensures
        r as int == digit_run_end(s@, i as int),
        i <= r <= s@.len(),
{
    let n = s.len();
    let mut j = i;
    while j < n && 48 <= s[j] && s[j] <= 57
        invariant
            i <= j <= n,
            n == s@.len(),
            digit_run_end(s@, i as int) == digit_run_end(s@, j as int),
        decreases n - j,
    {
        j = j + 1;
    }
    proof {
        assert(digit_run_end(s@, j as int) == j);
    }
    j
}

/// Parses a digit run into a machine word, or reports that none is
/// there or that its value does not fit.
fn parse_number(s: &Vec<u8>, i: usize) -> (r: Option<(usize, usize)>)
    requires
        i <= s@.len(),
    ensures
        match r {
            Some(pr) => sp_number(s@, i as int) == Some((pr.0 as nat, pr.1 as int)) && i < pr.1
                <= s@.len(),
            None => sp_number(s@, i as int) is None,
        },
{
    let n = s.len();
    let ghost run_end = digit_run_end(s@, i as int);
    proof {
        lemma_digit_run_end_bounds(s@, i as int);
        lemma_digit_run_digits(s@, i as int);
    }
    let mut j = i;
    let mut val: u128 = 0;
    while j < n && 48 <= s[j] && s[j] <= 57
        invariant
            i <= j <= n,
            n == s@.len(),
            i <= run_end <= n,
            run_end == digit_run_end(s@, i as int),
            digit_run_end(s@, i as int) == digit_run_end(s@, j as int),
            forall|k: int| i <= k < run_end ==> is_digit(#[trigger] s@[k]),
            j <= run_end,
            val == digits_val(s@.subrange(i as int, j as int)),
            val <= usize::MAX as u128,
        decreases n - j,
    {
        let d = s[j];
        let nv: u128 = val * 10 + ((d - 48) as u128);
        proof {
            assert(s@.subrange(i as int, j + 1).drop_last() =~= s@.subrange(i as int, j as int));
            assert(s@.subrange(i as int, j + 1).last() == s@[j as int]);
            assert(digits_val(s@.subrange(i as int, j + 1)) == (digits_val(
                s@.subrange(i as int, j as int),
            ) * 10 + (s@[j as int] - 48)) as nat);
            assert(is_digit(s@[j as int]));
            assert(digit_run_end(s@, j as int) == digit_run_end(s@, j + 1));
            lemma_digit_run_end_bounds(s@, j + 1);
            assert(j < run_end);
        }
        if nv > (usize::MAX as u128) {
            proof {
                let pref = s@.subrange(i as int, j + 1);
                let rest = s@.subrange(j + 1, run_end);
                assert(s@.subrange(i as int, run_end) =~= pref + rest);
                assert(forall|k: int| 0 <= k < rest.len() ==> is_digit(#[trigger] rest[k]));
                lemma_digits_val_prefix(pref, rest);
                assert(digits_val(s@.subrange(i as int, run_end)) > usize::MAX);
            }
            return None;
        }
        val = nv;
        j = j + 1;
    }
    proof {
        assert(digit_run_end(s@, j as int) == j);
        assert(run_end == j);
    }
    if j == i {
        None
    } else {
        Some((val as usize, j))
    }
}

/// Parses the escaped body of a label up to its closing quote.
fn parse_label(s: &Vec<u8>, i: usize) -> (r: Option<(Vec<u8>, usize)>)
    requires
        i <= s@.len(),
    ensures
        match r {
            Some(pr) => sp_label(s@, i as int) == Some((pr.0@, pr.1 as int)) && i < pr.1
                <= s@.len(),
            None => sp_label(s@, i as int) is None,
        },
{
    let n = s.len();
    let mut cur = i;
    let mut acc: Vec<u8> = Vec::new();
    loop
        invariant
            i <= cur <= n,
            n == s@.len(),
            sp_label(s@, i as int) == (match sp_label(s@, cur as int) {
                Some((t, j)) => Some((acc@ + t, j)),
                None => None::<(Seq<u8>, int)>,
            }),
        decreases n - cur,
    {
        if cur >= n {
            return None;
        }
        let b = s[cur];
        if b == QUOTE {
            proof {
                assert(sp_label(s@, cur as int) == Some((Seq::<u8>::empty(), cur + 1)));
                assert(acc@ + Seq::<u8>::empty() =~= acc@);
            }
            return Some((acc, cur + 1));
        } else if b == BACKSLASH {
            if cur + 1 < n && (s[cur + 1] == QUOTE || s[cur + 1] == BACKSLASH) {
                let e = s[cur + 1];
                proof {
                    let ghost inner = sp_label(s@, cur + 2);
                    match inner {
                        Some((t, j)) => {
                            assert(sp_label(s@, cur as int) == Some(
                                (seq![s@[cur + 1]] + t, j),
                            ));
                            assert(acc@ + (seq![s@[cur + 1]] + t) =~= (acc@.push(s@[cur + 1]))
                                + t);
                        },
                        None => {
                            assert(sp_label(s@, cur as int) is None);
                        },
                    }
                }
                acc.push(e);
                cur = cur + 2;
            } else {
                proof {
                    assert(sp_label(s@, cur as int) is None);
                }
                return None;
            }
        } else {
            proof {
                let ghost inner = sp_label(s@, cur + 1);
                match inner {
                    Some((t, j)) => {
                        assert(sp_label(s@, cur as int) == Some((seq![s@[cur as int]] + t, j)));
                        assert(acc@ + (seq![s@[cur as int]] + t) =~= (acc@.push(s@[cur as int]))
                            + t);
                    },
                    None => {
                        assert(sp_label(s@, cur as int) is None);
                    },
                }
            }
            acc.push(b);
            cur = cur + 1;
        }
    }
}

/// Parses a node sequence `{` pairs `}`.
pub fn parse_nodes(s: &Vec<u8>, i: usize) -> (r: Option<(Vec<Node>, usize)>)
    requires
        i <= s@.len(),
    ensures
        match r {
            Some(pr) => sp_nodes(s@, i as int) == Some((vnode_seq(pr.0@), pr.1 as int)) && i < pr.1
                <= s@.len(),
            None => sp_nodes(s@, i as int) is None,
        },
    decreases s@.len() - i, 1int,
{
    let n = s.len();
    if i < n && s[i] == LBRACE {
        if i + 1 < n && s[i + 1] == RBRACE {
            let out: Vec<Node> = Vec::new();
            proof {
                assert(vnode_seq(out@) =~= Seq::<crate::index::GNode>::empty());
            }
            Some((out, i + 2))
        } else {
            match parse_pairs(s, i + 1) {
                Some((ns, j)) => {
                    if j < n && s[j] == RBRACE {
                        Some((ns, j + 1))
                    } else {
                        None
                    }
                },
                None => None,
            }
        }
    } else {
        None
    }
}

/// Parses one or more pairs separated by commas.
fn parse_pairs(s: &Vec<u8>, i: usize) -> (r: Option<(Vec<Node>, usize)>)
    requires
        i <= s@.len(),
    ensures
        match r {
            Some(pr) => sp_pairs(s@, i as int) == Some((vnode_seq(pr.0@), pr.1 as int)) && i < pr.1
                <= s@.len(),
            None => sp_pairs(s@, i as int) is None,
        },
    decreases s@.len() - i, 3int,
{
    let n = s.len();
    match parse_pair(s, i) {
        Some((node, j)) => {
            if j < n && s[j] == COMMA {
                match parse_pairs(s, j + 1) {
                    Some((mut ns, k)) => {
                        let ghost rest = ns@;
                        ns.insert(0, node);
                        proof {
                            assert(ns@ =~= seq![node] + rest);
                            lemma_vnode_seq_index(ns@);
                            lemma_vnode_seq_index(rest);
                            assert forall|q: int| 0 <= q < ns@.len() implies vnode_seq(ns@)[q] == (
                            seq![vnode(node)] + vnode_seq(rest))[q] by {
                                if q == 0 {
                                    assert(ns@[0] == node);
                                } else {
                                    assert(ns@[q] == rest[q - 1]);
                                }
                            }
                            assert(vnode_seq(ns@) =~= seq![vnode(node)] + vnode_seq(rest));
                        }
                        Some((ns, k))
                    },
                    None => None,
                }
            } else {
                let mut single: Vec<Node> = Vec::new();
                single.push(node);
                proof {
                    assert(single@ =~= seq![node]);
                    lemma_vnode_seq_index(single@);
                    assert(vnode_seq(single@) =~= seq![vnode(node)]);
                }
                Some((single, j))
            }
        },
        None => None,
    }
}

/// Parses one pair: a quoted label, a colon, and a content.
fn parse_pair(s: &Vec<u8>, i: usize) -> (r: Option<(Node, usize)>)
    requires
        i <= s@.len(),
    ensures
        match r {
            Some(pr) => sp_pair(s@, i as int) == Some((vnode(pr.0), pr.1 as int)) && i < pr.1
                <= s@.len(),
            None => sp_pair(s@, i as int) is None,
        },
    decreases s@.len() - i, 0int,
{
    let n = s.len();
    if i < n && s[i] == QUOTE {
        match parse_label(s, i + 1) {
            Some((lab, j)) => {
                if j < n && s[j] == COLON {
                    match parse_content(s, j + 1) {
                        Some((c, k)) => Some((Node { label: lab, content: c }, k)),
                        None => None,
                    }
                } else {
                    None
                }
            },
            None => None,
        }
    } else {
        None
    }
}

/// Parses one content: a nested tree, `[start,end]`, or `null`.
fn parse_content(s: &Vec<u8>, i: usize) -> (r: Option<(NodeContent, usize)>)
    requires
        i <= s@.len(),
    ensures
        match r {
            Some(pr) => sp_content(s@, i as int) == Some((vcontent(pr.0), pr.1 as int)) && i < pr.1
                <= s@.len(),
            None => sp_content(s@, i as int) is None,
        },
    decreases s@.len() - i, 2int,
{
    let n = s.len();
    if i < n && s[i] == LBRACE {
        match parse_nodes(s, i) {
            Some((ns, j)) => Some((NodeContent::Subtree(ns), j)),
            None => None,
        }
    } else if i < n && s[i] == LBRACK {
        match parse_number(s, i + 1) {
            Some((a, j)) => {
                if j < n && s[j] == COMMA {
                    match parse_number(s, j + 1) {
                        Some((b, k)) => {
                            if k < n && s[k] == RBRACK {
                                Some((NodeContent::Range(a, b), k + 1))
                            } else {
                                None
                            }
                        },
                        None => None,
                    }
                } else {
                    None
                }
            },
            None => None,
        }
    } else if i < n && n - i >= 4 && s[i] == 110 && s[i + 1] == 117 && s[i + 2] == 108 && s[i + 3]
        == 108 {
        Some((NodeContent::Absent, i + 4))
    } else {
        None
    }
}

/// Reads the declared index-text length, or reports that it exceeds
/// what the file holds past the digits.
fn read_header_len(s: &Vec<u8>, d: usize) -> (r: Option<usize>)
    requires
        0 < d < s@.len(),
        digit_run_end(s@, 0) == d,
    ensures
        match r {
            Some(v) => v as nat == digits_val(s@.subrange(0, d as int)) && v + d <= s@.len(),
            None => digits_val(s@.subrange(0, d as int)) > s@.len() - d,
        },
{
    let n = s.len();
    let cap: u128 = (n - d) as u128;
    proof {
        lemma_digit_run_digits(s@, 0);
    }
    let mut j: usize = 0;
    let mut val: u128 = 0;
    while j < d
        invariant
            j <= d,
            d < n,
            n == s@.len(),
            cap == (n - d) as u128,
            digit_run_end(s@, 0) == d,
            forall|k: int| 0 <= k < d ==> is_digit(#[trigger] s@[k]),
            val == digits_val(s@.subrange(0, j as int)),
            val <= cap,
        decreases d - j,
    {
        let b = s[j];
        proof {
            assert(is_digit(s@[j as int]));
        }
        let nv: u128 = val * 10 + ((b - 48) as u128);
        proof {
            assert(s@.subrange(0, j + 1).drop_last() =~= s@.subrange(0, j as int));
            assert(s@.subrange(0, j + 1).last() == s@[j as int]);
            assert(digits_val(s@.subrange(0, j + 1)) == (digits_val(s@.subrange(0, j as int)) * 10
                + (s@[j as int] - 48)) as nat);
        }
        if nv > cap {
            proof {
                let pref = s@.subrange(0, j + 1);
                let rest = s@.subrange(j + 1, d as int);
                assert(s@.subrange(0, d as int) =~= pref + rest);
                assert(forall|k: int| 0 <= k < rest.len() ==> is_digit(#[trigger] rest[k]));
                lemma_digits_val_prefix(pref, rest);
            }
            return None;
        }
        val = nv;
        j = j + 1;
    }
    Some(val as usize)
}

/// Parses a whole archive held in memory: the decimal length header and
/// the index text. Returns the index and the byte offset where the blob
/// begins; range offsets in the index are relative to that position.
///
/// Succeeds exactly when the specification parser `sp_archive` does, and
/// tells a malformed header apart from malformed index text.
pub fn parse_archive(bytes: &Vec<u8>) -> (r: Result<(Vec<Node>, usize), ArchiveError>)
    ensures
        match r {
            Ok(pr) => sp_archive(bytes@) == Some((vnode_seq(pr.0@), pr.1 as int)) && pr.1
                <= bytes@.len(),
            Err(e) => sp_archive(bytes@) is None && (e == ArchiveError::CorruptHeader
                <==> header_bad(bytes@)),
        },
{
    let n = bytes.len();
    let d = digit_run_end_exec(bytes, 0);
    if d == 0 || d >= n {
        return Err(ArchiveError::CorruptHeader);
    }
    let ell = match read_header_len(bytes, d) {
        Some(v) => v,
        None => {
            return Err(ArchiveError::CorruptHeader);
        },
    };
    proof {
        assert(!header_bad(bytes@));
    }
    match parse_nodes(bytes, d) {
        Some((ns, j)) => {
            if j == d + ell {
                Ok((ns, j))
            } else {
                Err(ArchiveError::CorruptIndex)
            }
        },
        None => Err(ArchiveError::CorruptIndex),
    }
}

} // verus!
