//! Index conversions over a whole tree: each descent scans the cached
//! child summaries in the source dimension, subtracts the prefix, and
//! recurses, deferring to the flat-text utilities at the leaf.

use vstd::prelude::*;

use crate::node::children_bytes;
use crate::node::lemma_children_bytes_decompose;
use crate::node::lemma_children_bytes_empty;
use crate::node::lemma_children_bytes_first;
use crate::node::lemma_height_nonneg;
use crate::node::lemma_node_first_byte;
use crate::node::lemma_node_size;
use crate::node::Node;
use crate::str_utils::byte_to_char_spec;
use crate::str_utils::char_of_byte_bytes;
use crate::str_utils::char_start_bytes;
use crate::str_utils::char_to_byte_spec;
use crate::str_utils::count_starts;
use crate::str_utils::is_boundary;
use crate::str_utils::lemma_boundary_unique;
use crate::str_utils::lemma_char_to_byte_char;
use crate::str_utils::lemma_count_starts_bounds;
use crate::str_utils::lemma_count_starts_concat;
use crate::str_utils::lemma_count_starts_take_monotone;
use crate::str_utils::breaks_upto;
use crate::str_utils::count_breaks;
use crate::str_utils::is_break_at;
use crate::str_utils::lemma_breaks_upto_concat;
use crate::str_utils::lemma_cr_end_break;
use crate::str_utils::line_to_byte_spec;
use crate::str_utils::seam;
use crate::text_info::info_wf;
use crate::text_info::TextInfo;

verus! {

/// The state of a scan over the children of an internal node: `i` children
/// consumed, whose text is `pfx` with `acc_c` chars in `acc_b` bytes.
struct ScanState {
    i: usize,
    acc_c: usize,
    acc_b: usize,
}

/// Scan the children of `ch` for the child whose char range contains `c`:
/// the first child whose cumulative char end exceeds `c`, anchored to the
/// last child when `c` reaches the total.
fn scan_children_by_char(ch: &crate::node::NodeChildren, Ghost(n): Ghost<Node>, c: usize) -> (r:
    ScanState)
    requires
        n.wf(),
        n == Node::Internal(*ch),
    ensures
        ({
            let nv = n->Internal_0.nodes@;
            let pfx = children_bytes(nv.take(r.i as int));
            &&& 0 <= r.i < nv.len()
            &&& r.acc_c == count_starts(pfx)
            &&& r.acc_b == pfx.len()
            &&& r.acc_c <= c
            &&& r.acc_b <= n.bytes().len()
            &&& (r.i + 1 < nv.len() ==> c < r.acc_c + count_starts(nv[r.i as int].bytes()))
        }),
{
    let ghost nv = ch.nodes@;
    let ghost nb = n.bytes();
    let count = ch.nodes.len();
    let mut i: usize = 0;
    let mut acc_c: usize = 0;
    let mut acc_b: usize = 0;
    proof {
        lemma_children_bytes_empty(nv.take(0));
    }
    while i + 1 < count && c - acc_c >= ch.infos[i].chars
        invariant
            0 <= i < count == nv.len(),
            n.wf(),
            n == Node::Internal(*ch),
            nv == ch.nodes@,
            nb == children_bytes(nv),
            acc_c == count_starts(children_bytes(nv.take(i as int))),
            acc_b == children_bytes(nv.take(i as int)).len(),
            acc_c <= c,
            acc_b <= nb.len(),
        decreases count - i,
    {
        proof {
            lemma_children_bytes_decompose(nv, i as int);
            lemma_children_bytes_first(nv.skip(i as int));
            assert(nv.skip(i as int)[0] == nv[i as int]);
            lemma_count_starts_concat(children_bytes(nv.take(i as int)), nv[i as int].bytes());
            assert(nv.take(i + 1).drop_last() =~= nv.take(i as int));
            assert(nv.take(i + 1).last() == nv[i as int]);
            lemma_count_starts_bounds(nv[i as int].bytes());
            assert(crate::text_info::info_wf(ch.infos@[i as int], nv[i as int].bytes()));
            lemma_children_bytes_decompose(nv, i + 1);
            crate::node::lemma_children_bytes_parts_len(nv, i + 1);
            lemma_count_starts_bounds(children_bytes(nv.take(i + 1)));
            crate::node::lemma_bytes_bounds(n);
        }
        acc_c = acc_c + ch.infos[i].chars;
        acc_b = acc_b + ch.infos[i].bytes;
        i = i + 1;
    }
    proof {
        assert(crate::text_info::info_wf(ch.infos@[i as int], nv[i as int].bytes()));
    }
    ScanState { i, acc_c, acc_b }
}

/// Facts shared by every by-char descent: the text splits around child `k`
/// and its counts add up.
proof fn lemma_scan_frame(n: Node, k: int)
    requires
        n.wf(),
        n is Internal,
        0 <= k < n->Internal_0.nodes@.len(),
    ensures
        ({
            let nv = n->Internal_0.nodes@;
            let pfx = children_bytes(nv.take(k));
            let cbytes = nv[k].bytes();
            let sfx = children_bytes(nv.skip(k + 1));
            &&& n.bytes() == pfx + (cbytes + sfx)
            &&& count_starts(n.bytes()) == count_starts(pfx) + count_starts(cbytes)
                + count_starts(sfx)
            &&& nv[k].wf()
            &&& nv[k].child_ok()
            &&& cbytes.len() >= 1
            &&& !vstd::utf8::is_continuation_byte(cbytes[0])
            &&& (k + 1 == nv.len() ==> sfx.len() == 0 && count_starts(sfx) == 0)
            &&& (nv.skip(k + 1).len() > 0 ==> sfx.len() >= 1 && !vstd::utf8::is_continuation_byte(
                sfx[0],
            ))
        }),
{
    let nv = n->Internal_0.nodes@;
    let pfx = children_bytes(nv.take(k));
    let cbytes = nv[k].bytes();
    let sfx = children_bytes(nv.skip(k + 1));
    lemma_children_bytes_decompose(nv, k);
    lemma_children_bytes_first(nv.skip(k));
    assert(nv.skip(k)[0] == nv[k]);
    assert(nv.skip(k).skip(1) =~= nv.skip(k + 1));
    lemma_count_starts_concat(pfx, cbytes + sfx);
    lemma_count_starts_concat(cbytes, sfx);
    lemma_node_size(nv[k]);
    lemma_node_first_byte(nv[k]);
    if k + 1 == nv.len() {
        lemma_children_bytes_empty(nv.skip(k + 1));
    }
    if nv.skip(k + 1).len() > 0 {
        lemma_children_bytes_first(nv.skip(k + 1));
        let nxt = nv.skip(k + 1)[0];
        assert(nxt.wf() && nxt.child_ok());
        lemma_node_size(nxt);
        lemma_node_first_byte(nxt);
        assert(sfx[0] == nxt.bytes()[0]);
    }
}

/// Byte index of the start of char `c` in the tree's text, end-anchored.
pub fn node_char_to_byte(n: &Node, c: usize) -> (r: usize)
    requires
        n.wf(),
    ensures
        r == char_to_byte_spec(n.bytes(), c as int),
    decreases n.height(),
{
    proof {
        lemma_height_nonneg(*n);
    }
    match n {
        Node::Leaf(v) => char_start_bytes(v.as_slice(), c),
        Node::Internal(ch) => {
            let ghost nb = n.bytes();
            let st = scan_children_by_char(ch, Ghost(*n), c);
            let ghost nv = n->Internal_0.nodes@;
            let ghost k = st.i as int;
            let ghost pfx = children_bytes(nv.take(k));
            let ghost cbytes = nv[k].bytes();
            let ghost sfx = children_bytes(nv.skip(k + 1));
            proof {
                lemma_scan_frame(*n, k);
                crate::node::lemma_bytes_bounds(*n);
            }
            let child = &ch.nodes[st.i];
            let c_local = c - st.acc_c;
            let rb = node_char_to_byte(child, c_local);
            proof {
                let jb = char_to_byte_spec(cbytes, c_local as int);
                let j = pfx.len() + jb;
                lemma_char_to_byte_char(cbytes, c_local as int);
                lemma_char_to_byte_char(nb, c as int);
                assert(count_starts(nb.take(j)) == st.acc_c + count_starts(cbytes.take(jb))) by {
                    assert(nb.take(j) =~= pfx + cbytes.take(jb));
                    lemma_count_starts_concat(pfx, cbytes.take(jb));
                }
                assert(is_boundary(nb, j)) by {
                    if jb < cbytes.len() {
                        assert(nb[j] == cbytes[jb]);
                    } else if nv.skip(k + 1).len() > 0 {
                        assert(nb[j] == sfx[0]);
                    }
                }
                lemma_count_starts_bounds(sfx);
                lemma_count_starts_bounds(cbytes);
                if c <= count_starts(nb) {
                    assert(c_local <= count_starts(cbytes));
                    assert(count_starts(nb.take(j)) == c);
                    lemma_boundary_unique(nb, j, char_to_byte_spec(nb, c as int));
                } else {
                    assert(c_local >= count_starts(cbytes));
                    assert(jb == cbytes.len());
                    assert(sfx.len() == 0);
                    assert(j == nb.len());
                }
                assert(char_to_byte_spec(nb, c as int) == j);
                assert(st.acc_b + rb <= nb.len());
            }
            st.acc_b + rb
        },
    }
}

/// Char index of the char containing byte `b` in the tree's text.
pub fn node_byte_to_char(n: &Node, b: usize) -> (r: usize)
    requires
        n.wf(),
    ensures
        r == byte_to_char_spec(n.bytes(), b as int),
    decreases n.height(),
{
    proof {
        lemma_height_nonneg(*n);
        if n.bytes().len() > 0 {
            lemma_node_first_byte(*n);
        }
    }
    match n {
        Node::Leaf(v) => char_of_byte_bytes(v.as_slice(), b),
        Node::Internal(ch) => {
            let ghost nb = n.bytes();
            let st = scan_children_by_byte(ch, Ghost(*n), b);
            let ghost nv = n->Internal_0.nodes@;
            let ghost k = st.i as int;
            let ghost pfx = children_bytes(nv.take(k));
            let ghost cbytes = nv[k].bytes();
            let ghost sfx = children_bytes(nv.skip(k + 1));
            proof {
                lemma_scan_frame(*n, k);
                crate::node::lemma_bytes_bounds(*n);
            }
            let child = &ch.nodes[st.i];
            let b_local = b - st.acc_b;
            let rc = node_byte_to_char(child, b_local);
            proof {
                lemma_count_starts_bounds(cbytes);
                lemma_count_starts_bounds(sfx);
                if (b as int) < nb.len() {
                    assert(b_local < cbytes.len());
                    assert(byte_to_char_spec(nb, b as int) == count_starts(nb.take(b + 1)) - 1);
                    assert(nb.take(b + 1) =~= pfx + cbytes.take(b_local + 1));
                    lemma_count_starts_concat(pfx, cbytes.take(b_local + 1));
                    assert(byte_to_char_spec(cbytes, b_local as int) == count_starts(
                        cbytes.take(b_local + 1),
                    ) - 1);
                } else {
                    assert(k + 1 == nv.len());
                    assert(b_local >= cbytes.len());
                    assert(nb =~= pfx + cbytes);
                    lemma_count_starts_concat(pfx, cbytes);
                }
                lemma_count_starts_bounds(nb);
                assert(st.acc_c + rc <= count_starts(nb)) by {
                    if (b as int) < nb.len() {
                        lemma_count_starts_take_monotone(cbytes, b_local + 1, cbytes.len() as int);
                        assert(cbytes.take(cbytes.len() as int) =~= cbytes);
                    }
                }
            }
            st.acc_c + rc
        },
    }
}

/// Scan the children of `ch` for the child whose byte range contains `b`:
/// the first child whose cumulative byte end exceeds `b`, anchored to the
/// last child when `b` reaches the total.
fn scan_children_by_byte(ch: &crate::node::NodeChildren, Ghost(n): Ghost<Node>, b: usize) -> (r:
    ScanState)
    requires
        n.wf(),
        n == Node::Internal(*ch),
    ensures
        ({
            let nv = n->Internal_0.nodes@;
            let pfx = children_bytes(nv.take(r.i as int));
            &&& 0 <= r.i < nv.len()
            &&& r.acc_c == count_starts(pfx)
            &&& r.acc_b == pfx.len()
            &&& r.acc_b <= b
            &&& r.acc_b <= n.bytes().len()
            &&& (r.i + 1 < nv.len() ==> b < r.acc_b + nv[r.i as int].bytes().len())
        }),
{
    let ghost nv = ch.nodes@;
    let ghost nb = n.bytes();
    let count = ch.nodes.len();
    let mut i: usize = 0;
    let mut acc_c: usize = 0;
    let mut acc_b: usize = 0;
    proof {
        lemma_children_bytes_empty(nv.take(0));
    }
    while i + 1 < count && b - acc_b >= ch.infos[i].bytes
        invariant
            0 <= i < count == nv.len(),
            n.wf(),
            n == Node::Internal(*ch),
            nv == ch.nodes@,
            nb == children_bytes(nv),
            acc_c == count_starts(children_bytes(nv.take(i as int))),
            acc_b == children_bytes(nv.take(i as int)).len(),
            acc_b <= b,
            acc_b <= nb.len(),
        decreases count - i,
    {
        proof {
            lemma_children_bytes_decompose(nv, i as int);
            lemma_children_bytes_first(nv.skip(i as int));
            assert(nv.skip(i as int)[0] == nv[i as int]);
            lemma_count_starts_concat(children_bytes(nv.take(i as int)), nv[i as int].bytes());
            assert(nv.take(i + 1).drop_last() =~= nv.take(i as int));
            assert(nv.take(i + 1).last() == nv[i as int]);
            lemma_count_starts_bounds(nv[i as int].bytes());
            assert(crate::text_info::info_wf(ch.infos@[i as int], nv[i as int].bytes()));
            lemma_children_bytes_decompose(nv, i + 1);
            crate::node::lemma_children_bytes_parts_len(nv, i + 1);
            lemma_count_starts_bounds(children_bytes(nv.take(i + 1)));
            crate::node::lemma_bytes_bounds(n);
        }
        acc_c = acc_c + ch.infos[i].chars;
        acc_b = acc_b + ch.infos[i].bytes;
        i = i + 1;
    }
    proof {
        assert(crate::text_info::info_wf(ch.infos@[i as int], nv[i as int].bytes()));
    }
    ScanState { i, acc_c, acc_b }
}

/// Scan the children by byte index as `scan_children_by_byte` does, also
/// carrying the full summary of the consumed prefix.
fn scan_children_by_byte_info(
    ch: &crate::node::NodeChildren,
    Ghost(n): Ghost<Node>,
    b: usize,
) -> (r: (usize, TextInfo))
    requires
        n.wf(),
        n == Node::Internal(*ch),
    ensures
        ({
            let nv = n->Internal_0.nodes@;
            let pfx = children_bytes(nv.take(r.0 as int));
            &&& 0 <= r.0 < nv.len()
            &&& info_wf(r.1, pfx)
            &&& r.1.bytes <= b
            &&& (r.0 + 1 < nv.len() ==> b < r.1.bytes + nv[r.0 as int].bytes().len())
        }),
{
    let ghost nv = ch.nodes@;
    let ghost nb = n.bytes();
    let count = ch.nodes.len();
    let mut i: usize = 0;
    let mut acc = TextInfo::new();
    proof {
        lemma_children_bytes_empty(nv.take(0));
    }
    while i + 1 < count && b - acc.bytes >= ch.infos[i].bytes
        invariant
            0 <= i < count == nv.len(),
            n.wf(),
            n == Node::Internal(*ch),
            nv == ch.nodes@,
            nb == children_bytes(nv),
            info_wf(acc, children_bytes(nv.take(i as int))),
            acc.bytes <= b,
            acc.bytes <= nb.len(),
        decreases count - i,
    {
        proof {
            lemma_children_bytes_decompose(nv, i as int);
            lemma_children_bytes_first(nv.skip(i as int));
            assert(nv.skip(i as int)[0] == nv[i as int]);
            assert(nv.take(i + 1).drop_last() =~= nv.take(i as int));
            assert(nv.take(i + 1).last() == nv[i as int]);
            assert(crate::text_info::info_wf(ch.infos@[i as int], nv[i as int].bytes()));
            lemma_children_bytes_decompose(nv, i + 1);
            crate::node::lemma_children_bytes_parts_len(nv, i + 1);
            crate::node::lemma_bytes_bounds(n);
            lemma_node_size(nv[i as int]);
            lemma_node_first_byte(nv[i as int]);
        }
        let info = ch.infos[i];
        acc = acc.combine(
            info,
            Ghost(children_bytes(nv.take(i as int))),
            Ghost(nv[i as int].bytes()),
        );
        i = i + 1;
    }
    proof {
        assert(crate::text_info::info_wf(ch.infos@[i as int], nv[i as int].bytes()));
    }
    (i, acc)
}

/// Line index of the line containing byte `b` of the tree's text: the
/// number of breaks at or before it.
pub fn node_byte_to_line(n: &Node, b: usize) -> (r: usize)
    requires
        n.wf(),
    ensures
        r == breaks_upto(n.bytes(), b as int),
    decreases n.height(),
{
    proof {
        lemma_height_nonneg(*n);
    }
    match n {
        Node::Leaf(v) => crate::str_utils::line_of_byte_bytes(v.as_slice(), b),
        Node::Internal(ch) => {
            let ghost nb = n.bytes();
            let (k_exec, acc) = scan_children_by_byte_info(ch, Ghost(*n), b);
            let ghost nv = n->Internal_0.nodes@;
            let ghost k = k_exec as int;
            let ghost pfx = children_bytes(nv.take(k));
            let ghost cbytes = nv[k].bytes();
            let ghost sfx = children_bytes(nv.skip(k + 1));
            let ghost rest = cbytes + sfx;
            proof {
                lemma_scan_frame(*n, k);
                crate::node::lemma_bytes_bounds(*n);
                assert(crate::text_info::info_wf(ch.infos@[k], cbytes));
            }
            let child = &ch.nodes[k_exec];
            let b_local = b - acc.bytes;
            let cross = acc.ends_with_cr && ch.infos[k_exec].starts_with_lf;
            proof {
                if cross {
                    lemma_cr_end_break(pfx);
                }
                assert(seam(pfx, rest) == if cross {
                    1int
                } else {
                    0int
                }) by {
                    assert(rest[0] == cbytes[0]);
                }
                crate::str_utils::lemma_breaks_upto_bounds(pfx, pfx.len() as int);
            }
            let corrected = if cross {
                acc.line_breaks - 1
            } else {
                acc.line_breaks
            };
            let rl = node_byte_to_line(child, b_local);
            proof {
                crate::str_utils::lemma_breaks_upto_bounds(cbytes, b_local as int);
                crate::str_utils::lemma_breaks_upto_bounds(cbytes, cbytes.len() as int);
                if b_local <= cbytes.len() {
                    lemma_breaks_upto_concat(pfx, rest, b_local as int);
                    if b_local < cbytes.len() {
                        crate::str_utils::lemma_breaks_upto_prefix(cbytes, sfx, b_local as int);
                    } else {
                        assert(k + 1 == nv.len());
                        assert(rest =~= cbytes);
                    }
                } else {
                    assert(k + 1 == nv.len());
                    assert(rest =~= cbytes);
                    lemma_breaks_upto_concat(pfx, rest, rest.len() as int);
                    crate::str_utils::lemma_breaks_upto_beyond(cbytes, b_local as int);
                    crate::str_utils::lemma_breaks_upto_beyond(nb, b as int);
                }
            }
            corrected + rl
        },
    }
}

/// Byte index of the start of line `l` of the tree's text, end-anchored.
#[verifier::rlimit(100)]
pub fn node_line_to_byte(n: &Node, l: usize) -> (r: usize)
    requires
        n.wf(),
    ensures
        r == line_to_byte_spec(n.bytes(), l as int),
    decreases n.height(),
{
    proof {
        lemma_height_nonneg(*n);
    }
    match n {
        Node::Leaf(v) => crate::str_utils::line_start_bytes(v.as_slice(), l),
        Node::Internal(ch) => {
            if l == 0 {
                return 0;
            }
            let ghost nb = n.bytes();
            let ghost nv = ch.nodes@;
            let count = ch.nodes.len();
            let mut i: usize = 0;
            let mut acc = TextInfo::new();
            proof {
                lemma_children_bytes_empty(nv.take(0));
                crate::node::lemma_bytes_bounds(*n);
            }
            loop
                invariant_except_break
                    0 <= i < count == nv.len(),
                    n.wf(),
                    *n == Node::Internal(*ch),
                    nv == ch.nodes@,
                    nb == children_bytes(nv),
                    l >= 1,
                    info_wf(acc, children_bytes(nv.take(i as int))),
                    acc.bytes <= nb.len(),
                    l > breaks_upto(nb, children_bytes(nv.take(i as int)).len() as int),
                ensures
                    0 <= i < count == nv.len(),
                    info_wf(acc, children_bytes(nv.take(i as int))),
                    acc.bytes <= nb.len(),
                    l > breaks_upto(nb, children_bytes(nv.take(i as int)).len() as int),
                    i + 1 < count ==> l <= breaks_upto(
                        nb,
                        children_bytes(nv.take(i as int)).len() + nv[i as int].bytes().len() as int,
                    ),
                decreases count - i,
            {
                if i + 1 >= count {
                    break ;
                }
                let ghost pfx_i = children_bytes(nv.take(i as int));
                let ghost cb_i = nv[i as int].bytes();
                let ghost rest_i = children_bytes(nv.skip(i as int + 1));
                proof {
                    lemma_scan_frame(*n, i as int);
                    assert(crate::text_info::info_wf(ch.infos@[i as int], cb_i));
                    assert(crate::text_info::info_wf(ch.infos@[i as int + 1], nv[i as int
                        + 1].bytes()));
                    lemma_children_bytes_decompose(nv, i + 1);
                    crate::node::lemma_children_bytes_parts_len(nv, i + 1);
                    assert(nv.take(i + 1).drop_last() =~= nv.take(i as int));
                    assert(nv.take(i + 1).last() == nv[i as int]);
                    lemma_node_size(nv[i as int]);
                    lemma_node_first_byte(nv[i as int]);
                }
                let acc_next = acc.combine(ch.infos[i], Ghost(pfx_i), Ghost(cb_i));
                let ghost pfx_n = children_bytes(nv.take(i as int + 1));
                let ghost rest_n = children_bytes(nv.skip(i as int + 1));
                proof {
                    assert(pfx_n == pfx_i + cb_i);
                    assert(info_wf(acc_next, pfx_n));
                    lemma_scan_frame(*n, i as int + 1);
                    assert(rest_n == nv[i as int + 1].bytes() + children_bytes(
                        nv.skip(i as int + 2),
                    )) by {
                        lemma_children_bytes_first(nv.skip(i as int + 1));
                        assert(nv.skip(i as int + 1)[0] == nv[i as int + 1]);
                        assert(nv.skip(i as int + 1).skip(1) =~= nv.skip(i as int + 2));
                    }
                    assert(nb == pfx_n + rest_n) by {
                        lemma_children_bytes_decompose(nv, i + 1);
                    }
                    assert(rest_n.len() > 0 && rest_n[0] == nv[i as int + 1].bytes()[0]);
                    lemma_node_size(nv[i as int + 1]);
                    lemma_node_first_byte(nv[i as int + 1]);
                    lemma_breaks_upto_concat(pfx_n, rest_n, 0);
                    crate::str_utils::lemma_breaks_upto_bounds(pfx_n, pfx_n.len() as int);
                }
                let cross_next = acc_next.ends_with_cr && ch.infos[i + 1].starts_with_lf;
                proof {
                    if cross_next {
                        lemma_cr_end_break(pfx_n);
                    }
                    assert(seam(pfx_n, rest_n) == if cross_next {
                        1int
                    } else {
                        0int
                    });
                }
                let cor = if cross_next {
                    acc_next.line_breaks - 1
                } else {
                    acc_next.line_breaks
                };
                proof {
                    assert(cor == breaks_upto(nb, pfx_n.len() as int));
                }
                if l <= cor {
                    break ;
                }
                acc = acc_next;
                i = i + 1;
            }
            let ghost k = i as int;
            let ghost pfx = children_bytes(nv.take(k));
            let ghost cbytes = nv[k].bytes();
            let ghost sfx = children_bytes(nv.skip(k + 1));
            let ghost rest = cbytes + sfx;
            proof {
                lemma_scan_frame(*n, k);
                assert(crate::text_info::info_wf(ch.infos@[k], cbytes));
                assert(rest[0] == cbytes[0]);
                lemma_breaks_upto_concat(pfx, rest, 0);
                crate::str_utils::lemma_breaks_upto_bounds(pfx, pfx.len() as int);
                if acc.ends_with_cr && cbytes[0] == 0x0Au8 {
                    lemma_cr_end_break(pfx);
                }
            }
            let child = &ch.nodes[i];
            let cross = acc.ends_with_cr && ch.infos[i].starts_with_lf;
            let cor_before = if cross {
                acc.line_breaks - 1
            } else {
                acc.line_breaks
            };
            proof {
                assert(cor_before == breaks_upto(nb, pfx.len() as int));
            }
            let l_local = l - cor_before;
            let rl = node_line_to_byte(child, l_local);
            proof {
                let j = pfx.len() + line_to_byte_spec(cbytes, l_local as int);
                crate::str_utils::lemma_line_to_byte_char(cbytes, l_local as int);
                crate::str_utils::lemma_line_to_byte_char(nb, l as int);
                crate::str_utils::lemma_breaks_upto_bounds(cbytes, cbytes.len() as int);
                lemma_breaks_upto_concat(cbytes, sfx, 0);
                lemma_breaks_upto_concat(pfx, rest, cbytes.len() as int);
                if l_local <= count_breaks(cbytes) {
                    let rloc = line_to_byte_spec(cbytes, l_local as int);
                    assert(breaks_upto(cbytes, rloc) == l_local);
                    assert(is_break_at(cbytes, rloc));
                    if k + 1 < nv.len() {
                        assert(l_local <= count_breaks(cbytes) - seam(cbytes, sfx));
                        if seam(cbytes, sfx) == 1 {
                            assert(rloc < cbytes.len()) by {
                                if rloc == cbytes.len() {
                                    assert(breaks_upto(cbytes, rloc) == count_breaks(cbytes));
                                    assert(false);
                                }
                            }
                        }
                    }
                    assert(breaks_upto(rest, rloc) == l_local) by {
                        if rloc < cbytes.len() {
                            crate::str_utils::lemma_breaks_upto_prefix(cbytes, sfx, rloc);
                        } else {
                            assert(breaks_upto(rest, cbytes.len() as int) == count_breaks(cbytes)
                                - seam(cbytes, sfx));
                            assert(seam(cbytes, sfx) == 0);
                        }
                    }
                    lemma_breaks_upto_concat(pfx, rest, rloc);
                    assert(breaks_upto(nb, j) == l);
                    assert(is_break_at(nb, j)) by {
                        crate::str_utils::lemma_break_at_shift(pfx, rest, rloc);
                        assert(is_break_at(rest, rloc)) by {
                            if rloc < cbytes.len() {
                                assert(rest[rloc - 1] == cbytes[rloc - 1]);
                                assert(rloc >= 2 ==> rest[rloc - 2] == cbytes[rloc - 2]);
                                assert(rloc >= 3 ==> rest[rloc - 3] == cbytes[rloc - 3]);
                                assert(rest[rloc] == cbytes[rloc]);
                            } else {
                                assert(rloc == cbytes.len());
                                assert(rest[rloc - 1] == cbytes[rloc - 1]);
                                assert(rloc >= 2 ==> rest[rloc - 2] == cbytes[rloc - 2]);
                                assert(rloc >= 3 ==> rest[rloc - 3] == cbytes[rloc - 3]);
                                if cbytes[rloc - 1] == 0x0Du8 {
                                    assert(seam(cbytes, sfx) == 0);
                                    assert(rloc < rest.len() ==> rest[rloc] == sfx[0]);
                                    assert(rloc < rest.len() ==> rest[rloc] != 0x0Au8);
                                }
                            }
                        }
                    }
                    crate::str_utils::lemma_breaks_upto_monotone(nb, j, nb.len() as int);
                    assert(l <= count_breaks(nb));
                    crate::str_utils::lemma_break_pos_unique(
                        nb,
                        j,
                        line_to_byte_spec(nb, l as int),
                    );
                } else {
                    assert(k + 1 == nv.len()) by {
                        if k + 1 < nv.len() {
                            assert(l_local <= count_breaks(cbytes) - seam(cbytes, sfx));
                            assert(false);
                        }
                    }
                    assert(sfx.len() == 0);
                    assert(rest =~= cbytes);
                    assert(line_to_byte_spec(cbytes, l_local as int) == cbytes.len());
                    assert(count_breaks(nb) == breaks_upto(nb, pfx.len() + cbytes.len() as int));
                    lemma_breaks_upto_concat(pfx, rest, rest.len() as int);
                    assert(count_breaks(nb) == cor_before + count_breaks(cbytes));
                    assert(l > count_breaks(nb));
                    assert(line_to_byte_spec(nb, l as int) == nb.len());
                    assert(j == nb.len());
                }
                assert(acc.bytes + rl <= nb.len());
            }
            acc.bytes + rl
        },
    }
}

/// The byte at index `b` of the tree's text.
pub fn node_byte_at(n: &Node, b: usize) -> (r: u8)
    requires
        n.wf(),
        b < n.bytes().len(),
    ensures
        r == n.bytes()[b as int],
    decreases n.height(),
{
    proof {
        lemma_height_nonneg(*n);
    }
    match n {
        Node::Leaf(v) => v[b],
        Node::Internal(ch) => {
            let ghost nb = n.bytes();
            let st = scan_children_by_byte(ch, Ghost(*n), b);
            let ghost nv = n->Internal_0.nodes@;
            let ghost k = st.i as int;
            let ghost pfx = children_bytes(nv.take(k));
            let ghost cbytes = nv[k].bytes();
            let ghost sfx = children_bytes(nv.skip(k + 1));
            proof {
                lemma_scan_frame(*n, k);
            }
            let child = &ch.nodes[st.i];
            let b_local = b - st.acc_b;
            proof {
                if k + 1 < nv.len() {
                } else {
                    assert(nb =~= pfx + cbytes);
                }
                assert(b_local < cbytes.len());
                assert(nb[b as int] == cbytes[b_local as int]);
            }
            node_byte_at(child, b_local)
        },
    }
}

/// The char at char index `ci` of the tree's text.
pub fn node_char_at(n: &Node, ci: usize) -> (r: char)
    requires
        n.wf(),
        ci < count_starts(n.bytes()),
    ensures
        r == vstd::utf8::decode_utf8(n.bytes())[ci as int],
{
    let ghost nb = n.bytes();
    proof {
        crate::node::lemma_node_valid(*n);
        crate::node::lemma_bytes_bounds(*n);
        lemma_char_to_byte_char(nb, ci as int);
        lemma_count_starts_bounds(nb);
    }
    let j = node_char_to_byte(n, ci);
    proof {
        assert((j as int) < nb.len()) by {
            if j as int == nb.len() {
                assert(nb.take(j as int) =~= nb);
            }
        }
        crate::builder::lemma_scalar_step(nb, j as int);
    }
    let ghost tail = nb.skip(j as int);
    let ghost w_spec = vstd::utf8::length_of_first_scalar(tail);
    let b0 = node_byte_at(n, j);
    let w: usize = if b0 < 0x80 {
        1
    } else if b0 < 0xE0 {
        2
    } else if b0 < 0xF0 {
        3
    } else {
        4
    };
    proof {
        assert(tail[0] == nb[j as int]);
        assert(!vstd::utf8::is_continuation_byte(tail[0]));
        assert(w == w_spec);
    }
    let mut piece: Vec<u8> = Vec::new();
    let mut t: usize = 0;
    while t < w
        invariant
            0 <= t <= w,
            n.wf(),
            nb == n.bytes(),
            j + w <= nb.len(),
            piece@ =~= nb.subrange(j as int, j + t),
        decreases w - t,
    {
        let b = node_byte_at(n, j + t);
        piece.push(b);
        proof {
            assert(piece@ =~= nb.subrange(j as int, j + t + 1));
        }
        t = t + 1;
    }
    proof {
        assert(piece@ =~= tail.subrange(0, w_spec));
        assert(is_boundary(tail, w_spec)) by {
            if w_spec < tail.len() {
                assert(tail[w_spec] == nb[j + w_spec]);
            }
        }
        crate::str_utils::lemma_boundary_agree(tail, w_spec);
        vstd::utf8::valid_utf8_split(tail, w_spec);
        assert(vstd::utf8::valid_utf8(piece@));
    }
    let s = crate::rope::utf8_to_str(piece.as_slice());
    proof {
        vstd::utf8::encode_utf8_decode_utf8(s@);
        assert(s@ == vstd::utf8::decode_utf8(piece@));
        crate::str_utils::lemma_decode_len(piece@);
        assert(count_starts(piece@) == 1) by {
            assert(piece@ =~= seq![tail[0]] + piece@.skip(1));
            lemma_count_starts_concat(seq![tail[0]], piece@.skip(1));
            assert(count_starts(seq![tail[0]]) == 1) by {
                reveal_with_fuel(count_starts, 2);
                assert(seq![tail[0]].drop_last() =~= Seq::<u8>::empty());
            }
            assert(count_starts(piece@.skip(1)) == 0) by {
                lemma_count_starts_all_continuation(piece@.skip(1));
                assert(forall|x: int|
                    0 <= x < piece@.skip(1).len() ==> vstd::utf8::is_continuation_byte(
                        #[trigger] piece@.skip(1)[x],
                    )) by {
                    assert forall|x: int|
                        0 <= x < piece@.skip(1).len() implies vstd::utf8::is_continuation_byte(
                        piece@.skip(1)[x],
                    ) by {
                        assert(piece@.skip(1)[x] == tail[x + 1]);
                        assert(vstd::utf8::valid_leading_and_continuation_bytes_first_codepoint(
                            tail,
                        ));
                    }
                }
            }
        }
        // place the decoded char inside the whole text's decoding
        crate::str_utils::lemma_boundary_agree(nb, j as int);
        vstd::utf8::valid_utf8_split(nb, j as int);
        vstd::utf8::decode_utf8_split(nb, j as int);
        assert(nb.subrange(0, j as int) =~= nb.take(j as int));
        assert(nb.subrange(j as int, nb.len() as int) =~= tail);
        crate::str_utils::lemma_decode_len(nb.take(j as int));
        crate::str_utils::lemma_boundary_agree(tail, w_spec);
        vstd::utf8::decode_utf8_split(tail, w_spec);
        assert(tail.subrange(0, w_spec) =~= piece@);
        assert(vstd::utf8::decode_utf8(nb)[ci as int] == vstd::utf8::decode_utf8(piece@)[0]);
    }
    s.get_char(0)
}

/// Only continuation bytes, no scalar starts.
proof fn lemma_count_starts_all_continuation(s: Seq<u8>)
    requires
        forall|x: int| 0 <= x < s.len() ==> vstd::utf8::is_continuation_byte(#[trigger] s[x]),
    ensures
        count_starts(s) == 0,
    decreases s.len(),
{
    if s.len() > 0 {
        assert(forall|x: int|
            0 <= x < s.drop_last().len() ==> vstd::utf8::is_continuation_byte(
                #[trigger] s.drop_last()[x],
            ));
        lemma_count_starts_all_continuation(s.drop_last());
    }
}

/// The end of the leaf fragment containing byte `b`: the next position at
/// which a new fragment starts.
pub(crate) fn leaf_span_at(n: &Node, b: usize) -> (r: usize)
    requires
        n.wf(),
        b < n.bytes().len(),
    ensures
        r == crate::node::leaf_end(*n, b as int),
        b < r <= n.bytes().len(),
    decreases n.height(),
{
    proof {
        lemma_height_nonneg(*n);
    }
    match n {
        Node::Leaf(v) => v.len(),
        Node::Internal(ch) => {
            let ghost nb = n.bytes();
            let st = scan_children_by_byte(ch, Ghost(*n), b);
            let ghost nv = n->Internal_0.nodes@;
            let ghost k = st.i as int;
            proof {
                lemma_scan_frame(*n, k);
                crate::node::lemma_children_bytes_parts_len(nv, k);
                if k + 1 == nv.len() {
                    assert(nb =~= children_bytes(nv.take(k)) + nv[k].bytes());
                }
                crate::node::lemma_children_leaf_end_at(nv, k, b as int);
            }
            let child = &ch.nodes[st.i];
            let span = leaf_span_at(child, b - st.acc_b);
            st.acc_b + span
        },
    }
}

} // verus!
