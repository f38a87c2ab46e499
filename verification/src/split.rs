//! Splitting a tree at a char index into two trees whose texts concatenate
//! to the original.  Each side is rebuilt from whole untouched children
//! plus the recursively split boundary child, using `concat` to restore
//! the occupancy and balance invariants.

use vstd::prelude::*;
use vstd::utf8::valid_utf8_split;

use crate::concat::concat;
use crate::node::children_bytes;
use crate::node::lemma_bytes_bounds;
use crate::node::lemma_children_bytes_decompose;
use crate::node::lemma_children_bytes_empty;
use crate::node::lemma_children_bytes_first;
use crate::node::lemma_children_bytes_one;
use crate::node::lemma_height_nonneg;
use crate::node::lemma_node_first_byte;
use crate::node::lemma_node_size;
use crate::node::make_internal;
use crate::node::Node;
use crate::node::MAX_CHILDREN;
use crate::node::MAX_TOTAL_BYTES;
use crate::str_utils::char_start_bytes;
use crate::str_utils::char_to_byte_spec;
use crate::str_utils::count_starts;
use crate::str_utils::is_boundary;
use crate::str_utils::lemma_boundary_agree;
use crate::str_utils::lemma_boundary_unique;
use crate::str_utils::lemma_char_to_byte_char;
use crate::str_utils::lemma_count_starts_bounds;
use crate::str_utils::lemma_count_starts_concat;

verus! {

/// Build a root tree over zero or more children of equal height.
pub(crate) fn tree_from_children(nodes: Vec<Node>) -> (r: Node)
    requires
        nodes@.len() <= MAX_CHILDREN,
        forall|i: int| 0 <= i < nodes@.len() ==> (#[trigger] nodes@[i]).wf(),
        forall|i: int| 0 <= i < nodes@.len() ==> (#[trigger] nodes@[i]).child_ok(),
        forall|i: int|
            0 <= i < nodes@.len() ==> (#[trigger] nodes@[i]).height() == nodes@[0].height(),
        children_bytes(nodes@).len() <= MAX_TOTAL_BYTES,
    ensures
        r.wf(),
        r.bytes() == children_bytes(nodes@),
{
    let ghost gv = nodes@;
    if nodes.len() == 0 {
        proof {
            lemma_children_bytes_empty(gv);
        }
        Node::empty()
    } else if nodes.len() == 1 {
        let mut nodes = nodes;
        let only = match nodes.pop() {
            Some(n) => n,
            None => {
                proof {
                    assert(false);
                }
                Node::empty()
            },
        };
        proof {
            lemma_children_bytes_one(gv);
            assert(gv[0] == only);
        }
        only
    } else {
        make_internal(nodes)
    }
}

/// Split a tree at char index `c`: the left result holds the text before
/// the start of char `c`, the right result the rest.  A char index at or
/// beyond the char count anchors to the end.
#[verifier::rlimit(100)]
pub fn split_node(n: Node, c: usize) -> (r: (Node, Node))
    requires
        n.wf(),
    ensures
        r.0.wf(),
        r.1.wf(),
        r.0.bytes() == n.bytes().take(char_to_byte_spec(n.bytes(), c as int)),
        r.1.bytes() == n.bytes().skip(char_to_byte_spec(n.bytes(), c as int)),
    decreases n.height(),
{
    let ghost gn = n;
    let ghost nb = n.bytes();
    proof {
        lemma_char_to_byte_char(nb, c as int);
        lemma_height_nonneg(gn);
    }
    match n {
        Node::Leaf(mut v) => {
            let b = char_start_bytes(v.as_slice(), c);
            let right = v.split_off(b);
            proof {
                lemma_boundary_agree(nb, b as int);
                valid_utf8_split(nb, b as int);
                assert(v@ =~= nb.take(b as int));
                assert(right@ =~= nb.skip(b as int));
            }
            (Node::Leaf(v), Node::Leaf(right))
        },
        Node::Internal(ch) => {
            let ghost nv = ch.nodes@;
            let count = ch.nodes.len();
            let mut i: usize = 0;
            let mut acc_c: usize = 0;
            let mut acc_b: usize = 0;
            proof {
                lemma_children_bytes_empty(nv.take(0));
            }
            while i + 1 < count && c - acc_c >= ch.infos[i].chars
                invariant
                    0 <= i < count == nv.len(),
                    gn.wf(),
                    gn == Node::Internal(ch),
                    nv == ch.nodes@,
                    nb == children_bytes(nv),
                    acc_c == count_starts(children_bytes(nv.take(i as int))),
                    acc_b == children_bytes(nv.take(i as int)).len(),
                    acc_c <= c,
                    acc_b <= nb.len(),
                decreases count - i,
            {
                proof {
                    lemma_children_bytes_decompose(nv, i as int);
                    lemma_children_bytes_first(nv.skip(i as int));
                    assert(nv.skip(i as int)[0] == nv[i as int]);
                    lemma_count_starts_concat(
                        children_bytes(nv.take(i as int)),
                        nv[i as int].bytes(),
                    );
                    assert(nv.take(i + 1).drop_last() =~= nv.take(i as int));
                    assert(nv.take(i + 1).last() == nv[i as int]);
                    lemma_count_starts_bounds(nv[i as int].bytes());
                    assert(crate::text_info::info_wf(ch.infos@[i as int], nv[i as int].bytes()));
                    lemma_children_bytes_decompose(nv, i + 1);
                    crate::node::lemma_children_bytes_parts_len(nv, i + 1);
                }
                acc_c = acc_c + ch.infos[i].chars;
                acc_b = acc_b + ch.infos[i].bytes;
                i = i + 1;
            }
            let ghost k = i as int;
            let ghost pfx = children_bytes(nv.take(k));
            let ghost cbytes = nv[k].bytes();
            let ghost sfx = children_bytes(nv.skip(k + 1));
            proof {
                lemma_children_bytes_decompose(nv, k);
                lemma_children_bytes_first(nv.skip(k));
                assert(nv.skip(k)[0] == nv[k]);
                assert(nv.skip(k).skip(1) =~= nv.skip(k + 1));
                assert(nb == pfx + (cbytes + sfx));
                lemma_count_starts_concat(pfx, cbytes + sfx);
                lemma_count_starts_concat(cbytes, sfx);
                lemma_count_starts_bounds(sfx);
                lemma_count_starts_bounds(cbytes);
                // the scan stopped either because c falls inside child k, or
                // because k is the last child
                if i + 1 < count {
                    assert(c < acc_c + count_starts(cbytes));
                } else {
                    assert(nv.skip(k + 1).len() == 0);
                    lemma_children_bytes_empty(nv.skip(k + 1));
                }
            }
            let c_local = c - acc_c;
            let mut nodes = ch.nodes;
            let mut right_nodes = nodes.split_off(i);
            let child = right_nodes.remove(0);
            proof {
                assert(nodes@ =~= nv.take(k));
                assert(right_nodes@ =~= nv.skip(k + 1));
                assert(child == nv[k]);
                assert(child.wf());
                lemma_char_to_byte_char(cbytes, c_local as int);
                lemma_node_size(child);
            }
            let ghost jb = char_to_byte_spec(cbytes, c_local as int);
            let (l, rr) = split_node(child, c_local);
            proof {
                // the split point inside child k names the global split point
                let j = pfx.len() + jb;
                assert(count_starts(nb.take(j)) == acc_c + count_starts(cbytes.take(jb))) by {
                    assert(nb.take(j) =~= pfx + cbytes.take(jb));
                    lemma_count_starts_concat(pfx, cbytes.take(jb));
                }
                assert(is_boundary(nb, j)) by {
                    if jb < cbytes.len() {
                        assert(nb[j] == cbytes[jb]);
                    } else if nv.skip(k + 1).len() > 0 {
                        lemma_children_bytes_first(nv.skip(k + 1));
                        let nxt = nv.skip(k + 1)[0];
                        assert(nxt.wf() && nxt.child_ok());
                        lemma_node_size(nxt);
                        lemma_node_first_byte(nxt);
                        assert(sfx[0] == nxt.bytes()[0]);
                        assert(nb[j] == sfx[0]);
                    }
                }
                if c <= count_starts(nb) {
                    assert(c_local <= count_starts(cbytes)) by {
                        if i + 1 < count {
                        } else {
                            assert(count_starts(sfx) == 0);
                        }
                    }
                    assert(count_starts(nb.take(j)) == c);
                    lemma_boundary_unique(nb, j, char_to_byte_spec(nb, c as int));
                } else {
                    assert(count_starts(sfx) == 0);
                    assert(c_local >= count_starts(cbytes));
                    assert(jb == cbytes.len());
                    assert(sfx.len() == 0);
                    assert(j == nb.len());
                    assert(char_to_byte_spec(nb, c as int) == nb.len());
                }
                assert(char_to_byte_spec(nb, c as int) == j);
                assert(nb.take(j) =~= pfx + cbytes.take(jb));
                assert(nb.skip(j) =~= cbytes.skip(jb) + sfx);
            }
            let left_whole = tree_from_children(nodes);
            let ghost gl = l;
            proof {
                lemma_bytes_bounds(gn);
            }
            let left = concat(left_whole, l);
            let right_whole = tree_from_children(right_nodes);
            let right = concat(rr, right_whole);
            proof {
                let j = pfx.len() + jb;
                assert(left.bytes() == pfx + cbytes.take(jb));
                assert(right.bytes() == cbytes.skip(jb) + sfx);
            }
            (left, right)
        },
    }
}

} // verus!
