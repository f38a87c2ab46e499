//! Building a tree from flat bytes: greedy packing of leaves filled with
//! as many whole scalar values as fit, folded together with `concat`.

use vstd::prelude::*;
use vstd::slice::slice_to_vec;
use vstd::utf8::is_char_boundary_iff_not_is_continuation_byte;
use vstd::utf8::is_continuation_byte;
use vstd::utf8::length_of_first_scalar;
use vstd::utf8::pop_first_scalar;
use vstd::utf8::valid_first_scalar;
use vstd::utf8::valid_utf8;
use vstd::utf8::valid_utf8_split;

use crate::concat::concat;
use crate::node::children_bytes;
use crate::node::make_internal;
use crate::node::Node;
use crate::node::MAX_BYTES;
use crate::node::MAX_TOTAL_BYTES;
use crate::str_utils::is_boundary;
use crate::str_utils::lemma_boundary_agree;

verus! {

/// Facts about the first scalar at a boundary of a valid text: its width,
/// that it fits, and that the position after it is a boundary again.
pub(crate) proof fn lemma_scalar_step(s: Seq<u8>, j: int)
    requires
        valid_utf8(s),
        is_boundary(s, j),
        j < s.len(),
    ensures
        ({
            let t = s.skip(j);
            &&& valid_utf8(t)
            &&& valid_first_scalar(t)
            &&& 1 <= length_of_first_scalar(t) <= 4
            &&& j + length_of_first_scalar(t) <= s.len()
            &&& is_boundary(s, j + length_of_first_scalar(t))
        }),
{
    lemma_boundary_agree(s, j);
    valid_utf8_split(s, j);
    let t = s.skip(j);
    assert(t =~= s.subrange(j, s.len() as int));
    assert(valid_utf8(t));
    assert(t.len() > 0);
    assert(valid_first_scalar(t));
    let w = length_of_first_scalar(t);
    let t2 = pop_first_scalar(t);
    assert(valid_utf8(t2));
    if t2.len() > 0 {
        is_char_boundary_iff_not_is_continuation_byte(t2, 0);
        vstd::utf8::is_char_boundary_start_end_of_seq(t2);
        assert(!is_continuation_byte(t2[0]));
        assert(t2[0] == s[j + w]);
    }
}

/// Build a tree over the given text, packing leaves greedily with whole
/// scalar values.
pub fn from_bytes(s: &[u8]) -> (r: Node)
    requires
        valid_utf8(s@),
        s@.len() <= MAX_TOTAL_BYTES,
    ensures
        r.wf(),
        r.bytes() == s@,
        crate::node::leaves(r) <= 1 || (crate::node::leaves(r) - 1) * (MAX_BYTES - 3) < s@.len()
            + 1,
{
    let n = s.len();
    let mut acc = Node::empty();
    let mut i: usize = 0;
    let ghost mut p: int = 0;
    proof {
        assert(s@.take(0) =~= Seq::<u8>::empty());
        vstd::utf8::is_char_boundary_start_end_of_seq(s@);
        lemma_boundary_agree(s@, 0);
    }
    while i < n
        invariant
            0 <= i <= n == s@.len(),
            n <= MAX_TOTAL_BYTES,
            valid_utf8(s@),
            is_boundary(s@, i as int),
            acc.wf(),
            acc.bytes() == s@.take(i as int),
            p >= 0,
            p == 0 ==> i == 0 && crate::node::leaves(acc) == 1,
            p >= 1 ==> crate::node::leaves(acc) <= p,
            i < n ==> i >= p * (MAX_BYTES - 3),
            p >= 1 ==> (p - 1) * (MAX_BYTES - 3) + 1 <= i,
        decreases n - i,
    {
        let mut j: usize = i;
        // fill one leaf: advance whole scalars while they fit
        loop
            invariant
                i <= j <= n == s@.len(),
                valid_utf8(s@),
                is_boundary(s@, j as int),
                j - i <= MAX_BYTES,
                i < n,
            ensures
                i < j <= n,
                j - i <= MAX_BYTES,
                is_boundary(s@, j as int),
                j == n || j - i >= MAX_BYTES - 3,
            decreases n - j,
        {
            if j >= n {
                if j == i {
                    proof {
                        assert(false);
                    }
                }
                break ;
            }
            proof {
                lemma_scalar_step(s@, j as int);
            }
            let b0 = s[j];
            let w: usize = if b0 < 0x80 {
                1
            } else if b0 < 0xE0 {
                2
            } else if b0 < 0xF0 {
                3
            } else {
                4
            };
            proof {
                assert(!is_continuation_byte(s@[j as int]));
                assert(w == length_of_first_scalar(s@.skip(j as int)));
            }
            if j - i + w > MAX_BYTES {
                if j == i {
                    proof {
                        assert(false);
                    }
                }
                break ;
            }
            j = j + w;
        }
        let piece = slice_to_vec(&s[i..j]);
        proof {
            lemma_boundary_agree(s@, i as int);
            lemma_boundary_agree(s@, j as int);
            valid_utf8_split(s@, i as int);
            let tail = s@.subrange(i as int, n as int);
            assert(piece@ =~= tail.subrange(0, (j - i) as int));
            assert(is_boundary(tail, (j - i) as int)) by {
                if j < n {
                    assert(tail[(j - i) as int] == s@[j as int]);
                }
            }
            lemma_boundary_agree(tail, (j - i) as int);
            valid_utf8_split(tail, (j - i) as int);
            assert(valid_utf8(piece@));
            assert(s@.take(i as int) + piece@ =~= s@.take(j as int));
        }
        let leaf = Node::Leaf(piece);
        let ghost before = acc;
        acc = concat(acc, leaf);
        proof {
            assert(crate::node::leaves(leaf) == 1);
            if p == 0 {
                assert(before.bytes().len() == 0);
                assert(crate::node::leaves(acc) == 1);
            }
            assert(i >= p * (MAX_BYTES - 3));
            if j < n {
                assert(j >= i + (MAX_BYTES - 3));
                assert(j >= p * (MAX_BYTES - 3) + (MAX_BYTES - 3));
                assert((p + 1) * (MAX_BYTES - 3) == p * (MAX_BYTES - 3) + (MAX_BYTES - 3))
                    by (nonlinear_arith);
            }
            assert(p * (MAX_BYTES - 3) + 1 <= i + 1 <= j);
            assert(((p + 1) - 1) * (MAX_BYTES - 3) + 1 <= j);
            p = p + 1;
        }
        i = j;
    }
    proof {
        assert(s@.take(n as int) =~= s@);
        if p >= 1 {
            assert((crate::node::leaves(acc) - 1) * (MAX_BYTES - 3) <= (p - 1) * (MAX_BYTES
                - 3));
        }
    }
    acc
}

/// A structurally fresh copy of a tree with the same text, height and
/// shape class.
pub fn clone_node(n: &Node) -> (r: Node)
    requires
        n.wf(),
    ensures
        r.wf(),
        r.bytes() == n.bytes(),
        r.height() == n.height(),
        n.child_ok() ==> r.child_ok(),
    decreases n.height(),
{
    proof {
        crate::node::lemma_height_nonneg(*n);
    }
    match n {
        Node::Leaf(v) => Node::Leaf(slice_to_vec(v.as_slice())),
        Node::Internal(ch) => {
            let count = ch.nodes.len();
            let mut copies: Vec<Node> = Vec::new();
            let mut i: usize = 0;
            while i < count
                invariant
                    0 <= i <= count == ch.nodes@.len(),
                    n.wf(),
                    *n == Node::Internal(*ch),
                    copies@.len() == i,
                    forall|k: int| 0 <= k < i ==> (#[trigger] copies@[k]).wf(),
                    forall|k: int| 0 <= k < i ==> (#[trigger] copies@[k]).child_ok(),
                    forall|k: int|
                        0 <= k < i ==> (#[trigger] copies@[k]).height() == ch.nodes@[k].height(),
                    forall|k: int|
                        0 <= k < i ==> (#[trigger] copies@[k]).bytes() == ch.nodes@[k].bytes(),
                decreases count - i,
            {
                proof {
                    crate::node::lemma_height_nonneg(ch.nodes@[i as int]);
                }
                let c = clone_node(&ch.nodes[i]);
                copies.push(c);
                i = i + 1;
            }
            proof {
                lemma_children_bytes_congruent(copies@, ch.nodes@);
            }
            make_internal(copies)
        },
    }
}

/// Sequences of nodes with pointwise equal texts have equal texts overall.
proof fn lemma_children_bytes_congruent(a: Seq<Node>, b: Seq<Node>)
    requires
        a.len() == b.len(),
        forall|k: int| 0 <= k < a.len() ==> (#[trigger] a[k]).bytes() == b[k].bytes(),
    ensures
        children_bytes(a) == children_bytes(b),
    decreases a.len(),
{
    if a.len() > 0 {
        assert(forall|k: int|
            0 <= k < a.drop_last().len() ==> (#[trigger] a.drop_last()[k]).bytes()
                == b.drop_last()[k].bytes());
        lemma_children_bytes_congruent(a.drop_last(), b.drop_last());
        assert(a.last().bytes() == b.last().bytes());
    }
}

} // verus!
