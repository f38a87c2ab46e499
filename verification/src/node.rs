//! The tree node: a leaf holding a bounded UTF-8 fragment, or an internal
//! node holding children together with their cached text summaries.

use vstd::prelude::*;
use vstd::utf8::is_char_boundary_iff_not_is_continuation_byte;
use vstd::utf8::is_continuation_byte;
use vstd::utf8::valid_utf8;
use vstd::utf8::valid_utf8_concat;

use crate::text_info::info_wf;
use crate::text_info::TextInfo;

verus! {

/// Maximum number of bytes stored in one leaf fragment.
pub const MAX_BYTES: usize = 16;

/// Minimum occupancy of a non-root leaf fragment.  A quarter of the
/// maximum: restoring occupancy by splitting at a scalar boundary can miss
/// the midpoint by up to three bytes, so an exact half is not always
/// reachable.
pub const MIN_BYTES: usize = 4;

/// Maximum number of children of an internal node.
pub const MAX_CHILDREN: usize = 5;

/// Minimum number of children of a non-root internal node.
pub const MIN_CHILDREN: usize = 3;

/// Upper bound on the total byte length of one tree, so that every count
/// and the capacity computation fit the machine word on any target.
pub const MAX_TOTAL_BYTES: usize = 0x0FFF_FFFF;

#[derive(Debug)]
pub enum Node {
    Leaf(Vec<u8>),
    Internal(NodeChildren),
}

/// Parallel arrays: one cached summary per child node.
#[derive(Debug)]
pub struct NodeChildren {
    pub infos: Vec<TextInfo>,
    pub nodes: Vec<Node>,
}

impl Node {
    /// Spec: the text stored in this subtree, leaf fragments in order.
    pub open spec fn bytes(self) -> Seq<u8>
        decreases self, 0int,
    {
        match self {
            Node::Leaf(v) => v@,
            Node::Internal(ch) => children_bytes(ch.nodes@),
        }
    }

    /// Spec: height of the subtree; leaves are at height zero.
    pub open spec fn height(self) -> int
        decreases self, 0int,
    {
        match self {
            Node::Leaf(_) => 0,
            Node::Internal(ch) => 1 + if ch.nodes@.len() > 0 {
                ch.nodes@[0].height()
            } else {
                0
            },
        }
    }

    /// Spec: number of children of an internal node.
    pub open spec fn child_count(self) -> int {
        match self {
            Node::Leaf(_) => 0,
            Node::Internal(ch) => ch.nodes@.len() as int,
        }
    }

    /// Spec: the occupancy a node must have below the root: a leaf is never
    /// empty, an internal node holds at least `MIN_CHILDREN` children.
    pub open spec fn child_ok(self) -> bool {
        match self {
            Node::Leaf(v) => v@.len() >= MIN_BYTES,
            Node::Internal(ch) => ch.nodes@.len() >= MIN_CHILDREN,
        }
    }

    /// Spec: structural well-formedness.  A leaf is bounded, valid UTF-8.
    /// An internal node has matching parallel arrays, children all of the
    /// same height, each well formed with non-root occupancy, and one
    /// correct stored summary per child.
    pub open spec fn wf(self) -> bool
        decreases self, 1int,
    {
        match self {
            Node::Leaf(v) => v@.len() <= MAX_BYTES && valid_utf8(v@),
            Node::Internal(ch) => {
                let n = ch.nodes@;
                &&& ch.infos@.len() == n.len()
                &&& 2 <= n.len() <= MAX_CHILDREN
                &&& children_bytes(n).len() <= MAX_TOTAL_BYTES
                &&& forall|i: int| 0 <= i < n.len() ==> (#[trigger] n[i]).wf()
                &&& forall|i: int| 0 <= i < n.len() ==> (#[trigger] n[i]).child_ok()
                &&& forall|i: int|
                    0 <= i < n.len() ==> (#[trigger] n[i]).height() == n[0].height()
                &&& forall|i: int|
                    0 <= i < n.len() ==> info_wf(#[trigger] ch.infos@[i], n[i].bytes())
            },
        }
    }
}

/// Spec: concatenation of the texts of the given nodes, in order.
pub open spec fn children_bytes(nodes: Seq<Node>) -> Seq<u8>
    decreases nodes, nodes.len(),
{
    if nodes.len() == 0 {
        Seq::empty()
    } else {
        children_bytes(nodes.drop_last()) + nodes.last().bytes()
    }
}

/// The text of a prefix and a suffix of the children concatenate to the
/// text of the whole.
pub proof fn lemma_children_bytes_decompose(nodes: Seq<Node>, k: int)
    requires
        0 <= k <= nodes.len(),
    ensures
        children_bytes(nodes) == children_bytes(nodes.take(k)) + children_bytes(nodes.skip(k)),
    decreases nodes.len() - k,
{
    if k == nodes.len() {
        assert(nodes.take(k) =~= nodes);
        assert(children_bytes(nodes.skip(k)) =~= Seq::empty()) by {
            assert(nodes.skip(k).len() == 0);
        }
        assert(children_bytes(nodes) =~= children_bytes(nodes.take(k)) + children_bytes(
            nodes.skip(k),
        ));
    } else {
        lemma_children_bytes_decompose(nodes, k + 1);
        assert(nodes.take(k + 1).drop_last() =~= nodes.take(k));
        assert(nodes.take(k + 1).last() == nodes[k]);
        assert(nodes.skip(k)[0] == nodes[k]);
        assert(nodes.skip(k).skip(1) =~= nodes.skip(k + 1));
        lemma_children_bytes_first(nodes.skip(k));
        assert(children_bytes(nodes) =~= children_bytes(nodes.take(k)) + children_bytes(
            nodes.skip(k),
        ));
    }
}

/// No nodes, no text.
pub proof fn lemma_children_bytes_empty(nodes: Seq<Node>)
    requires
        nodes.len() == 0,
    ensures
        children_bytes(nodes) == Seq::<u8>::empty(),
{
    assert(children_bytes(nodes) =~= Seq::<u8>::empty());
}

/// One node: its own text.
pub proof fn lemma_children_bytes_one(nodes: Seq<Node>)
    requires
        nodes.len() == 1,
    ensures
        children_bytes(nodes) == nodes[0].bytes(),
{
    lemma_children_bytes_empty(nodes.drop_last());
    assert(nodes.last() == nodes[0]);
    assert(children_bytes(nodes) =~= nodes[0].bytes());
}

/// Peeling the first node off a non-empty sequence.
pub proof fn lemma_children_bytes_first(nodes: Seq<Node>)
    requires
        nodes.len() > 0,
    ensures
        children_bytes(nodes) == nodes[0].bytes() + children_bytes(nodes.skip(1)),
    decreases nodes.len(),
{
    if nodes.len() == 1 {
        lemma_children_bytes_one(nodes);
        lemma_children_bytes_empty(nodes.skip(1));
        assert(children_bytes(nodes) =~= nodes[0].bytes() + children_bytes(nodes.skip(1)));
    } else {
        lemma_children_bytes_first(nodes.drop_last());
        assert(nodes.drop_last()[0] == nodes[0]);
        assert(nodes.skip(1).drop_last() =~= nodes.drop_last().skip(1));
        assert(nodes.skip(1).last() == nodes.last());
        assert(children_bytes(nodes) =~= nodes[0].bytes() + children_bytes(nodes.skip(1)));
    }
}

/// The text of one child is a slice of the text of the whole.
pub proof fn lemma_children_bytes_parts_len(nodes: Seq<Node>, k: int)
    requires
        0 <= k <= nodes.len(),
    ensures
        children_bytes(nodes.take(k)).len() <= children_bytes(nodes).len(),
        children_bytes(nodes.skip(k)).len() <= children_bytes(nodes).len(),
{
    lemma_children_bytes_decompose(nodes, k);
}

/// Every subtree of a well-formed node stores valid UTF-8.
pub proof fn lemma_node_valid(n: Node)
    requires
        n.wf(),
    ensures
        valid_utf8(n.bytes()),
    decreases n, 2int,
{
    match n {
        Node::Leaf(_) => {},
        Node::Internal(ch) => {
            lemma_children_valid(ch.nodes@);
        },
    }
}

proof fn lemma_children_valid(nodes: Seq<Node>)
    requires
        forall|i: int| 0 <= i < nodes.len() ==> (#[trigger] nodes[i]).wf(),
    ensures
        valid_utf8(children_bytes(nodes)),
    decreases nodes, nodes.len() + 1,
{
    if nodes.len() == 0 {
        assert(children_bytes(nodes) =~= Seq::empty());
    } else {
        assert(forall|i: int|
            0 <= i < nodes.drop_last().len() ==> (#[trigger] nodes.drop_last()[i]).wf());
        lemma_children_valid(nodes.drop_last());
        assert(nodes.last().wf());
        lemma_node_valid(nodes.last());
        valid_utf8_concat(children_bytes(nodes.drop_last()), nodes.last().bytes());
    }
}

/// A well-formed node with non-root occupancy holds at least one more byte
/// than its height.
pub proof fn lemma_node_size(n: Node)
    requires
        n.wf(),
        n.child_ok(),
    ensures
        n.bytes().len() >= n.height() + 1,
        n.height() >= 0,
    decreases n, 2int,
{
    lemma_height_nonneg(n);
    match n {
        Node::Leaf(_) => {},
        Node::Internal(ch) => {
            let nodes = ch.nodes@;
            lemma_node_size(nodes[0]);
            lemma_node_size(nodes[1]);
            lemma_children_bytes_decompose(nodes, 2);
            assert(nodes.take(2).drop_last() =~= seq![nodes[0]]);
            assert(nodes.take(2).last() == nodes[1]);
            lemma_children_bytes_one(seq![nodes[0]]);
            lemma_children_bytes_nonneg(nodes.skip(2));
        },
    }
}

proof fn lemma_children_bytes_nonneg(nodes: Seq<Node>)
    ensures
        children_bytes(nodes).len() >= 0,
{
}

/// Heights are never negative, and an internal node stands above a leaf.
pub proof fn lemma_height_nonneg(n: Node)
    requires
        n.wf(),
    ensures
        n.height() >= 0,
        n is Internal ==> n.height() >= 1,
    decreases n, 2int,
{
    match n {
        Node::Leaf(_) => {},
        Node::Internal(ch) => {
            lemma_height_nonneg(ch.nodes@[0]);
        },
    }
}

/// The text of a non-empty well-formed node opens on a scalar boundary.
pub proof fn lemma_node_first_byte(n: Node)
    requires
        n.wf(),
        n.bytes().len() > 0,
    ensures
        !is_continuation_byte(n.bytes()[0]),
{
    lemma_node_valid(n);
    is_char_boundary_iff_not_is_continuation_byte(n.bytes(), 0);
}

impl Node {
    /// An empty leaf: the root of an empty tree.
    pub fn empty() -> (r: Node)
        ensures
            r.wf(),
            r.bytes() =~= Seq::empty(),
            r.height() == 0,
            leaves(r) == 1,
    {
        Node::Leaf(Vec::new())
    }

    /// The height of the subtree, walking the leftmost spine.
    pub fn height_exec(&self) -> (r: usize)
        requires
            self.wf(),
        ensures
            r == self.height(),
        decreases self.height(),
    {
        proof {
            lemma_height_nonneg(*self);
        }
        match self {
            Node::Leaf(_) => 0,
            Node::Internal(ch) => {
                let child = &ch.nodes[0];
                proof {
                    lemma_height_nonneg(*child);
                    lemma_node_size(*child);
                    lemma_bytes_bounds(*child);
                }
                let h = child.height_exec();
                h + 1
            },
        }
    }

    /// The summary of this subtree: measured directly for a leaf, the sum
    /// of the stored child summaries for an internal node.
    pub fn compute_info(&self) -> (r: TextInfo)
        requires
            self.wf(),
        ensures
            info_wf(r, self.bytes()),
    {
        match self {
            Node::Leaf(v) => TextInfo::from_fragment(v.as_slice()),
            Node::Internal(ch) => {
                let k = ch.infos.len();
                let mut acc = TextInfo::new();
                let mut i: usize = 0;
                proof {
                    assert(children_bytes(ch.nodes@.take(0)) =~= Seq::empty()) by {
                        assert(ch.nodes@.take(0).len() == 0);
                    }
                }
                while i < k
                    invariant
                        0 <= i <= k == ch.nodes@.len() == ch.infos@.len(),
                        self.wf(),
                        self == Node::Internal(*ch),
                        info_wf(acc, children_bytes(ch.nodes@.take(i as int))),
                    decreases k - i,
                {
                    proof {
                        lemma_children_bytes_decompose(ch.nodes@, i as int);
                        lemma_children_bytes_first(ch.nodes@.skip(i as int));
                        assert(ch.nodes@.skip(i as int)[0] == ch.nodes@[i as int]);
                        let child = ch.nodes@[i as int];
                        assert(child.wf());
                        lemma_node_size(child);
                        if child.bytes().len() > 0 {
                            lemma_node_first_byte(child);
                        }
                        assert(ch.nodes@.take(i + 1).drop_last() =~= ch.nodes@.take(i as int));
                        assert(ch.nodes@.take(i + 1).last() == child);
                    }
                    let info = ch.infos[i];
                    acc = acc.combine(
                        info,
                        Ghost(children_bytes(ch.nodes@.take(i as int))),
                        Ghost(ch.nodes@[i as int].bytes()),
                    );
                    i = i + 1;
                }
                proof {
                    assert(ch.nodes@.take(k as int) =~= ch.nodes@);
                }
                acc
            },
        }
    }
}

/// Spec: number of leaves in the subtree.
pub open spec fn leaves(n: Node) -> int
    decreases n, 0int,
{
    match n {
        Node::Leaf(_) => 1,
        Node::Internal(ch) => children_leaves(ch.nodes@),
    }
}

/// Spec: total number of leaves under the given nodes.
pub open spec fn children_leaves(nodes: Seq<Node>) -> int
    decreases nodes, nodes.len(),
{
    if nodes.len() == 0 {
        0
    } else {
        children_leaves(nodes.drop_last()) + leaves(nodes.last())
    }
}

/// Spec: the byte position at which the leaf fragment containing byte `b`
/// ends: the next position where a new fragment starts.
pub open spec fn leaf_end(n: Node, b: int) -> int
    decreases n, 0int,
{
    match n {
        Node::Leaf(v) => v@.len() as int,
        Node::Internal(ch) => children_leaf_end(ch.nodes@, b),
    }
}

/// Spec: `leaf_end` over a row of children: walk past whole children until
/// the one containing `b`.
pub open spec fn children_leaf_end(nodes: Seq<Node>, b: int) -> int
    decreases nodes, nodes.len(),
{
    if nodes.len() == 0 {
        0
    } else if b < nodes[0].bytes().len() {
        leaf_end(nodes[0], b)
    } else {
        nodes[0].bytes().len() + children_leaf_end(nodes.skip(1), b - nodes[0].bytes().len())
    }
}

/// Jumping straight to the child containing `b` computes `leaf_end`.
pub proof fn lemma_children_leaf_end_at(nodes: Seq<Node>, k: int, b: int)
    requires
        0 <= k < nodes.len(),
        children_bytes(nodes.take(k)).len() <= b,
        b - children_bytes(nodes.take(k)).len() < nodes[k].bytes().len(),
    ensures
        children_leaf_end(nodes, b) == children_bytes(nodes.take(k)).len() + leaf_end(
            nodes[k],
            b - children_bytes(nodes.take(k)).len(),
        ),
    decreases k,
{
    if k == 0 {
        assert(nodes.take(0).len() == 0);
        lemma_children_bytes_empty(nodes.take(0));
    } else {
        lemma_children_bytes_first(nodes.take(k));
        assert(nodes.take(k)[0] == nodes[0]);
        assert(nodes.take(k).skip(1) =~= nodes.skip(1).take(k - 1));
        assert(nodes.skip(1)[k - 1] == nodes[k]);
        crate::str_utils::lemma_count_starts_bounds(nodes[0].bytes());
        assert(b >= nodes[0].bytes().len()) by {
            lemma_children_bytes_decompose(nodes.take(k), 1);
            lemma_children_bytes_one(nodes.take(k).take(1));
            assert(nodes.take(k).take(1)[0] == nodes[0]);
        }
        lemma_children_leaf_end_at(nodes.skip(1), k - 1, b - nodes[0].bytes().len() as int);
    }
}

/// Leaf counts of a prefix and a suffix of the children add up to the
/// whole.
pub proof fn lemma_children_leaves_decompose(nodes: Seq<Node>, k: int)
    requires
        0 <= k <= nodes.len(),
    ensures
        children_leaves(nodes) == children_leaves(nodes.take(k)) + children_leaves(nodes.skip(k)),
    decreases nodes.len() - k,
{
    if k == nodes.len() {
        assert(nodes.take(k) =~= nodes);
        assert(nodes.skip(k).len() == 0);
    } else {
        lemma_children_leaves_decompose(nodes, k + 1);
        assert(nodes.take(k + 1).drop_last() =~= nodes.take(k));
        assert(nodes.take(k + 1).last() == nodes[k]);
        assert(nodes.skip(k)[0] == nodes[k]);
        assert(nodes.skip(k).skip(1) =~= nodes.skip(k + 1));
        lemma_children_leaves_first(nodes.skip(k));
    }
}

/// One node's leaves.
pub proof fn lemma_children_leaves_one(nodes: Seq<Node>)
    requires
        nodes.len() == 1,
    ensures
        children_leaves(nodes) == leaves(nodes[0]),
{
    assert(nodes.drop_last().len() == 0);
    assert(children_leaves(nodes.drop_last()) == 0);
    assert(nodes.last() == nodes[0]);
}

/// Peeling the first node off a non-empty sequence.
pub proof fn lemma_children_leaves_first(nodes: Seq<Node>)
    requires
        nodes.len() > 0,
    ensures
        children_leaves(nodes) == leaves(nodes[0]) + children_leaves(nodes.skip(1)),
    decreases nodes.len(),
{
    if nodes.len() == 1 {
        lemma_children_leaves_one(nodes);
        assert(nodes.skip(1).len() == 0);
    } else {
        lemma_children_leaves_first(nodes.drop_last());
        assert(nodes.drop_last()[0] == nodes[0]);
        assert(nodes.skip(1).drop_last() =~= nodes.drop_last().skip(1));
        assert(nodes.skip(1).last() == nodes.last());
    }
}

/// Leaf counts versus byte counts: a subtree in non-root form has at least
/// one byte per leaf, and every subtree holds at most `MAX_BYTES` bytes
/// per leaf.
pub proof fn lemma_leaves_bound(n: Node)
    requires
        n.wf(),
    ensures
        1 <= leaves(n),
        n.child_ok() ==> leaves(n) <= n.bytes().len(),
        n is Internal ==> leaves(n) <= n.bytes().len(),
        n.bytes().len() <= leaves(n) * MAX_BYTES,
        leaves(n) <= n.bytes().len() + 1,
    decreases n, 2int,
{
    match n {
        Node::Leaf(v) => {},
        Node::Internal(ch) => {
            lemma_children_leaves_bound(ch.nodes@);
        },
    }
}

proof fn lemma_children_leaves_bound(nodes: Seq<Node>)
    requires
        forall|i: int| 0 <= i < nodes.len() ==> (#[trigger] nodes[i]).wf(),
        forall|i: int| 0 <= i < nodes.len() ==> (#[trigger] nodes[i]).child_ok(),
    ensures
        nodes.len() <= children_leaves(nodes),
        children_leaves(nodes) <= children_bytes(nodes).len(),
        children_bytes(nodes).len() <= children_leaves(nodes) * MAX_BYTES,
    decreases nodes, nodes.len() + 1,
{
    if nodes.len() == 0 {
        lemma_children_bytes_empty(nodes);
    } else {
        assert(forall|i: int|
            0 <= i < nodes.drop_last().len() ==> (#[trigger] nodes.drop_last()[i]).wf()
                && nodes.drop_last()[i].child_ok());
        lemma_children_leaves_bound(nodes.drop_last());
        assert(nodes.last().wf() && nodes.last().child_ok());
        lemma_leaves_bound(nodes.last());
        assert((children_leaves(nodes.drop_last()) + leaves(nodes.last())) * MAX_BYTES
            == children_leaves(nodes.drop_last()) * MAX_BYTES + leaves(nodes.last())
            * MAX_BYTES) by (nonlinear_arith);
    }
}

/// Number of leaves in the subtree.
pub fn count_leaves(n: &Node) -> (r: usize)
    requires
        n.wf(),
    ensures
        r == leaves(*n),
    decreases n.height(),
{
    proof {
        lemma_height_nonneg(*n);
        lemma_leaves_bound(*n);
        lemma_bytes_bounds(*n);
    }
    match n {
        Node::Leaf(_) => 1,
        Node::Internal(ch) => {
            let ghost nv = ch.nodes@;
            let count = ch.nodes.len();
            let mut i: usize = 0;
            let mut acc: usize = 0;
            proof {
                assert(children_leaves(nv.take(0)) == 0);
            }
            while i < count
                invariant
                    0 <= i <= count == nv.len(),
                    n.wf(),
                    *n == Node::Internal(*ch),
                    nv == ch.nodes@,
                    acc == children_leaves(nv.take(i as int)),
                    acc <= children_bytes(nv.take(i as int)).len(),
                    children_bytes(nv.take(i as int)).len() <= MAX_TOTAL_BYTES,
                decreases count - i,
            {
                proof {
                    lemma_height_nonneg(nv[i as int]);
                    assert(nv.take(i + 1).drop_last() =~= nv.take(i as int));
                    assert(nv.take(i + 1).last() == nv[i as int]);
                    lemma_leaves_bound(nv[i as int]);
                    lemma_node_size(nv[i as int]);
                    assert(forall|k: int|
                        0 <= k < nv.take(i + 1).len() ==> (#[trigger] nv.take(i + 1)[k]).wf()
                            && nv.take(i + 1)[k].child_ok());
                    lemma_children_leaves_bound(nv.take(i + 1));
                    lemma_children_bytes_decompose(nv, i + 1);
                    lemma_children_bytes_parts_len(nv, i + 1);
                    lemma_bytes_bounds(*n);
                }
                let c = count_leaves(&ch.nodes[i]);
                acc = acc + c;
                i = i + 1;
            }
            proof {
                assert(nv.take(count as int) =~= nv);
            }
            acc
        },
    }
}

/// The byte bound carried by well-formedness, in a form exec code can use.
pub proof fn lemma_bytes_bounds(n: Node)
    requires
        n.wf(),
    ensures
        n.bytes().len() <= MAX_TOTAL_BYTES,
{
    match n {
        Node::Leaf(_) => {},
        Node::Internal(_) => {},
    }
}

/// Build an internal node over the given children, measuring each to fill
/// the parallel summary array.
pub fn make_internal(nodes: Vec<Node>) -> (r: Node)
    requires
        2 <= nodes@.len() <= MAX_CHILDREN,
        forall|i: int| 0 <= i < nodes@.len() ==> (#[trigger] nodes@[i]).wf(),
        forall|i: int| 0 <= i < nodes@.len() ==> (#[trigger] nodes@[i]).child_ok(),
        forall|i: int|
            0 <= i < nodes@.len() ==> (#[trigger] nodes@[i]).height() == nodes@[0].height(),
        children_bytes(nodes@).len() <= MAX_TOTAL_BYTES,
    ensures
        r.wf(),
        r.bytes() == children_bytes(nodes@),
        r.height() == nodes@[0].height() + 1,
        r.child_count() == nodes@.len(),
        nodes@.len() >= MIN_CHILDREN ==> r.child_ok(),
        leaves(r) == children_leaves(nodes@),
{
    let k = nodes.len();
    let mut infos: Vec<TextInfo> = Vec::new();
    let mut i: usize = 0;
    while i < k
        invariant
            0 <= i <= k == nodes@.len(),
            infos@.len() == i,
            forall|i2: int| 0 <= i2 < nodes@.len() ==> (#[trigger] nodes@[i2]).wf(),
            forall|j: int| 0 <= j < i ==> info_wf(#[trigger] infos@[j], nodes@[j].bytes()),
        decreases k - i,
    {
        let info = nodes[i].compute_info();
        infos.push(info);
        i = i + 1;
    }
    let ghost gv = nodes@;
    let r = Node::Internal(NodeChildren { infos, nodes });
    proof {
        assert(leaves(r) == children_leaves(gv));
    }
    r
}

} // verus!
