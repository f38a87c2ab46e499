//! Concatenation of two trees: the one invariant-restoring operation that
//! insertion, removal, splitting and appending are all built on.  Equal
//! heights merge at the root; unequal heights descend the taller tree's
//! spine to the matching level and repair any overflow on the way back up.

use vstd::prelude::*;
use vstd::utf8::valid_utf8_concat;

use crate::node::children_bytes;
use crate::node::lemma_children_bytes_decompose;
use crate::node::lemma_children_bytes_one;
use crate::node::lemma_height_nonneg;
use crate::node::lemma_node_size;
use crate::node::children_leaves;
use crate::node::leaves;
use crate::node::lemma_children_leaves_decompose;
use crate::node::lemma_children_leaves_one;
use crate::node::make_internal;
use crate::node::Node;
use crate::node::MAX_BYTES;
use crate::node::MAX_CHILDREN;
use crate::node::MAX_TOTAL_BYTES;

verus! {

/// Spec: the leaves of an optional second result node, zero when absent.
pub open spec fn pieces_leaves(p: Option<Node>) -> int {
    match p {
        Some(n) => leaves(n),
        None => 0,
    }
}

/// Merge two trees of equal height into one or two nodes of that height,
/// each fit to stand below a root.
#[verifier::rlimit(100)]
fn merge_same_height(x: Node, y: Node) -> (r: (Node, Option<Node>))
    requires
        x.wf(),
        y.wf(),
        x.height() == y.height(),
        x.bytes().len() >= 1,
        y.bytes().len() >= 1,
        x.bytes().len() + y.bytes().len() <= MAX_TOTAL_BYTES,
    ensures
        r.0.wf(),
        x.child_ok() || y.child_ok() ==> r.0.child_ok(),
        r.0.height() == x.height(),
        leaves(r.0) + pieces_leaves(r.1) <= leaves(x) + leaves(y),
        match r.1 {
            Some(n2) => {
                &&& n2.wf()
                &&& n2.child_ok()
                &&& r.0.child_ok()
                &&& n2.height() == x.height()
                &&& r.0.bytes() + n2.bytes() == x.bytes() + y.bytes()
            },
            None => r.0.bytes() == x.bytes() + y.bytes(),
        },
{
    let ghost gx = x;
    let ghost gy = y;
    match (x, y) {
        (Node::Leaf(mut vx), Node::Leaf(vy)) => {
            let total = vx.len() + vy.len();
            if total <= MAX_BYTES {
                let mut vy = vy;
                vx.append(&mut vy);
                proof {
                    valid_utf8_concat(gx.bytes(), gy.bytes());
                }
                (Node::Leaf(vx), None)
            } else if vx.len() >= crate::node::MIN_BYTES && vy.len() >= crate::node::MIN_BYTES {
                (Node::Leaf(vx), Some(Node::Leaf(vy)))
            } else {
                // one side is under-occupied: join and split again at a
                // scalar boundary near the middle
                let mut vy = vy;
                vx.append(&mut vy);
                proof {
                    valid_utf8_concat(gx.bytes(), gy.bytes());
                }
                let ghost joined = vx@;
                let target = total / 2;
                let mut j: usize = 0;
                proof {
                    vstd::utf8::is_char_boundary_start_end_of_seq(joined);
                    crate::str_utils::lemma_boundary_agree(joined, 0);
                }
                while j < target
                    invariant
                        0 <= j <= target + 3,
                        target == joined.len() / 2,
                        vx@ == joined,
                        total == joined.len(),
                        MAX_BYTES < total <= MAX_BYTES + crate::node::MIN_BYTES - 1,
                        vstd::utf8::valid_utf8(joined),
                        crate::str_utils::is_boundary(joined, j as int),
                    decreases joined.len() - j,
                {
                    proof {
                        crate::builder::lemma_scalar_step(joined, j as int);
                    }
                    let b0 = vx[j];
                    let w: usize = if b0 < 0x80 {
                        1
                    } else if b0 < 0xE0 {
                        2
                    } else if b0 < 0xF0 {
                        3
                    } else {
                        4
                    };
                    proof {
                        assert(!vstd::utf8::is_continuation_byte(joined[j as int]));
                        assert(w == vstd::utf8::length_of_first_scalar(
                            joined.skip(j as int),
                        ));
                    }
                    j = j + w;
                }
                let right = vx.split_off(j);
                proof {
                    crate::str_utils::lemma_boundary_agree(joined, j as int);
                    vstd::utf8::valid_utf8_split(joined, j as int);
                    assert(vx@ =~= joined.take(j as int));
                    assert(right@ =~= joined.skip(j as int));
                    assert(vx@ + right@ =~= joined);
                }
                (Node::Leaf(vx), Some(Node::Leaf(right)))
            }
        },
        (Node::Internal(mut chx), Node::Internal(chy)) => {
            let ghost nx = chx.nodes@;
            let ghost ny = chy.nodes@;
            let mut chy = chy;
            let k1 = chx.nodes.len();
            chx.nodes.append(&mut chy.nodes);
            let all = chx.nodes;
            let ghost av = all@;
            proof {
                assert(av =~= nx + ny);
                assert forall|i: int| 0 <= i < av.len() implies (#[trigger] av[i]).wf()
                    && av[i].child_ok() && av[i].height() == av[0].height() by {
                    if i < nx.len() {
                        assert(av[i] == nx[i]);
                    } else {
                        assert(av[i] == ny[i - nx.len()]);
                    }
                    assert(av[0] == nx[0]);
                    assert(nx[0].height() == gx.height() - 1);
                    assert(gy.height() == 1 + ny[0].height());
                }
                lemma_children_bytes_decompose(av, k1 as int);
                assert(av.take(k1 as int) =~= nx);
                assert(av.skip(k1 as int) =~= ny);
                assert(children_bytes(av) == gx.bytes() + gy.bytes());
                lemma_children_leaves_decompose(av, k1 as int);
                assert(children_leaves(av) == leaves(gx) + leaves(gy));
            }
            if all.len() <= MAX_CHILDREN {
                let r0 = make_internal(all);
                proof {
                    assert(r0.bytes() == gx.bytes() + gy.bytes());
                }
                (r0, None)
            } else {
                let mut left = all;
                let mid = left.len() / 2;
                let right = left.split_off(mid);
                proof {
                    assert(left@ =~= av.take(mid as int));
                    assert(right@ =~= av.skip(mid as int));
                    lemma_children_bytes_decompose(av, mid as int);
                    lemma_children_leaves_decompose(av, mid as int);
                    assert forall|i: int| 0 <= i < left@.len() implies (#[trigger] left@[i]).wf()
                        && left@[i].child_ok() && left@[i].height() == left@[0].height() by {
                        assert(left@[i] == av[i]);
                        assert(left@[0] == av[0]);
                    }
                    assert forall|i: int| 0 <= i < right@.len() implies (#[trigger] right@[i]).wf()
                        && right@[i].child_ok() && right@[i].height() == right@[0].height() by {
                        assert(right@[i] == av[i + mid]);
                        assert(right@[0] == av[mid as int]);
                    }
                    assert(children_bytes(av) == children_bytes(left@) + children_bytes(
                        right@,
                    ));
                    assert((children_bytes(left@) + children_bytes(right@)).len()
                        == children_bytes(left@).len() + children_bytes(right@).len());
                    assert((gx.bytes() + gy.bytes()).len() == gx.bytes().len()
                        + gy.bytes().len());
                    assert(children_bytes(left@).len() + children_bytes(right@).len()
                        == gx.bytes().len() + gy.bytes().len());
                    assert(left@[0].height() == av[0].height());
                    assert(right@[0].height() == av[mid as int].height() == av[0].height());
                    lemma_children_leaves_decompose(av, mid as int);
                }
                let r0 = make_internal(left);
                let r1 = make_internal(right);
                (r0, Some(r1))
            }
        },
        (x2, y2) => {
            proof {
                lemma_height_nonneg(gx);
                lemma_height_nonneg(gy);
                assert(false);
            }
            (x2, Some(y2))
        },
    }
}

/// Attach a shorter tree `b` after the rightmost spine of `x`, yielding one
/// or two nodes at the height of `x`.
#[verifier::rlimit(100)]
fn concat_right(x: Node, b: Node) -> (r: (Node, Option<Node>))
    requires
        x.wf(),
        b.wf(),
        x.height() > b.height() >= 0,
        b.bytes().len() >= 1,
        x.bytes().len() + b.bytes().len() <= MAX_TOTAL_BYTES,
        x.child_count() >= 2,
    ensures
        r.0.wf(),
        r.0.height() == x.height(),
        r.0.child_count() >= 2,
        x.child_ok() ==> r.0.child_ok(),
        leaves(r.0) + pieces_leaves(r.1) <= leaves(x) + leaves(b),
        match r.1 {
            Some(n2) => {
                &&& n2.wf()
                &&& n2.child_ok()
                &&& r.0.child_ok()
                &&& n2.height() == x.height()
                &&& r.0.bytes() + n2.bytes() == x.bytes() + b.bytes()
            },
            None => r.0.bytes() == x.bytes() + b.bytes(),
        },
    decreases x.height(),
{
    let ghost gx = x;
    let ghost gb = b;
    match x {
        Node::Leaf(v) => {
            proof {
                assert(false);
            }
            (Node::Leaf(v), None)
        },
        Node::Internal(ch) => {
            let ghost nv = ch.nodes@;
            let mut nodes = ch.nodes;
            let last = match nodes.pop() {
                Some(n) => n,
                None => {
                    proof {
                        assert(false);
                    }
                    Node::Leaf(Vec::new())
                },
            };
            let ghost k = nodes@.len() as int;
            proof {
                assert(nodes@ =~= nv.take(k));
                assert(nv.take(k).push(last) =~= nv);
                lemma_children_bytes_decompose(nv, k);
                lemma_children_bytes_one(nv.skip(k));
                assert(nv.skip(k)[0] == last);
                assert(gx.bytes() == children_bytes(nodes@) + last.bytes());
                lemma_children_leaves_decompose(nv, k);
                lemma_children_leaves_one(nv.skip(k));
                assert(leaves(gx) == children_leaves(nv.take(k)) + leaves(last));
                assert(last.wf());
                assert(last.child_ok());
                assert(last.height() == gx.height() - 1);
                lemma_node_size(last);
                lemma_height_nonneg(gb);
            }
            let hb = b.height_exec();
            let hlast = last.height_exec();
            let (p0, p1) = if hlast == hb {
                merge_same_height(last, b)
            } else {
                proof {
                    assert(last.height() > gb.height());
                    assert(last.child_count() >= 2);
                }
                concat_right(last, b)
            };
            let ghost gp0 = p0;
            let mut nodes = nodes;
            nodes.push(p0);
            let ghost withp0 = nodes@;
            match p1 {
                Some(p1n) => {
                    nodes.push(p1n);
                },
                None => {},
            }
            let ghost av = nodes@;
            proof {
                assert forall|i: int| 0 <= i < av.len() implies (#[trigger] av[i]).wf()
                    && av[i].child_ok() && av[i].height() == av[0].height() by {
                    if i < k {
                        assert(av[i] == nv[i]);
                    }
                    if k > 0 {
                        assert(av[0] == nv[0]);
                    }
                }
                lemma_children_bytes_decompose(av, k);
                lemma_children_leaves_decompose(av, k);
                assert(av.take(k) =~= nv.take(k));
                if av.len() == k + 1 {
                    lemma_children_bytes_one(av.skip(k));
                    lemma_children_leaves_one(av.skip(k));
                    assert(av.skip(k)[0] == gp0);
                } else {
                    assert(av.len() == k + 2);
                    lemma_children_bytes_decompose(av.skip(k), 1);
                    lemma_children_bytes_one(av.skip(k).take(1));
                    lemma_children_bytes_one(av.skip(k).skip(1));
                    lemma_children_leaves_decompose(av.skip(k), 1);
                    lemma_children_leaves_one(av.skip(k).take(1));
                    lemma_children_leaves_one(av.skip(k).skip(1));
                    assert(av.skip(k).take(1)[0] == gp0);
                    assert(av.skip(k).skip(1)[0] == av[k + 1]);
                }
                assert(children_bytes(av) == gx.bytes() + gb.bytes());
                assert(children_leaves(av) <= leaves(gx) + leaves(gb));
            }
            if nodes.len() <= MAX_CHILDREN {
                proof {
                    assert(av.len() >= 2);
                }
                let r0 = make_internal(nodes);
                (r0, None)
            } else {
                let mut left = nodes;
                let mid = left.len() / 2;
                let right = left.split_off(mid);
                proof {
                    assert(left@ =~= av.take(mid as int));
                    assert(right@ =~= av.skip(mid as int));
                    lemma_children_bytes_decompose(av, mid as int);
                    lemma_children_leaves_decompose(av, mid as int);
                    assert forall|i: int| 0 <= i < left@.len() implies (#[trigger] left@[i]).wf()
                        && left@[i].child_ok() && left@[i].height() == left@[0].height() by {
                        assert(left@[i] == av[i]);
                        assert(left@[0] == av[0]);
                    }
                    assert forall|i: int| 0 <= i < right@.len() implies (#[trigger] right@[i]).wf()
                        && right@[i].child_ok() && right@[i].height() == right@[0].height() by {
                        assert(right@[i] == av[i + mid]);
                        assert(right@[0] == av[mid as int]);
                    }
                }
                let r0 = make_internal(left);
                let r1 = make_internal(right);
                (r0, Some(r1))
            }
        },
    }
}

/// Attach a shorter tree `b` before the leftmost spine of `x`, yielding one
/// or two nodes at the height of `x`.
#[verifier::rlimit(100)]
fn concat_left(b: Node, x: Node) -> (r: (Node, Option<Node>))
    requires
        x.wf(),
        b.wf(),
        x.height() > b.height() >= 0,
        b.bytes().len() >= 1,
        x.bytes().len() + b.bytes().len() <= MAX_TOTAL_BYTES,
        x.child_count() >= 2,
    ensures
        r.0.wf(),
        r.0.height() == x.height(),
        r.0.child_count() >= 2,
        x.child_ok() ==> r.0.child_ok(),
        leaves(r.0) + pieces_leaves(r.1) <= leaves(x) + leaves(b),
        match r.1 {
            Some(n2) => {
                &&& n2.wf()
                &&& n2.child_ok()
                &&& r.0.child_ok()
                &&& n2.height() == x.height()
                &&& r.0.bytes() + n2.bytes() == b.bytes() + x.bytes()
            },
            None => r.0.bytes() == b.bytes() + x.bytes(),
        },
    decreases x.height(),
{
    let ghost gx = x;
    let ghost gb = b;
    match x {
        Node::Leaf(v) => {
            proof {
                assert(false);
            }
            (Node::Leaf(v), None)
        },
        Node::Internal(ch) => {
            let ghost nv = ch.nodes@;
            let mut nodes = ch.nodes;
            let first = nodes.remove(0);
            proof {
                assert(nodes@ =~= nv.skip(1));
                lemma_children_bytes_decompose(nv, 1);
                lemma_children_bytes_one(nv.take(1));
                assert(nv.take(1)[0] == first);
                assert(gx.bytes() == first.bytes() + children_bytes(nodes@));
                lemma_children_leaves_decompose(nv, 1);
                lemma_children_leaves_one(nv.take(1));
                assert(leaves(gx) == leaves(first) + children_leaves(nv.skip(1)));
                assert(first.wf());
                assert(first.child_ok());
                assert(first.height() == gx.height() - 1);
                lemma_node_size(first);
                lemma_height_nonneg(gb);
            }
            let hb = b.height_exec();
            let hfirst = first.height_exec();
            let (p0, p1) = if hfirst == hb {
                merge_same_height(b, first)
            } else {
                proof {
                    assert(first.height() > gb.height());
                    assert(first.child_count() >= 2);
                }
                concat_left(b, first)
            };
            let ghost gp0 = p0;
            let ghost gp1 = p1;
            let mut nodes = nodes;
            let mut built: Vec<Node> = Vec::new();
            built.push(p0);
            match p1 {
                Some(p1n) => {
                    built.push(p1n);
                },
                None => {},
            }
            let ghost pc = built@.len() as int;
            built.append(&mut nodes);
            let ghost av = built@;
            proof {
                assert forall|i: int| 0 <= i < av.len() implies (#[trigger] av[i]).wf()
                    && av[i].child_ok() && av[i].height() == av[0].height() by {
                    if i >= pc {
                        assert(av[i] == nv.skip(1)[i - pc]);
                        assert(av[i] == nv[i - pc + 1]);
                    }
                    assert(av[0] == gp0);
                }
                lemma_children_bytes_decompose(av, pc);
                lemma_children_leaves_decompose(av, pc);
                assert(av.skip(pc) =~= nv.skip(1));
                if pc == 1 {
                    lemma_children_bytes_one(av.take(1));
                    lemma_children_leaves_one(av.take(1));
                    assert(av.take(1)[0] == gp0);
                } else {
                    lemma_children_bytes_decompose(av.take(2), 1);
                    lemma_children_bytes_one(av.take(2).take(1));
                    lemma_children_bytes_one(av.take(2).skip(1));
                    lemma_children_leaves_decompose(av.take(2), 1);
                    lemma_children_leaves_one(av.take(2).take(1));
                    lemma_children_leaves_one(av.take(2).skip(1));
                    assert(av.take(2).take(1)[0] == gp0);
                    assert(av.take(2).skip(1)[0] == av[1]);
                }
                assert(children_bytes(av) == gb.bytes() + gx.bytes());
                assert(children_leaves(av) <= leaves(gx) + leaves(gb));
            }
            if built.len() <= MAX_CHILDREN {
                let r0 = make_internal(built);
                (r0, None)
            } else {
                let mut left = built;
                let mid = left.len() / 2;
                let right = left.split_off(mid);
                proof {
                    assert(left@ =~= av.take(mid as int));
                    assert(right@ =~= av.skip(mid as int));
                    lemma_children_bytes_decompose(av, mid as int);
                    lemma_children_leaves_decompose(av, mid as int);
                    assert forall|i: int| 0 <= i < left@.len() implies (#[trigger] left@[i]).wf()
                        && left@[i].child_ok() && left@[i].height() == left@[0].height() by {
                        assert(left@[i] == av[i]);
                        assert(left@[0] == av[0]);
                    }
                    assert forall|i: int| 0 <= i < right@.len() implies (#[trigger] right@[i]).wf()
                        && right@[i].child_ok() && right@[i].height() == right@[0].height() by {
                        assert(right@[i] == av[i + mid]);
                        assert(right@[0] == av[mid as int]);
                    }
                }
                let r0 = make_internal(left);
                let r1 = make_internal(right);
                (r0, Some(r1))
            }
        },
    }
}

/// Concatenate two well-formed trees into one, in order.
pub fn concat(a: Node, b: Node) -> (r: Node)
    requires
        a.wf(),
        b.wf(),
        a.bytes().len() + b.bytes().len() <= MAX_TOTAL_BYTES,
    ensures
        r.wf(),
        r.bytes() == a.bytes() + b.bytes(),
        leaves(r) <= leaves(a) + leaves(b),
        a.bytes().len() == 0 ==> leaves(r) == leaves(b),
{
    let ghost ga = a;
    let ghost gb = b;
    proof {
        crate::node::lemma_leaves_bound(ga);
        crate::node::lemma_leaves_bound(gb);
    }
    let a_info = a.compute_info();
    if a_info.bytes == 0 {
        proof {
            assert(ga.bytes() + gb.bytes() =~= gb.bytes());
        }
        return b;
    }
    let b_info = b.compute_info();
    if b_info.bytes == 0 {
        proof {
            assert(ga.bytes() + gb.bytes() =~= ga.bytes());
        }
        return a;
    }
    proof {
        lemma_height_nonneg(ga);
        lemma_height_nonneg(gb);
    }
    let ha = a.height_exec();
    let hb = b.height_exec();
    let (p0, p1) = if ha == hb {
        merge_same_height(a, b)
    } else if ha > hb {
        concat_right(a, b)
    } else {
        concat_left(a, b)
    };
    match p1 {
        Some(p1n) => {
            let ghost gp0 = p0;
            let ghost gp1 = p1n;
            let mut two: Vec<Node> = Vec::new();
            two.push(p0);
            two.push(p1n);
            proof {
                let av = two@;
                assert(av[0] == gp0);
                assert(av[1] == gp1);
                lemma_children_bytes_decompose(av, 1);
                lemma_children_bytes_one(av.take(1));
                lemma_children_bytes_one(av.skip(1));
                lemma_children_leaves_decompose(av, 1);
                lemma_children_leaves_one(av.take(1));
                lemma_children_leaves_one(av.skip(1));
                assert(av.take(1)[0] == gp0);
                assert(av.skip(1)[0] == gp1);
                assert(children_bytes(av) == ga.bytes() + gb.bytes());
                assert(children_leaves(av) <= leaves(ga) + leaves(gb));
            }
            make_internal(two)
        },
        None => p0,
    }
}

} // verus!
