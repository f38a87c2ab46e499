//! The rope: an owning handle on one tree root, with the public mutating
//! and querying surface.

use vstd::prelude::*;
use vstd::string::StringSliceAdditionalSpecFns;
use vstd::utf8::decode_utf8;
use vstd::utf8::encode_utf8;
use vstd::utf8::valid_utf8;

use crate::builder::clone_node;
use crate::builder::from_bytes;
use crate::concat::concat;
use crate::convert::node_byte_at;
use crate::convert::node_byte_to_char;
use crate::convert::node_byte_to_line;
use crate::convert::node_char_to_byte;
use crate::convert::node_line_to_byte;
use crate::node::children_bytes;
use crate::node::lemma_bytes_bounds;
use crate::node::lemma_children_bytes_decompose;
use crate::node::lemma_children_bytes_empty;
use crate::node::lemma_children_bytes_first;
use crate::node::lemma_height_nonneg;
use crate::node::lemma_node_valid;
use crate::node::Node;
use crate::node::MAX_BYTES;
use crate::node::MAX_TOTAL_BYTES;
use crate::split::split_node;
use crate::str_utils::byte_to_char_spec;
use crate::str_utils::breaks_upto;
use crate::str_utils::char_to_byte_spec;
use crate::str_utils::count_breaks;
use crate::str_utils::count_starts;
use crate::str_utils::lemma_breaks_upto_bounds;
use crate::str_utils::lemma_count_starts_bounds;
use crate::str_utils::line_to_byte_spec;
use crate::str_utils::str_bytes;

verus! {

/// Relies on std::str::from_utf8: on input that is valid UTF-8 it returns
/// `Ok` with a str viewing exactly the given bytes.
#[verifier::external_body]
pub(crate) fn utf8_to_str(b: &[u8]) -> (r: &str)
    requires
        valid_utf8(b@),
    ensures
        r.spec_bytes() == b@,
{
    match std::str::from_utf8(b) {
        Ok(s) => s,
        Err(_) => "",
    }
}

/// Append the whole text of a subtree to a byte buffer.
pub(crate) fn collect_bytes(n: &Node, out: &mut Vec<u8>)
    requires
        n.wf(),
        old(out)@.len() + n.bytes().len() <= MAX_TOTAL_BYTES,
    ensures
        final(out)@ == old(out)@ + n.bytes(),
    decreases n.height(),
{
    proof {
        lemma_height_nonneg(*n);
    }
    match n {
        Node::Leaf(v) => {
            let ghost orig = out@;
            let m = v.len();
            let mut i: usize = 0;
            while i < m
                invariant
                    0 <= i <= m == v@.len(),
                    out@ == orig + v@.take(i as int),
                    orig.len() + m <= MAX_TOTAL_BYTES,
                decreases m - i,
            {
                out.push(v[i]);
                proof {
                    assert(orig + v@.take(i + 1) =~= (orig + v@.take(i as int)).push(
                        v@[i as int],
                    ));
                }
                i = i + 1;
            }
            proof {
                assert(v@.take(m as int) =~= v@);
            }
        },
        Node::Internal(ch) => {
            let ghost orig = out@;
            let ghost nv = ch.nodes@;
            let count = ch.nodes.len();
            let mut i: usize = 0;
            proof {
                lemma_children_bytes_empty(nv.take(0));
                assert(orig + children_bytes(nv.take(0)) =~= orig);
            }
            while i < count
                invariant
                    0 <= i <= count == nv.len(),
                    n.wf(),
                    *n == Node::Internal(*ch),
                    nv == ch.nodes@,
                    out@ == orig + children_bytes(nv.take(i as int)),
                    orig.len() + n.bytes().len() <= MAX_TOTAL_BYTES,
                decreases count - i,
            {
                proof {
                    lemma_children_bytes_decompose(nv, i as int);
                    lemma_children_bytes_first(nv.skip(i as int));
                    assert(nv.skip(i as int)[0] == nv[i as int]);
                    assert(nv.take(i + 1).drop_last() =~= nv.take(i as int));
                    assert(nv.take(i + 1).last() == nv[i as int]);
                    crate::node::lemma_children_bytes_parts_len(nv, i + 1);
                    lemma_height_nonneg(nv[i as int]);
                }
                collect_bytes(&ch.nodes[i], out);
                proof {
                    assert(out@ =~= orig + children_bytes(nv.take(i + 1)));
                }
                i = i + 1;
            }
            proof {
                assert(nv.take(count as int) =~= nv);
            }
        },
    }
}

/// An editable text, stored as a balanced tree of small UTF-8 fragments.
#[derive(Debug)]
pub struct Rope {
    root: Node,
}

impl View for Rope {
    type V = Seq<u8>;

    /// The rope's text, as its UTF-8 bytes.
    closed spec fn view(&self) -> Seq<u8> {
        self.root.bytes()
    }
}

impl Rope {
    /// Spec: the tree invariants hold: valid bounded UTF-8 leaves, equal
    /// depth on all paths, minimum occupancy below the root, and correct
    /// stored summaries.
    pub closed spec fn wf(&self) -> bool {
        self.root.wf()
    }

    /// Spec: the rope's text decoded to chars.
    pub open spec fn chars_view(&self) -> Seq<char> {
        decode_utf8(self@)
    }

    /// Spec: the number of leaf fragments in the tree.
    pub closed spec fn leaf_count(&self) -> int {
        crate::node::leaves(self.root)
    }

    /// Spec: the tree this rope owns.
    pub closed spec fn spec_root(&self) -> Node {
        self.root
    }

    /// A well-formed rope stores valid UTF-8 of bounded length.
    pub proof fn lemma_wf_facts(&self)
        requires
            self.wf(),
        ensures
            valid_utf8(self@),
            self@.len() <= MAX_TOTAL_BYTES,
            0 <= count_starts(self@) <= self@.len(),
            0 <= count_breaks(self@) <= self@.len(),
    {
        lemma_node_valid(self.root);
        lemma_bytes_bounds(self.root);
        lemma_count_starts_bounds(self@);
        lemma_breaks_upto_bounds(self@, self@.len() as int);
    }

    /// An empty rope.
    pub fn new() -> (r: Rope)
        ensures
            r.wf(),
            r@ == Seq::<u8>::empty(),
    {
        Rope { root: Node::empty() }
    }

    /// A rope holding exactly the given text, packed into filled leaves:
    /// every leaf but the last holds more than `MAX_BYTES - 4` bytes.
    pub fn from_str(text: &str) -> (r: Rope)
        requires
            str_bytes(text).len() <= MAX_TOTAL_BYTES,
        ensures
            r.wf(),
            r@ == str_bytes(text),
            r.leaf_count() <= 1 || (r.leaf_count() - 1) * (MAX_BYTES - 3) < r@.len() + 1,
    {
        proof {
            crate::str_utils::lemma_str_bytes_wf(text);
        }
        Rope { root: from_bytes(text.as_bytes()) }
    }

    /// A structurally fresh copy with the same text.
    pub fn clone(&self) -> (r: Rope)
        requires
            self.wf(),
        ensures
            r.wf(),
            r@ == self@,
    {
        Rope { root: clone_node(&self.root) }
    }

    /// Total number of UTF-8 bytes.
    pub fn len_bytes(&self) -> (r: usize)
        requires
            self.wf(),
        ensures
            r == self@.len(),
    {
        let info = self.root.compute_info();
        info.bytes
    }

    /// Total number of chars (Unicode scalar values).
    pub fn len_chars(&self) -> (r: usize)
        requires
            self.wf(),
        ensures
            r == count_starts(self@),
            r == self.chars_view().len(),
    {
        proof {
            self.lemma_wf_facts();
            crate::str_utils::lemma_decode_len(self@);
        }
        let info = self.root.compute_info();
        info.chars
    }

    /// Total number of lines: always one more than the break count, so an
    /// empty rope has one (empty) line.
    pub fn len_lines(&self) -> (r: usize)
        requires
            self.wf(),
        ensures
            r == count_breaks(self@) + 1,
    {
        proof {
            self.lemma_wf_facts();
        }
        let info = self.root.compute_info();
        info.line_breaks + 1
    }

    /// Insert `text` before char `char_idx`.
    pub fn insert(&mut self, char_idx: usize, text: &str)
        requires
            old(self).wf(),
            char_idx <= count_starts(old(self)@),
            old(self)@.len() + str_bytes(text).len() <= MAX_TOTAL_BYTES,
        ensures
            final(self).wf(),
            final(self)@ == old(self)@.take(
                char_to_byte_spec(old(self)@, char_idx as int),
            ) + str_bytes(text) + old(self)@.skip(
                char_to_byte_spec(old(self)@, char_idx as int),
            ),
    {
        proof {
            old(self).lemma_wf_facts();
            crate::str_utils::lemma_str_bytes_wf(text);
            crate::str_utils::lemma_char_to_byte_char(old(self)@, char_idx as int);
        }
        let mut tmp = Node::empty();
        core::mem::swap(&mut self.root, &mut tmp);
        let (l, r) = split_node(tmp, char_idx);
        let mid = from_bytes(text.as_bytes());
        let lm = concat(l, mid);
        self.root = concat(lm, r);
    }

    /// Remove the chars in `[start, end)`.
    pub fn remove<R: crate::slice::CharIdxRange>(&mut self, range: R)
        requires
            old(self).wf(),
            crate::slice::range_start(range, count_starts(old(self)@)) <= crate::slice::range_end(
                range,
                count_starts(old(self)@),
            ),
            crate::slice::range_end(range, count_starts(old(self)@)) <= count_starts(old(self)@),
        ensures
            final(self).wf(),
            final(self)@ == old(self)@.take(
                char_to_byte_spec(
                    old(self)@,
                    crate::slice::range_start(range, count_starts(old(self)@)),
                ),
            ) + old(self)@.skip(
                char_to_byte_spec(
                    old(self)@,
                    crate::slice::range_end(range, count_starts(old(self)@)),
                ),
            ),
    {
        proof {
            old(self).lemma_wf_facts();
        }
        let chars = self.len_chars();
        let start = match range.start() {
            Some(s) => s,
            None => 0,
        };
        let end = match range.end() {
            Some(e) => e,
            None => chars,
        };
        let ghost s0 = old(self)@;
        proof {
            assert(start as int == crate::slice::range_start(range, count_starts(s0)));
            assert(end as int == crate::slice::range_end(range, count_starts(s0)));
            assert(start <= end <= count_starts(s0));
            crate::str_utils::lemma_char_to_byte_char(s0, start as int);
            crate::str_utils::lemma_char_to_byte_char(s0, end as int);
        }
        let mut tmp = Node::empty();
        core::mem::swap(&mut self.root, &mut tmp);
        let (keep_l, rest) = split_node(tmp, start);
        let ghost cut = rest.bytes();
        let (dropped, keep_r) = split_node(rest, end - start);
        proof {
            // the second split lands on the byte of char `end` of the whole
            let js = char_to_byte_spec(s0, start as int);
            let je = char_to_byte_spec(s0, end as int);
            assert(cut == s0.skip(js));
            crate::str_utils::lemma_char_to_byte_suffix(s0, js, (end - start) as int);
            assert(count_starts(s0.take(js)) == start);
            assert(js + char_to_byte_spec(cut, (end - start) as int) == je);
            let jb = char_to_byte_spec(cut, (end - start) as int);
            crate::str_utils::lemma_char_to_byte_char(cut, (end - start) as int);
            if je < js {
                crate::str_utils::lemma_boundary_order(s0, je, js);
            }
            assert(js <= je <= s0.len());
            assert(s0.skip(js).skip(jb) =~= s0.skip(js + jb));
            assert(keep_r.bytes() =~= s0.skip(je));
            assert(keep_l.bytes().len() + keep_r.bytes().len() <= s0.len());
        }
        let out = concat(keep_l, keep_r);
        self.root = out;
    }

    /// Split at char `char_idx`: this rope keeps the prefix and the suffix
    /// is returned.
    pub fn split_off(&mut self, char_idx: usize) -> (r: Rope)
        requires
            old(self).wf(),
            char_idx <= count_starts(old(self)@),
        ensures
            final(self).wf(),
            r.wf(),
            final(self)@ == old(self)@.take(char_to_byte_spec(old(self)@, char_idx as int)),
            r@ == old(self)@.skip(char_to_byte_spec(old(self)@, char_idx as int)),
    {
        let mut tmp = Node::empty();
        core::mem::swap(&mut self.root, &mut tmp);
        let (l, r) = split_node(tmp, char_idx);
        self.root = l;
        Rope { root: r }
    }

    /// Append `other`'s text after this rope's text.
    pub fn append(&mut self, other: Rope)
        requires
            old(self).wf(),
            other.wf(),
            old(self)@.len() + other@.len() <= MAX_TOTAL_BYTES,
        ensures
            final(self).wf(),
            final(self)@ == old(self)@ + other@,
    {
        let mut tmp = Node::empty();
        core::mem::swap(&mut self.root, &mut tmp);
        self.root = concat(tmp, other.root);
    }

    /// Char index of the char containing the given byte.
    pub fn byte_to_char(&self, byte_idx: usize) -> (r: usize)
        requires
            self.wf(),
            byte_idx <= self@.len(),
        ensures
            r == byte_to_char_spec(self@, byte_idx as int),
    {
        node_byte_to_char(&self.root, byte_idx)
    }

    /// Byte index of the start of the given char, end-anchored.
    pub fn char_to_byte(&self, char_idx: usize) -> (r: usize)
        requires
            self.wf(),
            char_idx <= count_starts(self@),
        ensures
            r == char_to_byte_spec(self@, char_idx as int),
    {
        node_char_to_byte(&self.root, char_idx)
    }

    /// Line index of the line containing the given char.
    pub fn char_to_line(&self, char_idx: usize) -> (r: usize)
        requires
            self.wf(),
            char_idx <= count_starts(self@),
        ensures
            r == breaks_upto(self@, char_to_byte_spec(self@, char_idx as int)),
    {
        let b = node_char_to_byte(&self.root, char_idx);
        node_byte_to_line(&self.root, b)
    }

    /// Char index of the first char of the given line; the index one past
    /// the last line is anchored to the char count.
    pub fn line_to_char(&self, line_idx: usize) -> (r: usize)
        requires
            self.wf(),
            line_idx <= count_breaks(self@) + 1,
        ensures
            r == byte_to_char_spec(self@, line_to_byte_spec(self@, line_idx as int)),
    {
        let b = node_line_to_byte(&self.root, line_idx);
        node_byte_to_char(&self.root, b)
    }

    /// The byte at the given byte index.
    pub fn byte(&self, byte_idx: usize) -> (r: u8)
        requires
            self.wf(),
            byte_idx < self@.len(),
        ensures
            r == self@[byte_idx as int],
    {
        node_byte_at(&self.root, byte_idx)
    }

    /// The rope's whole text as one freshly allocated string.
    pub fn to_string(&self) -> (r: String)
        requires
            self.wf(),
        ensures
            encode_utf8(r@) == self@,
    {
        proof {
            self.lemma_wf_facts();
        }
        let mut out: Vec<u8> = Vec::new();
        collect_bytes(&self.root, &mut out);
        let s = utf8_to_str(out.as_slice());
        s.to_owned()
    }

    /// Reserved storage: every leaf carries one fixed-size fragment.
    pub fn capacity(&self) -> (r: usize)
        requires
            self.wf(),
        ensures
            r == self.leaf_count() * MAX_BYTES,
            r >= self@.len(),
    {
        proof {
            self.lemma_wf_facts();
            crate::node::lemma_leaves_bound(self.root);
        }
        let l = crate::node::count_leaves(&self.root);
        proof {
            match self.root {
                Node::Leaf(_) => {
                    assert(l == 1);
                },
                Node::Internal(_) => {
                    assert(l <= MAX_TOTAL_BYTES);
                },
            }
        }
        l * MAX_BYTES
    }

    /// Re-pack the rope's text into freshly filled leaves: the content is
    /// preserved exactly, and afterwards every leaf but the last holds
    /// more than `MAX_BYTES - 4` bytes (a whole-scalar packing can leave
    /// up to three bytes of slack per leaf; on one-byte text this gives
    /// full leaves, so the unused capacity is less than one leaf).
    pub fn shrink_to_fit(&mut self)
        requires
            old(self).wf(),
        ensures
            final(self).wf(),
            final(self)@ == old(self)@,
            final(self).leaf_count() <= 1 || (final(self).leaf_count() - 1) * (MAX_BYTES - 3)
                < final(self)@.len() + 1,
    {
        proof {
            old(self).lemma_wf_facts();
        }
        let mut out: Vec<u8> = Vec::new();
        collect_bytes(&self.root, &mut out);
        self.root = from_bytes(out.as_slice());
    }

    /// Exact content equality with another rope.
    pub fn eq_rope(&self, other: &Rope) -> (r: bool)
        requires
            self.wf(),
            other.wf(),
        ensures
            r == (self@ == other@),
    {
        proof {
            self.lemma_wf_facts();
            other.lemma_wf_facts();
        }
        let mut a: Vec<u8> = Vec::new();
        collect_bytes(&self.root, &mut a);
        let mut b: Vec<u8> = Vec::new();
        collect_bytes(&other.root, &mut b);
        bytes_eq(a.as_slice(), b.as_slice())
    }

    /// Borrow the root for read-only views.
    pub(crate) fn root_ref(&self) -> (r: &Node)
        ensures
            *r == self.spec_root(),
            self.wf() ==> r.wf(),
            r.bytes() == self@,
    {
        &self.root
    }

    /// Wrap an owned root.
    pub(crate) fn from_root(root: Node) -> (r: Rope)
        requires
            root.wf(),
        ensures
            r.wf(),
            r@ == root.bytes(),
    {
        Rope { root }
    }
}

/// Splitting a text at any char start and appending the two sides back
/// together reconstructs the text exactly: the contracts of `split_off`
/// and `append` compose to the identity.
pub proof fn lemma_split_append_reconstruct(s: Seq<u8>, char_idx: int)
    ensures
        s.take(char_to_byte_spec(s, char_idx)) + s.skip(char_to_byte_spec(s, char_idx)) == s,
{
    crate::str_utils::lemma_char_to_byte_char_total(s, char_idx);
    assert(s.take(char_to_byte_spec(s, char_idx)) + s.skip(char_to_byte_spec(s, char_idx))
        =~= s);
}

/// Exact equality of two byte slices.
pub(crate) fn bytes_eq(a: &[u8], b: &[u8]) -> (r: bool)
    ensures
        r == (a@ == b@),
{
    let n = a.len();
    if n != b.len() {
        proof {
            assert(a@ != b@) by {
                if a@ == b@ {
                    assert(a@.len() == b@.len());
                }
            }
        }
        return false;
    }
    let mut i: usize = 0;
    while i < n
        invariant
            0 <= i <= n == a@.len() == b@.len(),
            forall|k: int| 0 <= k < i ==> a@[k] == b@[k],
        decreases n - i,
    {
        if a[i] != b[i] {
            proof {
                assert(a@ != b@) by {
                    if a@ == b@ {
                        assert(a@[i as int] == b@[i as int]);
                    }
                }
            }
            return false;
        }
        i = i + 1;
    }
    proof {
        assert(a@ =~= b@);
    }
    true
}

} // verus!
