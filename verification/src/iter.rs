//! Iterators over a rope or slice: bytes, chars, lines and chunks.  Each
//! holds a borrowed tree and a cursor; none is restartable, and each
//! drains with a `count` whose total equals the corresponding length.

use vstd::prelude::*;
use vstd::utf8::decode_utf8;

use crate::convert::leaf_span_at;
use crate::convert::node_byte_at;
use crate::convert::node_char_at;
use crate::node::Node;
use crate::rope::Rope;
use crate::slice::RopeSlice;
use crate::str_utils::count_starts;

verus! {

/// Iterator over the bytes of a text, in order.
pub struct Bytes<'a> {
    node: &'a Node,
    pos: usize,
    end: usize,
}

impl<'a> Bytes<'a> {
    /// Spec: the text iterated over.
    pub closed spec fn text(&self) -> Seq<u8> {
        self.node.bytes()
    }

    /// Spec: the cursor and the end position.
    pub closed spec fn pos_spec(&self) -> int {
        self.pos as int
    }

    pub closed spec fn end_spec(&self) -> int {
        self.end as int
    }

    pub closed spec fn wf(&self) -> bool {
        self.node.wf() && 0 <= self.pos_spec() <= self.end_spec() <= self.text().len()
    }

    pub(crate) fn new_range(node: &'a Node, pos: usize, end: usize) -> (r: Bytes<'a>)
        requires
            node.wf(),
            pos <= end <= node.bytes().len(),
        ensures
            r.wf(),
            r.text() == node.bytes(),
            r.pos_spec() == pos,
            r.end_spec() == end,
    {
        Bytes { node, pos, end }
    }

    /// The next byte, or nothing once the cursor reaches the end.
    pub fn next(&mut self) -> (r: Option<u8>)
        requires
            old(self).wf(),
        ensures
            final(self).wf(),
            final(self).text() == old(self).text(),
            final(self).end_spec() == old(self).end_spec(),
            match r {
                Some(b) => {
                    &&& old(self).pos_spec() < old(self).end_spec()
                    &&& b == old(self).text()[old(self).pos_spec()]
                    &&& final(self).pos_spec() == old(self).pos_spec() + 1
                },
                None => {
                    &&& old(self).pos_spec() == old(self).end_spec()
                    &&& final(self).pos_spec() == old(self).pos_spec()
                },
            },
    {
        if self.pos < self.end {
            let b = node_byte_at(self.node, self.pos);
            self.pos = self.pos + 1;
            Some(b)
        } else {
            None
        }
    }

    /// How many bytes remain: drains the iterator.
    pub fn count(self) -> (r: usize)
        requires
            self.wf(),
        ensures
            r == self.end_spec() - self.pos_spec(),
    {
        self.end - self.pos
    }
}

/// Iterator over the chars of a text, in order.
pub struct Chars<'a> {
    node: &'a Node,
    pos: usize,
    end: usize,
}

impl<'a> Chars<'a> {
    /// Spec: the text iterated over.
    pub closed spec fn text(&self) -> Seq<u8> {
        self.node.bytes()
    }

    /// Spec: the cursor and the end position, in chars.
    pub closed spec fn pos_spec(&self) -> int {
        self.pos as int
    }

    pub closed spec fn end_spec(&self) -> int {
        self.end as int
    }

    pub closed spec fn wf(&self) -> bool {
        self.node.wf() && 0 <= self.pos_spec() <= self.end_spec() <= count_starts(self.text())
    }

    pub(crate) fn new_range(node: &'a Node, pos: usize, end: usize) -> (r: Chars<'a>)
        requires
            node.wf(),
            pos <= end <= count_starts(node.bytes()),
        ensures
            r.wf(),
            r.text() == node.bytes(),
            r.pos_spec() == pos,
            r.end_spec() == end,
    {
        Chars { node, pos, end }
    }

    /// The next char, or nothing once the cursor reaches the end.
    pub fn next(&mut self) -> (r: Option<char>)
        requires
            old(self).wf(),
        ensures
            final(self).wf(),
            final(self).text() == old(self).text(),
            final(self).end_spec() == old(self).end_spec(),
            match r {
                Some(c) => {
                    &&& old(self).pos_spec() < old(self).end_spec()
                    &&& c == decode_utf8(old(self).text())[old(self).pos_spec()]
                    &&& final(self).pos_spec() == old(self).pos_spec() + 1
                },
                None => {
                    &&& old(self).pos_spec() == old(self).end_spec()
                    &&& final(self).pos_spec() == old(self).pos_spec()
                },
            },
    {
        if self.pos < self.end {
            let c = node_char_at(self.node, self.pos);
            self.pos = self.pos + 1;
            Some(c)
        } else {
            None
        }
    }

    /// How many chars remain: drains the iterator.
    pub fn count(self) -> (r: usize)
        requires
            self.wf(),
        ensures
            r == self.end_spec() - self.pos_spec(),
    {
        self.end - self.pos
    }
}

/// Iterator over the text one leaf fragment at a time, trimmed to the
/// iterated range; each step yields a copied fragment.
pub struct Chunks<'a> {
    node: &'a Node,
    pos: usize,
    end: usize,
}

impl<'a> Chunks<'a> {
    /// Spec: the tree iterated over.
    pub closed spec fn tree(&self) -> Node {
        *self.node
    }

    /// Spec: the text iterated over.
    pub closed spec fn text(&self) -> Seq<u8> {
        self.node.bytes()
    }

    /// Spec: the cursor and the end position, in bytes.
    pub closed spec fn pos_spec(&self) -> int {
        self.pos as int
    }

    pub closed spec fn end_spec(&self) -> int {
        self.end as int
    }

    pub closed spec fn wf(&self) -> bool {
        self.node.wf() && 0 <= self.pos_spec() <= self.end_spec() <= self.text().len()
    }

    pub(crate) fn new_range(node: &'a Node, pos: usize, end: usize) -> (r: Chunks<'a>)
        requires
            node.wf(),
            pos <= end <= node.bytes().len(),
        ensures
            r.wf(),
            r.tree() == *node,
            r.text() == node.bytes(),
            r.pos_spec() == pos,
            r.end_spec() == end,
    {
        Chunks { node, pos, end }
    }

    /// The next non-empty fragment, or nothing once the cursor reaches the
    /// end: exactly the bytes from the cursor to the end of the leaf
    /// containing it, trimmed at the range's end.
    pub fn next(&mut self) -> (r: Option<Vec<u8>>)
        requires
            old(self).wf(),
        ensures
            final(self).wf(),
            final(self).tree() == old(self).tree(),
            final(self).text() == old(self).text(),
            final(self).end_spec() == old(self).end_spec(),
            match r {
                Some(v) => {
                    &&& old(self).pos_spec() < final(self).pos_spec() <= old(self).end_spec()
                    &&& final(self).pos_spec() == if crate::node::leaf_end(
                        old(self).tree(),
                        old(self).pos_spec(),
                    ) < old(self).end_spec() {
                        crate::node::leaf_end(old(self).tree(), old(self).pos_spec())
                    } else {
                        old(self).end_spec()
                    }
                    &&& v@ == old(self).text().subrange(
                        old(self).pos_spec(),
                        final(self).pos_spec(),
                    )
                    &&& v@.len() >= 1
                },
                None => {
                    &&& old(self).pos_spec() == old(self).end_spec()
                    &&& final(self).pos_spec() == old(self).pos_spec()
                },
            },
    {
        if self.pos >= self.end {
            return None;
        }
        let span = leaf_span_at(self.node, self.pos);
        let stop = if span < self.end {
            span
        } else {
            self.end
        };
        let mut v: Vec<u8> = Vec::new();
        let mut b = self.pos;
        while b < stop
            invariant
                self.wf(),
                self.pos_spec() <= b <= stop,
                stop <= self.text().len(),
                v@ =~= self.text().subrange(self.pos_spec(), b as int),
            decreases stop - b,
        {
            let x = node_byte_at(self.node, b);
            v.push(x);
            proof {
                assert(v@ =~= self.text().subrange(self.pos_spec(), b + 1));
            }
            b = b + 1;
        }
        self.pos = stop;
        Some(v)
    }

    /// Total bytes over all remaining fragments: drains the iterator.
    pub fn count_bytes(self) -> (r: usize)
        requires
            self.wf(),
        ensures
            r == self.end_spec() - self.pos_spec(),
    {
        let mut it = self;
        let ghost start = it.pos_spec();
        let mut total: usize = 0;
        loop
            invariant_except_break
                it.wf(),
                0 <= start <= it.pos_spec(),
                total == it.pos_spec() - start,
                it.end_spec() == self.end_spec(),
                it.text() == self.text(),
            ensures
                total == it.end_spec() - start,
                it.end_spec() == self.end_spec(),
            decreases it.end_spec() - it.pos_spec(),
        {
            match it.next() {
                Some(v) => {
                    total = total + v.len();
                },
                None => {
                    break ;
                },
            }
        }
        total
    }
}

/// Iterator over the lines of a slice, in order; each line includes its
/// terminator, and the last line has none unless the text ends with one.
pub struct Lines<'a> {
    sl: RopeSlice<'a>,
    line_idx: usize,
}

impl<'a> Lines<'a> {
    /// Spec: the slice iterated over.
    pub closed spec fn slice_spec(&self) -> RopeSlice<'a> {
        self.sl
    }

    /// Spec: the cursor, in lines.
    pub closed spec fn pos_spec(&self) -> int {
        self.line_idx as int
    }

    /// Spec: the number of lines of the iterated slice.
    pub open spec fn total_spec(&self) -> int {
        self.slice_spec().end_lb_spec() - self.slice_spec().start_lb_spec() + 1
    }

    pub closed spec fn wf(&self) -> bool {
        self.sl.wf() && 0 <= self.pos_spec() <= self.total_spec()
    }

    pub(crate) fn new_over(sl: RopeSlice<'a>) -> (r: Lines<'a>)
        requires
            sl.wf(),
        ensures
            r.wf(),
            r.slice_spec() == sl,
            r.pos_spec() == 0,
    {
        proof {
            sl.lemma_facts();
        }
        Lines { sl, line_idx: 0 }
    }

    /// The next line, or nothing once every line was yielded.
    pub fn next(&mut self) -> (r: Option<RopeSlice<'a>>)
        requires
            old(self).wf(),
        ensures
            final(self).wf(),
            final(self).slice_spec() == old(self).slice_spec(),
            match r {
                Some(line) => {
                    &&& old(self).pos_spec() < old(self).total_spec()
                    &&& final(self).pos_spec() == old(self).pos_spec() + 1
                    &&& line.wf()
                    &&& line.base() == old(self).slice_spec().base()
                    &&& line.start_char_spec() == old(self).slice_spec().start_char_spec() + old(
                        self,
                    ).slice_spec().line_to_char_spec(old(self).pos_spec())
                    &&& line.end_char_spec() == old(self).slice_spec().start_char_spec() + old(
                        self,
                    ).slice_spec().line_to_char_spec(old(self).pos_spec() + 1)
                },
                None => {
                    &&& old(self).pos_spec() == old(self).total_spec()
                    &&& final(self).pos_spec() == old(self).pos_spec()
                },
            },
    {
        proof {
            self.sl.lemma_facts();
            crate::str_utils::lemma_breaks_upto_bounds(
                self.sl.base(),
                self.sl.end_byte_spec(),
            );
        }
        let lines = self.sl.len_lines();
        if self.line_idx < lines {
            let line = self.sl.line(self.line_idx);
            self.line_idx = self.line_idx + 1;
            Some(line)
        } else {
            None
        }
    }

    /// How many lines remain: drains the iterator.
    pub fn count(self) -> (r: usize)
        requires
            self.wf(),
        ensures
            r == self.total_spec() - self.pos_spec(),
    {
        proof {
            self.sl.lemma_facts();
            crate::str_utils::lemma_breaks_upto_bounds(
                self.sl.base(),
                self.sl.end_byte_spec(),
            );
        }
        let lines = self.sl.len_lines();
        lines - self.line_idx
    }
}

impl Rope {
    /// Iterator over the rope's bytes.
    pub fn bytes(&self) -> (r: Bytes<'_>)
        requires
            self.wf(),
        ensures
            r.wf(),
            r.text() == self@,
            r.pos_spec() == 0,
            r.end_spec() == self@.len(),
    {
        let n = self.len_bytes();
        Bytes::new_range(self.root_ref(), 0, n)
    }

    /// Iterator over the rope's chars.
    pub fn chars(&self) -> (r: Chars<'_>)
        requires
            self.wf(),
        ensures
            r.wf(),
            r.text() == self@,
            r.pos_spec() == 0,
            r.end_spec() == count_starts(self@),
    {
        let n = self.len_chars();
        Chars::new_range(self.root_ref(), 0, n)
    }

    /// Iterator over the rope's leaf fragments.
    pub fn chunks(&self) -> (r: Chunks<'_>)
        requires
            self.wf(),
        ensures
            r.wf(),
            r.tree() == self.spec_root(),
            r.text() == self@,
            r.pos_spec() == 0,
            r.end_spec() == self@.len(),
    {
        let n = self.len_bytes();
        Chunks::new_range(self.root_ref(), 0, n)
    }

    /// Iterator over the rope's lines: it walks the full-range view of
    /// this rope's text.
    pub fn lines(&self) -> (r: Lines<'_>)
        requires
            self.wf(),
        ensures
            r.wf(),
            r.slice_spec().wf(),
            r.slice_spec().base() == self@,
            r.slice_spec().start_char_spec() == 0,
            r.slice_spec().end_char_spec() == count_starts(self@),
            r.pos_spec() == 0,
            r.total_spec() == count_breaks_of(self@) + 1,
    {
        proof {
            self.lemma_wf_facts();
            crate::str_utils::lemma_char_to_byte_char(self@, 0);
            crate::str_utils::lemma_char_to_byte_char(self@, count_starts(self@));
            assert(self@.take(char_to_byte_of(self@, count_starts(self@))) =~= self@);
            if self@.len() > 0 {
                vstd::utf8::is_char_boundary_iff_not_is_continuation_byte(self@, 0);
            }
        }
        let sl = self.slice(..);
        proof {
            sl.lemma_facts();
            assert(char_to_byte_of(self@, 0) == 0);
            crate::str_utils::lemma_breaks_upto_beyond(self@, self@.len() as int);
        }
        Lines::new_over(sl)
    }
}

/// Spec: alias for the break count, under a name the iterator contracts
/// can share.
pub open spec fn count_breaks_of(s: Seq<u8>) -> int {
    crate::str_utils::count_breaks(s)
}

/// Spec: alias for the char-start byte walk.
pub open spec fn char_to_byte_of(s: Seq<u8>, c: int) -> int {
    crate::str_utils::char_to_byte_spec(s, c)
}

impl<'a> RopeSlice<'a> {
    /// Iterator over the slice's bytes: it walks the base text from the
    /// slice's first byte to its last, so it yields exactly the viewed
    /// bytes in order.
    pub fn bytes(&self) -> (r: Bytes<'a>)
        requires
            self.wf(),
        ensures
            r.wf(),
            r.text() == self.base(),
            r.pos_spec() == self.start_byte_spec(),
            r.end_spec() == self.end_byte_spec(),
            r.end_spec() - r.pos_spec() == self@.len(),
    {
        proof {
            self.lemma_facts();
        }
        let (node, sb, eb, _, _) = self.parts();
        Bytes::new_range(node, sb, eb)
    }

    /// Iterator over the slice's chars: it walks the base text from the
    /// slice's first char to its last, so it yields exactly the viewed
    /// chars in order.
    pub fn chars(&self) -> (r: Chars<'a>)
        requires
            self.wf(),
        ensures
            r.wf(),
            r.text() == self.base(),
            r.pos_spec() == self.start_char_spec(),
            r.end_spec() == self.end_char_spec(),
            r.end_spec() - r.pos_spec() == count_starts(self@),
    {
        proof {
            self.lemma_facts();
            crate::str_utils::lemma_count_starts_take_monotone(
                self.base(),
                self.end_byte_spec(),
                self.base().len() as int,
            );
            assert(self.base().take(self.base().len() as int) =~= self.base());
        }
        let (node, _, _, sc, ec) = self.parts();
        Chars::new_range(node, sc, ec)
    }

    /// Iterator over the slice's fragments: it walks the base text over
    /// exactly the slice's byte range, so the fragments concatenate to the
    /// viewed bytes.
    pub fn chunks(&self) -> (r: Chunks<'a>)
        requires
            self.wf(),
        ensures
            r.wf(),
            r.tree() == self.node_spec(),
            r.text() == self.base(),
            r.pos_spec() == self.start_byte_spec(),
            r.end_spec() == self.end_byte_spec(),
            r.end_spec() - r.pos_spec() == self@.len(),
    {
        proof {
            self.lemma_facts();
        }
        let (node, sb, eb, _, _) = self.parts();
        Chunks::new_range(node, sb, eb)
    }

    /// Iterator over the slice's lines: it walks this very slice.
    pub fn lines(&self) -> (r: Lines<'a>)
        requires
            self.wf(),
        ensures
            r.wf(),
            r.slice_spec() == *self,
            r.pos_spec() == 0,
            r.total_spec() == self.end_lb_spec() - self.start_lb_spec() + 1,
    {
        Lines::new_over(*self)
    }
}

} // verus!
