//! Immutable views into part of a rope, and the range argument trait the
//! slicing operations accept.

use vstd::prelude::*;
use vstd::utf8::decode_utf8;
use vstd::utf8::encode_utf8;
use vstd::utf8::valid_utf8;

use crate::builder::clone_node;
use crate::convert::node_byte_at;
use crate::convert::node_byte_to_char;
use crate::convert::node_byte_to_line;
use crate::convert::node_char_at;
use crate::convert::node_char_to_byte;
use crate::convert::node_line_to_byte;
use crate::node::lemma_bytes_bounds;
use crate::node::lemma_node_valid;
use crate::node::Node;
use crate::rope::bytes_eq;
use crate::rope::Rope;
use crate::str_utils::byte_to_char_spec;
use crate::str_utils::breaks_upto;
use crate::str_utils::char_to_byte_spec;
use crate::str_utils::count_starts;
use crate::str_utils::is_boundary;
use crate::str_utils::lemma_boundary_order;
use crate::str_utils::lemma_boundary_unique;
use crate::str_utils::lemma_breaks_upto_monotone;
use crate::str_utils::lemma_byte_to_char_monotone;
use crate::str_utils::lemma_char_to_byte_char;
use crate::str_utils::lemma_count_starts_bounds;
use crate::str_utils::lemma_count_starts_concat;
use crate::str_utils::line_to_byte_spec;
use crate::str_utils::str_bytes;

verus! {

/// The std range types carry their bounds as plain public fields; these
/// declarations only let verified code read them.
#[verifier::external_type_specification]
#[verifier::reject_recursive_types(Idx)]
pub struct ExRangeTo<Idx>(core::ops::RangeTo<Idx>);

#[verifier::external_type_specification]
#[verifier::reject_recursive_types(Idx)]
pub struct ExRangeFrom<Idx>(core::ops::RangeFrom<Idx>);

#[verifier::external_type_specification]
pub struct ExRangeFull(core::ops::RangeFull);

/// Generalizes over the range forms accepted where a char range is
/// expected: a missing start means zero, a missing end means the length.
pub trait CharIdxRange: Sized {
    /// Spec: the range's lower bound, when it names one.
    spec fn start_spec(&self) -> Option<usize>;

    /// Spec: the range's upper bound, when it names one.
    spec fn end_spec(&self) -> Option<usize>;

    /// The range's lower bound, when it names one.
    fn start(&self) -> (r: Option<usize>)
        ensures
            r == self.start_spec(),
    ;

    /// The range's upper bound, when it names one.
    fn end(&self) -> (r: Option<usize>)
        ensures
            r == self.end_spec(),
    ;
}

/// Spec: the char index a range starts at, given the total char count.
pub open spec fn range_start<R: CharIdxRange>(r: R, total: int) -> int {
    match r.start_spec() {
        Some(s) => s as int,
        None => 0,
    }
}

/// Spec: the char index a range ends at, given the total char count.
pub open spec fn range_end<R: CharIdxRange>(r: R, total: int) -> int {
    match r.end_spec() {
        Some(e) => e as int,
        None => total,
    }
}

impl CharIdxRange for core::ops::Range<usize> {
    open spec fn start_spec(&self) -> Option<usize> {
        Some(self.start)
    }

    open spec fn end_spec(&self) -> Option<usize> {
        Some(self.end)
    }

    fn start(&self) -> (r: Option<usize>) {
        Some(self.start)
    }

    fn end(&self) -> (r: Option<usize>) {
        Some(self.end)
    }
}

impl CharIdxRange for core::ops::RangeTo<usize> {
    open spec fn start_spec(&self) -> Option<usize> {
        None
    }

    open spec fn end_spec(&self) -> Option<usize> {
        Some(self.end)
    }

    fn start(&self) -> (r: Option<usize>) {
        None
    }

    fn end(&self) -> (r: Option<usize>) {
        Some(self.end)
    }
}

impl CharIdxRange for core::ops::RangeFrom<usize> {
    open spec fn start_spec(&self) -> Option<usize> {
        Some(self.start)
    }

    open spec fn end_spec(&self) -> Option<usize> {
        None
    }

    fn start(&self) -> (r: Option<usize>) {
        Some(self.start)
    }

    fn end(&self) -> (r: Option<usize>) {
        None
    }
}

/// An immutable view into part of a rope: a borrowed tree plus the view's
/// bounds in byte, char and line-break coordinates of that tree's text.
#[derive(Clone, Copy, Debug)]
pub struct RopeSlice<'a> {
    node: &'a Node,
    start_byte: usize,
    end_byte: usize,
    start_char: usize,
    end_char: usize,
    start_line_break: usize,
    end_line_break: usize,
}

impl<'a> View for RopeSlice<'a> {
    type V = Seq<u8>;

    /// The viewed text, as its UTF-8 bytes.
    closed spec fn view(&self) -> Seq<u8> {
        self.node.bytes().subrange(self.start_byte as int, self.end_byte as int)
    }
}

impl<'a> RopeSlice<'a> {
    /// Spec: the whole text of the tree this slice looks into.
    pub closed spec fn base(&self) -> Seq<u8> {
        self.node.bytes()
    }

    /// Spec: the borrowed tree itself.
    pub closed spec fn node_spec(&self) -> Node {
        *self.node
    }

    /// Spec: the view's bounds, in the base text's coordinates.
    pub closed spec fn start_char_spec(&self) -> int {
        self.start_char as int
    }

    pub closed spec fn end_char_spec(&self) -> int {
        self.end_char as int
    }

    pub closed spec fn start_byte_spec(&self) -> int {
        self.start_byte as int
    }

    pub closed spec fn end_byte_spec(&self) -> int {
        self.end_byte as int
    }

    pub closed spec fn start_lb_spec(&self) -> int {
        self.start_line_break as int
    }

    pub closed spec fn end_lb_spec(&self) -> int {
        self.end_line_break as int
    }

    /// Spec: the stored bounds are consistent: char bounds within the base
    /// text, byte bounds the corresponding scalar starts, line-break
    /// bounds the break counts there.
    pub closed spec fn wf(&self) -> bool {
        &&& self.node.wf()
        &&& 0 <= self.start_char_spec() <= self.end_char_spec() <= count_starts(self.base())
        &&& self.start_byte_spec() == char_to_byte_spec(self.base(), self.start_char_spec())
        &&& self.end_byte_spec() == char_to_byte_spec(self.base(), self.end_char_spec())
        &&& self.start_lb_spec() == breaks_upto(self.base(), self.start_byte_spec())
        &&& self.end_lb_spec() == breaks_upto(self.base(), self.end_byte_spec())
    }

    /// The ground facts every method needs: ordering of the bounds and the
    /// char count of the viewed text.
    pub proof fn lemma_facts(&self)
        requires
            self.wf(),
        ensures
            0 <= self.start_byte_spec() <= self.end_byte_spec() <= self.base().len(),
            self@.len() == self.end_byte_spec() - self.start_byte_spec(),
            count_starts(self.base().take(self.start_byte_spec())) == self.start_char_spec(),
            count_starts(self.base().take(self.end_byte_spec())) == self.end_char_spec(),
            count_starts(self@) == self.end_char_spec() - self.start_char_spec(),
            is_boundary(self.base(), self.start_byte_spec()),
            is_boundary(self.base(), self.end_byte_spec()),
            self.start_lb_spec() <= self.end_lb_spec(),
            valid_utf8(self.base()),
            self.base().len() <= crate::node::MAX_TOTAL_BYTES,
            count_starts(self.base()) <= self.base().len(),
            0 <= self.start_char_spec() <= self.end_char_spec() <= count_starts(self.base()),
            self.start_byte_spec() == char_to_byte_spec(self.base(), self.start_char_spec()),
            self.end_byte_spec() == char_to_byte_spec(self.base(), self.end_char_spec()),
            self.start_lb_spec() == breaks_upto(self.base(), self.start_byte_spec()),
            self.end_lb_spec() == breaks_upto(self.base(), self.end_byte_spec()),
    {
        let base = self.base();
        let sb = self.start_byte_spec();
        let eb = self.end_byte_spec();
        lemma_node_valid(*self.node);
        lemma_bytes_bounds(*self.node);
        lemma_count_starts_bounds(base);
        lemma_char_to_byte_char(base, self.start_char_spec());
        lemma_char_to_byte_char(base, self.end_char_spec());
        if eb < sb {
            lemma_boundary_order(base, eb, sb);
        }
        lemma_breaks_upto_monotone(base, sb, eb);
        assert(base.take(eb) =~= base.take(sb) + self@);
        lemma_count_starts_concat(base.take(sb), self@);
    }

    /// A view of the chars `[start, end)` of the given tree's text.
    pub(crate) fn new_with_range(node: &'a Node, start: usize, end: usize) -> (r: RopeSlice<'a>)
        requires
            node.wf(),
            start <= end <= count_starts(node.bytes()),
        ensures
            r.wf(),
            r.node_spec() == *node,
            r.base() == node.bytes(),
            r.start_char_spec() == start,
            r.end_char_spec() == end,
            r@ == node.bytes().subrange(
                char_to_byte_spec(node.bytes(), start as int),
                char_to_byte_spec(node.bytes(), end as int),
            ),
    {
        let sb = node_char_to_byte(node, start);
        let eb = node_char_to_byte(node, end);
        let slb = node_byte_to_line(node, sb);
        let elb = node_byte_to_line(node, eb);
        RopeSlice {
            node,
            start_byte: sb,
            end_byte: eb,
            start_char: start,
            end_char: end,
            start_line_break: slb,
            end_line_break: elb,
        }
    }

    /// Total number of bytes viewed.
    pub fn len_bytes(&self) -> (r: usize)
        requires
            self.wf(),
        ensures
            r == self@.len(),
    {
        proof {
            self.lemma_facts();
        }
        self.end_byte - self.start_byte
    }

    /// Total number of chars viewed.
    pub fn len_chars(&self) -> (r: usize)
        requires
            self.wf(),
        ensures
            r == count_starts(self@),
    {
        proof {
            self.lemma_facts();
        }
        self.end_char - self.start_char
    }

    /// Total number of lines viewed: the breaks between the bounds plus
    /// one.
    pub fn len_lines(&self) -> (r: usize)
        requires
            self.wf(),
        ensures
            r == self.end_lb_spec() - self.start_lb_spec() + 1,
    {
        proof {
            self.lemma_facts();
            crate::str_utils::lemma_breaks_upto_bounds(self.base(), self.end_byte_spec());
        }
        self.end_line_break - self.start_line_break + 1
    }

    /// Char index (in the slice) of the char containing the given byte (in
    /// the slice).
    pub fn byte_to_char(&self, byte_idx: usize) -> (r: usize)
        requires
            self.wf(),
            byte_idx <= self@.len(),
        ensures
            r == byte_to_char_spec(self.base(), self.start_byte_spec() + byte_idx)
                - self.start_char_spec(),
    {
        proof {
            self.lemma_facts();
            let base = self.base();
            let sb = self.start_byte_spec();
            lemma_byte_to_char_monotone(base, sb, sb + byte_idx);
            if sb < base.len() {
                crate::str_utils::lemma_count_starts_take_step(base, sb);
                assert(byte_to_char_spec(base, sb) == self.start_char_spec());
            } else {
                assert(base.take(sb) =~= base);
            }
        }
        let raw = node_byte_to_char(self.node, self.start_byte + byte_idx);
        raw - self.start_char
    }

    /// Byte index (in the slice) of the start of the given char (in the
    /// slice), end-anchored.
    pub fn char_to_byte(&self, char_idx: usize) -> (r: usize)
        requires
            self.wf(),
            char_idx <= count_starts(self@),
        ensures
            r == char_to_byte_spec(self.base(), self.start_char_spec() + char_idx)
                - self.start_byte_spec(),
    {
        proof {
            self.lemma_facts();
            let base = self.base();
            lemma_char_to_byte_char(base, self.start_char_spec() + char_idx);
            let j = char_to_byte_spec(base, self.start_char_spec() + char_idx);
            if j < self.start_byte_spec() {
                lemma_boundary_order(base, j, self.start_byte_spec());
                lemma_count_starts_bounds(base.take(j));
                assert(false);
            }
        }
        let raw = node_char_to_byte(self.node, self.start_char + char_idx);
        raw - self.start_byte
    }

    /// Spec: the line index reported for char `c` of the slice: the
    /// special end anchor one past the last line for the char count, else
    /// the base line of the char's byte, relative to the slice's first.
    pub open spec fn char_to_line_spec(&self, c: int) -> int {
        if c == self.end_char_spec() - self.start_char_spec() {
            self.end_lb_spec() - self.start_lb_spec() + 1
        } else {
            breaks_upto(
                self.base(),
                char_to_byte_spec(self.base(), self.start_char_spec() + c),
            ) - self.start_lb_spec()
        }
    }

    /// Line index (in the slice) of the line containing the given char (in
    /// the slice); the char count anchors one past the last line.
    pub fn char_to_line(&self, char_idx: usize) -> (r: usize)
        requires
            self.wf(),
            char_idx <= count_starts(self@),
        ensures
            r == self.char_to_line_spec(char_idx as int),
    {
        proof {
            self.lemma_facts();
        }
        let chars = self.end_char - self.start_char;
        if char_idx == chars {
            proof {
                crate::str_utils::lemma_breaks_upto_bounds(self.base(), self.end_byte_spec());
            }
            self.end_line_break - self.start_line_break + 1
        } else {
            proof {
                let base = self.base();
                lemma_char_to_byte_char(base, self.start_char_spec() + char_idx);
                let j = char_to_byte_spec(base, self.start_char_spec() + char_idx);
                if j < self.start_byte_spec() {
                    lemma_boundary_order(base, j, self.start_byte_spec());
                    lemma_count_starts_bounds(base.take(j));
                    assert(false);
                }
                lemma_breaks_upto_monotone(base, self.start_byte_spec(), j);
            }
            let b = node_char_to_byte(self.node, self.start_char + char_idx);
            let raw = node_byte_to_line(self.node, b);
            raw - self.start_line_break
        }
    }

    /// Spec: the char index reported for the start of line `l` of the
    /// slice: the char count for one past the last line, else the base
    /// line start relative to the slice's own start, clamped to it.
    pub open spec fn line_to_char_spec(&self, l: int) -> int {
        if l == self.end_lb_spec() - self.start_lb_spec() + 1 {
            self.end_char_spec() - self.start_char_spec()
        } else {
            let raw = byte_to_char_spec(
                self.base(),
                line_to_byte_spec(self.base(), self.start_lb_spec() + l),
            );
            if raw < self.start_char_spec() {
                0
            } else {
                raw - self.start_char_spec()
            }
        }
    }

    /// Char index (in the slice) of the first char of the given line; one
    /// past the last line anchors to the char count.
    pub fn line_to_char(&self, line_idx: usize) -> (r: usize)
        requires
            self.wf(),
            line_idx <= self.end_lb_spec() - self.start_lb_spec() + 1,
        ensures
            r == self.line_to_char_spec(line_idx as int),
    {
        proof {
            self.lemma_facts();
            crate::str_utils::lemma_breaks_upto_bounds(self.base(), self.end_byte_spec());
        }
        let lines = self.end_line_break - self.start_line_break + 1;
        if line_idx == lines {
            self.end_char - self.start_char
        } else {
            let b = node_line_to_byte(self.node, self.start_line_break + line_idx);
            let raw = node_byte_to_char(self.node, b);
            if raw < self.start_char {
                0
            } else {
                raw - self.start_char
            }
        }
    }

    /// The char at the given char index of the slice.
    pub fn char(&self, char_idx: usize) -> (r: char)
        requires
            self.wf(),
            char_idx < count_starts(self@),
        ensures
            r == decode_utf8(self.base())[self.start_char_spec() + char_idx],
    {
        proof {
            self.lemma_facts();
        }
        node_char_at(self.node, self.start_char + char_idx)
    }

    /// A sub-view of this view, by char range within it.
    pub fn slice<R: CharIdxRange>(&self, range: R) -> (r: RopeSlice<'a>)
        requires
            self.wf(),
            range_start(range, count_starts(self@)) <= range_end(range, count_starts(self@)),
            range_end(range, count_starts(self@)) <= count_starts(self@),
        ensures
            r.wf(),
            r.base() == self.base(),
            r.start_char_spec() == self.start_char_spec() + range_start(
                range,
                count_starts(self@),
            ),
            r.end_char_spec() == self.start_char_spec() + range_end(range, count_starts(self@)),
            r@ == self.base().subrange(
                char_to_byte_spec(self.base(), r.start_char_spec()),
                char_to_byte_spec(self.base(), r.end_char_spec()),
            ),
    {
        proof {
            self.lemma_facts();
        }
        let chars = self.end_char - self.start_char;
        let start = match range.start() {
            Some(s) => s,
            None => 0,
        };
        let end = match range.end() {
            Some(e) => e,
            None => chars,
        };
        RopeSlice::new_with_range(self.node, self.start_char + start, self.start_char + end)
    }

    /// The line at the given line index, including its terminator (the
    /// last line has none unless the text ends with one).
    pub fn line(&self, line_idx: usize) -> (r: RopeSlice<'a>)
        requires
            self.wf(),
            line_idx < self.end_lb_spec() - self.start_lb_spec() + 1,
        ensures
            r.wf(),
            r.base() == self.base(),
            r.start_char_spec() == self.start_char_spec() + self.line_to_char_spec(
                line_idx as int,
            ),
            r.end_char_spec() == self.start_char_spec() + self.line_to_char_spec(
                line_idx as int + 1,
            ),
    {
        proof {
            self.lemma_facts();
            crate::str_utils::lemma_breaks_upto_bounds(self.base(), self.end_byte_spec());
        }
        let start = self.line_to_char(line_idx);
        let end = self.line_to_char(line_idx + 1);
        proof {
            self.lemma_line_char_bounds(line_idx as int);
        }
        RopeSlice::new_with_range(self.node, self.start_char + start, self.start_char + end)
    }

    /// Line starts are ordered and stay within the slice's chars.
    proof fn lemma_line_char_bounds(&self, l: int)
        requires
            self.wf(),
            0 <= l < self.end_lb_spec() - self.start_lb_spec() + 1,
        ensures
            0 <= self.line_to_char_spec(l) <= self.line_to_char_spec(l + 1) <= self.end_char_spec()
                - self.start_char_spec(),
    {
        self.lemma_facts();
        let base = self.base();
        let lines = self.end_lb_spec() - self.start_lb_spec() + 1;
        crate::str_utils::lemma_breaks_upto_bounds(base, self.end_byte_spec());
        lemma_breaks_upto_monotone(base, self.end_byte_spec(), base.len() as int);
        crate::str_utils::lemma_line_to_byte_char(base, self.start_lb_spec() + l);
        if l + 1 < lines {
            crate::str_utils::lemma_line_to_byte_char(base, self.start_lb_spec() + l + 1);
            crate::str_utils::lemma_line_to_byte_monotone(
                base,
                self.start_lb_spec() + l,
                self.start_lb_spec() + l + 1,
            );
            lemma_byte_to_char_monotone(
                base,
                line_to_byte_spec(base, self.start_lb_spec() + l),
                line_to_byte_spec(base, self.start_lb_spec() + l + 1),
            );
            // the (l+1)-th break does not pass the end of the slice
            let p = line_to_byte_spec(base, self.start_lb_spec() + l + 1);
            crate::str_utils::lemma_line_to_byte_char(base, self.start_lb_spec() + l + 1);
            if p > self.end_byte_spec() {
                if self.start_lb_spec() + l + 1 <= breaks_upto(base, base.len() as int) {
                    lemma_breaks_upto_monotone(base, self.end_byte_spec(), p - 1);
                    assert(false);
                } else {
                    assert(false);
                }
            }
            lemma_byte_to_char_monotone(base, p, self.end_byte_spec());
            assert(byte_to_char_spec(base, self.end_byte_spec()) == self.end_char_spec()) by {
                self.lemma_b2c_at_boundary();
            }
        } else {
            let p = line_to_byte_spec(base, self.start_lb_spec() + l);
            crate::str_utils::lemma_line_to_byte_char(base, self.start_lb_spec() + l);
            if p > self.end_byte_spec() {
                if self.start_lb_spec() + l <= breaks_upto(base, base.len() as int) {
                    if self.start_lb_spec() + l >= 1 {
                        lemma_breaks_upto_monotone(base, self.end_byte_spec(), p - 1);
                        assert(false);
                    }
                } else {
                    assert(false);
                }
            }
            lemma_byte_to_char_monotone(base, p, self.end_byte_spec());
            assert(byte_to_char_spec(base, self.end_byte_spec()) == self.end_char_spec()) by {
                self.lemma_b2c_at_boundary();
            }
        }
    }

    /// At the slice's end boundary, bytes map back to the end char.
    proof fn lemma_b2c_at_boundary(&self)
        requires
            self.wf(),
        ensures
            byte_to_char_spec(self.base(), self.end_byte_spec()) == self.end_char_spec(),
            byte_to_char_spec(self.base(), self.start_byte_spec()) == self.start_char_spec(),
    {
        self.lemma_facts();
        let base = self.base();
        if self.end_byte_spec() < base.len() {
            crate::str_utils::lemma_count_starts_take_step(base, self.end_byte_spec());
        } else {
            assert(base.take(self.end_byte_spec()) =~= base);
        }
        if self.start_byte_spec() < base.len() {
            crate::str_utils::lemma_count_starts_take_step(base, self.start_byte_spec());
        } else {
            assert(base.take(self.start_byte_spec()) =~= base);
        }
    }

    /// `byte_to_char` answers as if the slice's text stood alone: the
    /// offset arithmetic over the base text equals the conversion on the
    /// viewed text itself.
    pub proof fn lemma_byte_to_char_view(&self, b: int)
        requires
            self.wf(),
            0 <= b <= self@.len(),
        ensures
            byte_to_char_spec(self.base(), self.start_byte_spec() + b) - self.start_char_spec()
                == byte_to_char_spec(self@, b),
    {
        self.lemma_facts();
        let base = self.base();
        let sb = self.start_byte_spec();
        let sub = self@;
        if b == sub.len() {
            self.lemma_b2c_at_boundary();
        } else {
            assert(base.take(sb + b + 1) =~= base.take(sb) + sub.take(b + 1));
            lemma_count_starts_concat(base.take(sb), sub.take(b + 1));
        }
    }

    /// `char_to_byte` answers as if the slice's text stood alone: the
    /// offset arithmetic over the base text equals the conversion on the
    /// viewed text itself.
    pub proof fn lemma_char_to_byte_view(&self, c: int)
        requires
            self.wf(),
            0 <= c <= count_starts(self@),
        ensures
            char_to_byte_spec(self.base(), self.start_char_spec() + c) - self.start_byte_spec()
                == char_to_byte_spec(self@, c),
    {
        self.lemma_facts();
        let base = self.base();
        let sb = self.start_byte_spec();
        let sc = self.start_char_spec();
        let sub = self@;
        lemma_char_to_byte_char(base, sc + c);
        lemma_char_to_byte_char(sub, c);
        let j2 = char_to_byte_spec(sub, c);
        assert(is_boundary(base, sb + j2)) by {
            if j2 < sub.len() {
                assert(base[sb + j2] == sub[j2]);
            }
        }
        assert(count_starts(base.take(sb + j2)) == sc + c) by {
            assert(base.take(sb + j2) =~= base.take(sb) + sub.take(j2));
            lemma_count_starts_concat(base.take(sb), sub.take(j2));
        }
        lemma_boundary_unique(base, char_to_byte_spec(base, sc + c), sb + j2);
    }

    /// The borrowed tree and the stored byte and char bounds, for the
    /// iterators.
    pub(crate) fn parts(&self) -> (r: (&'a Node, usize, usize, usize, usize))
        ensures
            *r.0 == self.node_spec(),
            r.0.bytes() == self.base(),
            self.wf() ==> r.0.wf(),
            r.1 == self.start_byte_spec(),
            r.2 == self.end_byte_spec(),
            r.3 == self.start_char_spec(),
            r.4 == self.end_char_spec(),
    {
        (self.node, self.start_byte, self.end_byte, self.start_char, self.end_char)
    }

    /// The viewed bytes, copied out in order.
    pub(crate) fn collect(&self) -> (r: Vec<u8>)
        requires
            self.wf(),
        ensures
            r@ == self@,
    {
        proof {
            self.lemma_facts();
        }
        let mut out: Vec<u8> = Vec::new();
        let mut b = self.start_byte;
        while b < self.end_byte
            invariant
                self.wf(),
                self.start_byte_spec() <= b <= self.end_byte_spec(),
                self.end_byte_spec() <= self.base().len(),
                out@ =~= self.base().subrange(self.start_byte_spec(), b as int),
            decreases self.end_byte_spec() - b,
        {
            let x = node_byte_at(self.node, b);
            out.push(x);
            proof {
                assert(out@ =~= self.base().subrange(self.start_byte_spec(), b + 1));
            }
            b = b + 1;
        }
        proof {
            assert(out@ =~= self@);
        }
        out
    }

    /// The viewed text as one freshly allocated string.
    pub fn to_string(&self) -> (r: String)
        requires
            self.wf(),
        ensures
            encode_utf8(r@) == self@,
    {
        proof {
            self.lemma_facts();
            crate::str_utils::lemma_boundary_agree(self.base(), self.start_byte_spec());
            vstd::utf8::valid_utf8_split(self.base(), self.start_byte_spec());
            let tail = self.base().subrange(self.start_byte_spec(), self.base().len() as int);
            assert(is_boundary(tail, self.end_byte_spec() - self.start_byte_spec())) by {
                if self.end_byte_spec() < self.base().len() {
                    assert(tail[self.end_byte_spec() - self.start_byte_spec()]
                        == self.base()[self.end_byte_spec()]);
                }
            }
            crate::str_utils::lemma_boundary_agree(
                tail,
                self.end_byte_spec() - self.start_byte_spec(),
            );
            vstd::utf8::valid_utf8_split(tail, self.end_byte_spec() - self.start_byte_spec());
            assert(tail.subrange(0, self.end_byte_spec() - self.start_byte_spec()) =~= self@);
        }
        let v = self.collect();
        let s = crate::rope::utf8_to_str(v.as_slice());
        s.to_owned()
    }

    /// An owned rope holding exactly the viewed text.
    pub fn to_rope(&self) -> (r: Rope)
        requires
            self.wf(),
        ensures
            r.wf(),
            r@ == self@,
    {
        proof {
            self.lemma_facts();
        }
        let copy = clone_node(self.node);
        let mut rope = Rope::from_root(copy);
        let ghost base = self.base();
        let _tail = rope.split_off(self.end_char);
        proof {
            let taken = base.take(self.end_byte_spec());
            assert(rope@ == taken);
            // the start char lands on the same byte inside the prefix
            assert(taken.take(self.start_byte_spec()) =~= base.take(self.start_byte_spec()));
            assert(is_boundary(taken, self.start_byte_spec())) by {
                if self.start_byte_spec() < taken.len() {
                    assert(taken[self.start_byte_spec()] == base[self.start_byte_spec()]);
                }
            }
            lemma_count_starts_bounds(taken);
            lemma_char_to_byte_char(taken, self.start_char_spec());
            assert(count_starts(taken) == self.end_char_spec()) by {
                self.lemma_facts();
            }
            lemma_boundary_unique(
                taken,
                char_to_byte_spec(taken, self.start_char_spec()),
                self.start_byte_spec(),
            );
        }
        let out = rope.split_off(self.start_char);
        proof {
            assert(out@ =~= self@);
        }
        out
    }

    /// Exact content equality with another slice.
    pub fn eq_slice(&self, other: &RopeSlice<'_>) -> (r: bool)
        requires
            self.wf(),
            other.wf(),
        ensures
            r == (self@ == other@),
    {
        let a = self.collect();
        let b = other.collect();
        bytes_eq(a.as_slice(), b.as_slice())
    }

    /// Exact content equality with a string's text.
    pub fn eq_str(&self, other: &str) -> (r: bool)
        requires
            self.wf(),
        ensures
            r == (self@ == str_bytes(other)),
    {
        let a = self.collect();
        bytes_eq(a.as_slice(), other.as_bytes())
    }

    /// Exact content equality with a rope's text.
    pub fn eq_rope(&self, other: &Rope) -> (r: bool)
        requires
            self.wf(),
            other.wf(),
        ensures
            r == (self@ == other@),
    {
        let a = self.collect();
        let b = other.slice_all_bytes();
        bytes_eq(a.as_slice(), b.as_slice())
    }
}

impl Rope {
    /// A view of the chars `[start, end)` of this rope.
    pub fn slice<R: CharIdxRange>(&self, range: R) -> (r: RopeSlice<'_>)
        requires
            self.wf(),
            range_start(range, count_starts(self@)) <= range_end(range, count_starts(self@)),
            range_end(range, count_starts(self@)) <= count_starts(self@),
        ensures
            r.wf(),
            r.node_spec() == self.spec_root(),
            r.base() == self@,
            r.start_char_spec() == range_start(range, count_starts(self@)),
            r.end_char_spec() == range_end(range, count_starts(self@)),
            r@ == self@.subrange(
                char_to_byte_spec(self@, r.start_char_spec()),
                char_to_byte_spec(self@, r.end_char_spec()),
            ),
    {
        let chars = self.len_chars();
        let start = match range.start() {
            Some(s) => s,
            None => 0,
        };
        let end = match range.end() {
            Some(e) => e,
            None => chars,
        };
        RopeSlice::new_with_range(self.root_ref(), start, end)
    }

    /// All bytes of the rope, copied out in order.
    pub(crate) fn slice_all_bytes(&self) -> (r: Vec<u8>)
        requires
            self.wf(),
        ensures
            r@ == self@,
    {
        proof {
            self.lemma_wf_facts();
        }
        let mut out: Vec<u8> = Vec::new();
        crate::rope::collect_bytes(self.root_ref(), &mut out);
        out
    }
}

impl CharIdxRange for core::ops::RangeFull {
    open spec fn start_spec(&self) -> Option<usize> {
        None
    }

    open spec fn end_spec(&self) -> Option<usize> {
        None
    }

    fn start(&self) -> (r: Option<usize>) {
        None
    }

    fn end(&self) -> (r: Option<usize>) {
        None
    }
}

} // verus!
