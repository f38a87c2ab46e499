//! Flat-text utilities: scalar counting, line-break recognition, and the
//! byte / char / line index conversions within a single fragment of UTF-8
//! text.  These are the primitives that the tree defers to at leaf
//! granularity.

use vstd::prelude::*;
use vstd::string::StringSliceAdditionalSpecFns;
use vstd::utf8::encode_scalar;
use vstd::utf8::encode_utf8;
use vstd::utf8::encode_utf8_valid_utf8;
use vstd::utf8::has_width_1_encoding;
use vstd::utf8::has_width_2_encoding;
use vstd::utf8::has_width_3_encoding;
use vstd::utf8::is_char_boundary;
use vstd::utf8::is_char_boundary_iff_not_is_continuation_byte;
use vstd::utf8::is_char_boundary_start_end_of_seq;
use vstd::utf8::is_continuation_byte;
use vstd::utf8::is_scalar;
use vstd::utf8::valid_utf8;

verus! {

/// Spec: how many bytes of `s` start a scalar value (every byte that is not
/// a UTF-8 continuation byte).  On valid UTF-8 this is the number of chars.
pub open spec fn count_starts(s: Seq<u8>) -> int
    decreases s.len(),
{
    if s.len() == 0 {
        0
    } else {
        count_starts(s.drop_last()) + if is_continuation_byte(s.last()) {
            0int
        } else {
            1int
        }
    }
}

pub proof fn lemma_count_starts_bounds(s: Seq<u8>)
    ensures
        0 <= count_starts(s) <= s.len(),
    decreases s.len(),
{
    if s.len() > 0 {
        lemma_count_starts_bounds(s.drop_last());
    }
}

/// Counting scalar starts distributes over concatenation.
pub proof fn lemma_count_starts_concat(a: Seq<u8>, b: Seq<u8>)
    ensures
        count_starts(a + b) == count_starts(a) + count_starts(b),
    decreases b.len(),
{
    if b.len() == 0 {
        assert(a + b =~= a);
    } else {
        lemma_count_starts_concat(a, b.drop_last());
        assert((a + b).drop_last() =~= a + b.drop_last());
        assert((a + b).last() == b.last());
    }
}

/// One step of counting over a growing prefix.
pub proof fn lemma_count_starts_take_step(s: Seq<u8>, i: int)
    requires
        0 <= i < s.len(),
    ensures
        count_starts(s.take(i + 1)) == count_starts(s.take(i)) + if is_continuation_byte(
            s[i],
        ) {
            0int
        } else {
            1int
        },
{
    assert(s.take(i + 1).drop_last() =~= s.take(i));
    assert(s.take(i + 1).last() == s[i]);
}

/// Spec: position `j` (in `1 ..= s.len()`) lies immediately after a line
/// terminator.  The recognized terminators are LF, VT, FF, CR, CRLF (as a
/// single break, reported after the LF), NEL (`C2 85`), LS (`E2 80 A8`) and
/// PS (`E2 80 A9`).
pub open spec fn is_break_at(s: Seq<u8>, j: int) -> bool {
    1 <= j <= s.len() && {
        let b = s[j - 1];
        ||| b == 0x0Au8
        ||| b == 0x0Bu8
        ||| b == 0x0Cu8
        ||| (b == 0x0Du8 && (j == s.len() || s[j] != 0x0Au8))
        ||| (j >= 2 && s[j - 2] == 0xC2u8 && b == 0x85u8)
        ||| (j >= 3 && s[j - 3] == 0xE2u8 && s[j - 2] == 0x80u8 && (b == 0xA8u8 || b
            == 0xA9u8))
    }
}

/// Spec: number of break positions at or before `j`.
pub open spec fn breaks_upto(s: Seq<u8>, j: int) -> int
    decreases j,
{
    if j <= 0 {
        0
    } else {
        breaks_upto(s, j - 1) + if is_break_at(s, j) {
            1int
        } else {
            0int
        }
    }
}

/// Spec: total number of line breaks in `s`.
pub open spec fn count_breaks(s: Seq<u8>) -> int {
    breaks_upto(s, s.len() as int)
}

pub proof fn lemma_breaks_upto_bounds(s: Seq<u8>, j: int)
    ensures
        0 <= breaks_upto(s, j) <= if j >= 0 {
            j
        } else {
            0
        },
    decreases j,
{
    if j > 0 {
        lemma_breaks_upto_bounds(s, j - 1);
    }
}

pub proof fn lemma_breaks_upto_monotone(s: Seq<u8>, i: int, j: int)
    requires
        i <= j,
    ensures
        breaks_upto(s, i) <= breaks_upto(s, j),
    decreases j - i,
{
    if i < j {
        lemma_breaks_upto_monotone(s, i, j - 1);
    }
}

/// Spec: `j` is a scalar boundary of `s` (its start, its end, or the start
/// byte of a scalar value).
pub open spec fn is_boundary(s: Seq<u8>, j: int) -> bool {
    0 <= j <= s.len() && (j == s.len() || !is_continuation_byte(s[j]))
}

/// Spec: the byte index of the start of char `c`, anchored to the end when
/// `c` is the char count or beyond.  A byte index inside a scalar value is
/// never produced: the walk only stops on scalar boundaries.
pub open spec fn char_to_byte_spec(s: Seq<u8>, c: int) -> int
    decreases s.len(),
{
    if s.len() == 0 {
        0
    } else if !is_continuation_byte(s[0]) && c <= 0 {
        0
    } else {
        1 + char_to_byte_spec(s.skip(1), c - if is_continuation_byte(s[0]) {
            0int
        } else {
            1int
        })
    }
}

/// Spec: the index of the char containing byte `b`, anchored to the char
/// count when `b` reaches the end.  Bytes inside a multi-byte scalar map to
/// the scalar's char index.
pub open spec fn byte_to_char_spec(s: Seq<u8>, b: int) -> int {
    if b >= s.len() {
        count_starts(s)
    } else if b < 0 {
        0
    } else {
        count_starts(s.take(b + 1)) - 1
    }
}

proof fn lemma_count_starts_split_first(s: Seq<u8>, x: int)
    requires
        s.len() > 0,
        0 <= x <= s.len() - 1,
    ensures
        count_starts(s.take(1 + x)) == count_starts(s.skip(1).take(x)) + if is_continuation_byte(
            s[0],
        ) {
            0int
        } else {
            1int
        },
        count_starts(s) == count_starts(s.skip(1)) + if is_continuation_byte(s[0]) {
            0int
        } else {
            1int
        },
{
    let one = seq![s[0]];
    assert(count_starts(one) == count_starts(one.drop_last()) + if is_continuation_byte(
        one.last(),
    ) {
        0int
    } else {
        1int
    });
    assert(one.drop_last() =~= Seq::<u8>::empty());
    assert(s.take(1 + x) =~= one + s.skip(1).take(x));
    lemma_count_starts_concat(one, s.skip(1).take(x));
    assert(s =~= one + s.skip(1));
    lemma_count_starts_concat(one, s.skip(1));
}

/// What `char_to_byte_spec` lands on: a scalar boundary carrying exactly
/// `c` scalar starts before it (clamped to the total count).
pub proof fn lemma_char_to_byte_char(s: Seq<u8>, c: int)
    requires
        0 <= c,
    ensures
        0 <= char_to_byte_spec(s, c) <= s.len(),
        is_boundary(s, char_to_byte_spec(s, c)),
        c <= count_starts(s) ==> count_starts(s.take(char_to_byte_spec(s, c))) == c,
        c >= count_starts(s) ==> char_to_byte_spec(s, c) == s.len(),
    decreases s.len(),
{
    lemma_count_starts_bounds(s);
    if s.len() == 0 {
    } else if !is_continuation_byte(s[0]) && c <= 0 {
        assert(s.take(0) =~= Seq::<u8>::empty());
        if c >= count_starts(s) {
            lemma_count_starts_split_first(s, s.len() - 1);
            lemma_count_starts_bounds(s.skip(1));
        }
    } else {
        let inc: int = if is_continuation_byte(s[0]) {
            0
        } else {
            1
        };
        lemma_char_to_byte_char(s.skip(1), c - inc);
        let b2 = char_to_byte_spec(s.skip(1), c - inc);
        let b = 1 + b2;
        lemma_count_starts_split_first(s, b2);
        assert(b2 < s.skip(1).len() ==> s[b] == s.skip(1)[b2]);
        lemma_count_starts_bounds(s.skip(1));
    }
}

/// The walk stays within the text for every char argument.
pub proof fn lemma_char_to_byte_char_total(s: Seq<u8>, c: int)
    ensures
        0 <= char_to_byte_spec(s, c) <= s.len(),
    decreases s.len(),
{
    if s.len() == 0 {
    } else if !is_continuation_byte(s[0]) && c <= 0 {
    } else {
        lemma_char_to_byte_char_total(
            s.skip(1),
            c - if is_continuation_byte(s[0]) {
                0int
            } else {
                1int
            },
        );
    }
}

/// Two scalar boundaries with the same number of starts before them are the
/// same position.
pub proof fn lemma_boundary_unique(s: Seq<u8>, j1: int, j2: int)
    requires
        is_boundary(s, j1),
        is_boundary(s, j2),
        count_starts(s.take(j1)) == count_starts(s.take(j2)),
    ensures
        j1 == j2,
{
    if j1 < j2 {
        lemma_boundary_order(s, j1, j2);
    } else if j2 < j1 {
        lemma_boundary_order(s, j2, j1);
    }
}

pub proof fn lemma_boundary_order(s: Seq<u8>, j1: int, j2: int)
    requires
        is_boundary(s, j1),
        0 <= j1 < j2 <= s.len(),
    ensures
        count_starts(s.take(j1)) < count_starts(s.take(j2)),
{
    let mid = s.subrange(j1, j2);
    assert(s.take(j2) =~= s.take(j1) + mid);
    lemma_count_starts_concat(s.take(j1), mid);
    let first = seq![mid[0]];
    assert(mid =~= first + mid.skip(1));
    lemma_count_starts_concat(first, mid.skip(1));
    assert(count_starts(first) == count_starts(first.drop_last()) + 1) by {
        assert(first.drop_last() =~= Seq::<u8>::empty());
        assert(first.last() == s[j1]);
    }
    lemma_count_starts_bounds(mid.skip(1));
}

/// Monotone prefix counts: a larger prefix never has fewer starts.
pub proof fn lemma_count_starts_take_monotone(s: Seq<u8>, i: int, j: int)
    requires
        0 <= i <= j <= s.len(),
    ensures
        count_starts(s.take(i)) <= count_starts(s.take(j)),
{
    assert(s.take(j) =~= s.take(i) + s.subrange(i, j));
    lemma_count_starts_concat(s.take(i), s.subrange(i, j));
    lemma_count_starts_bounds(s.subrange(i, j));
}

/// Spec: the first break position strictly after `j`, or the length when no
/// break follows.
pub open spec fn next_break(s: Seq<u8>, j: int) -> int
    decreases s.len() - j,
    when j <= s.len()
{
    if j >= s.len() {
        s.len() as int
    } else if is_break_at(s, j + 1) {
        j + 1
    } else {
        next_break(s, j + 1)
    }
}

/// Spec: the byte index of the start of line `l`: zero for line zero, then
/// the position just after each successive terminator, anchored to the end
/// once the lines run out.
pub open spec fn line_to_byte_spec(s: Seq<u8>, l: int) -> int
    decreases l,
{
    if l <= 0 {
        0
    } else {
        let p = line_to_byte_spec(s, l - 1);
        if p >= s.len() {
            s.len() as int
        } else {
            next_break(s, p)
        }
    }
}

/// Spec: the 0-based line containing byte `b`: the number of breaks at or
/// before it.
pub open spec fn byte_to_line_spec(s: Seq<u8>, b: int) -> int {
    breaks_upto(s, b)
}

proof fn lemma_next_break_char(s: Seq<u8>, j: int)
    requires
        0 <= j <= s.len(),
    ensures
        j <= next_break(s, j) <= s.len(),
        j == s.len() ==> next_break(s, j) == j,
        j < s.len() ==> j < next_break(s, j) && (if is_break_at(s, next_break(s, j)) {
            breaks_upto(s, next_break(s, j)) == breaks_upto(s, j) + 1
        } else {
            next_break(s, j) == s.len() && breaks_upto(s, next_break(s, j)) == breaks_upto(s, j)
        }),
    decreases s.len() - j,
{
    if j >= s.len() {
    } else if is_break_at(s, j + 1) {
    } else {
        lemma_next_break_char(s, j + 1);
    }
}

/// What `line_to_byte_spec` lands on: position zero for line zero, then the
/// unique break carrying exactly `l` breaks at or before it, anchored to the
/// end once `l` exceeds the break count.
pub proof fn lemma_line_to_byte_char(s: Seq<u8>, l: int)
    requires
        0 <= l,
    ensures
        0 <= line_to_byte_spec(s, l) <= s.len(),
        l <= count_breaks(s) ==> breaks_upto(s, line_to_byte_spec(s, l)) == l,
        1 <= l <= count_breaks(s) ==> is_break_at(s, line_to_byte_spec(s, l)),
        l > count_breaks(s) ==> line_to_byte_spec(s, l) == s.len(),
    decreases l,
{
    lemma_breaks_upto_bounds(s, s.len() as int);
    if l == 0 {
    } else {
        lemma_line_to_byte_char(s, l - 1);
        let p = line_to_byte_spec(s, l - 1);
        if p < s.len() {
            lemma_next_break_char(s, p);
            let n = next_break(s, p);
            if l <= count_breaks(s) {
                if !is_break_at(s, n) {
                    lemma_breaks_upto_monotone(s, p, s.len() as int);
                    assert(breaks_upto(s, p) >= l - 1);
                    assert(false);
                }
            } else {
                if is_break_at(s, n) {
                    lemma_breaks_upto_monotone(s, n, s.len() as int);
                    assert(false);
                }
            }
        } else {
            lemma_breaks_upto_monotone(s, s.len() as int, p);
            lemma_breaks_upto_bounds(s, p);
        }
    }
}

/// Counting breaks saturates at the end of the text.
pub proof fn lemma_breaks_upto_beyond(s: Seq<u8>, j: int)
    requires
        j >= s.len(),
    ensures
        breaks_upto(s, j) == count_breaks(s),
    decreases j,
{
    if j > s.len() {
        lemma_breaks_upto_beyond(s, j - 1);
    }
}

/// Once a line start is anchored to the end, all later line starts are too.
pub proof fn lemma_line_to_byte_saturate(s: Seq<u8>, k: int, l: int)
    requires
        0 <= k <= l,
        line_to_byte_spec(s, k) == s.len(),
    ensures
        line_to_byte_spec(s, l) == s.len(),
    decreases l - k,
{
    if k < l {
        lemma_line_to_byte_saturate_step(s, k, l);
    }
}

proof fn lemma_line_to_byte_saturate_step(s: Seq<u8>, k: int, l: int)
    requires
        0 <= k < l,
        line_to_byte_spec(s, k) == s.len(),
    ensures
        line_to_byte_spec(s, l) == s.len(),
    decreases l - k,
{
    if k + 1 < l {
        lemma_line_to_byte_saturate_step(s, k + 1, l);
    }
}

/// Under valid UTF-8, a position is a scalar boundary exactly when it does
/// not point at a continuation byte.
pub proof fn lemma_boundary_agree(s: Seq<u8>, j: int)
    requires
        valid_utf8(s),
        0 <= j <= s.len(),
    ensures
        is_boundary(s, j) == is_char_boundary(s, j),
{
    broadcast use is_char_boundary_start_end_of_seq;

    if j < s.len() {
        is_char_boundary_iff_not_is_continuation_byte(s, j);
    }
}

/// The encoding of one scalar contributes exactly one start byte.
proof fn lemma_count_starts_scalar(u: u32)
    requires
        is_scalar(u),
    ensures
        count_starts(encode_scalar(u)) == 1,
        !is_continuation_byte(encode_scalar(u)[0]),
{
    reveal_with_fuel(count_starts, 5);
    let e = encode_scalar(u);
    assert(((u & 0x7F) as u8) < 0x80) by (bit_vector);
    assert((0xC0u8 | ((u >> 6) & 0x1F) as u8) >= 0xC0) by (bit_vector);
    assert((0xE0u8 | ((u >> 12) & 0x0F) as u8) >= 0xC0) by (bit_vector);
    assert((0xF0u8 | ((u >> 18) & 0x7) as u8) >= 0xC0) by (bit_vector);
    assert(0x80u8 <= (0x80u8 | (u & 0x3F) as u8) <= 0xBF) by (bit_vector);
    assert(0x80u8 <= (0x80u8 | ((u >> 6) & 0x3F) as u8) <= 0xBF) by (bit_vector);
    assert(0x80u8 <= (0x80u8 | ((u >> 12) & 0x3F) as u8) <= 0xBF) by (bit_vector);
    if has_width_1_encoding(u) {
        assert(e.drop_last() =~= Seq::<u8>::empty());
    } else if has_width_2_encoding(u) {
        assert(e.drop_last() =~= seq![e[0]]);
        assert(e.drop_last().drop_last() =~= Seq::<u8>::empty());
    } else if has_width_3_encoding(u) {
        assert(e.drop_last() =~= seq![e[0], e[1]]);
        assert(e.drop_last().drop_last() =~= seq![e[0]]);
        assert(e.drop_last().drop_last().drop_last() =~= Seq::<u8>::empty());
    } else {
        assert(e.drop_last() =~= seq![e[0], e[1], e[2]]);
        assert(e.drop_last().drop_last() =~= seq![e[0], e[1]]);
        assert(e.drop_last().drop_last().drop_last() =~= seq![e[0]]);
        assert(e.drop_last().drop_last().drop_last().drop_last() =~= Seq::<u8>::empty());
    }
}

/// Counting start bytes on encoded text counts exactly its chars.
pub proof fn lemma_count_starts_encode(chars: Seq<char>)
    ensures
        count_starts(encode_utf8(chars)) == chars.len(),
    decreases chars.len(),
{
    if chars.len() > 0 {
        lemma_count_starts_encode(chars.drop_first());
        vstd::utf8::char_is_scalar(chars[0]);
        lemma_count_starts_scalar(chars[0] as u32);
        lemma_count_starts_concat(encode_scalar(chars[0] as u32), encode_utf8(chars.drop_first()));
    }
}

/// Two breaks with the same count of breaks at or before them are the same
/// position.
pub proof fn lemma_break_pos_unique(s: Seq<u8>, j1: int, j2: int)
    requires
        is_break_at(s, j1),
        is_break_at(s, j2),
        breaks_upto(s, j1) == breaks_upto(s, j2),
    ensures
        j1 == j2,
{
    if j1 < j2 {
        lemma_breaks_upto_monotone(s, j1, j2 - 1);
    } else if j2 < j1 {
        lemma_breaks_upto_monotone(s, j2, j1 - 1);
    }
}

/// A text ending in CR has at least one break.
pub proof fn lemma_cr_end_break(s: Seq<u8>)
    requires
        s.len() > 0,
        s.last() == 0x0Du8,
    ensures
        count_breaks(s) >= 1,
{
    assert(s[s.len() - 1] == 0x0Du8);
    assert(is_break_at(s, s.len() as int));
    lemma_breaks_upto_bounds(s, s.len() - 1);
}

/// Spec: one when a CR ending `a` meets an LF opening `b`, so that the CRLF
/// pair forms a single break across the boundary; zero otherwise.
pub open spec fn seam(a: Seq<u8>, b: Seq<u8>) -> int {
    if a.len() > 0 && b.len() > 0 && a.last() == 0x0Du8 && b[0] == 0x0Au8 {
        1
    } else {
        0
    }
}

/// Break positions strictly inside `a` are unaffected by what follows.
pub proof fn lemma_breaks_upto_prefix(a: Seq<u8>, b: Seq<u8>, j: int)
    requires
        0 <= j < a.len(),
    ensures
        breaks_upto(a + b, j) == breaks_upto(a, j),
    decreases j,
{
    if j > 0 {
        lemma_breaks_upto_prefix(a, b, j - 1);
        assert((a + b)[j - 1] == a[j - 1]);
        assert(j >= 2 ==> (a + b)[j - 2] == a[j - 2]);
        assert(j >= 3 ==> (a + b)[j - 3] == a[j - 3]);
        assert(j < a.len() ==> (a + b)[j] == a[j]);
        assert(is_break_at(a + b, j) == is_break_at(a, j));
    }
}

/// A break position inside `b` reads the same bytes whether or not `a`
/// stands before it, provided `b` opens on a scalar boundary.
pub proof fn lemma_break_at_shift(a: Seq<u8>, b: Seq<u8>, t: int)
    requires
        1 <= t <= b.len(),
        !is_continuation_byte(b[0]),
    ensures
        is_break_at(a + b, a.len() + t) == is_break_at(b, t),
{
    let s = a + b;
    let j = a.len() + t;
    assert(s[j - 1] == b[t - 1]);
    assert(t >= 2 ==> s[j - 2] == b[t - 2]);
    assert(t >= 3 ==> s[j - 3] == b[t - 3]);
    assert(t < b.len() ==> s[j] == b[t]);
    assert(t == 2 ==> s[j - 2] == b[0]);
    assert(t == 1 ==> s[j - 1] == b[0]);
    if t == 1 && a.len() >= 1 {
        assert(s[j - 2] == a.last());
    }
    if t == 1 && a.len() >= 2 {
        assert(s[j - 3] == a[a.len() - 2]);
    }
    if t == 2 && a.len() >= 1 {
        assert(s[j - 3] == a.last());
    }
}

/// The central counting law: line breaks across a concatenation are the
/// breaks of each part, with one subtracted when a CRLF pair straddles the
/// boundary.  Requires `b` to open on a scalar boundary.
pub proof fn lemma_breaks_upto_concat(a: Seq<u8>, b: Seq<u8>, t: int)
    requires
        0 <= t <= b.len(),
        b.len() == 0 || !is_continuation_byte(b[0]),
    ensures
        breaks_upto(a + b, a.len() + t) == count_breaks(a) - seam(a, b) + breaks_upto(b, t),
    decreases t,
{
    if t == 0 {
        if b.len() == 0 {
            assert(a + b =~= a);
        } else if a.len() == 0 {
            assert(a + b =~= b);
            assert(breaks_upto(a + b, 0) == 0);
        } else {
            lemma_breaks_upto_prefix(a, b, a.len() - 1);
            let j = a.len() as int;
            let s = a + b;
            assert(s[j - 1] == a[j - 1]);
            assert(j >= 2 ==> s[j - 2] == a[j - 2]);
            assert(j >= 3 ==> s[j - 3] == a[j - 3]);
            assert(s[j] == b[0]);
            if a.last() == 0x0Du8 && b[0] == 0x0Au8 {
                assert(!is_break_at(s, j));
                assert(is_break_at(a, j));
            } else {
                assert(is_break_at(s, j) == is_break_at(a, j));
            }
        }
    } else {
        lemma_breaks_upto_concat(a, b, t - 1);
        lemma_break_at_shift(a, b, t);
    }
}

/// Exec check for a byte that starts a scalar value.
pub(crate) fn is_start(b: u8) -> (r: bool)
    ensures
        r == !is_continuation_byte(b),
{
    b < 0x80 || b >= 0xC0
}

/// Exec check of `is_break_at` at position `j`.
pub(crate) fn break_at(s: &[u8], j: usize) -> (r: bool)
    requires
        1 <= j <= s@.len(),
    ensures
        r == is_break_at(s@, j as int),
{
    let b = s[j - 1];
    if b == 0x0A || b == 0x0B || b == 0x0C {
        true
    } else if b == 0x0D {
        j == s.len() || s[j] != 0x0A
    } else if b == 0x85 {
        j >= 2 && s[j - 2] == 0xC2
    } else if b == 0xA8 || b == 0xA9 {
        j >= 3 && s[j - 3] == 0xE2 && s[j - 2] == 0x80
    } else {
        false
    }
}

/// Number of scalar starts in a fragment of bytes.
pub(crate) fn count_starts_bytes(s: &[u8]) -> (r: usize)
    ensures
        r == count_starts(s@),
{
    let n = s.len();
    let mut i: usize = 0;
    let mut cnt: usize = 0;
    while i < n
        invariant
            0 <= i <= n == s@.len(),
            cnt == count_starts(s@.take(i as int)),
            cnt <= i,
        decreases n - i,
    {
        proof {
            lemma_count_starts_take_step(s@, i as int);
        }
        if is_start(s[i]) {
            cnt = cnt + 1;
        }
        i = i + 1;
    }
    proof {
        assert(s@.take(n as int) =~= s@);
    }
    cnt
}

/// Number of line breaks in a fragment of bytes.
pub(crate) fn count_breaks_bytes(s: &[u8]) -> (r: usize)
    ensures
        r == count_breaks(s@),
{
    let n = s.len();
    let mut j: usize = 0;
    let mut cnt: usize = 0;
    while j < n
        invariant
            0 <= j <= n == s@.len(),
            cnt == breaks_upto(s@, j as int),
            cnt <= j,
        decreases n - j,
    {
        proof {
            lemma_breaks_upto_bounds(s@, j as int);
        }
        if break_at(s, j + 1) {
            cnt = cnt + 1;
        }
        j = j + 1;
    }
    cnt
}

/// Byte index of the start of char `c` within a fragment, end-anchored.
pub(crate) fn char_start_bytes(s: &[u8], c: usize) -> (r: usize)
    ensures
        r == char_to_byte_spec(s@, c as int),
        r <= s@.len(),
{
    let n = s.len();
    let mut i: usize = 0;
    let mut rem: usize = c;
    proof {
        assert(s@.skip(0) =~= s@);
    }
    loop
        invariant
            0 <= i <= n == s@.len(),
            rem <= c,
            char_to_byte_spec(s@, c as int) == i + char_to_byte_spec(s@.skip(i as int), rem as int),
        ensures
            i <= s@.len(),
            char_to_byte_spec(s@, c as int) == i,
        decreases n - i,
    {
        proof {
            lemma_char_to_byte_char(s@.skip(i as int), rem as int);
            lemma_count_starts_bounds(s@.skip(i as int));
        }
        if i >= n {
            break ;
        }
        let start = is_start(s[i]);
        proof {
            assert(s@.skip(i as int)[0] == s@[i as int]);
            assert(s@.skip(i as int).skip(1) =~= s@.skip(i as int + 1));
        }
        if start && rem == 0 {
            break ;
        }
        if start {
            rem = rem - 1;
        }
        i = i + 1;
    }
    i
}

/// Char index of the char containing byte `b` within a fragment.
pub(crate) fn char_of_byte_bytes(s: &[u8], b: usize) -> (r: usize)
    requires
        s@.len() == 0 || !is_continuation_byte(s@[0]),
    ensures
        r == byte_to_char_spec(s@, b as int),
{
    let n = s.len();
    if b >= n {
        count_starts_bytes(s)
    } else {
        let mut i: usize = 0;
        let mut cnt: usize = 0;
        let stop = b + 1;
        while i < stop
            invariant
                0 <= i <= stop <= n == s@.len(),
                cnt == count_starts(s@.take(i as int)),
                cnt <= i,
            decreases stop - i,
        {
            proof {
                lemma_count_starts_take_step(s@, i as int);
            }
            if is_start(s[i]) {
                cnt = cnt + 1;
            }
            i = i + 1;
        }
        proof {
            assert(s@.take(1) =~= seq![s@[0]]);
            assert(count_starts(seq![s@[0]]) == 1) by {
                reveal_with_fuel(count_starts, 2);
                assert(seq![s@[0]].drop_last() =~= Seq::<u8>::empty());
            }
            lemma_count_starts_take_monotone(s@, 1, stop as int);
        }
        cnt - 1
    }
}

/// First break position strictly after `j` within a fragment, end-anchored.
pub(crate) fn next_break_bytes(s: &[u8], j: usize) -> (r: usize)
    requires
        j <= s@.len(),
    ensures
        r == next_break(s@, j as int),
        j <= r <= s@.len(),
{
    let n = s.len();
    let mut k: usize = j;
    while k < n && !break_at(s, k + 1)
        invariant
            j <= k <= n == s@.len(),
            next_break(s@, j as int) == next_break(s@, k as int),
        decreases n - k,
    {
        k = k + 1;
    }
    if k < n {
        k + 1
    } else {
        k
    }
}

/// Byte index of the start of line `l` within a fragment, end-anchored.
pub(crate) fn line_start_bytes(s: &[u8], l: usize) -> (r: usize)
    ensures
        r == line_to_byte_spec(s@, l as int),
        r <= s@.len(),
{
    let n = s.len();
    let mut k: usize = 0;
    let mut p: usize = 0;
    while k < l && p < n
        invariant
            0 <= k <= l,
            p <= n == s@.len(),
            p == line_to_byte_spec(s@, k as int),
        decreases l - k,
    {
        p = next_break_bytes(s, p);
        k = k + 1;
    }
    proof {
        if k < l {
            lemma_line_to_byte_saturate(s@, k as int, l as int);
        }
    }
    p
}

/// Line index of the line containing byte `b` within a fragment.
pub(crate) fn line_of_byte_bytes(s: &[u8], b: usize) -> (r: usize)
    ensures
        r == byte_to_line_spec(s@, b as int),
{
    let n = s.len();
    let stop = if b < n {
        b
    } else {
        n
    };
    let mut j: usize = 0;
    let mut cnt: usize = 0;
    while j < stop
        invariant
            0 <= j <= stop <= n == s@.len(),
            stop == if b < n {
                b as int
            } else {
                n as int
            },
            cnt == breaks_upto(s@, j as int),
            cnt <= j,
        decreases stop - j,
    {
        proof {
            lemma_breaks_upto_bounds(s@, j as int);
        }
        if break_at(s, j + 1) {
            cnt = cnt + 1;
        }
        j = j + 1;
    }
    proof {
        if b >= n {
            lemma_breaks_upto_beyond(s@, b as int);
        }
    }
    cnt
}

/// On any scalar boundary `b`, converting to the containing char and back
/// returns `b` itself.
pub proof fn lemma_byte_char_round_trip(s: Seq<u8>, b: int)
    requires
        is_boundary(s, b),
    ensures
        char_to_byte_spec(s, byte_to_char_spec(s, b)) == b,
{
    let c = byte_to_char_spec(s, b);
    lemma_count_starts_bounds(s);
    if b == s.len() {
        assert(s.take(b) =~= s);
        lemma_char_to_byte_char(s, c);
        lemma_boundary_unique(s, char_to_byte_spec(s, c), b);
    } else {
        lemma_count_starts_take_step(s, b);
        lemma_count_starts_take_monotone(s, b + 1, s.len() as int);
        assert(s.take(s.len() as int) =~= s);
        assert(c == count_starts(s.take(b)));
        lemma_count_starts_bounds(s.take(b));
        lemma_char_to_byte_char(s, c);
        lemma_boundary_unique(s, char_to_byte_spec(s, c), b);
    }
}

/// For every char index up to the char count, converting to its byte start
/// and back returns the same char index.
pub proof fn lemma_char_byte_round_trip(s: Seq<u8>, c: int)
    requires
        0 <= c <= count_starts(s),
    ensures
        byte_to_char_spec(s, char_to_byte_spec(s, c)) == c,
{
    lemma_char_to_byte_char(s, c);
    let b = char_to_byte_spec(s, c);
    if b >= s.len() {
        assert(s.take(b) =~= s);
    } else {
        lemma_count_starts_take_step(s, b);
    }
}

/// For every line index up to the break count, converting to its byte start
/// and back returns the same line index.
pub proof fn lemma_line_byte_round_trip(s: Seq<u8>, l: int)
    requires
        0 <= l <= count_breaks(s),
    ensures
        byte_to_line_spec(s, line_to_byte_spec(s, l)) == l,
{
    lemma_line_to_byte_char(s, l);
}

/// Decoding valid UTF-8 yields one char per scalar start byte.
pub proof fn lemma_decode_len(s: Seq<u8>)
    requires
        valid_utf8(s),
    ensures
        vstd::utf8::decode_utf8(s).len() == count_starts(s),
{
    vstd::utf8::decode_utf8_encode_utf8(s);
    lemma_count_starts_encode(vstd::utf8::decode_utf8(s));
}

/// Walking `c` chars from a scalar boundary lands where walking all the
/// chars before the boundary plus `c` does.
pub proof fn lemma_char_to_byte_suffix(s: Seq<u8>, j: int, c: int)
    requires
        is_boundary(s, j),
        0 <= c,
    ensures
        j + char_to_byte_spec(s.skip(j), c) == char_to_byte_spec(
            s,
            count_starts(s.take(j)) + c,
        ),
{
    let tail = s.skip(j);
    let base = count_starts(s.take(j));
    lemma_count_starts_bounds(s.take(j));
    lemma_char_to_byte_char(tail, c);
    lemma_char_to_byte_char(s, base + c);
    let jb = char_to_byte_spec(tail, c);
    let jj = j + jb;
    assert(s.take(j) + tail =~= s);
    lemma_count_starts_concat(s.take(j), tail);
    assert(count_starts(s.take(jj)) == base + count_starts(tail.take(jb))) by {
        assert(s.take(jj) =~= s.take(j) + tail.take(jb));
        lemma_count_starts_concat(s.take(j), tail.take(jb));
    }
    assert(is_boundary(s, jj)) by {
        if jb < tail.len() {
            assert(s[jj] == tail[jb]);
        }
    }
    if base + c <= count_starts(s) {
        assert(count_starts(tail.take(jb)) == c);
        lemma_boundary_unique(s, jj, char_to_byte_spec(s, base + c));
    } else {
        assert(c >= count_starts(tail));
        assert(jb == tail.len());
        assert(jj == s.len());
    }
}

/// A full-range slice views the whole text: char zero starts at byte zero
/// and the char count's byte anchor is the length.
pub proof fn lemma_full_slice_view(s: Seq<u8>)
    requires
        valid_utf8(s),
    ensures
        char_to_byte_spec(s, 0) == 0,
        char_to_byte_spec(s, count_starts(s)) == s.len(),
        s.subrange(0, s.len() as int) == s,
{
    if s.len() > 0 {
        is_char_boundary_iff_not_is_continuation_byte(s, 0);
        vstd::utf8::is_char_boundary_start_end_of_seq(s);
    }
    lemma_count_starts_bounds(s);
    lemma_char_to_byte_char(s, count_starts(s));
    assert(s.subrange(0, s.len() as int) =~= s);
}

/// Later lines never start earlier.
pub proof fn lemma_line_to_byte_monotone(s: Seq<u8>, l1: int, l2: int)
    requires
        0 <= l1 <= l2,
    ensures
        line_to_byte_spec(s, l1) <= line_to_byte_spec(s, l2),
    decreases l2 - l1,
{
    if l1 < l2 {
        lemma_line_to_byte_monotone(s, l1, l2 - 1);
        lemma_line_to_byte_char(s, l2 - 1);
        let p = line_to_byte_spec(s, l2 - 1);
        if p < s.len() {
            lemma_next_break_char(s, p);
        }
    }
}

/// Later bytes never sit in earlier chars.
pub proof fn lemma_byte_to_char_monotone(s: Seq<u8>, b1: int, b2: int)
    requires
        0 <= b1 <= b2,
    ensures
        byte_to_char_spec(s, b1) <= byte_to_char_spec(s, b2),
{
    lemma_count_starts_bounds(s);
    if b1 >= s.len() {
    } else if b2 >= s.len() {
        lemma_count_starts_take_monotone(s, b1 + 1, s.len() as int);
        assert(s.take(s.len() as int) =~= s);
        lemma_count_starts_bounds(s.take(b1 + 1));
    } else {
        lemma_count_starts_take_monotone(s, b1 + 1, b2 + 1);
    }
}

/// The byte text of a `&str`: its UTF-8 encoding.
pub open spec fn str_bytes(text: &str) -> Seq<u8> {
    encode_utf8(text@)
}

/// The encoding of a `&str` is valid UTF-8 and opens on a scalar boundary.
pub proof fn lemma_str_bytes_wf(text: &str)
    ensures
        valid_utf8(str_bytes(text)),
        str_bytes(text).len() == 0 || !is_continuation_byte(str_bytes(text)[0]),
        count_starts(str_bytes(text)) == text@.len(),
{
    encode_utf8_valid_utf8(text@);
    lemma_count_starts_encode(text@);
    if str_bytes(text).len() > 0 {
        is_char_boundary_iff_not_is_continuation_byte(str_bytes(text), 0);
    }
}

/// Number of Unicode scalar values in the text, counted byte-by-byte as the
/// bytes that do not continue a scalar.
pub fn count_chars(text: &str) -> (r: usize)
    ensures
        r == count_starts(str_bytes(text)),
        r == text@.len(),
{
    proof {
        lemma_str_bytes_wf(text);
    }
    count_starts_bytes(text.as_bytes())
}

/// Number of line breaks in the text, with CRLF counted as a single break.
pub fn count_line_breaks(text: &str) -> (r: usize)
    ensures
        r == count_breaks(str_bytes(text)),
{
    count_breaks_bytes(text.as_bytes())
}

/// Char index of the char containing the given byte, end-anchored.
pub fn byte_idx_to_char_idx(text: &str, byte_idx: usize) -> (r: usize)
    ensures
        r == byte_to_char_spec(str_bytes(text), byte_idx as int),
{
    proof {
        lemma_str_bytes_wf(text);
    }
    char_of_byte_bytes(text.as_bytes(), byte_idx)
}

/// Line index of the line containing the given byte.
pub fn byte_idx_to_line_idx(text: &str, byte_idx: usize) -> (r: usize)
    ensures
        r == byte_to_line_spec(str_bytes(text), byte_idx as int),
{
    line_of_byte_bytes(text.as_bytes(), byte_idx)
}

/// Byte index of the start of the given char, end-anchored.
pub fn char_idx_to_byte_idx(text: &str, char_idx: usize) -> (r: usize)
    ensures
        r == char_to_byte_spec(str_bytes(text), char_idx as int),
{
    char_start_bytes(text.as_bytes(), char_idx)
}

/// Line index of the line containing the given char.
pub fn char_idx_to_line_idx(text: &str, char_idx: usize) -> (r: usize)
    ensures
        r == byte_to_line_spec(str_bytes(text), char_to_byte_spec(str_bytes(text), char_idx as int)),
{
    let b = char_idx_to_byte_idx(text, char_idx);
    byte_idx_to_line_idx(text, b)
}

/// Byte index of the start of the given line, end-anchored.
pub fn line_idx_to_byte_idx(text: &str, line_idx: usize) -> (r: usize)
    ensures
        r == line_to_byte_spec(str_bytes(text), line_idx as int),
{
    line_start_bytes(text.as_bytes(), line_idx)
}

/// Char index of the start of the given line, end-anchored.
pub fn line_idx_to_char_idx(text: &str, line_idx: usize) -> (r: usize)
    ensures
        r == byte_to_char_spec(str_bytes(text), line_to_byte_spec(str_bytes(text), line_idx as int)),
{
    proof {
        lemma_str_bytes_wf(text);
    }
    let b = line_idx_to_byte_idx(text, line_idx);
    byte_idx_to_char_idx(text, b)
}

/// Spec: byte lane `k` of a 64-bit word, counted from the low end.
pub open spec fn word_byte(word: u64, k: int) -> u8 {
    (word >> ((8 * k) as u64)) as u8
}

/// True when some byte lane of `word` is strictly below `n`, checked lane
/// by lane.
pub fn has_bytes_less_than(word: u64, n: u8) -> (r: bool)
    ensures
        r == exists|k: int| 0 <= k < 8 && #[trigger] word_byte(word, k) < n,
{
    let mut k: usize = 0;
    let mut found: bool = false;
    while k < 8
        invariant
            0 <= k <= 8,
            found == exists|j: int| 0 <= j < k && #[trigger] word_byte(word, j) < n,
        decreases 8 - k,
    {
        let sh: u64 = 8 * (k as u64);
        let lane: u8 = (word >> sh) as u8;
        proof {
            assert(lane == word_byte(word, k as int));
        }
        if lane < n {
            found = true;
            proof {
                assert(word_byte(word, k as int) < n);
            }
        }
        k = k + 1;
    }
    found
}

/// True when some byte lane of `word` equals `n`, checked lane by lane.
pub fn has_byte(word: u64, n: u8) -> (r: bool)
    ensures
        r == exists|k: int| 0 <= k < 8 && #[trigger] word_byte(word, k) == n,
{
    let mut k: usize = 0;
    let mut found: bool = false;
    while k < 8
        invariant
            0 <= k <= 8,
            found == exists|j: int| 0 <= j < k && #[trigger] word_byte(word, j) == n,
        decreases 8 - k,
    {
        let sh: u64 = 8 * (k as u64);
        let lane: u8 = (word >> sh) as u8;
        proof {
            assert(lane == word_byte(word, k as int));
        }
        if lane == n {
            found = true;
            proof {
                assert(word_byte(word, k as int) == n);
            }
        }
        k = k + 1;
    }
    found
}

/// The first address strictly after `addr` that is a multiple of
/// `alignment`.
pub fn next_aligned_ptr(addr: usize, alignment: usize) -> (r: usize)
    requires
        alignment >= 1,
        addr + alignment <= usize::MAX,
    ensures
        addr < r <= addr + alignment,
        r as int % alignment as int == 0,
{
    let rem = addr % alignment;
    let r = addr + (alignment - rem);
    proof {
        let a = alignment as int;
        vstd::arithmetic::div_mod::lemma_fundamental_div_mod(addr as int, a);
        let q = addr as int / a;
        assert(r as int == (q + 1) * a) by (nonlinear_arith)
            requires
                r as int == addr as int + a - (addr as int % a),
                addr as int == a * q + (addr as int % a),
        ;
        vstd::arithmetic::div_mod::lemma_mod_multiples_basic(q + 1, a);
    }
    r
}

/// An iterator over the byte positions immediately after each line
/// terminator of a text, in order.
pub struct LineBreakIter<'a> {
    bytes: &'a [u8],
    byte_idx: usize,
}

impl<'a> LineBreakIter<'a> {
    /// Spec: the text being scanned.
    pub closed spec fn text(&self) -> Seq<u8> {
        self.bytes@
    }

    /// Spec: the current scan position.
    pub closed spec fn pos(&self) -> int {
        self.byte_idx as int
    }

    /// Spec: the iterator's position lies within its text.
    pub open spec fn wf(&self) -> bool {
        0 <= self.pos() <= self.text().len()
    }

    /// A fresh iterator at the start of the text.
    pub fn new(text: &'a str) -> (r: LineBreakIter<'a>)
        ensures
            r.text() == str_bytes(text),
            r.pos() == 0,
            r.wf(),
    {
        LineBreakIter { bytes: text.as_bytes(), byte_idx: 0 }
    }

    /// The position just after the next line terminator, or nothing when
    /// the text has no further terminator.
    pub fn next(&mut self) -> (r: Option<usize>)
        requires
            old(self).wf(),
        ensures
            final(self).wf(),
            final(self).text() == old(self).text(),
            match r {
                Some(j) => {
                    &&& j == next_break(old(self).text(), old(self).pos())
                    &&& is_break_at(old(self).text(), j as int)
                    &&& breaks_upto(old(self).text(), j as int) == breaks_upto(
                        old(self).text(),
                        old(self).pos(),
                    ) + 1
                    &&& old(self).pos() < j <= old(self).text().len()
                    &&& final(self).pos() == j
                },
                None => {
                    &&& breaks_upto(old(self).text(), old(self).pos()) == count_breaks(
                        old(self).text(),
                    )
                    &&& final(self).pos() == old(self).text().len()
                },
            },
    {
        let n = self.bytes.len();
        if self.byte_idx >= n {
            self.byte_idx = n;
            return None;
        }
        proof {
            lemma_next_break_char(self.text(), self.pos());
        }
        let nb = next_break_bytes(self.bytes, self.byte_idx);
        if nb >= 1 && break_at(self.bytes, nb) {
            self.byte_idx = nb;
            Some(nb)
        } else {
            self.byte_idx = n;
            None
        }
    }

    /// How many terminators remain from the current position: drains the
    /// iterator.
    pub fn count(self) -> (r: usize)
        requires
            self.wf(),
        ensures
            r == count_breaks(self.text()) - breaks_upto(self.text(), self.pos()),
    {
        let mut it = self;
        let mut cnt: usize = 0;
        let ghost s = it.text();
        let ghost start = it.pos();
        loop
            invariant_except_break
                it.wf(),
                it.text() == s,
                0 <= start <= it.pos(),
                cnt == breaks_upto(s, it.pos()) - breaks_upto(s, start),
                breaks_upto(s, start) <= breaks_upto(s, it.pos()),
                cnt <= it.pos(),
            ensures
                cnt == count_breaks(s) - breaks_upto(s, start),
            decreases s.len() - it.pos() + 1,
        {
            proof {
                lemma_breaks_upto_bounds(s, start);
                lemma_breaks_upto_bounds(s, it.pos());
                lemma_breaks_upto_monotone(s, start, it.pos());
            }
            match it.next() {
                Some(_) => {
                    cnt = cnt + 1;
                    proof {
                        lemma_breaks_upto_bounds(s, it.pos());
                        lemma_breaks_upto_monotone(s, start, it.pos());
                    }
                },
                None => {
                    break ;
                },
            }
        }
        cnt
    }
}

} // verus!
