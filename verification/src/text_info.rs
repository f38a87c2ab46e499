//! Additive text summaries stored beside each child reference.

use vstd::prelude::*;
use vstd::utf8::is_continuation_byte;

use crate::node::MAX_TOTAL_BYTES;
use crate::str_utils::breaks_upto;
use crate::str_utils::count_breaks;
use crate::str_utils::count_starts;
use crate::str_utils::lemma_breaks_upto_bounds;
use crate::str_utils::lemma_breaks_upto_concat;
use crate::str_utils::lemma_count_starts_bounds;
use crate::str_utils::lemma_count_starts_concat;
use crate::str_utils::count_breaks_bytes;
use crate::str_utils::count_starts_bytes;

verus! {

/// Summary of a span of text: byte count, scalar count, line-break count,
/// and the two boundary facts needed to combine line-break counts exactly
/// when a CRLF pair straddles two spans.
#[derive(Clone, Copy, Debug)]
pub struct TextInfo {
    pub bytes: usize,
    pub chars: usize,
    pub line_breaks: usize,
    pub starts_with_lf: bool,
    pub ends_with_cr: bool,
}

/// Spec: `info` summarizes exactly the text `s`.
pub open spec fn info_wf(info: TextInfo, s: Seq<u8>) -> bool {
    &&& info.bytes == s.len()
    &&& info.chars == count_starts(s)
    &&& info.line_breaks == count_breaks(s)
    &&& info.starts_with_lf == (s.len() > 0 && s[0] == 0x0Au8)
    &&& info.ends_with_cr == (s.len() > 0 && s.last() == 0x0Du8)
}

impl TextInfo {
    /// The summary of the empty span: the identity of `combine`.
    pub fn new() -> (r: TextInfo)
        ensures
            info_wf(r, Seq::empty()),
    {
        TextInfo {
            bytes: 0,
            chars: 0,
            line_breaks: 0,
            starts_with_lf: false,
            ends_with_cr: false,
        }
    }

    /// Measure a fragment of bytes.
    pub fn from_fragment(s: &[u8]) -> (r: TextInfo)
        ensures
            info_wf(r, s@),
    {
        let n = s.len();
        let chars = count_starts_bytes(s);
        let line_breaks = count_breaks_bytes(s);
        proof {
            lemma_count_starts_bounds(s@);
            lemma_breaks_upto_bounds(s@, s@.len() as int);
        }
        TextInfo {
            bytes: n,
            chars,
            line_breaks,
            starts_with_lf: n > 0 && s[0] == 0x0A,
            ends_with_cr: n > 0 && s[n - 1] == 0x0D,
        }
    }

    /// The summary of two adjacent spans: componentwise addition, with one
    /// line break removed when a CRLF pair straddles the boundary.
    pub fn combine(
        self,
        other: TextInfo,
        Ghost(sa): Ghost<Seq<u8>>,
        Ghost(sb): Ghost<Seq<u8>>,
    ) -> (r: TextInfo)
        requires
            info_wf(self, sa),
            info_wf(other, sb),
            sa.len() + sb.len() <= MAX_TOTAL_BYTES,
            sb.len() == 0 || !is_continuation_byte(sb[0]),
        ensures
            info_wf(r, sa + sb),
    {
        proof {
            lemma_count_starts_bounds(sa);
            lemma_count_starts_bounds(sb);
            lemma_breaks_upto_bounds(sa, sa.len() as int);
            lemma_breaks_upto_bounds(sb, sb.len() as int);
            lemma_count_starts_concat(sa, sb);
            lemma_breaks_upto_concat(sa, sb, sb.len() as int);
            if sa.len() > 0 && sa.last() == 0x0Du8 {
                assert(sa[sa.len() - 1] == 0x0Du8);
                assert(breaks_upto(sa, sa.len() as int) == breaks_upto(sa, sa.len() - 1)
                    + 1) by {
                    assert(crate::str_utils::is_break_at(sa, sa.len() as int));
                }
                lemma_breaks_upto_bounds(sa, sa.len() - 1);
                assert(count_breaks(sa) >= 1);
            }
            if sb.len() > 0 {
                assert((sa + sb).last() == sb.last());
            } else {
                assert(sa + sb =~= sa);
            }
            if sa.len() > 0 {
                assert((sa + sb)[0] == sa[0]);
            }
        }
        let cross = self.ends_with_cr && other.starts_with_lf;
        TextInfo {
            bytes: self.bytes + other.bytes,
            chars: self.chars + other.chars,
            line_breaks: if cross {
                self.line_breaks + other.line_breaks - 1
            } else {
                self.line_breaks + other.line_breaks
            },
            starts_with_lf: if self.bytes > 0 {
                self.starts_with_lf
            } else {
                other.starts_with_lf
            },
            ends_with_cr: if other.bytes > 0 {
                other.ends_with_cr
            } else {
                self.ends_with_cr
            },
        }
    }
}

} // verus!
