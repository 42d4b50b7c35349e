//! The matcher: an anchor pre-filter over whole lanes of the buffer, then a
//! Horspool skip search over what is left.

use crate::pattern::{is_shift, token_matches, Pattern, PatternView};
use vstd::prelude::*;

verus! {

/// Width of one lane of the pre-filter, in bytes.
pub const LANE_WIDTH: usize = 16;

/// Whether bit `p` of a lane mask is set.
pub open spec fn lane_bit(bits: u16, p: int) -> bool {
    bits & (1u16 << (p as u16)) != 0
}

/// Match offsets as mathematical integers.
pub open spec fn offsets(found: Seq<usize>) -> Seq<int> {
    found.map_values(|at: usize| at as int)
}

impl PatternView {
    /// End of the part of a buffer of `len` bytes that the lane pre-filter
    /// covers: the whole lanes, or nothing where the pattern has no anchor.
    pub open spec fn vector_end(self, len: int) -> int {
        if self.best_skip_mask == 0x00 {
            0
        } else {
            len - len % (LANE_WIDTH as int)
        }
    }

    /// Every offset below `hi` at which the pattern matches, ascending.
    pub open spec fn matches_below(self, text: Seq<u8>, hi: int) -> Seq<int>
        decreases hi,
    {
        if hi <= 0 {
            Seq::empty()
        } else if self.matches_at(text, hi - 1) {
            self.matches_below(text, hi - 1).push(hi - 1)
        } else {
            self.matches_below(text, hi - 1)
        }
    }

    /// The offsets a Horspool scan reports when it starts at `from`: after a
    /// match the window moves on by the pattern's length, after a mismatch by
    /// the skip table's entry for the byte under the last token.
    pub open spec fn skip_scan(self, text: Seq<u8>, from: int) -> Seq<int>
        decreases text.len() - from,
    {
        if from < 0 || self.len() < 1 || from + self.len() > text.len() {
            Seq::empty()
        } else if self.matches_at(text, from) {
            seq![from] + self.skip_scan(text, from + self.len())
        } else {
            let step = self.shift(text[from + self.len() - 1]);
            if step < 1 || step > self.len() {
                Seq::empty()
            } else {
                self.skip_scan(text, from + step)
            }
        }
    }

    /// The offsets the matcher reports for `text`. In the lanes every match
    /// whose anchor byte lies in a lane is reported; behind them the scan
    /// skips.
    pub open spec fn find_all(self, text: Seq<u8>) -> Seq<int> {
        let end = self.vector_end(text.len() as int);
        self.matches_below(text, end - self.best_skip_offset) + self.skip_scan(text, end)
    }
}

/// Compares the sixteen bytes of `text` from `at` on with one token and
/// returns the result as a bit mask: bit `p` is set exactly when the token
/// accepts the byte at `at + p`.
pub fn lane_mask(text: &[u8], at: usize, value: u8, mask: u8) -> (bits: u16)
    requires
        at + 16 <= text@.len(),
    ensures
        forall|p: int|
            0 <= p < 16 ==> (#[trigger] lane_bit(bits, p) <==> token_matches(
                value,
                mask,
                text@[at + p],
            )),
{
    let len: usize = text.len();
    let wanted: u8 = value & mask;
    let mut bits: u16 = 0;
    let mut p: u16 = 0;
    proof {
        assert(forall|q: u16| q < 16 ==> 0u16 & (1u16 << q) == 0) by (bit_vector);
        assert forall|q: int| 0 <= q < 16 implies !#[trigger] lane_bit(0u16, q) by {
            let qq: u16 = q as u16;
            assert(0u16 & (1u16 << qq) == 0);
        }
    }
    while p < 16
        invariant
            p <= 16,
            at + 16 <= text@.len(),
            text@.len() == len,
            wanted == value & mask,
            forall|q: int|
                0 <= q < p ==> (#[trigger] lane_bit(bits, q) <==> token_matches(
                    value,
                    mask,
                    text@[at + q],
                )),
            forall|q: int| p <= q < 16 ==> !#[trigger] lane_bit(bits, q),
        decreases 16 - p,
    {
        if text[at + p as usize] & mask == wanted {
            let ghost before: u16 = bits;
            bits = bits | (1u16 << p);
            proof {
                assert(forall|q: u16|
                    q < 16 ==> (((before | (1u16 << p)) & (1u16 << q) != 0) <==> (before & (1u16
                        << q) != 0 || q == p))) by (bit_vector)
                    requires
                        p < 16,
                ;
                assert forall|q: int| 0 <= q < 16 implies (#[trigger] lane_bit(bits, q)
                    <==> lane_bit(before, q) || q == p) by {
                    let qq: u16 = q as u16;
                    assert(((before | (1u16 << p)) & (1u16 << qq) != 0) <==> (before & (1u16
                        << qq) != 0 || qq == p));
                }
            }
        }
        p += 1;
    }
    bits
}

impl Pattern {
    /// Whether the pattern matches the window of `text` that starts at `at`.
    pub fn matches_at(&self, text: &[u8], at: usize) -> (ok: bool)
        requires
            self.bytes.len() == self.masks.len(),
        ensures
            ok == self@.matches_at(text@, at as int),
    {
        let n: usize = self.bytes.len();
        let len: usize = text.len();
        if n > len || at > len - n {
            return false;
        }
        let mut k: usize = 0;
        while k < n
            invariant
                k <= n,
                n == self.bytes.len(),
                n == self.masks.len(),
                at + n <= text@.len(),
                text@.len() == len,
                forall|j: int| 0 <= j < k ==> #[trigger] self@.token_ok(text@, at as int, j),
            decreases n - k,
        {
            let mask: u8 = self.masks[k];
            if text[at + k] & mask != self.bytes[k] & mask {
                assert(!self@.token_ok(text@, at as int, k as int));
                return false;
            }
            k += 1;
        }
        true
    }
}

/// Reports the offsets at which `pattern` matches in `text`, ascending.
///
/// The whole lanes of the buffer are filtered by the anchor token: a window
/// is tried wherever the anchor accepts a lane byte, so every match whose
/// anchor byte lies in a lane is reported, overlapping ones included. A
/// pattern without an anchor has no such part. What is left of the buffer is
/// scanned window by window; there the scan moves on by the pattern's length
/// after a match and by the skip table's entry after a mismatch.
pub fn find_all_matches_sse(text: &[u8], pattern: &Pattern) -> (found: Vec<usize>)
    requires
        pattern.wf(),
    ensures
        offsets(found@) == pattern@.find_all(text@),
        text@.len() < pattern@.len() ==> found@.len() == 0,
        forall|i: int, j: int| 0 <= i < j < found@.len() ==> found@[i] < found@[j],
        forall|k: int|
            0 <= k < found@.len() ==> pattern@.matches_at(text@, #[trigger] found@[k] as int),
{
    let n: usize = pattern.bytes.len();
    let len: usize = text.len();
    let mut found: Vec<usize> = Vec::new();
    if n > len {
        proof {
            pattern@.lemma_find_all_short_buffer(text@);
        }
        return found;
    }
    let mut i: usize = 0;
    if pattern.best_skip_mask != 0 {
        let anchor: usize = pattern.best_skip_offset;
        while len - i >= LANE_WIDTH
            invariant
                pattern.wf(),
                pattern.best_skip_mask != 0,
                anchor == pattern.best_skip_offset,
                len == text@.len(),
                i <= len,
                i % 16 == 0,
                offsets(found@) == pattern@.matches_below(text@, i - anchor),
            decreases len - i,
        {
            let bits: u16 = lane_mask(text, i, pattern.best_skip_value, pattern.best_skip_mask);
            if bits != 0 {
                let mut pos: u16 = 0;
                while pos < 16
                    invariant
                        pattern.wf(),
                        pattern.best_skip_mask != 0,
                        anchor == pattern.best_skip_offset,
                        len == text@.len(),
                        i + 16 <= len,
                        pos <= 16,
                        forall|p: int|
                            0 <= p < 16 ==> (#[trigger] lane_bit(bits, p) <==> token_matches(
                                pattern.best_skip_value,
                                pattern.best_skip_mask,
                                text@[i + p],
                            )),
                        offsets(found@) == pattern@.matches_below(text@, i + pos - anchor),
                    decreases 16 - pos,
                {
                    let here: usize = i + pos as usize;
                    if bits & (1u16 << pos) != 0 && here >= anchor {
                        let start: usize = here - anchor;
                        if pattern.matches_at(text, start) {
                            found.push(start);
                        }
                    } else {
                        proof {
                            let start: int = here - anchor;
                            if pattern@.matches_at(text@, start) {
                                assert(pattern@.token_ok(text@, start, anchor as int));
                                assert(lane_bit(bits, pos as int));
                            }
                        }
                    }
                    pos += 1;
                }
            } else {
                proof {
                    assert(forall|q: u16| q < 16 ==> 0u16 & (1u16 << q) == 0) by (bit_vector);
                    assert forall|at: int| i - anchor <= at < i + 16 - anchor implies !pattern@.matches_at(
                        text@,
                        at,
                    ) by {
                        let p: int = at + anchor - i;
                        assert(0u16 & (1u16 << (p as u16)) == 0);
                        assert(!lane_bit(bits, p));
                        if pattern@.matches_at(text@, at) {
                            assert(pattern@.token_ok(text@, at, anchor as int));
                        }
                    }
                    pattern@.lemma_matches_below_gap(text@, i - anchor, i + 16 - anchor);
                }
            }
            i += LANE_WIDTH;
        }
    }
    while len - i >= n
        invariant
            pattern.wf(),
            n == pattern@.len(),
            len == text@.len(),
            i <= len,
            offsets(found@) + pattern@.skip_scan(text@, i as int) == pattern@.find_all(text@),
        decreases len - i,
    {
        if pattern.matches_at(text, i) {
            found.push(i);
            i += n;
        } else {
            let last: u8 = text[i + n - 1];
            assert(is_shift(pattern@.bytes, pattern@.masks, last, pattern@.shift(last)));
            i += pattern.shift_table[last as usize];
        }
    }
    proof {
        pattern@.lemma_find_all_sound(text@);
        pattern@.lemma_find_all_ascending(text@);
        let all = pattern@.find_all(text@);
        assert(offsets(found@) == all);
        assert forall|k: int| 0 <= k < found@.len() implies pattern@.matches_at(
            text@,
            #[trigger] found@[k] as int,
        ) by {
            assert(all[k] == found@[k] as int);
        }
        assert forall|i: int, j: int| 0 <= i < j < found@.len() implies found@[i] < found@[j] by {
            assert(all[i] == found@[i] as int && all[j] == found@[j] as int);
        }
    }
    found
}

impl Pattern {
    /// Reports the offsets at which the pattern matches in `text`,
    /// ascending; see [`find_all_matches_sse`].
    pub fn find_all_matches(&self, text: &[u8]) -> (found: Vec<usize>)
        requires
            self.wf(),
        ensures
            offsets(found@) == self@.find_all(text@),
            text@.len() < self@.len() ==> found@.len() == 0,
            forall|i: int, j: int| 0 <= i < j < found@.len() ==> found@[i] < found@[j],
            forall|k: int|
                0 <= k < found@.len() ==> self@.matches_at(text@, #[trigger] found@[k] as int),
    {
        find_all_matches_sse(text, self)
    }
}

} // verus!
