//! What holds of compiled patterns and of the offsets that the matcher
//! reports.

use crate::compile::{compiles_to, significant, token_at};
use crate::pattern::{all_wildcards, is_shift, token_key, PatternView};
use vstd::prelude::*;

verus! {

/// Whether the entries of `s` grow strictly from left to right.
pub open spec fn strictly_ascending(s: Seq<int>) -> bool {
    forall|i: int, j: int| 0 <= i < j < s.len() ==> s[i] < s[j]
}

/// Whether the entries of `s` grow by at least `gap` from one to the next.
pub open spec fn spaced(s: Seq<int>, gap: int) -> bool {
    forall|i: int, j: int| 0 <= i < j < s.len() ==> s[i] + gap <= s[j]
}

impl PatternView {
    /// `matches_below` lists exactly the matches below `hi`, in ascending
    /// order.
    pub proof fn lemma_matches_below(self, text: Seq<u8>, hi: int)
        ensures
            forall|k: int|
                0 <= k < self.matches_below(text, hi).len() ==> {
                    &&& 0 <= #[trigger] self.matches_below(text, hi)[k] < hi
                    &&& self.matches_at(text, self.matches_below(text, hi)[k])
                },
            strictly_ascending(self.matches_below(text, hi)),
            forall|at: int|
                0 <= at < hi && self.matches_at(text, at) ==> self.matches_below(
                    text,
                    hi,
                ).contains(at),
        decreases hi,
    {
        if hi > 0 {
            self.lemma_matches_below(text, hi - 1);
            let shorter = self.matches_below(text, hi - 1);
            let longer = self.matches_below(text, hi);
            assert forall|at: int| 0 <= at < hi && self.matches_at(text, at) implies longer.contains(
                at,
            ) by {
                if at == hi - 1 {
                    assert(longer[shorter.len() as int] == at);
                } else {
                    assert(shorter.contains(at));
                    let k = choose|k: int| 0 <= k < shorter.len() && shorter[k] == at;
                    assert(longer[k] == at);
                }
            }
        }
    }

    /// Where no window below `hi` matches from `lo` on, `matches_below` is
    /// the same for both bounds.
    pub proof fn lemma_matches_below_gap(self, text: Seq<u8>, lo: int, hi: int)
        requires
            lo <= hi,
            forall|at: int| lo <= at < hi ==> !self.matches_at(text, at),
        ensures
            self.matches_below(text, hi) == self.matches_below(text, lo),
        decreases hi - lo,
    {
        if lo < hi {
            self.lemma_matches_below_gap(text, lo, hi - 1);
        }
    }

    /// A skip scan from `from` reports only matches at or behind `from`, in
    /// ascending order.
    pub proof fn lemma_skip_scan(self, text: Seq<u8>, from: int)
        ensures
            forall|k: int|
                0 <= k < self.skip_scan(text, from).len() ==> {
                    &&& from <= #[trigger] self.skip_scan(text, from)[k]
                    &&& self.matches_at(text, self.skip_scan(text, from)[k])
                },
            strictly_ascending(self.skip_scan(text, from)),
        decreases text.len() - from,
    {
        if from < 0 || self.len() < 1 || from + self.len() > text.len() {
        } else if self.matches_at(text, from) {
            self.lemma_skip_scan(text, from + self.len());
            let rest = self.skip_scan(text, from + self.len());
            let all = self.skip_scan(text, from);
            assert(all == seq![from] + rest);
            assert forall|k: int| 0 <= k < all.len() implies from <= #[trigger] all[k]
                && self.matches_at(text, all[k]) by {
                if k > 0 {
                    assert(all[k] == rest[k - 1]);
                }
            }
            assert forall|i: int, j: int| 0 <= i < j < all.len() implies all[i] < all[j] by {
                assert(all[j] == rest[j - 1]);
                if i > 0 {
                    assert(all[i] == rest[i - 1]);
                }
            }
        } else {
            let step = self.shift(text[from + self.len() - 1]);
            if 1 <= step <= self.len() {
                self.lemma_skip_scan(text, from + step);
            }
        }
    }

    /// The offsets of a skip scan lie at least the pattern's length apart:
    /// no two reported windows overlap.
    pub proof fn lemma_skip_scan_spacing(self, text: Seq<u8>, from: int)
        ensures
            spaced(self.skip_scan(text, from), self.len()),
        decreases text.len() - from,
    {
        if from < 0 || self.len() < 1 || from + self.len() > text.len() {
        } else if self.matches_at(text, from) {
            self.lemma_skip_scan(text, from + self.len());
            self.lemma_skip_scan_spacing(text, from + self.len());
            let rest = self.skip_scan(text, from + self.len());
            let all = self.skip_scan(text, from);
            assert(all == seq![from] + rest);
            assert forall|i: int, j: int| 0 <= i < j < all.len() implies all[i] + self.len()
                <= all[j] by {
                assert(all[j] == rest[j - 1]);
                if i > 0 {
                    assert(all[i] == rest[i - 1]);
                }
            }
        } else {
            let step = self.shift(text[from + self.len() - 1]);
            if 1 <= step <= self.len() {
                self.lemma_skip_scan_spacing(text, from + step);
            }
        }
    }

    /// Every reported offset is a match: the window there lies inside the
    /// buffer and each token accepts its byte.
    pub proof fn lemma_find_all_sound(self, text: Seq<u8>)
        ensures
            forall|k: int|
                0 <= k < self.find_all(text).len() ==> self.matches_at(
                    text,
                    #[trigger] self.find_all(text)[k],
                ),
    {
        let end = self.vector_end(text.len() as int);
        self.lemma_matches_below(text, end - self.best_skip_offset);
        self.lemma_skip_scan(text, end);
    }

    /// The reported offsets ascend strictly, so none is reported twice.
    pub proof fn lemma_find_all_ascending(self, text: Seq<u8>)
        requires
            self.wf(),
        ensures
            strictly_ascending(self.find_all(text)),
    {
        let end = self.vector_end(text.len() as int);
        let head = self.matches_below(text, end - self.best_skip_offset);
        let tail = self.skip_scan(text, end);
        self.lemma_matches_below(text, end - self.best_skip_offset);
        self.lemma_skip_scan(text, end);
        let all = self.find_all(text);
        assert forall|i: int, j: int| 0 <= i < j < all.len() implies all[i] < all[j] by {
            if j < head.len() {
                assert(all[i] == head[i] && all[j] == head[j]);
            } else if i < head.len() {
                assert(all[i] == head[i] && all[j] == tail[j - head.len()]);
            } else {
                assert(all[i] == tail[i - head.len()] && all[j] == tail[j - head.len()]);
            }
        }
    }

    /// A buffer shorter than the pattern holds no match.
    pub proof fn lemma_find_all_short_buffer(self, text: Seq<u8>)
        requires
            text.len() < self.len(),
        ensures
            self.find_all(text) == Seq::<int>::empty(),
    {
        let end = self.vector_end(text.len() as int);
        let hi = end - self.best_skip_offset;
        if hi > 0 {
            self.lemma_matches_below_gap(text, 0, hi);
        }
    }

    /// Whether every token is exact.
    pub open spec fn literal(self) -> bool {
        forall|k: int| 0 <= k < self.len() ==> #[trigger] self.masks[k] == 0xFF
    }

    /// Every match whose anchor byte lies in a whole lane is reported,
    /// whatever it overlaps.
    pub proof fn lemma_lane_matches_found(self, text: Seq<u8>, at: int)
        requires
            self.wf(),
            self.matches_at(text, at),
            at + self.best_skip_offset < self.vector_end(text.len() as int),
        ensures
            self.find_all(text).contains(at),
    {
        let end = self.vector_end(text.len() as int);
        let head = self.matches_below(text, end - self.best_skip_offset);
        self.lemma_matches_below(text, end - self.best_skip_offset);
        assert(head.contains(at));
        let k = choose|k: int| 0 <= k < head.len() && head[k] == at;
        assert(self.find_all(text)[k] == at);
    }

    /// A skip scan for a pattern of exact tokens never jumps over a match:
    /// a match at or behind its start is reported unless a reported match
    /// before it overlaps it.
    pub proof fn lemma_literal_scan_finds(self, text: Seq<u8>, from: int, at: int)
        requires
            self.wf(),
            self.literal(),
            self.matches_at(text, at),
            0 <= from <= at,
            forall|k: int|
                0 <= k < self.skip_scan(text, from).len() ==> !({
                    &&& #[trigger] self.skip_scan(text, from)[k] < at
                    &&& at < self.skip_scan(text, from)[k] + self.len()
                }),
        ensures
            self.skip_scan(text, from).contains(at),
        decreases at - from,
    {
        let n = self.len();
        let all = self.skip_scan(text, from);
        if self.matches_at(text, from) {
            let rest = self.skip_scan(text, from + n);
            assert(all == seq![from] + rest);
            assert(all[0] == from);
            if from < at {
                assert forall|k: int| 0 <= k < rest.len() implies !(#[trigger] rest[k] < at && at
                    < rest[k] + n) by {
                    assert(all[k + 1] == rest[k]);
                }
                self.lemma_literal_scan_finds(text, from + n, at);
                let k = choose|k: int| 0 <= k < rest.len() && rest[k] == at;
                assert(all[k + 1] == at);
            }
        } else {
            let v = text[from + n - 1];
            let step = self.shift(v);
            assert(is_shift(self.bytes, self.masks, v, step));
            if at < from + step {
                let k = from + n - 1 - at;
                assert(self.token_ok(text, at, k));
                assert(self.masks[k] == 0xFF);
                assert(forall|x: u8| x & 0xFF == x) by (bit_vector);
                assert(token_key(self.bytes[k], self.masks[k]) == v);
                assert(false);
            }
            self.lemma_literal_scan_finds(text, from + step, at);
        }
    }

    /// For a pattern of exact tokens only, a match is reported if its window
    /// lies in the whole lanes, or if it lies behind them and no reported
    /// match before it overlaps it.
    pub proof fn lemma_literal_matches_found(self, text: Seq<u8>, at: int)
        requires
            self.wf(),
            self.literal(),
            self.matches_at(text, at),
            at + self.len() <= self.vector_end(text.len() as int) || {
                &&& self.vector_end(text.len() as int) <= at
                &&& forall|k: int|
                    0 <= k < self.find_all(text).len() ==> !({
                        &&& #[trigger] self.find_all(text)[k] < at
                        &&& at < self.find_all(text)[k] + self.len()
                    })
            },
        ensures
            self.find_all(text).contains(at),
    {
        let end = self.vector_end(text.len() as int);
        let head = self.matches_below(text, end - self.best_skip_offset);
        let tail = self.skip_scan(text, end);
        let all = self.find_all(text);
        assert(self.masks[self.len() - 1] == 0xFF);
        assert(self.best_skip_offset == self.len() - 1);
        if at + self.len() <= end {
            self.lemma_lane_matches_found(text, at);
        } else {
            assert forall|k: int| 0 <= k < tail.len() implies !(#[trigger] tail[k] < at && at
                < tail[k] + self.len()) by {
                assert(all[head.len() + k] == tail[k]);
            }
            self.lemma_literal_scan_finds(text, end, at);
            let k = choose|k: int| 0 <= k < tail.len() && tail[k] == at;
            assert(all[head.len() + k] == at);
        }
    }

    /// For a pattern of exact tokens only, the reported offsets are exactly
    /// the matches whose window lies in the whole lanes and the matches
    /// behind the lanes that no reported match before them overlaps. A match
    /// across the end of the lanes is not reported.
    pub proof fn lemma_literal_matches_exact(self, text: Seq<u8>, at: int)
        requires
            self.wf(),
            self.literal(),
        ensures
            self.find_all(text).contains(at) <==> {
                &&& self.matches_at(text, at)
                &&& (at + self.len() <= self.vector_end(text.len() as int) || {
                    &&& self.vector_end(text.len() as int) <= at
                    &&& forall|k: int|
                        0 <= k < self.find_all(text).len() ==> !({
                            &&& #[trigger] self.find_all(text)[k] < at
                            &&& at < self.find_all(text)[k] + self.len()
                        })
                })
            },
    {
        let n = self.len();
        let end = self.vector_end(text.len() as int);
        let head = self.matches_below(text, end - self.best_skip_offset);
        let tail = self.skip_scan(text, end);
        let all = self.find_all(text);
        assert(self.masks[n - 1] == 0xFF);
        assert(self.best_skip_offset == n - 1);
        if all.contains(at) {
            self.lemma_find_all_sound(text);
            self.lemma_matches_below(text, end - self.best_skip_offset);
            self.lemma_skip_scan(text, end);
            self.lemma_skip_scan_spacing(text, end);
            let i = choose|i: int| 0 <= i < all.len() && all[i] == at;
            if i < head.len() {
                assert(all[i] == head[i]);
            } else {
                assert(all[i] == tail[i - head.len()]);
                assert forall|k: int| 0 <= k < all.len() implies !(#[trigger] all[k] < at && at
                    < all[k] + n) by {
                    if k < head.len() {
                        assert(all[k] == head[k]);
                    } else {
                        assert(all[k] == tail[k - head.len()]);
                        if k < i {
                            assert(tail[k - head.len()] + n <= tail[i - head.len()]);
                        }
                    }
                }
            }
        }
        if self.matches_at(text, at) && (at + n <= end || (end <= at && forall|k: int|
            0 <= k < all.len() ==> !(#[trigger] all[k] < at && at < all[k] + n))) {
            self.lemma_literal_matches_found(text, at);
        }
    }

    /// A skip scan for a pattern of wildcards only reports its start and
    /// every offset a whole number of pattern lengths behind it at which a
    /// window still fits.
    pub proof fn lemma_wildcard_scan(self, text: Seq<u8>, from: int)
        requires
            self.wf(),
            all_wildcards(self.masks),
            0 <= from <= text.len(),
        ensures
            self.skip_scan(text, from) == Seq::new(
                ((text.len() - from) / self.len()) as nat,
                |i: int| from + i * self.len(),
            ),
        decreases text.len() - from,
    {
        let n = self.len();
        let room = text.len() - from;
        let count = room / n;
        let all = self.skip_scan(text, from);
        let wanted = Seq::new(count as nat, |i: int| from + i * n);
        if room >= n {
            assert(self.matches_at(text, from)) by {
                assert(forall|x: u8, y: u8| x & 0x00 == y & 0x00) by (bit_vector);
                assert forall|k: int| 0 <= k < n implies #[trigger] self.token_ok(text, from, k) by {
                    assert(self.masks[k] == 0x00);
                }
            }
            self.lemma_wildcard_scan(text, from + n);
            let rest = self.skip_scan(text, from + n);
            assert(count == (room - n) / n + 1 && count >= 1) by (nonlinear_arith)
                requires
                    n >= 1,
                    room >= n,
                    count == room / n,
            ;
            assert(all == seq![from] + rest);
            assert(rest.len() == count - 1);
            assert forall|i: int| 0 <= i < count implies all[i] == wanted[i] by {
                if i > 0 {
                    assert(all[i] == rest[i - 1]);
                    assert(rest[i - 1] == from + n + (i - 1) * n);
                    assert(from + n + (i - 1) * n == from + i * n) by (nonlinear_arith);
                } else {
                    assert(all[0] == from);
                    assert(from + i * n == from) by (nonlinear_arith)
                        requires
                            i == 0,
                    ;
                }
            }
            assert(all =~= wanted);
        } else {
            assert(count == 0) by (nonlinear_arith)
                requires
                    n >= 1,
                    0 <= room < n,
                    count == room / n,
            ;
            assert(all =~= wanted);
        }
    }

    /// A pattern of wildcards only matches everywhere and is scanned window
    /// by window: the offsets reported are the multiples of its length at
    /// which a window fits.
    pub proof fn lemma_wildcards_only(self, text: Seq<u8>)
        requires
            self.wf(),
            all_wildcards(self.masks),
        ensures
            self.find_all(text) == Seq::new(
                (text.len() as int / self.len()) as nat,
                |i: int| i * self.len(),
            ),
    {
        self.lemma_wildcard_scan(text, 0);
        assert(self.find_all(text) =~= self.skip_scan(text, 0));
    }

    /// A pattern of a single wildcard token matches at every offset of a
    /// buffer: the offsets reported are `0, 1, ..`, one for each byte.
    pub proof fn lemma_single_wildcard(self, text: Seq<u8>)
        requires
            self.wf(),
            self.len() == 1,
            self.masks[0] == 0x00,
        ensures
            self.find_all(text) == Seq::new(text.len(), |i: int| i),
    {
        assert(all_wildcards(self.masks));
        self.lemma_wildcards_only(text);
        assert(self.find_all(text) =~= Seq::new(text.len(), |i: int| i));
    }

    /// The anchor constrains at least a nibble; only a pattern of wildcards
    /// has none, and its anchor mask is zero.
    pub proof fn lemma_anchor_mask(self)
        requires
            self.wf(),
        ensures
            self.best_skip_mask == 0x00 <==> all_wildcards(self.masks),
            0 <= self.best_skip_offset < self.len(),
            self.best_skip_mask == self.masks[self.best_skip_offset],
    {
        if all_wildcards(self.masks) {
            assert(self.masks[0] == 0x00);
        }
    }

    /// A step of the skip table is at least one token and at most the whole
    /// pattern, and it is the whole pattern for a byte value that is the key
    /// of no token before the last.
    pub proof fn lemma_shift_bounds(self, v: u8)
        requires
            self.wf(),
        ensures
            1 <= self.shift(v) <= self.len(),
            (forall|k: int|
                0 <= k < self.len() - 1 ==> token_key(#[trigger] self.bytes[k], self.masks[k])
                    != v) ==> self.shift(v) == self.len(),
    {
        assert(is_shift(self.bytes, self.masks, v, self.shift(v)));
    }

    /// A well-formed descriptor is determined by its tokens: two with the
    /// same bytes and masks have the same anchor and the same skip table.
    pub proof fn lemma_tokens_determine(self, other: PatternView)
        requires
            self.wf(),
            other.wf(),
            self.bytes == other.bytes,
            self.masks == other.masks,
        ensures
            self == other,
    {
        assert forall|i: int| 0 <= i < 256 implies self.shift_table[i] == other.shift_table[i] by {
            let v = i as u8;
            assert(is_shift(self.bytes, self.masks, v, self.shift(v)));
            assert(is_shift(self.bytes, self.masks, v, other.shift(v)));
        }
        assert(self.shift_table =~= other.shift_table);
    }
}

/// Compiling is a function of the text: two descriptors of the pattern that
/// one text spells are equal in every field.
pub proof fn lemma_compile_deterministic(text: Seq<char>, a: PatternView, b: PatternView)
    requires
        compiles_to(text, a),
        compiles_to(text, b),
    ensures
        a == b,
{
    let t = significant(text);
    assert forall|k: int| 0 <= k < a.len() implies a.bytes[k] == b.bytes[k] && a.masks[k]
        == b.masks[k] by {
        assert(token_at(t, k) == Some((a.bytes[k], a.masks[k])));
        assert(token_at(t, k) == Some((b.bytes[k], b.masks[k])));
    }
    assert(a.bytes =~= b.bytes);
    assert(a.masks =~= b.masks);
    a.lemma_tokens_determine(b);
}

} // verus!
