//! The compiled pattern descriptor and its mathematical model.

use vstd::prelude::*;

verus! {

/// A compiled pattern.
///
/// `bytes` and `masks` are parallel: token `k` accepts a buffer byte `b` when
/// `b & masks[k] == bytes[k] & masks[k]`. The other fields are derived from
/// the tokens: the anchor that drives the lane pre-filter and the Horspool
/// skip table. [`Pattern::wf`] says how.
#[derive(Clone, Debug)]
pub struct Pattern {
    pub bytes: Vec<u8>,
    pub masks: Vec<u8>,
    pub best_skip_value: u8,
    pub best_skip_mask: u8,
    pub max_skip: usize,
    pub best_skip_offset: usize,
    pub shift_table: [usize; 256],
}

/// The mathematical value of a [`Pattern`].
pub struct PatternView {
    pub bytes: Seq<u8>,
    pub masks: Seq<u8>,
    pub best_skip_value: u8,
    pub best_skip_mask: u8,
    pub max_skip: int,
    pub best_skip_offset: int,
    pub shift_table: Seq<usize>,
}

/// Whether a token `(byte, mask)` accepts the buffer byte `b`.
pub open spec fn token_matches(byte: u8, mask: u8, b: u8) -> bool {
    b & mask == byte & mask
}

/// The four masks a token may carry: wildcard, low nibble, high nibble, exact.
pub open spec fn is_token_mask(mask: u8) -> bool {
    mask == 0x00 || mask == 0x0F || mask == 0xF0 || mask == 0xFF
}

/// The constrained bits of a token.
pub open spec fn token_key(byte: u8, mask: u8) -> u8 {
    byte & mask
}

/// Whether every mask is that of a full wildcard.
pub open spec fn all_wildcards(masks: Seq<u8>) -> bool {
    forall|k: int| 0 <= k < masks.len() ==> #[trigger] masks[k] == 0x00
}

/// Whether token `k` is the one the anchor policy selects: the rightmost
/// exact token, or, where no token is exact, the rightmost token that
/// constrains a nibble.
pub open spec fn is_anchor(masks: Seq<u8>, k: int) -> bool {
    &&& 0 <= k < masks.len()
    &&& forall|j: int| k < j < masks.len() ==> #[trigger] masks[j] != 0xFF
    &&& {
        ||| masks[k] == 0xFF
        ||| {
            &&& masks[k] != 0x00
            &&& forall|j: int| 0 <= j < k ==> #[trigger] masks[j] != 0xFF
            &&& forall|j: int| k < j < masks.len() ==> #[trigger] masks[j] == 0x00
        }
    }
}

/// Whether `shift` is the Horspool distance for the byte value `v`: the
/// distance from the last token back to the rightmost token before it whose
/// key is `v`, or the number of tokens where no such token exists.
pub open spec fn is_shift(bytes: Seq<u8>, masks: Seq<u8>, v: u8, shift: int) -> bool {
    let n = bytes.len() as int;
    &&& 1 <= shift <= n
    &&& shift < n ==> token_key(bytes[n - 1 - shift], masks[n - 1 - shift]) == v
    &&& forall|k: int|
        0 <= k < n - 1 && n - 1 - shift < k ==> token_key(#[trigger] bytes[k], masks[k]) != v
}

impl PatternView {
    /// Number of tokens.
    pub open spec fn len(self) -> int {
        self.bytes.len() as int
    }

    /// Whether token `k` accepts the byte of `text` that lies `k` past `at`.
    pub open spec fn token_ok(self, text: Seq<u8>, at: int, k: int) -> bool {
        token_matches(self.bytes[k], self.masks[k], text[at + k])
    }

    /// Whether the window of `text` that starts at `at` lies inside `text`
    /// and every token accepts its byte.
    pub open spec fn matches_at(self, text: Seq<u8>, at: int) -> bool {
        &&& 0 <= at
        &&& at + self.len() <= text.len()
        &&& forall|k: int| 0 <= k < self.len() ==> #[trigger] self.token_ok(text, at, k)
    }

    /// Whether the anchor fields agree with the tokens. A pattern of
    /// wildcards only has no anchor, which a zero anchor mask records.
    pub open spec fn anchor_ok(self) -> bool {
        if all_wildcards(self.masks) {
            &&& self.best_skip_value == 0
            &&& self.best_skip_mask == 0x00
            &&& self.best_skip_offset == 0
            &&& self.max_skip == 1
        } else {
            &&& is_anchor(self.masks, self.best_skip_offset)
            &&& self.best_skip_value == self.bytes[self.best_skip_offset]
            &&& self.best_skip_mask == self.masks[self.best_skip_offset]
            &&& self.max_skip == self.best_skip_offset + 1
        }
    }

    /// The skip table's entry for the byte value `v`.
    pub open spec fn shift(self, v: u8) -> int {
        self.shift_table[v as int] as int
    }

    /// Well-formedness: at least one token, masks of the four kinds, and
    /// anchor and skip table as the tokens determine them.
    pub open spec fn wf(self) -> bool {
        &&& self.bytes.len() >= 1
        &&& self.masks.len() == self.bytes.len()
        &&& forall|k: int| 0 <= k < self.len() ==> is_token_mask(#[trigger] self.masks[k])
        &&& self.anchor_ok()
        &&& self.shift_table.len() == 256
        &&& forall|v: u8| is_shift(self.bytes, self.masks, v, #[trigger] self.shift(v))
    }
}

impl View for Pattern {
    type V = PatternView;

    open spec fn view(&self) -> PatternView {
        PatternView {
            bytes: self.bytes@,
            masks: self.masks@,
            best_skip_value: self.best_skip_value,
            best_skip_mask: self.best_skip_mask,
            max_skip: self.max_skip as int,
            best_skip_offset: self.best_skip_offset as int,
            shift_table: self.shift_table@,
        }
    }
}

impl Pattern {
    /// Well-formedness of the descriptor: that of its view.
    pub open spec fn wf(&self) -> bool {
        self@.wf()
    }
}

} // verus!
