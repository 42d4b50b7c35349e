//! The pattern compiler: from the text of a pattern to its descriptor.

use crate::pattern::{
    all_wildcards, is_anchor, is_shift, is_token_mask, token_key, Pattern, PatternView,
};
use vstd::prelude::*;

verus! {

/// Why the text of a pattern could not be compiled.
#[derive(Clone, Copy, Debug, PartialEq, Eq)]
pub enum PatternError {
    /// The text holds no token.
    Empty,
    /// The token with index `token`, counted from zero, begins with
    /// `character` and is none of `??`, `?h`, `h?`, `hh` (`h` a hex digit).
    Syntax { token: usize, character: char },
}

/// The characters that may stand anywhere in the text of a pattern without
/// meaning: space, tab, line feed, form feed and carriage return.
pub open spec fn is_space(c: char) -> bool {
    c == ' ' || c == '\t' || c == '\n' || c == '\u{c}' || c == '\r'
}

/// The value of a hex digit of either case.
pub open spec fn hex_value(c: char) -> Option<u8> {
    if '0' <= c <= '9' {
        Some((c as u8 - '0' as u8) as u8)
    } else if 'a' <= c <= 'f' {
        Some((c as u8 - 'a' as u8 + 10) as u8)
    } else if 'A' <= c <= 'F' {
        Some((c as u8 - 'A' as u8 + 10) as u8)
    } else {
        None
    }
}

/// The token `(byte, mask)` that two characters spell, if they spell one.
pub open spec fn token_of(first: char, second: char) -> Option<(u8, u8)> {
    if first == '?' && second == '?' {
        Some((0x00u8, 0x00u8))
    } else if first == '?' {
        match hex_value(second) {
            Some(low) => Some((low, 0x0Fu8)),
            None => None,
        }
    } else if second == '?' {
        match hex_value(first) {
            Some(high) => Some(((high * 16) as u8, 0xF0u8)),
            None => None,
        }
    } else {
        match (hex_value(first), hex_value(second)) {
            (Some(high), Some(low)) => Some(((high * 16 + low) as u8, 0xFFu8)),
            _ => None,
        }
    }
}

/// The text of a pattern without its whitespace.
pub open spec fn significant(text: Seq<char>) -> Seq<char> {
    text.filter(|c: char| !is_space(c))
}

/// Token `k` of a text without whitespace: the token its characters `2k`
/// and `2k + 1` spell. There is none where they spell none or the text ends
/// before the second.
pub open spec fn token_at(t: Seq<char>, k: int) -> Option<(u8, u8)> {
    if 0 <= k && 2 * k + 1 < t.len() {
        token_of(t[2 * k], t[2 * k + 1])
    } else {
        None
    }
}

/// Number of tokens that a text without whitespace begins, a last one of a
/// single character included.
pub open spec fn token_slots(t: Seq<char>) -> int {
    (t.len() as int + 1) / 2
}

/// Whether every token of a text without whitespace can be read.
pub open spec fn tokens_ok(t: Seq<char>) -> bool {
    forall|k: int| 0 <= k < token_slots(t) ==> #[trigger] token_at(t, k) is Some
}

/// Whether token `k` is the first of a text without whitespace that cannot
/// be read.
pub open spec fn first_bad_token(t: Seq<char>, k: int) -> bool {
    &&& 0 <= k < token_slots(t)
    &&& token_at(t, k) is None
    &&& forall|j: int| 0 <= j < k ==> #[trigger] token_at(t, j) is Some
}

/// Whether `p` is the descriptor of the pattern that `text` spells: its
/// tokens are those of the text, in order, and it is well-formed, which
/// fixes the anchor and the skip table.
pub open spec fn compiles_to(text: Seq<char>, p: PatternView) -> bool {
    let t = significant(text);
    &&& p.wf()
    &&& 2 * p.len() == t.len()
    &&& forall|k: int|
        0 <= k < p.len() ==> token_at(t, k) == Some((#[trigger] p.bytes[k], p.masks[k]))
}

/// Whether `c` is whitespace in the text of a pattern.
fn is_space_char(c: char) -> (r: bool)
    ensures
        r == is_space(c),
{
    c == ' ' || c == '\t' || c == '\n' || c == '\u{c}' || c == '\r'
}

/// Reads a hex digit.
fn hex_digit(c: char) -> (r: Option<u8>)
    ensures
        r == hex_value(c),
{
    if '0' <= c && c <= '9' {
        Some(c as u8 - '0' as u8)
    } else if 'a' <= c && c <= 'f' {
        Some(c as u8 - 'a' as u8 + 10)
    } else if 'A' <= c && c <= 'F' {
        Some(c as u8 - 'A' as u8 + 10)
    } else {
        None
    }
}

/// Reads the token that two characters spell.
fn read_token(first: char, second: char) -> (r: Option<(u8, u8)>)
    ensures
        r == token_of(first, second),
{
    if first == '?' && second == '?' {
        Some((0x00, 0x00))
    } else if first == '?' {
        match hex_digit(second) {
            Some(low) => Some((low, 0x0F)),
            None => None,
        }
    } else if second == '?' {
        match hex_digit(first) {
            Some(high) => Some((high * 16, 0xF0)),
            None => None,
        }
    } else {
        match (hex_digit(first), hex_digit(second)) {
            (Some(high), Some(low)) => Some((high * 16 + low, 0xFF)),
            _ => None,
        }
    }
}

/// Reading one more character of a text adds it to the significant ones
/// unless it is whitespace.
proof fn lemma_significant_step(text: Seq<char>, i: int)
    requires
        0 <= i < text.len(),
    ensures
        significant(text.take(i + 1)) == if is_space(text[i]) {
            significant(text.take(i))
        } else {
            significant(text.take(i)).push(text[i])
        },
{
    reveal(Seq::filter);
    assert(text.take(i + 1).drop_last() == text.take(i));
}

/// The significant characters of the beginning of a text begin its
/// significant characters.
proof fn lemma_significant_prefix(text: Seq<char>, i: int)
    requires
        0 <= i <= text.len(),
    ensures
        significant(text.take(i)).len() <= significant(text).len(),
        forall|j: int|
            0 <= j < significant(text.take(i)).len() ==> significant(text)[j] == significant(
                text.take(i),
            )[j],
{
    assert(text == text.take(i) + text.skip(i));
    Seq::filter_distributes_over_add(text.take(i), text.skip(i), |c: char| !is_space(c));
}

/// Whether `shift` is the Horspool distance for `v` when only the tokens
/// before `upto` count.
spec fn is_shift_within(bytes: Seq<u8>, masks: Seq<u8>, v: u8, shift: int, upto: int) -> bool {
    let n = bytes.len() as int;
    &&& 1 <= shift <= n
    &&& shift < n ==> n - 1 - shift < upto && token_key(bytes[n - 1 - shift], masks[n - 1 - shift])
        == v
    &&& forall|k: int|
        0 <= k < upto && n - 1 - shift < k ==> token_key(#[trigger] bytes[k], masks[k]) != v
}

/// Builds the Horspool skip table of the tokens.
fn build_shift_table(bytes: &Vec<u8>, masks: &Vec<u8>) -> (table: [usize; 256])
    requires
        bytes.len() >= 1,
        masks.len() == bytes.len(),
    ensures
        forall|v: u8| is_shift(bytes@, masks@, v, #[trigger] table@[v as int] as int),
{
    let n: usize = bytes.len();
    let mut table: [usize; 256] = [n; 256];
    let mut i: usize = 0;
    while i < n - 1
        invariant
            n == bytes.len(),
            n == masks.len(),
            n >= 1,
            i <= n - 1,
            forall|v: u8|
                is_shift_within(bytes@, masks@, v, #[trigger] table@[v as int] as int, i as int),
        decreases n - i,
    {
        let key: u8 = bytes[i] & masks[i];
        let ghost before = table@;
        table[key as usize] = n - 1 - i;
        proof {
            assert forall|v: u8|
                is_shift_within(
                    bytes@,
                    masks@,
                    v,
                    #[trigger] table@[v as int] as int,
                    i + 1,
                ) by {
                assert(is_shift_within(bytes@, masks@, v, before[v as int] as int, i as int));
            }
        }
        i += 1;
    }
    table
}

/// Selects the anchor of the tokens: value, mask, offset and skip distance.
fn select_anchor(bytes: &Vec<u8>, masks: &Vec<u8>) -> (anchor: (u8, u8, usize, usize))
    requires
        bytes.len() >= 1,
        masks.len() == bytes.len(),
    ensures
        all_wildcards(masks@) ==> anchor == (0u8, 0u8, 0usize, 1usize),
        !all_wildcards(masks@) ==> {
            &&& is_anchor(masks@, anchor.2 as int)
            &&& anchor.0 == bytes@[anchor.2 as int]
            &&& anchor.1 == masks@[anchor.2 as int]
            &&& anchor.3 == anchor.2 + 1
        },
{
    let n: usize = bytes.len();
    let mut best: usize = 0;
    let mut exact: bool = false;
    let mut any: bool = false;
    let mut i: usize = 0;
    while i < n
        invariant
            n == bytes.len(),
            n == masks.len(),
            i <= n,
            exact ==> any,
            !exact ==> forall|j: int| 0 <= j < i ==> #[trigger] masks@[j] != 0xFF,
            !any ==> forall|j: int| 0 <= j < i ==> #[trigger] masks@[j] == 0x00,
            any ==> best < i && masks@[best as int] != 0x00,
            any ==> forall|j: int| best < j < i ==> #[trigger] masks@[j] != 0xFF,
            exact ==> masks@[best as int] == 0xFF,
            any && !exact ==> forall|j: int| best < j < i ==> #[trigger] masks@[j] == 0x00,
        decreases n - i,
    {
        let mask: u8 = masks[i];
        if mask == 0xFF {
            best = i;
            exact = true;
            any = true;
        } else if mask != 0x00 && !exact {
            best = i;
            any = true;
        }
        i += 1;
    }
    if any {
        assert(masks@[best as int] != 0x00);
        (bytes[best], masks[best], best, best + 1)
    } else {
        (0, 0, 0, 1)
    }
}

/// Compiles the text of a pattern.
///
/// Whitespace may stand anywhere and means nothing. What is left is read two
/// characters at a time: `??` is a wildcard, `?h` fixes the low nibble, `h?`
/// the high nibble and `hh` the whole byte, `h` being a hex digit of either
/// case. A text without a token is refused as empty; otherwise the first
/// token that is none of these, or that lacks its second character, is
/// reported with its index and its first character.
pub fn parse_pattern(text: &str) -> (r: Result<Pattern, PatternError>)
    ensures
        r is Ok <==> significant(text@).len() > 0 && tokens_ok(significant(text@)),
        r matches Ok(p) ==> compiles_to(text@, p@),
        (r matches Err(e) && e is Empty) <==> significant(text@).len() == 0,
        (r matches Err(e) && e is Syntax) <==> significant(text@).len() > 0 && !tokens_ok(
            significant(text@),
        ),
        r matches Err(PatternError::Syntax { token, character }) ==> {
            &&& first_bad_token(significant(text@), token as int)
            &&& character == significant(text@)[2 * token]
        },
{
    let mut bytes: Vec<u8> = Vec::new();
    let mut masks: Vec<u8> = Vec::new();
    let mut pending: Option<char> = None;
    let chars = text.chars();
    assert(significant(text@.take(0)) == Seq::<char>::empty()) by {
        reveal(Seq::filter);
        assert(text@.take(0) == Seq::<char>::empty());
    }
    for c in it: chars
        invariant
            it.seq() == text@,
            0 <= it.index() <= text@.len(),
            masks.len() == bytes.len(),
            pending is None ==> significant(text@.take(it.index())).len() == 2 * bytes.len(),
            pending matches Some(first) ==> {
                &&& significant(text@.take(it.index())).len() == 2 * bytes.len() + 1
                &&& significant(text@.take(it.index()))[2 * bytes.len()] == first
            },
            forall|k: int|
                0 <= k < bytes.len() ==> token_at(significant(text@.take(it.index())), k) == Some(
                    (#[trigger] bytes@[k], masks@[k]),
                ),
    {
        proof {
            lemma_significant_step(text@, it.index());
        }
        if !is_space_char(c) {
            match pending {
                None => {
                    pending = Some(c);
                },
                Some(first) => {
                    match read_token(first, c) {
                        Some((byte, mask)) => {
                            bytes.push(byte);
                            masks.push(mask);
                            pending = None;
                        },
                        None => {
                            proof {
                                lemma_significant_prefix(text@, it.index() + 1);
                                let t = significant(text@);
                                let k = bytes.len() as int;
                                assert(token_at(t, k) is None);
                                assert forall|j: int| 0 <= j < k implies #[trigger] token_at(
                                    t,
                                    j,
                                ) is Some by {
                                    assert(token_at(significant(text@.take(it.index())), j)
                                        == Some((bytes@[j], masks@[j])));
                                }
                                assert(!tokens_ok(t));
                            }
                            return Err(
                                PatternError::Syntax { token: bytes.len(), character: first },
                            );
                        },
                    }
                },
            }
        }
    }
    proof {
        assert(text@.take(text@.len() as int) == text@);
    }
    let ghost t = significant(text@);
    match pending {
        Some(first) => {
            proof {
                let k = bytes.len() as int;
                assert(token_at(t, k) is None);
                assert forall|j: int| 0 <= j < k implies #[trigger] token_at(t, j) is Some by {
                    assert(token_at(t, j) == Some((bytes@[j], masks@[j])));
                }
                assert(!tokens_ok(t));
            }
            return Err(PatternError::Syntax { token: bytes.len(), character: first });
        },
        None => {},
    }
    if bytes.len() == 0 {
        return Err(PatternError::Empty);
    }
    proof {
        assert forall|k: int| 0 <= k < masks.len() implies is_token_mask(#[trigger] masks@[k]) by {
            assert(token_at(t, k) == Some((bytes@[k], masks@[k])));
        }
        assert forall|k: int| 0 <= k < token_slots(t) implies #[trigger] token_at(t, k) is Some by {
            assert(token_at(t, k) == Some((bytes@[k], masks@[k])));
        }
    }
    let shift_table: [usize; 256] = build_shift_table(&bytes, &masks);
    let anchor: (u8, u8, usize, usize) = select_anchor(&bytes, &masks);
    let pattern = Pattern {
        bytes,
        masks,
        best_skip_value: anchor.0,
        best_skip_mask: anchor.1,
        max_skip: anchor.3,
        best_skip_offset: anchor.2,
        shift_table,
    };
    proof {
        assert forall|v: u8| is_shift(pattern@.bytes, pattern@.masks, v, #[trigger] pattern@.shift(v)) by {
            assert(is_shift(pattern@.bytes, pattern@.masks, v, shift_table@[v as int] as int));
        }
    }
    Ok(pattern)
}

} // verus!
