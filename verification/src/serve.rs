//! The drawing byte server: resolving a resource path of the form
//! `/entry/<index>` to the raw bytes of the drawing at that index, so the
//! rendering surface can fetch images by reference instead of inlining them.

use vstd::prelude::*;
use vstd::slice::slice_to_vec;
use crate::game::Entry;
use crate::game::EntryModel;
use crate::game::GameError;
use crate::game::GameState;

verus! {

/// The path prefix under which drawings are served.
pub open spec fn entry_prefix() -> Seq<char> {
    seq!['/', 'e', 'n', 't', 'r', 'y', '/']
}

/// Whether `c` is a decimal digit.
pub open spec fn is_digit(c: char) -> bool {
    48 <= c as u32 && c as u32 <= 57
}

/// The value of the decimal digit `c`.
pub open spec fn digit_val(c: char) -> nat {
    (c as u32 - 48) as nat
}

/// Whether every character of `s` is a decimal digit.
pub open spec fn all_digits(s: Seq<char>) -> bool {
    forall|i: int| 0 <= i < s.len() ==> is_digit(#[trigger] s[i])
}

/// The number the digit string `s` denotes, most significant digit first.
pub open spec fn digits_val(s: Seq<char>) -> nat
    decreases s.len(),
{
    if s.len() == 0 {
        0
    } else {
        digits_val(s.drop_last()) * 10 + digit_val(s.last())
    }
}

/// The index a request path denotes: the path must be `/entry/` followed by
/// one or more decimal digits whose value fits in `usize`.
pub open spec fn spec_parse_entry_path(p: Seq<char>) -> Option<int> {
    let digits = p.skip(7);
    if p.len() > 7 && p.subrange(0, 7) == entry_prefix() && all_digits(digits) && digits_val(
        digits,
    ) <= usize::MAX {
        Some(digits_val(digits) as int)
    } else {
        None
    }
}

/// A longer digit string never denotes a smaller number.
proof fn lemma_digits_val_take(s: Seq<char>, j: int)
    requires
        0 <= j <= s.len(),
    ensures
        digits_val(s) >= digits_val(s.take(j)),
    decreases s.len() - j,
{
    if j == s.len() {
        assert(s.take(j) =~= s);
    } else {
        lemma_digits_val_take(s, j + 1);
        assert(s.take(j + 1).drop_last() =~= s.take(j));
        assert(digits_val(s.take(j + 1)) == digits_val(s.take(j)) * 10 + digit_val(
            s.take(j + 1).last(),
        ));
    }
}

/// Parses a request path of the form `/entry/<decimal index>`. Returns the
/// index, or `None` when the path is not of that form or the index does not
/// fit in `usize`.
pub fn parse_entry_path(path: &str) -> (r: Option<usize>)
    ensures
        match r {
            Some(v) => spec_parse_entry_path(path@) == Some(v as int),
            None => spec_parse_entry_path(path@) is None,
        },
{
    let n = path.unicode_len();
    if n <= 7 {
        return None;
    }
    if !(path.get_char(0) == '/' && path.get_char(1) == 'e' && path.get_char(2) == 'n'
        && path.get_char(3) == 't' && path.get_char(4) == 'r' && path.get_char(5) == 'y'
        && path.get_char(6) == '/') {
        proof {
            assert(path@.subrange(0, 7) != entry_prefix());
        }
        return None;
    }
    proof {
        assert(path@.subrange(0, 7) =~= entry_prefix());
    }
    let ghost digits = path@.skip(7);
    let mut acc: usize = 0;
    let mut i: usize = 7;
    while i < n
        invariant
            7 <= i <= n,
            n == path@.len(),
            digits == path@.skip(7),
            acc == digits_val(digits.take(i - 7)),
            forall|k: int| 0 <= k < i - 7 ==> is_digit(#[trigger] digits[k]),
        decreases n - i,
    {
        let c = path.get_char(i);
        let d32 = c as u32;
        proof {
            assert(digits[i - 7] == path@[i as int]);
        }
        if d32 < 48 || d32 > 57 {
            return None;
        }
        let d = (d32 - 48) as usize;
        proof {
            assert(digits.take(i - 7 + 1).drop_last() =~= digits.take(i - 7));
            assert(digits.take(i - 7 + 1).last() == digits[i - 7]);
        }
        if acc > (usize::MAX - d) / 10 {
            proof {
                lemma_digits_val_take(digits, i - 7 + 1);
            }
            return None;
        }
        acc = acc * 10 + d;
        i = i + 1;
    }
    proof {
        assert(digits.take(n - 7) =~= digits);
    }
    Some(acc)
}

/// The drawing lookup's result on the model: the bytes at `i` when that
/// entry is a drawing, an empty body when it is a phrase, and
/// `IndexOutOfRange` when `i` is outside the sequence.
pub open spec fn spec_drawing_bytes(s: Seq<EntryModel>, i: int) -> Result<Seq<u8>, GameError> {
    if 0 <= i < s.len() {
        match s[i] {
            EntryModel::Drawing(b) => Ok(b),
            EntryModel::Phrase(_) => Ok(Seq::empty()),
        }
    } else {
        Err(GameError::IndexOutOfRange)
    }
}

/// Looks up the drawing at `index`: exactly the bytes of a drawing entry,
/// an empty body for a phrase entry, and `IndexOutOfRange` outside the
/// sequence. A pure read with no side effect.
pub fn drawing_bytes(state: &GameState, index: usize) -> (r: Result<Vec<u8>, GameError>)
    ensures
        match r {
            Ok(v) => spec_drawing_bytes(state.model(), index as int) == Ok::<Seq<u8>, GameError>(
                v@,
            ),
            Err(e) => spec_drawing_bytes(state.model(), index as int) == Err::<Seq<u8>, GameError>(
                e,
            ),
        },
{
    if index < state.entries.len() {
        match &state.entries[index] {
            Entry::Drawing(v) => Ok(slice_to_vec(v.as_slice())),
            Entry::Phrase(_) => {
                let empty: Vec<u8> = Vec::new();
                proof {
                    assert(empty@ =~= Seq::<u8>::empty());
                }
                Ok(empty)
            },
        }
    } else {
        Err(GameError::IndexOutOfRange)
    }
}

} // verus!
