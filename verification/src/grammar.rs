//! The mathematical model of the bencode grammar.
//!
//! The functions here define, over a `Seq<u8>` and a starting position,
//! exactly which prefix of the input each grammar rule accepts, which
//! value it denotes, and which error kind is reported otherwise. They
//! are the single source of truth that the executable decoders in
//! [`crate::decode`] are verified against.
//!
//! ```text
//! value      := byte_string | integer | list | dictionary
//! byte_string:= DIGIT+ ':' <raw bytes of that length>
//! integer    := 'i' ['-'] DIGIT+ 'e'     (no '+', no redundant leading zero, '-0' invalid)
//! list       := 'l' value* 'e'
//! dictionary := 'd' (byte_string value)* 'e'
//! top_level  := value*                   (end of buffer is the implicit terminator)
//! ```

use vstd::prelude::*;

use crate::errors::BencodeError;

verus! {

/// The abstract form of a decoded value: what a [`crate::Value`] means,
/// with byte strings as raw sequences and integers unbounded.
pub enum SpecValue {
    /// A byte string.
    Bytes(Seq<u8>),
    /// A signed integer.
    Integer(int),
    /// An ordered list of values.
    List(Seq<SpecValue>),
    /// Dictionary key/value pairs in encounter order.
    Dictionary(Seq<(Seq<u8>, SpecValue)>),
}

/// An ASCII decimal digit.
pub open spec fn is_ascii_digit(b: u8) -> bool {
    48 <= b <= 57
}

/// The end of the run of ASCII digits that starts at `pos`: the first
/// position at or after `pos` holding a non-digit, or the end of input.
pub open spec fn digit_run_end(s: Seq<u8>, pos: int) -> int
    decreases s.len() - pos,
{
    if pos < 0 || pos >= s.len() {
        pos
    } else if is_ascii_digit(s[pos]) {
        digit_run_end(s, pos + 1)
    } else {
        pos
    }
}

/// The number denoted by the decimal digits `s[start..end]`, folded
/// left to right.
pub open spec fn digits_value(s: Seq<u8>, start: int, end: int) -> int
    decreases end - start,
{
    if start >= end {
        0
    } else {
        digits_value(s, start, end - 1) * 10 + (s[end - 1] - 48)
    }
}

/// The integer rule at `pos`: `i` `['-']` `DIGIT+` `e`.
///
/// On success, yields the integer's value and the position just past
/// the `e`. A broken envelope (no `i`, no digits, no terminator) is a
/// structural mismatch; an envelope whose content has a leading `+`, a
/// redundant leading zero, is `-0`, or overflows a signed 64-bit
/// integer is an invalid integer.
pub open spec fn spec_parse_int(s: Seq<u8>, pos: int) -> Result<(int, int), BencodeError> {
    if !(0 <= pos < s.len() && s[pos] == 105) {
        Err(BencodeError::StructuralMismatch)
    } else {
        let sign_pos = pos + 1;
        let signed = sign_pos < s.len() && (s[sign_pos] == 43 || s[sign_pos] == 45);
        let dstart = if signed { sign_pos + 1 } else { sign_pos };
        let dend = digit_run_end(s, dstart);
        if dend == dstart {
            Err(BencodeError::StructuralMismatch)
        } else if !(dend < s.len() && s[dend] == 101) {
            Err(BencodeError::StructuralMismatch)
        } else if signed && s[sign_pos] == 43 {
            Err(BencodeError::InvalidInteger)
        } else {
            let neg = signed && s[sign_pos] == 45;
            let n = digits_value(s, dstart, dend);
            if neg && n == 0 {
                Err(BencodeError::InvalidInteger)
            } else if dend - dstart > 1 && s[dstart] == 48 {
                Err(BencodeError::InvalidInteger)
            } else if neg && -n < i64::MIN as int {
                Err(BencodeError::InvalidInteger)
            } else if !neg && n > i64::MAX as int {
                Err(BencodeError::InvalidInteger)
            } else {
                Ok(((if neg { -n } else { n }), dend + 1))
            }
        }
    }
}

/// The byte-string rule at `pos`: `DIGIT+` `:` then that many raw bytes.
///
/// On success, yields the span of the raw bytes as
/// `(content_start, end)`: the content is `s[content_start..end]` and
/// `end` is the first unconsumed position. A broken envelope (no
/// digits, no `:`) is a structural mismatch; a declared length of zero,
/// or one exceeding the bytes remaining, is an invalid length.
pub open spec fn spec_parse_bstr(s: Seq<u8>, pos: int) -> Result<(int, int), BencodeError> {
    if !(0 <= pos < s.len()) {
        Err(BencodeError::StructuralMismatch)
    } else {
        let dend = digit_run_end(s, pos);
        if dend == pos {
            Err(BencodeError::StructuralMismatch)
        } else if !(dend < s.len() && s[dend] == 58) {
            Err(BencodeError::StructuralMismatch)
        } else {
            let n = digits_value(s, pos, dend);
            if n == 0 {
                Err(BencodeError::InvalidBytesLength)
            } else if n > s.len() - (dend + 1) {
                Err(BencodeError::InvalidBytesLength)
            } else {
                Ok((dend + 1, dend + 1 + n))
            }
        }
    }
}

/// Keeps a recursion position inside `(pos, s.len()]` so that the
/// mutually recursive rules below visibly terminate. The bounds lemmas
/// in [`crate::laws`] show that for every position an inner rule
/// actually returns, this is the identity.
pub open spec fn step_within(s: Seq<u8>, pos: int, next: int) -> int {
    let stepped = if next < pos + 1 {
        pos + 1
    } else {
        next
    };
    if stepped > s.len() {
        s.len() as int
    } else {
        stepped
    }
}

/// The dispatch rule at `pos`: the next byte selects exactly one of the
/// four decoders (`DIGIT` a byte string, `i` an integer, `l` a list,
/// `d` a dictionary); anything else, including end of input, matches no
/// value. `depth` is the remaining nesting budget: entering a list or
/// dictionary spends one unit, and a composite with no budget left is a
/// depth error.
pub open spec fn spec_parse_value(s: Seq<u8>, pos: int, depth: nat) -> Result<
    (SpecValue, int),
    BencodeError,
>
    decreases s.len() - pos, 1int,
{
    if !(0 <= pos < s.len()) {
        Err(BencodeError::StructuralMismatch)
    } else if is_ascii_digit(s[pos]) {
        match spec_parse_bstr(s, pos) {
            Ok((content_start, end)) => Ok(
                (SpecValue::Bytes(s.subrange(content_start, end)), end),
            ),
            Err(e) => Err(e),
        }
    } else if s[pos] == 105 {
        match spec_parse_int(s, pos) {
            Ok((n, end)) => Ok((SpecValue::Integer(n), end)),
            Err(e) => Err(e),
        }
    } else if s[pos] == 108 {
        if depth == 0 {
            Err(BencodeError::DepthExceeded)
        } else {
            match spec_parse_items(s, pos + 1, (depth - 1) as nat) {
                Ok((elems, end)) => Ok((SpecValue::List(elems), end)),
                Err(e) => Err(e),
            }
        }
    } else if s[pos] == 100 {
        if depth == 0 {
            Err(BencodeError::DepthExceeded)
        } else {
            match spec_parse_pairs(s, pos + 1, (depth - 1) as nat) {
                Ok((pairs, end)) => Ok((SpecValue::Dictionary(pairs), end)),
                Err(e) => Err(e),
            }
        }
    } else {
        Err(BencodeError::StructuralMismatch)
    }
}

/// The element run of a list body: values until an `e` terminator.
/// Yields the elements in encounter order and the position just past
/// the `e`. Exhausting the input before the terminator leaves the
/// composite unterminated.
pub open spec fn spec_parse_items(s: Seq<u8>, pos: int, depth: nat) -> Result<
    (Seq<SpecValue>, int),
    BencodeError,
>
    decreases s.len() - pos, 2int,
{
    if !(0 <= pos < s.len()) {
        Err(BencodeError::UnterminatedComposite)
    } else if s[pos] == 101 {
        Ok((Seq::empty(), pos + 1))
    } else {
        match spec_parse_value(s, pos, depth) {
            Ok((v, vend)) => {
                match spec_parse_items(s, step_within(s, pos, vend), depth) {
                    Ok((rest, end)) => Ok((seq![v] + rest, end)),
                    Err(e) => Err(e),
                }
            },
            Err(e) => Err(e),
        }
    }
}

/// The pair run of a dictionary body: byte-string keys, each followed
/// by one dispatched value, until an `e` terminator. Yields the pairs
/// in encounter order and the position just past the `e`.
pub open spec fn spec_parse_pairs(s: Seq<u8>, pos: int, depth: nat) -> Result<
    (Seq<(Seq<u8>, SpecValue)>, int),
    BencodeError,
>
    decreases s.len() - pos, 2int,
{
    if !(0 <= pos < s.len()) {
        Err(BencodeError::UnterminatedComposite)
    } else if s[pos] == 101 {
        Ok((Seq::empty(), pos + 1))
    } else {
        match spec_parse_bstr(s, pos) {
            Ok((content_start, kend)) => {
                let key = s.subrange(content_start, kend);
                let vpos = step_within(s, pos, kend);
                match spec_parse_value(s, vpos, depth) {
                    Ok((v, vend)) => {
                        match spec_parse_pairs(s, step_within(s, vpos, vend), depth) {
                            Ok((rest, end)) => Ok((seq![(key, v)] + rest, end)),
                            Err(e) => Err(e),
                        }
                    },
                    Err(e) => Err(e),
                }
            },
            Err(e) => Err(e),
        }
    }
}

/// The top-level rule from `pos`: values until the buffer is exhausted,
/// in encounter order. An empty remainder is an empty sequence of
/// values, not an error; a value that fails before exhaustion fails the
/// whole rule with that value's error.
pub open spec fn spec_parse_top(s: Seq<u8>, pos: int, depth: nat) -> Result<
    Seq<SpecValue>,
    BencodeError,
>
    decreases s.len() - pos, 2int,
{
    if pos < 0 {
        Err(BencodeError::StructuralMismatch)
    } else if pos >= s.len() {
        Ok(Seq::empty())
    } else {
        match spec_parse_value(s, pos, depth) {
            Ok((v, vend)) => {
                match spec_parse_top(s, step_within(s, pos, vend), depth) {
                    Ok(rest) => Ok(seq![v] + rest),
                    Err(e) => Err(e),
                }
            },
            Err(e) => Err(e),
        }
    }
}

/// What decoding a whole buffer means: the top-level rule over all of
/// `s`, with the full nesting budget for each top-level value.
pub open spec fn spec_parse(s: Seq<u8>) -> Result<Seq<SpecValue>, BencodeError> {
    spec_parse_top(s, 0, crate::decode::MAX_DEPTH as nat)
}

/// The list rule at the front of a whole buffer: a buffer that does not
/// begin with `l` matches no list at all.
pub open spec fn spec_parse_list(s: Seq<u8>) -> Result<(SpecValue, int), BencodeError> {
    if s.len() > 0 && s[0] == 108 {
        spec_parse_value(s, 0, crate::decode::MAX_DEPTH as nat)
    } else {
        Err(BencodeError::StructuralMismatch)
    }
}

/// The dictionary rule at the front of a whole buffer: a buffer that
/// does not begin with `d` matches no dictionary at all.
pub open spec fn spec_parse_dict(s: Seq<u8>) -> Result<(SpecValue, int), BencodeError> {
    if s.len() > 0 && s[0] == 100 {
        spec_parse_value(s, 0, crate::decode::MAX_DEPTH as nat)
    } else {
        Err(BencodeError::StructuralMismatch)
    }
}

/// Dictionary lookup over the pairs in encounter order: the value of
/// the last pair whose key equals `key`, or nothing. The later of two
/// equal keys winning is the decoder's documented duplicate-key policy.
pub open spec fn spec_dict_get(pairs: Seq<(Seq<u8>, SpecValue)>, key: Seq<u8>) -> Option<SpecValue>
    decreases pairs.len(),
{
    if pairs.len() == 0 {
        None
    } else if pairs.last().0 == key {
        Some(pairs.last().1)
    } else {
        spec_dict_get(pairs.drop_last(), key)
    }
}

/// Prepends already-parsed elements to the outcome of parsing the rest
/// of a run: errors pass through unchanged.
pub open spec fn prepend_run<T>(prefix: Seq<T>, r: Result<(Seq<T>, int), BencodeError>) -> Result<
    (Seq<T>, int),
    BencodeError,
> {
    match r {
        Ok((rest, end)) => Ok((prefix + rest, end)),
        Err(e) => Err(e),
    }
}

/// Prepends already-parsed top-level values to the outcome of parsing
/// the rest of the buffer: errors pass through unchanged.
pub open spec fn prepend_top<T>(prefix: Seq<T>, r: Result<Seq<T>, BencodeError>) -> Result<
    Seq<T>,
    BencodeError,
> {
    match r {
        Ok(rest) => Ok(prefix + rest),
        Err(e) => Err(e),
    }
}

/// Prepending nothing changes nothing.
pub proof fn lemma_prepend_run_empty<T>(r: Result<(Seq<T>, int), BencodeError>)
    ensures
        prepend_run(Seq::<T>::empty(), r) == r,
{
    match r {
        Ok((rest, end)) => {
            assert(Seq::<T>::empty() + rest =~= rest);
        },
        Err(_) => {},
    }
}

/// Prepending in two steps is prepending the concatenation.
pub proof fn lemma_prepend_run_assoc<T>(a: Seq<T>, b: Seq<T>, r: Result<(Seq<T>, int), BencodeError>)
    ensures
        prepend_run(a, prepend_run(b, r)) == prepend_run(a + b, r),
{
    match r {
        Ok((rest, end)) => {
            assert(a + (b + rest) =~= (a + b) + rest);
        },
        Err(_) => {},
    }
}

/// Prepending nothing changes nothing.
pub proof fn lemma_prepend_top_empty<T>(r: Result<Seq<T>, BencodeError>)
    ensures
        prepend_top(Seq::<T>::empty(), r) == r,
{
    match r {
        Ok(rest) => {
            assert(Seq::<T>::empty() + rest =~= rest);
        },
        Err(_) => {},
    }
}

/// Prepending in two steps is prepending the concatenation.
pub proof fn lemma_prepend_top_assoc<T>(a: Seq<T>, b: Seq<T>, r: Result<Seq<T>, BencodeError>)
    ensures
        prepend_top(a, prepend_top(b, r)) == prepend_top(a + b, r),
{
    match r {
        Ok(rest) => {
            assert(a + (b + rest) =~= (a + b) + rest);
        },
        Err(_) => {},
    }
}

} // verus!
