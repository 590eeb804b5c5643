//! Stated and proved laws of the grammar model.
//!
//! The decoders in [`crate::decode`] are verified against the model in
//! [`crate::grammar`]; the laws here are facts about that model itself,
//! chiefly that parsing is local to the consumed window of the buffer,
//! and what follows from that: a well-formed concatenation of top-level
//! buffers decodes to the concatenation of their values, in order.

use vstd::prelude::*;

use crate::errors::BencodeError;
use crate::grammar::digit_run_end;
use crate::grammar::digits_value;
use crate::grammar::is_ascii_digit;
use crate::grammar::prepend_top;
use crate::grammar::spec_parse;
use crate::grammar::spec_parse_bstr;
use crate::grammar::spec_parse_int;
use crate::grammar::spec_parse_items;
use crate::grammar::spec_parse_pairs;
use crate::grammar::spec_parse_top;
use crate::grammar::spec_parse_value;
use crate::grammar::step_within;
use crate::grammar::SpecValue;

verus! {

/// The buffers `a` (from `apos`) and `b` (from `bpos`) hold the same
/// `k` bytes.
pub open spec fn agree(a: Seq<u8>, apos: int, b: Seq<u8>, bpos: int, k: int) -> bool {
    forall|j: int| 0 <= j < k ==> #[trigger] a[apos + j] == b[bpos + j]
}

/// Agreement on a window gives agreement on any window inside it.
proof fn lemma_agree_sub(a: Seq<u8>, apos: int, b: Seq<u8>, bpos: int, k: int, off: int, k2: int)
    requires
        agree(a, apos, b, bpos, k),
        0 <= off,
        off + k2 <= k,
    ensures
        agree(a, apos + off, b, bpos + off, k2),
{
    assert forall|j: int| 0 <= j < k2 implies #[trigger] a[apos + off + j] == b[bpos + off + j] by {
        assert(a[apos + (off + j)] == b[bpos + (off + j)]);
    }
}

/// Where a digit run ends: bounds, digits inside, a non-digit after.
proof fn lemma_run_end_char(s: Seq<u8>, pos: int)
    requires
        0 <= pos <= s.len(),
    ensures
        pos <= digit_run_end(s, pos) <= s.len(),
        forall|j: int| pos <= j < digit_run_end(s, pos) ==> is_ascii_digit(#[trigger] s[j]),
        digit_run_end(s, pos) < s.len() ==> !is_ascii_digit(s[digit_run_end(s, pos)]),
    decreases s.len() - pos,
{
    if pos < s.len() && is_ascii_digit(s[pos]) {
        lemma_run_end_char(s, pos + 1);
    }
}

/// A run of digits followed by a non-digit (or the buffer's end) is
/// exactly where the digit run ends.
proof fn lemma_run_end_determined(s: Seq<u8>, pos: int, e: int)
    requires
        0 <= pos <= e <= s.len(),
        forall|j: int| pos <= j < e ==> is_ascii_digit(#[trigger] s[j]),
        e < s.len() ==> !is_ascii_digit(s[e]),
    ensures
        digit_run_end(s, pos) == e,
    decreases e - pos,
{
    if pos < e {
        lemma_run_end_determined(s, pos + 1, e);
    }
}

/// The same digits denote the same number.
proof fn lemma_digits_window(a: Seq<u8>, astart: int, b: Seq<u8>, bstart: int, k: int)
    requires
        0 <= k,
        agree(a, astart, b, bstart, k),
    ensures
        digits_value(b, bstart, bstart + k) == digits_value(a, astart, astart + k),
    decreases k,
{
    if k > 0 {
        lemma_digits_window(a, astart, b, bstart, k - 1);
        assert(a[astart + (k - 1)] == b[bstart + (k - 1)]);
    }
}

/// Digits denote a number that is not negative.
proof fn lemma_digits_nonneg(s: Seq<u8>, start: int, end: int)
    requires
        forall|j: int| start <= j < end ==> is_ascii_digit(#[trigger] s[j]),
    ensures
        digits_value(s, start, end) >= 0,
    decreases end - start,
{
    if start < end {
        lemma_digits_nonneg(s, start, end - 1);
        assert(digits_value(s, start, end - 1) * 10 >= 0) by (nonlinear_arith)
            requires
                digits_value(s, start, end - 1) >= 0,
        ;
    }
}

/// A successful integer parse ends after its start and within the
/// buffer, and its `e` terminator sits just before that end.
proof fn lemma_int_bounds(s: Seq<u8>, pos: int)
    ensures
        spec_parse_int(s, pos) matches Ok((n, end)) ==> pos + 2 < end <= s.len(),
{
    if spec_parse_int(s, pos) is Ok {
        lemma_run_end_char(s, pos + 1);
        lemma_run_end_char(s, pos + 2);
    }
}

/// A successful byte-string parse has its content strictly inside
/// `(pos, end]` and ends within the buffer.
proof fn lemma_bstr_bounds(s: Seq<u8>, pos: int)
    ensures
        spec_parse_bstr(s, pos) matches Ok((content_start, end)) ==> pos + 1 < content_start
            <= end <= s.len(),
{
    if spec_parse_bstr(s, pos) is Ok {
        lemma_run_end_char(s, pos);
        lemma_digits_nonneg(s, pos, digit_run_end(s, pos));
    }
}

/// A successful value parse consumes at least one byte and stays within
/// the buffer.
pub proof fn lemma_value_bounds(s: Seq<u8>, pos: int, depth: nat)
    ensures
        spec_parse_value(s, pos, depth) matches Ok((v, end)) ==> pos < end <= s.len(),
    decreases s.len() - pos, 1int,
{
    if 0 <= pos < s.len() {
        if is_ascii_digit(s[pos]) {
            lemma_bstr_bounds(s, pos);
        } else if s[pos] == 105 {
            lemma_int_bounds(s, pos);
        } else if s[pos] == 108 && depth > 0 {
            lemma_items_bounds(s, pos + 1, (depth - 1) as nat);
        } else if s[pos] == 100 && depth > 0 {
            lemma_pairs_bounds(s, pos + 1, (depth - 1) as nat);
        }
    }
}

/// A successful list body consumes at least its terminator and stays
/// within the buffer.
pub proof fn lemma_items_bounds(s: Seq<u8>, pos: int, depth: nat)
    ensures
        spec_parse_items(s, pos, depth) matches Ok((elems, end)) ==> pos < end <= s.len(),
    decreases s.len() - pos, 2int,
{
    if 0 <= pos < s.len() && s[pos] != 101 {
        lemma_value_bounds(s, pos, depth);
        match spec_parse_value(s, pos, depth) {
            Ok((v, vend)) => {
                lemma_items_bounds(s, step_within(s, pos, vend), depth);
            },
            Err(_) => {},
        }
    }
}

/// A successful dictionary body consumes at least its terminator and
/// stays within the buffer.
pub proof fn lemma_pairs_bounds(s: Seq<u8>, pos: int, depth: nat)
    ensures
        spec_parse_pairs(s, pos, depth) matches Ok((pairs, end)) ==> pos < end <= s.len(),
    decreases s.len() - pos, 2int,
{
    if 0 <= pos < s.len() && s[pos] != 101 {
        lemma_bstr_bounds(s, pos);
        match spec_parse_bstr(s, pos) {
            Ok((content_start, kend)) => {
                let vpos = step_within(s, pos, kend);
                lemma_value_bounds(s, vpos, depth);
                match spec_parse_value(s, vpos, depth) {
                    Ok((v, vend)) => {
                        lemma_pairs_bounds(s, step_within(s, vpos, vend), depth);
                    },
                    Err(_) => {},
                }
            },
            Err(_) => {},
        }
    }
}

/// One byte of an agreeing window, by its offset.
proof fn lemma_agree_at(a: Seq<u8>, apos: int, b: Seq<u8>, bpos: int, k: int, j: int)
    requires
        agree(a, apos, b, bpos, k),
        0 <= j < k,
    ensures
        a[apos + j] == b[bpos + j],
{
}

/// An integer parse depends only on the bytes it consumed: another
/// buffer holding the same window parses to the same integer.
proof fn lemma_int_window(a: Seq<u8>, apos: int, b: Seq<u8>, bpos: int, n: int, aend: int)
    requires
        spec_parse_int(a, apos) == Ok::<(int, int), BencodeError>((n, aend)),
        0 <= bpos,
        bpos + (aend - apos) <= b.len(),
        agree(a, apos, b, bpos, aend - apos),
    ensures
        spec_parse_int(b, bpos) == Ok::<(int, int), BencodeError>((n, bpos + (aend - apos))),
{
    let k = aend - apos;
    lemma_int_bounds(a, apos);
    let sign_pos_a = apos + 1;
    let signed_a = sign_pos_a < a.len() && (a[sign_pos_a] == 43 || a[sign_pos_a] == 45);
    let dstart_a = if signed_a {
        sign_pos_a + 1
    } else {
        sign_pos_a
    };
    let dend_a = digit_run_end(a, dstart_a);
    assert(dstart_a <= a.len());
    lemma_run_end_char(a, dstart_a);
    let off = dstart_a - apos;
    let dend_b = bpos + (dend_a - apos);
    let dstart_b = bpos + off;
    lemma_agree_at(a, apos, b, bpos, k, 0);
    lemma_agree_at(a, apos, b, bpos, k, 1);
    assert forall|j: int| dstart_b <= j < dend_b implies is_ascii_digit(#[trigger] b[j]) by {
        lemma_agree_at(a, apos, b, bpos, k, j - bpos);
        assert(is_ascii_digit(a[apos + (j - bpos)]));
    }
    lemma_agree_at(a, apos, b, bpos, k, dend_a - apos);
    lemma_run_end_determined(b, dstart_b, dend_b);
    lemma_agree_sub(a, apos, b, bpos, k, off, dend_a - dstart_a);
    lemma_digits_window(a, dstart_a, b, dstart_b, dend_a - dstart_a);
    lemma_agree_at(a, apos, b, bpos, k, off);
}

/// A byte-string parse depends only on the bytes it consumed: another
/// buffer holding the same window parses to the same content span.
proof fn lemma_bstr_window(a: Seq<u8>, apos: int, b: Seq<u8>, bpos: int, acs: int, aend: int)
    requires
        spec_parse_bstr(a, apos) == Ok::<(int, int), BencodeError>((acs, aend)),
        0 <= bpos,
        bpos + (aend - apos) <= b.len(),
        agree(a, apos, b, bpos, aend - apos),
    ensures
        spec_parse_bstr(b, bpos) == Ok::<(int, int), BencodeError>(
            (bpos + (acs - apos), bpos + (aend - apos)),
        ),
        b.subrange(bpos + (acs - apos), bpos + (aend - apos)) == a.subrange(acs, aend),
{
    let k = aend - apos;
    lemma_bstr_bounds(a, apos);
    let dend_a = digit_run_end(a, apos);
    lemma_run_end_char(a, apos);
    lemma_digits_nonneg(a, apos, dend_a);
    let dend_b = bpos + (dend_a - apos);
    assert forall|j: int| bpos <= j < dend_b implies is_ascii_digit(#[trigger] b[j]) by {
        lemma_agree_at(a, apos, b, bpos, k, j - bpos);
        assert(is_ascii_digit(a[apos + (j - bpos)]));
    }
    lemma_agree_at(a, apos, b, bpos, k, dend_a - apos);
    lemma_run_end_determined(b, bpos, dend_b);
    lemma_digits_window(a, apos, b, bpos, dend_a - apos);
    assert forall|j: int| 0 <= j < aend - acs implies a.subrange(acs, aend)[j] == b.subrange(
        bpos + (acs - apos),
        bpos + k,
    )[j] by {
        lemma_agree_at(a, apos, b, bpos, k, acs - apos + j);
    }
    assert(b.subrange(bpos + (acs - apos), bpos + k) =~= a.subrange(acs, aend));
}

/// A value parse depends only on the bytes it consumed: another buffer
/// holding the same window parses to the very same value.
pub proof fn lemma_value_window(
    a: Seq<u8>,
    apos: int,
    b: Seq<u8>,
    bpos: int,
    v: SpecValue,
    aend: int,
    depth: nat,
)
    requires
        spec_parse_value(a, apos, depth) == Ok::<(SpecValue, int), BencodeError>((v, aend)),
        0 <= bpos,
        bpos + (aend - apos) <= b.len(),
        agree(a, apos, b, bpos, aend - apos),
    ensures
        spec_parse_value(b, bpos, depth) == Ok::<(SpecValue, int), BencodeError>(
            (v, bpos + (aend - apos)),
        ),
    decreases a.len() - apos, 1int,
{
    let k = aend - apos;
    lemma_value_bounds(a, apos, depth);
    lemma_agree_at(a, apos, b, bpos, k, 0);
    if is_ascii_digit(a[apos]) {
        match spec_parse_bstr(a, apos) {
            Ok((acs, bend)) => {
                lemma_bstr_window(a, apos, b, bpos, acs, bend);
            },
            Err(_) => {},
        }
    } else if a[apos] == 105 {
        match spec_parse_int(a, apos) {
            Ok((n, iend)) => {
                lemma_int_window(a, apos, b, bpos, n, iend);
            },
            Err(_) => {},
        }
    } else if a[apos] == 108 {
        match spec_parse_items(a, apos + 1, (depth - 1) as nat) {
            Ok((elems, iend)) => {
                lemma_items_bounds(a, apos + 1, (depth - 1) as nat);
                lemma_agree_sub(a, apos, b, bpos, k, 1, iend - (apos + 1));
                lemma_items_window(a, apos + 1, b, bpos + 1, elems, iend, (depth - 1) as nat);
            },
            Err(_) => {},
        }
    } else if a[apos] == 100 {
        match spec_parse_pairs(a, apos + 1, (depth - 1) as nat) {
            Ok((pairs, pend)) => {
                lemma_pairs_bounds(a, apos + 1, (depth - 1) as nat);
                lemma_agree_sub(a, apos, b, bpos, k, 1, pend - (apos + 1));
                lemma_pairs_window(a, apos + 1, b, bpos + 1, pairs, pend, (depth - 1) as nat);
            },
            Err(_) => {},
        }
    }
}

/// A list body depends only on the bytes it consumed.
pub proof fn lemma_items_window(
    a: Seq<u8>,
    apos: int,
    b: Seq<u8>,
    bpos: int,
    elems: Seq<SpecValue>,
    aend: int,
    depth: nat,
)
    requires
        spec_parse_items(a, apos, depth) == Ok::<(Seq<SpecValue>, int), BencodeError>(
            (elems, aend),
        ),
        0 <= bpos,
        bpos + (aend - apos) <= b.len(),
        agree(a, apos, b, bpos, aend - apos),
    ensures
        spec_parse_items(b, bpos, depth) == Ok::<(Seq<SpecValue>, int), BencodeError>(
            (elems, bpos + (aend - apos)),
        ),
    decreases a.len() - apos, 2int,
{
    let k = aend - apos;
    lemma_items_bounds(a, apos, depth);
    lemma_agree_at(a, apos, b, bpos, k, 0);
    if a[apos] != 101 {
        match spec_parse_value(a, apos, depth) {
            Ok((v, vend)) => {
                lemma_value_bounds(a, apos, depth);
                match spec_parse_items(a, vend, depth) {
                    Ok((rest, rend)) => {
                        lemma_items_bounds(a, vend, depth);
                        lemma_agree_sub(a, apos, b, bpos, k, 0, vend - apos);
                        lemma_value_window(a, apos, b, bpos, v, vend, depth);
                        let bvend = bpos + (vend - apos);
                        lemma_agree_sub(a, apos, b, bpos, k, vend - apos, rend - vend);
                        lemma_items_window(a, vend, b, bvend, rest, rend, depth);
                    },
                    Err(_) => {},
                }
            },
            Err(_) => {},
        }
    }
}

/// A dictionary body depends only on the bytes it consumed.
pub proof fn lemma_pairs_window(
    a: Seq<u8>,
    apos: int,
    b: Seq<u8>,
    bpos: int,
    pairs: Seq<(Seq<u8>, SpecValue)>,
    aend: int,
    depth: nat,
)
    requires
        spec_parse_pairs(a, apos, depth) == Ok::<(Seq<(Seq<u8>, SpecValue)>, int), BencodeError>(
            (pairs, aend),
        ),
        0 <= bpos,
        bpos + (aend - apos) <= b.len(),
        agree(a, apos, b, bpos, aend - apos),
    ensures
        spec_parse_pairs(b, bpos, depth) == Ok::<(Seq<(Seq<u8>, SpecValue)>, int), BencodeError>(
            (pairs, bpos + (aend - apos)),
        ),
    decreases a.len() - apos, 2int,
{
    let k = aend - apos;
    lemma_pairs_bounds(a, apos, depth);
    lemma_agree_at(a, apos, b, bpos, k, 0);
    if a[apos] != 101 {
        match spec_parse_bstr(a, apos) {
            Ok((acs, kend)) => {
                lemma_bstr_bounds(a, apos);
                match spec_parse_value(a, kend, depth) {
                    Ok((v, vend)) => {
                        lemma_value_bounds(a, kend, depth);
                        match spec_parse_pairs(a, vend, depth) {
                            Ok((rest, rend)) => {
                                lemma_pairs_bounds(a, vend, depth);
                                lemma_agree_sub(a, apos, b, bpos, k, 0, kend - apos);
                                lemma_bstr_window(a, apos, b, bpos, acs, kend);
                                let bkend = bpos + (kend - apos);
                                lemma_agree_sub(a, apos, b, bpos, k, kend - apos, vend - kend);
                                lemma_value_window(a, kend, b, bkend, v, vend, depth);
                                let bvend = bpos + (vend - apos);
                                lemma_agree_sub(a, apos, b, bpos, k, vend - apos, rend - vend);
                                lemma_pairs_window(a, vend, b, bvend, rest, rend, depth);
                            },
                            Err(_) => {},
                        }
                    },
                    Err(_) => {},
                }
            },
            Err(_) => {},
        }
    }
}

/// Appending bytes after a fully decodable region changes nothing about
/// that region's values: the top-level rule over the grown buffer first
/// yields exactly those values, then continues into the appended bytes.
proof fn lemma_top_grow(s: Seq<u8>, t: Seq<u8>, pos: int, vs: Seq<SpecValue>, depth: nat)
    requires
        0 <= pos <= s.len(),
        spec_parse_top(s, pos, depth) == Ok::<Seq<SpecValue>, BencodeError>(vs),
    ensures
        spec_parse_top(s + t, pos, depth) == prepend_top(
            vs,
            spec_parse_top(s + t, s.len() as int, depth),
        ),
    decreases s.len() - pos,
{
    let c = s + t;
    if pos == s.len() {
        crate::grammar::lemma_prepend_top_empty(spec_parse_top(c, s.len() as int, depth));
    } else {
        match spec_parse_value(s, pos, depth) {
            Ok((v, vend)) => {
                lemma_value_bounds(s, pos, depth);
                assert forall|j: int| 0 <= j < vend - pos implies #[trigger] s[pos + j] == c[pos
                    + j] by {}
                lemma_value_window(s, pos, c, pos, v, vend, depth);
                match spec_parse_top(s, vend, depth) {
                    Ok(rest) => {
                        lemma_top_grow(s, t, vend, rest, depth);
                        crate::grammar::lemma_prepend_top_assoc(
                            seq![v],
                            rest,
                            spec_parse_top(c, s.len() as int, depth),
                        );
                        assert(seq![v] + rest =~= vs);
                    },
                    Err(_) => {},
                }
            },
            Err(_) => {},
        }
    }
}

/// A fully decodable buffer decodes the same when it sits at the end of
/// a larger buffer, starting where the prefix ends.
proof fn lemma_top_shift(s: Seq<u8>, t: Seq<u8>, pos: int, vs: Seq<SpecValue>, depth: nat)
    requires
        0 <= pos <= t.len(),
        spec_parse_top(t, pos, depth) == Ok::<Seq<SpecValue>, BencodeError>(vs),
    ensures
        spec_parse_top(s + t, s.len() + pos, depth) == Ok::<Seq<SpecValue>, BencodeError>(vs),
    decreases t.len() - pos,
{
    let c = s + t;
    let m = s.len() as int;
    if pos < t.len() {
        match spec_parse_value(t, pos, depth) {
            Ok((v, vend)) => {
                lemma_value_bounds(t, pos, depth);
                assert forall|j: int| 0 <= j < vend - pos implies #[trigger] t[pos + j] == c[m + pos
                    + j] by {}
                lemma_value_window(t, pos, c, m + pos, v, vend, depth);
                match spec_parse_top(t, vend, depth) {
                    Ok(rest) => {
                        lemma_top_shift(s, t, vend, rest, depth);
                        assert(seq![v] + rest =~= vs);
                    },
                    Err(_) => {},
                }
            },
            Err(_) => {},
        }
    }
}

/// Decoding a well-formed concatenation yields the concatenation of the
/// decoded runs, in order, consuming the entire buffer: whenever two
/// buffers each decode in full, so does the buffer made of one followed
/// by the other, to the first buffer's values followed by the second's.
pub proof fn lemma_parse_concatenation(s1: Seq<u8>, s2: Seq<u8>, v1: Seq<SpecValue>, v2: Seq<
    SpecValue,
>)
    requires
        spec_parse(s1) == Ok::<Seq<SpecValue>, BencodeError>(v1),
        spec_parse(s2) == Ok::<Seq<SpecValue>, BencodeError>(v2),
    ensures
        spec_parse(s1 + s2) == Ok::<Seq<SpecValue>, BencodeError>(v1 + v2),
{
    let depth = crate::decode::MAX_DEPTH as nat;
    lemma_top_grow(s1, s2, 0, v1, depth);
    lemma_top_shift(s1, s2, 0, v2, depth);
}

/// Decoding is deterministic: the same well-formed buffer decodes to
/// structurally equal value trees, however often it is decoded. The
/// decoders realize this because each returns exactly what the one
/// grammar model prescribes for its input.
pub proof fn lemma_parse_deterministic(
    s: Seq<u8>,
    r1: Result<Seq<SpecValue>, BencodeError>,
    r2: Result<Seq<SpecValue>, BencodeError>,
)
    requires
        r1 == spec_parse(s),
        r2 == spec_parse(s),
    ensures
        r1 == r2,
{
}

} // verus!
