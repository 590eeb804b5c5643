//! The executable decoders, verified against [`crate::grammar`].

use vstd::prelude::*;

use crate::errors::BencodeError;
use crate::grammar::digit_run_end;
use crate::grammar::digits_value;
use crate::grammar::is_ascii_digit;
use crate::grammar::lemma_prepend_run_assoc;
use crate::grammar::lemma_prepend_run_empty;
use crate::grammar::lemma_prepend_top_assoc;
use crate::grammar::lemma_prepend_top_empty;
use crate::grammar::prepend_run;
use crate::grammar::prepend_top;
use crate::grammar::spec_parse;
use crate::grammar::spec_parse_dict;
use crate::grammar::spec_parse_list;
use crate::grammar::spec_parse_top;
use crate::grammar::spec_parse_bstr;
use crate::grammar::spec_parse_int;
use crate::grammar::spec_parse_items;
use crate::grammar::spec_parse_pairs;
use crate::grammar::spec_parse_value;
use crate::grammar::step_within;
use crate::grammar::SpecValue;
use crate::value::lemma_view_pairs_push;
use crate::value::lemma_view_values_push;
use crate::value::view_pairs;
use crate::value::view_value;
use crate::value::view_values;
use crate::value::Value;

verus! {

/// How deeply lists and dictionaries may nest. Decoding rejects deeper
/// input with [`BencodeError::DepthExceeded`] instead of running the
/// call stack out on adversarial input. This guard is a hardening
/// addition over the plain grammar; it never changes the result for
/// input nested this deep or less.
pub const MAX_DEPTH: usize = 512;

/// Scans the digit run starting at `pos` and accumulates its value.
///
/// Returns the run's end and, when the value fits in a `u64`, the value
/// itself; `None` means the digits denote something larger than
/// `u64::MAX`.
fn scan_digits(input: &[u8], pos: usize) -> (r: (usize, Option<u64>))
    requires
        pos <= input@.len(),
    ensures
        r.0 as int == digit_run_end(input@, pos as int),
        pos <= r.0 <= input@.len(),
        match r.1 {
            Some(v) => v as int == digits_value(input@, pos as int, r.0 as int),
            None => digits_value(input@, pos as int, r.0 as int) > u64::MAX,
        },
{
    let n = input.len();
    let mut i = pos;
    let mut acc: u64 = 0;
    let mut fits = true;
    while i < n && is_digit_byte(*vstd::slice::slice_index_get(input, i))
        invariant
            pos <= i <= n,
            n == input@.len(),
            digit_run_end(input@, pos as int) == digit_run_end(input@, i as int),
            fits ==> acc as int == digits_value(input@, pos as int, i as int),
            !fits ==> digits_value(input@, pos as int, i as int) > u64::MAX,
        decreases n - i,
    {
        let d = *vstd::slice::slice_index_get(input, i) - 48;
        if fits {
            if acc > 1844674407370955161 || (acc == 1844674407370955161 && d > 5) {
                fits = false;
            } else {
                acc = acc * 10 + (d as u64);
            }
        } else {
            proof {
                let old_v = digits_value(input@, pos as int, i as int);
                assert(digits_value(input@, pos as int, i as int + 1) == old_v * 10 + (input@[i as int]
                    - 48));
                assert(old_v * 10 >= old_v) by (nonlinear_arith)
                    requires
                        old_v >= 0,
                ;
            }
        }
        i = i + 1;
    }
    (i, if fits { Some(acc) } else { None })
}

/// The digit test on a concrete byte.
fn is_digit_byte(b: u8) -> (r: bool)
    ensures
        r == is_ascii_digit(b),
{
    48 <= b && b <= 57
}

/// Decodes the integer rule at `pos`, exactly as
/// [`spec_parse_int`] prescribes.
fn int_at(input: &[u8], pos: usize) -> (r: Result<(i64, usize), BencodeError>)
    requires
        pos <= input@.len(),
    ensures
        match r {
            Ok((v, end)) => spec_parse_int(input@, pos as int) == Ok::<(int, int), BencodeError>(
                (v as int, end as int),
            ) && pos < end <= input@.len(),
            Err(e) => spec_parse_int(input@, pos as int) == Err::<(int, int), BencodeError>(e),
        },
{
    let n = input.len();
    if pos >= n || *vstd::slice::slice_index_get(input, pos) != 105 {
        return Err(BencodeError::StructuralMismatch);
    }
    let mut i = pos + 1;
    let mut sign: u8 = 0;
    if i < n {
        let b = *vstd::slice::slice_index_get(input, i);
        if b == 43 || b == 45 {
            sign = b;
            i = i + 1;
        }
    }
    let dstart = i;
    let (dend, magnitude) = scan_digits(input, dstart);
    if dend == dstart {
        return Err(BencodeError::StructuralMismatch);
    }
    if dend >= n || *vstd::slice::slice_index_get(input, dend) != 101 {
        return Err(BencodeError::StructuralMismatch);
    }
    if sign == 43 {
        return Err(BencodeError::InvalidInteger);
    }
    let neg = sign == 45;
    if dend - dstart > 1 && *vstd::slice::slice_index_get(input, dstart) == 48 {
        return Err(BencodeError::InvalidInteger);
    }
    match magnitude {
        None => Err(BencodeError::InvalidInteger),
        Some(mag) => {
            if neg {
                if mag == 0 {
                    Err(BencodeError::InvalidInteger)
                } else if mag > 9223372036854775808u64 {
                    Err(BencodeError::InvalidInteger)
                } else if mag == 9223372036854775808u64 {
                    Ok((i64::MIN, dend + 1))
                } else {
                    Ok((-(mag as i64), dend + 1))
                }
            } else {
                if mag > 9223372036854775807u64 {
                    Err(BencodeError::InvalidInteger)
                } else {
                    Ok((mag as i64, dend + 1))
                }
            }
        },
    }
}

/// Decodes the byte-string rule at `pos`, exactly as
/// [`spec_parse_bstr`] prescribes. On success, returns the content span
/// `(content_start, end)`: the raw bytes are `input[content_start..end]`.
fn bstr_at(input: &[u8], pos: usize) -> (r: Result<(usize, usize), BencodeError>)
    requires
        pos <= input@.len(),
    ensures
        match r {
            Ok((content_start, end)) => spec_parse_bstr(input@, pos as int) == Ok::<
                (int, int),
                BencodeError,
            >((content_start as int, end as int)) && pos < content_start <= end <= input@.len(),
            Err(e) => spec_parse_bstr(input@, pos as int) == Err::<(int, int), BencodeError>(e),
        },
{
    let n = input.len();
    if pos >= n {
        return Err(BencodeError::StructuralMismatch);
    }
    let (dend, declared) = scan_digits(input, pos);
    if dend == pos {
        return Err(BencodeError::StructuralMismatch);
    }
    if dend >= n || *vstd::slice::slice_index_get(input, dend) != 58 {
        return Err(BencodeError::StructuralMismatch);
    }
    let remaining = n - (dend + 1);
    match declared {
        None => Err(BencodeError::InvalidBytesLength),
        Some(len64) => {
            if len64 == 0 {
                Err(BencodeError::InvalidBytesLength)
            } else if len64 > remaining as u64 {
                Err(BencodeError::InvalidBytesLength)
            } else {
                let content_len = len64 as usize;
                Ok((dend + 1, dend + 1 + content_len))
            }
        },
    }
}

/// Decodes one value by first-byte dispatch at `pos`, exactly as
/// [`spec_parse_value`] prescribes: a digit starts a byte string, `i`
/// an integer, `l` a list, `d` a dictionary, and anything else
/// (including end of input) matches no value. The chosen decoder is
/// committed to: its content errors are not retried as another kind.
fn value_at<'a>(input: &'a [u8], pos: usize, depth: usize) -> (r: Result<
    (Value<'a>, usize),
    BencodeError,
>)
    requires
        pos <= input@.len(),
    ensures
        match r {
            Ok((v, end)) => spec_parse_value(input@, pos as int, depth as nat) == Ok::<
                (SpecValue, int),
                BencodeError,
            >((view_value(v), end as int)) && pos < end <= input@.len(),
            Err(e) => spec_parse_value(input@, pos as int, depth as nat) == Err::<
                (SpecValue, int),
                BencodeError,
            >(e),
        },
    decreases input@.len() - pos, 1int,
{
    let n = input.len();
    if pos >= n {
        return Err(BencodeError::StructuralMismatch);
    }
    let b = *vstd::slice::slice_index_get(input, pos);
    if 48 <= b && b <= 57 {
        match bstr_at(input, pos) {
            Ok((content_start, end)) => {
                let data = vstd::slice::slice_subrange(input, content_start, end);
                Ok((Value::Bytes(data), end))
            },
            Err(e) => Err(e),
        }
    } else if b == 105 {
        match int_at(input, pos) {
            Ok((v, end)) => Ok((Value::Integer(v), end)),
            Err(e) => Err(e),
        }
    } else if b == 108 {
        if depth == 0 {
            return Err(BencodeError::DepthExceeded);
        }
        match items_at(input, pos + 1, depth - 1) {
            Ok((items, end)) => Ok((Value::List(items), end)),
            Err(e) => Err(e),
        }
    } else if b == 100 {
        if depth == 0 {
            return Err(BencodeError::DepthExceeded);
        }
        match pairs_at(input, pos + 1, depth - 1) {
            Ok((pairs, end)) => Ok((Value::Dictionary(pairs), end)),
            Err(e) => Err(e),
        }
    } else {
        Err(BencodeError::StructuralMismatch)
    }
}

/// Decodes a list body from `pos`: values until the `e` terminator,
/// exactly as [`spec_parse_items`] prescribes.
fn items_at<'a>(input: &'a [u8], pos: usize, depth: usize) -> (r: Result<
    (Vec<Value<'a>>, usize),
    BencodeError,
>)
    requires
        pos <= input@.len(),
    ensures
        match r {
            Ok((items, end)) => spec_parse_items(input@, pos as int, depth as nat) == Ok::<
                (Seq<SpecValue>, int),
                BencodeError,
            >((view_values(items@), end as int)) && pos < end <= input@.len(),
            Err(e) => spec_parse_items(input@, pos as int, depth as nat) == Err::<
                (Seq<SpecValue>, int),
                BencodeError,
            >(e),
        },
    decreases input@.len() - pos, 2int,
{
    let ghost s = input@;
    let ghost d = depth as nat;
    let n = input.len();
    let mut cur = pos;
    let mut items: Vec<Value<'a>> = Vec::new();
    proof {
        lemma_prepend_run_empty(spec_parse_items(s, pos as int, d));
        assert(view_values(items@) =~= Seq::<SpecValue>::empty());
    }
    while cur < n
        invariant
            pos <= cur <= n,
            n == s.len(),
            s == input@,
            d == depth as nat,
            spec_parse_items(s, pos as int, d) == prepend_run(
                view_values(items@),
                spec_parse_items(s, cur as int, d),
            ),
        decreases n - cur,
    {
        let b = *vstd::slice::slice_index_get(input, cur);
        if b == 101 {
            proof {
                assert(spec_parse_items(s, cur as int, d) == Ok::<
                    (Seq<SpecValue>, int),
                    BencodeError,
                >((Seq::<SpecValue>::empty(), cur + 1)));
                assert(view_values(items@) + Seq::<SpecValue>::empty() =~= view_values(items@));
            }
            return Ok((items, cur + 1));
        }
        match value_at(input, cur, depth) {
            Ok((v, vend)) => {
                proof {
                    assert(step_within(s, cur as int, vend as int) == vend as int);
                    lemma_prepend_run_assoc(
                        view_values(items@),
                        seq![view_value(v)],
                        spec_parse_items(s, vend as int, d),
                    );
                    lemma_view_values_push(items@, v);
                    assert(view_values(items@) + seq![view_value(v)] =~= view_values(items@).push(
                        view_value(v),
                    ));
                }
                items.push(v);
                cur = vend;
            },
            Err(e) => {
                return Err(e);
            },
        }
    }
    Err(BencodeError::UnterminatedComposite)
}

/// Decodes a dictionary body from `pos`: byte-string keys, each
/// followed by one dispatched value, until the `e` terminator, exactly
/// as [`spec_parse_pairs`] prescribes. Keys are only ever decoded by
/// the byte-string rule; pairs are kept in encounter order.
fn pairs_at<'a>(input: &'a [u8], pos: usize, depth: usize) -> (r: Result<
    (Vec<(&'a [u8], Value<'a>)>, usize),
    BencodeError,
>)
    requires
        pos <= input@.len(),
    ensures
        match r {
            Ok((pairs, end)) => spec_parse_pairs(input@, pos as int, depth as nat) == Ok::<
                (Seq<(Seq<u8>, SpecValue)>, int),
                BencodeError,
            >((view_pairs(pairs@), end as int)) && pos < end <= input@.len(),
            Err(e) => spec_parse_pairs(input@, pos as int, depth as nat) == Err::<
                (Seq<(Seq<u8>, SpecValue)>, int),
                BencodeError,
            >(e),
        },
    decreases input@.len() - pos, 2int,
{
    let ghost s = input@;
    let ghost d = depth as nat;
    let n = input.len();
    let mut cur = pos;
    let mut pairs: Vec<(&'a [u8], Value<'a>)> = Vec::new();
    proof {
        lemma_prepend_run_empty(spec_parse_pairs(s, pos as int, d));
        assert(view_pairs(pairs@) =~= Seq::<(Seq<u8>, SpecValue)>::empty());
    }
    while cur < n
        invariant
            pos <= cur <= n,
            n == s.len(),
            s == input@,
            d == depth as nat,
            spec_parse_pairs(s, pos as int, d) == prepend_run(
                view_pairs(pairs@),
                spec_parse_pairs(s, cur as int, d),
            ),
        decreases n - cur,
    {
        let b = *vstd::slice::slice_index_get(input, cur);
        if b == 101 {
            proof {
                assert(spec_parse_pairs(s, cur as int, d) == Ok::<
                    (Seq<(Seq<u8>, SpecValue)>, int),
                    BencodeError,
                >((Seq::<(Seq<u8>, SpecValue)>::empty(), cur + 1)));
                assert(view_pairs(pairs@) + Seq::<(Seq<u8>, SpecValue)>::empty() =~= view_pairs(
                    pairs@,
                ));
            }
            return Ok((pairs, cur + 1));
        }
        match bstr_at(input, cur) {
            Ok((content_start, kend)) => {
                let key = vstd::slice::slice_subrange(input, content_start, kend);
                proof {
                    assert(step_within(s, cur as int, kend as int) == kend as int);
                }
                match value_at(input, kend, depth) {
                    Ok((v, vend)) => {
                        proof {
                            assert(step_within(s, kend as int, vend as int) == vend as int);
                            lemma_prepend_run_assoc(
                                view_pairs(pairs@),
                                seq![(key@, view_value(v))],
                                spec_parse_pairs(s, vend as int, d),
                            );
                            lemma_view_pairs_push(pairs@, key, v);
                            assert(view_pairs(pairs@) + seq![(key@, view_value(v))] =~= view_pairs(
                                pairs@,
                            ).push((key@, view_value(v))));
                        }
                        pairs.push((key, v));
                        cur = vend;
                    },
                    Err(e) => {
                        return Err(e);
                    },
                }
            },
            Err(e) => {
                return Err(e);
            },
        }
    }
    Err(BencodeError::UnterminatedComposite)
}

/// Decodes the whole of `source` as a run of top-level values.
///
/// Succeeds exactly when the buffer is a well-formed concatenation of
/// values (nested within [`MAX_DEPTH`]), yielding them in encounter
/// order with the entire buffer consumed; an empty buffer yields an
/// empty run. Otherwise fails with the error of the first offending
/// value — trailing garbage included — and yields no partial result.
/// Decoded byte strings borrow from `source` without copying.
pub fn parse<'a>(source: &'a [u8]) -> (r: Result<Vec<Value<'a>>, BencodeError>)
    ensures
        match r {
            Ok(items) => spec_parse(source@) == Ok::<Seq<SpecValue>, BencodeError>(
                view_values(items@),
            ),
            Err(e) => spec_parse(source@) == Err::<Seq<SpecValue>, BencodeError>(e),
        },
{
    let ghost s = source@;
    let ghost d = MAX_DEPTH as nat;
    let n = source.len();
    let mut cur: usize = 0;
    let mut items: Vec<Value<'a>> = Vec::new();
    proof {
        lemma_prepend_top_empty(spec_parse_top(s, 0, d));
        assert(view_values(items@) =~= Seq::<SpecValue>::empty());
    }
    while cur < n
        invariant
            cur <= n,
            n == s.len(),
            s == source@,
            d == MAX_DEPTH as nat,
            spec_parse_top(s, 0, d) == prepend_top(
                view_values(items@),
                spec_parse_top(s, cur as int, d),
            ),
        decreases n - cur,
    {
        match value_at(source, cur, MAX_DEPTH) {
            Ok((v, vend)) => {
                proof {
                    assert(step_within(s, cur as int, vend as int) == vend as int);
                    lemma_prepend_top_assoc(
                        view_values(items@),
                        seq![view_value(v)],
                        spec_parse_top(s, vend as int, d),
                    );
                    lemma_view_values_push(items@, v);
                    assert(view_values(items@) + seq![view_value(v)] =~= view_values(items@).push(
                        view_value(v),
                    ));
                }
                items.push(v);
                cur = vend;
            },
            Err(e) => {
                return Err(e);
            },
        }
    }
    proof {
        assert(spec_parse_top(s, cur as int, d) == Ok::<Seq<SpecValue>, BencodeError>(
            Seq::<SpecValue>::empty(),
        ));
        assert(view_values(items@) + Seq::<SpecValue>::empty() =~= view_values(items@));
    }
    Ok(items)
}

impl<'a> Value<'a> {
    /// Decodes one byte string from the front of `start_inp`, returning
    /// the unconsumed remainder alongside the value. The `Bytes` leaf
    /// borrows the declared content from `start_inp` without copying.
    pub fn parse_bytes(start_inp: &'a [u8]) -> (r: Result<(&'a [u8], Value<'a>), BencodeError>)
        ensures
            match r {
                Ok((rest, v)) => spec_parse_bstr(start_inp@, 0) matches Ok((content_start, end))
                    && view_value(v) == SpecValue::Bytes(start_inp@.subrange(content_start, end))
                    && rest@ == start_inp@.skip(end),
                Err(e) => spec_parse_bstr(start_inp@, 0) == Err::<(int, int), BencodeError>(e),
            },
    {
        match bstr_at(start_inp, 0) {
            Ok((content_start, end)) => {
                let data = vstd::slice::slice_subrange(start_inp, content_start, end);
                let rest = vstd::slice::slice_subrange(start_inp, end, start_inp.len());
                proof {
                    assert(rest@ =~= start_inp@.skip(end as int));
                }
                Ok((rest, Value::Bytes(data)))
            },
            Err(e) => Err(e),
        }
    }

    /// Decodes one integer from the front of `start_inp`, returning the
    /// unconsumed remainder alongside the value.
    pub fn parse_integer(start_inp: &'a [u8]) -> (r: Result<(&'a [u8], Value<'a>), BencodeError>)
        ensures
            match r {
                Ok((rest, v)) => spec_parse_int(start_inp@, 0) matches Ok((n, end)) && view_value(v)
                    == SpecValue::Integer(n) && rest@ == start_inp@.skip(end),
                Err(e) => spec_parse_int(start_inp@, 0) == Err::<(int, int), BencodeError>(e),
            },
    {
        match int_at(start_inp, 0) {
            Ok((v, end)) => {
                let rest = vstd::slice::slice_subrange(start_inp, end, start_inp.len());
                proof {
                    assert(rest@ =~= start_inp@.skip(end as int));
                }
                Ok((rest, Value::Integer(v)))
            },
            Err(e) => Err(e),
        }
    }

    /// Decodes one list from the front of `start_inp`, returning the
    /// unconsumed remainder alongside the value.
    pub fn parse_list(start_inp: &'a [u8]) -> (r: Result<(&'a [u8], Value<'a>), BencodeError>)
        ensures
            match r {
                Ok((rest, v)) => spec_parse_list(start_inp@) matches Ok((sv, end)) && view_value(v)
                    == sv && rest@ == start_inp@.skip(end),
                Err(e) => spec_parse_list(start_inp@) == Err::<(SpecValue, int), BencodeError>(e),
            },
    {
        if start_inp.len() > 0 && *vstd::slice::slice_index_get(start_inp, 0) == 108 {
            match value_at(start_inp, 0, MAX_DEPTH) {
                Ok((v, end)) => {
                    let rest = vstd::slice::slice_subrange(start_inp, end, start_inp.len());
                    proof {
                        assert(rest@ =~= start_inp@.skip(end as int));
                    }
                    Ok((rest, v))
                },
                Err(e) => Err(e),
            }
        } else {
            Err(BencodeError::StructuralMismatch)
        }
    }

    /// Decodes one dictionary from the front of `start_inp`, returning
    /// the unconsumed remainder alongside the value. On a repeated key,
    /// the later pair wins at lookup time; see [`Value::get`].
    pub fn parse_dict(start_inp: &'a [u8]) -> (r: Result<(&'a [u8], Value<'a>), BencodeError>)
        ensures
            match r {
                Ok((rest, v)) => spec_parse_dict(start_inp@) matches Ok((sv, end)) && view_value(v)
                    == sv && rest@ == start_inp@.skip(end),
                Err(e) => spec_parse_dict(start_inp@) == Err::<(SpecValue, int), BencodeError>(e),
            },
    {
        if start_inp.len() > 0 && *vstd::slice::slice_index_get(start_inp, 0) == 100 {
            match value_at(start_inp, 0, MAX_DEPTH) {
                Ok((v, end)) => {
                    let rest = vstd::slice::slice_subrange(start_inp, end, start_inp.len());
                    proof {
                        assert(rest@ =~= start_inp@.skip(end as int));
                    }
                    Ok((rest, v))
                },
                Err(e) => Err(e),
            }
        } else {
            Err(BencodeError::StructuralMismatch)
        }
    }
}

} // verus!
