//! The decoded value tree.

use vstd::prelude::*;

use crate::grammar::spec_dict_get;
use crate::grammar::SpecValue;

verus! {

/// A decoded bencode value.
///
/// `Bytes` leaves and dictionary keys are borrowed views into the input
/// buffer that was decoded (zero-copy): they live exactly as long as
/// that buffer and are never mutated. Lists keep their elements in
/// encounter order. A dictionary keeps its key/value pairs in encounter
/// order as well; lookup is by exact byte-string key through
/// [`Value::get`], where on a repeated key the later pair silently wins.
/// That duplicate-key policy mirrors the source format's common use and
/// is a deliberate compatibility decision, not an error condition.
#[derive(Debug, PartialEq)]
pub enum Value<'a> {
    /// A byte string: a borrowed slice of raw bytes, never empty, with
    /// no character encoding assumed.
    Bytes(&'a [u8]),
    /// A signed 64-bit integer.
    Integer(i64),
    /// An ordered list of other bencode values.
    List(Vec<Value<'a>>),
    /// A dictionary of byte-string keys and bencode values, as the pairs
    /// appeared in the input.
    Dictionary(Vec<(&'a [u8], Value<'a>)>),
}

/// The abstract value that a decoded [`Value`] stands for.
pub open spec fn view_value(v: Value) -> SpecValue
    decreases v, 0int,
    via view_value_decreases
{
    match v {
        Value::Bytes(data) => SpecValue::Bytes(data@),
        Value::Integer(i) => SpecValue::Integer(i as int),
        Value::List(items) => SpecValue::List(view_values(items@)),
        Value::Dictionary(pairs) => SpecValue::Dictionary(view_pairs(pairs@)),
    }
}

/// The abstract form of a run of decoded values, elementwise.
pub open spec fn view_values(items: Seq<Value>) -> Seq<SpecValue>
    decreases items, 1int,
{
    if items.len() == 0 {
        Seq::empty()
    } else {
        seq![view_value(items[0])] + view_values(items.subrange(1, items.len() as int))
    }
}

/// The abstract form of a run of decoded dictionary pairs, elementwise.
pub open spec fn view_pairs(pairs: Seq<(&[u8], Value)>) -> Seq<(Seq<u8>, SpecValue)>
    decreases pairs, 1int,
    via view_pairs_decreases
{
    if pairs.len() == 0 {
        Seq::empty()
    } else {
        seq![(pairs[0].0@, view_value(pairs[0].1))] + view_pairs(
            pairs.subrange(1, pairs.len() as int),
        )
    }
}

#[via_fn]
proof fn view_value_decreases(v: Value) {
    match v {
        Value::List(items) => {
            assert(decreases_to!(v => items));
            assert(decreases_to!(items => items@));
        },
        Value::Dictionary(pairs) => {
            assert(decreases_to!(v => pairs));
            assert(decreases_to!(pairs => pairs@));
        },
        _ => {},
    }
}

#[via_fn]
proof fn view_pairs_decreases(pairs: Seq<(&[u8], Value)>) {
    if pairs.len() > 0 {
        assert(decreases_to!(pairs => pairs[0]));
        assert(decreases_to!(pairs[0] => pairs[0].1));
    }
}

/// `view_values` maps `view_value` over the run, position by position.
pub proof fn lemma_view_values_index(items: Seq<Value>)
    ensures
        view_values(items).len() == items.len(),
        forall|j: int|
            0 <= j < items.len() ==> view_values(items)[j] == view_value(#[trigger] items[j]),
    decreases items.len(),
{
    if items.len() > 0 {
        let sub = items.subrange(1, items.len() as int);
        lemma_view_values_index(sub);
        assert forall|j: int| 0 <= j < items.len() implies view_values(items)[j] == view_value(
            #[trigger] items[j],
        ) by {
            if j > 0 {
                assert(sub[j - 1] == items[j]);
                assert(view_values(items)[j] == view_values(sub)[j - 1]);
            }
        }
    }
}

/// `view_pairs` maps the pair view over the run, position by position.
pub proof fn lemma_view_pairs_index(pairs: Seq<(&[u8], Value)>)
    ensures
        view_pairs(pairs).len() == pairs.len(),
        forall|j: int|
            0 <= j < pairs.len() ==> view_pairs(pairs)[j] == ((#[trigger] pairs[j]).0@, view_value(
                pairs[j].1,
            )),
    decreases pairs.len(),
{
    if pairs.len() > 0 {
        let sub = pairs.subrange(1, pairs.len() as int);
        lemma_view_pairs_index(sub);
        assert forall|j: int| 0 <= j < pairs.len() implies view_pairs(pairs)[j] == ((
        #[trigger] pairs[j]).0@, view_value(pairs[j].1)) by {
            if j > 0 {
                assert(sub[j - 1] == pairs[j]);
                assert(view_pairs(pairs)[j] == view_pairs(sub)[j - 1]);
            }
        }
    }
}

/// Appending one decoded value appends its abstract form.
pub proof fn lemma_view_values_push(items: Seq<Value>, v: Value)
    ensures
        view_values(items.push(v)) == view_values(items).push(view_value(v)),
{
    let pushed = items.push(v);
    lemma_view_values_index(pushed);
    lemma_view_values_index(items);
    assert forall|j: int| 0 <= j < pushed.len() implies view_values(pushed)[j] == view_values(
        items,
    ).push(view_value(v))[j] by {
        if j < items.len() {
            assert(pushed[j] == items[j]);
        } else {
            assert(pushed[j] == v);
        }
    }
    assert(view_values(pushed) =~= view_values(items).push(view_value(v)));
}

/// Appending one decoded pair appends its abstract form.
pub proof fn lemma_view_pairs_push(pairs: Seq<(&[u8], Value)>, key: &[u8], v: Value)
    ensures
        view_pairs(pairs.push((key, v))) == view_pairs(pairs).push((key@, view_value(v))),
{
    let pushed = pairs.push((key, v));
    lemma_view_pairs_index(pushed);
    lemma_view_pairs_index(pairs);
    assert forall|j: int| 0 <= j < pushed.len() implies view_pairs(pushed)[j] == view_pairs(
        pairs,
    ).push((key@, view_value(v)))[j] by {
        if j < pairs.len() {
            assert(pushed[j] == pairs[j]);
        } else {
            assert(pushed[j] == (key, v));
        }
    }
    assert(view_pairs(pushed) =~= view_pairs(pairs).push((key@, view_value(v))));
}

impl<'a> View for Value<'a> {
    type V = SpecValue;

    open spec fn view(&self) -> SpecValue {
        view_value(*self)
    }
}

/// Exact equality of two byte strings.
fn bytes_eq(a: &[u8], b: &[u8]) -> (r: bool)
    ensures
        r == (a@ == b@),
{
    if a.len() != b.len() {
        return false;
    }
    let n = a.len();
    let mut i: usize = 0;
    while i < n
        invariant
            i <= n,
            n == a@.len(),
            n == b@.len(),
            forall|j: int| 0 <= j < i ==> a@[j] == b@[j],
        decreases n - i,
    {
        if *vstd::slice::slice_index_get(a, i) != *vstd::slice::slice_index_get(b, i) {
            return false;
        }
        i = i + 1;
    }
    proof {
        assert(a@ =~= b@);
    }
    true
}

impl<'a> Value<'a> {
    /// Looks up a dictionary child by its exact byte-string key.
    ///
    /// On a dictionary, returns the value of the last pair carrying
    /// `key` — the later of two equal keys silently wins — or nothing
    /// when the key is absent; never a placeholder value. On any other
    /// value kind there is nothing to look up.
    pub fn get(&self, key: &[u8]) -> (r: Option<&Value<'a>>)
        ensures
            match view_value(*self) {
                SpecValue::Dictionary(entries) => match spec_dict_get(entries, key@) {
                    Some(sv) => r matches Some(v) && view_value(*v) == sv,
                    None => r is None,
                },
                _ => r is None,
            },
    {
        match self {
            Value::Dictionary(pairs) => {
                let ghost entries = view_pairs(pairs@);
                proof {
                    lemma_view_pairs_index(pairs@);
                    assert(entries.take(pairs@.len() as int) =~= entries);
                }
                let mut i = pairs.len();
                while i > 0
                    invariant
                        i <= pairs@.len(),
                        entries == view_pairs(pairs@),
                        *self == Value::Dictionary(*pairs),
                        view_value(*self) == SpecValue::Dictionary(entries),
                        entries.len() == pairs@.len(),
                        forall|j: int|
                            0 <= j < pairs@.len() ==> entries[j] == ((#[trigger] pairs@[j]).0@,
                            view_value(pairs@[j].1)),
                        spec_dict_get(entries, key@) == spec_dict_get(
                            entries.take(i as int),
                            key@,
                        ),
                    decreases i,
                {
                    i = i - 1;
                    let entry = &pairs[i];
                    proof {
                        assert(entries.take(i + 1).last() == entries[i as int]);
                    }
                    if bytes_eq(entry.0, key) {
                        proof {
                            assert(view_value(*self) == SpecValue::Dictionary(entries));
                            assert(entries.take(i + 1).len() == i + 1);
                            assert(entries.take(i + 1).last() == entries[i as int]);
                            assert(entries[i as int].0 == key@);
                            assert(spec_dict_get(entries.take(i + 1), key@) == Some(
                                entries[i as int].1,
                            ));
                            assert(entries[i as int].1 == view_value(pairs@[i as int].1));
                        }
                        return Some(&entry.1);
                    }
                    proof {
                        assert(entries.take(i + 1).drop_last() =~= entries.take(i as int));
                    }
                }
                proof {
                    assert(entries.take(0) =~= Seq::<(Seq<u8>, SpecValue)>::empty());
                }
                None
            },
            _ => None,
        }
    }
}

} // verus!
