//! The tree produced by a successful parse, and its mathematical model.
//!
//! A document parses to a [`Value`]: a tagged union over null, booleans,
//! strings, numbers, arrays and objects.  Numbers are kept as a tagged
//! integer union ([`NumberValue`]): unsigned magnitudes parse to `UInt`,
//! negative numbers to `Int`.  Objects are kept as a vector of key/value
//! pairs in first-occurrence order with unique keys; a repeated key in a
//! document overwrites the earlier value (last write wins).
//!
//! Contracts speak about values through [`SpecValue`], the spec-level
//! model reached by `deep_view()`: strings become `Seq<char>`, arrays
//! become `Seq<SpecValue>`, objects become a sequence of key/value pairs.

use vstd::prelude::*;

verus! {

broadcast use vstd::seq::group_seq_axioms;

/// Numeric payload of a JSON number: a tagged integer union.
///
/// Unsigned magnitudes are `UInt`, negative numbers are `Int`.
#[derive(Debug, Clone, Copy, PartialEq, Eq)]
pub enum NumberValue {
    /// A negative number, parsed from a leading `-` and digits.
    Int(i64),
    /// A non-negative number, parsed from digits alone.
    UInt(u64),
}

/// Representation of a JSON value.
#[derive(Debug, PartialEq)]
pub enum Value {
    /// literal characters `null`
    Null,
    /// literal characters `true` or `false`
    Boolean(bool),
    /// characters within double quotes "..."
    String(String),
    /// numbers stored as a tagged integer union
    Number(NumberValue),
    /// Zero to many JSON values
    Array(Vec<Value>),
    /// String keys with JSON values, unique keys, first-occurrence order
    Object(Vec<(String, Value)>),
}

/// Spec-level model of a [`Value`].
#[verifier::ext_equal]
pub enum SpecValue {
    Null,
    Boolean(bool),
    String(Seq<char>),
    Number(NumberValue),
    Array(Seq<SpecValue>),
    Object(Seq<(Seq<char>, SpecValue)>),
}

impl DeepView for Value {
    type V = SpecValue;

    open spec fn deep_view(&self) -> SpecValue
        decreases self,
    {
        match self {
            Value::Null => SpecValue::Null,
            Value::Boolean(b) => SpecValue::Boolean(*b),
            Value::String(s) => SpecValue::String(s@),
            Value::Number(n) => SpecValue::Number(*n),
            Value::Array(items) => SpecValue::Array(spec_seq_view(items@)),
            Value::Object(pairs) => SpecValue::Object(spec_pairs_view(pairs@)),
        }
    }
}

/// The models of the elements of an array, in order.
pub open spec fn spec_seq_view(items: Seq<Value>) -> Seq<SpecValue>
    decreases items,
{
    if items.len() == 0 {
        Seq::empty()
    } else {
        seq![items[0].deep_view()] + spec_seq_view(items.subrange(1, items.len() as int))
    }
}

/// The models of the key/value pairs of an object, in order.
pub open spec fn spec_pairs_view(pairs: Seq<(String, Value)>) -> Seq<(Seq<char>, SpecValue)>
    decreases pairs,
{
    if pairs.len() == 0 {
        Seq::empty()
    } else {
        seq![(pairs[0].0@, pairs[0].1.deep_view())] + spec_pairs_view(
            pairs.subrange(1, pairs.len() as int),
        )
    }
}

/// `spec_seq_view` maps the sequence elementwise, so it agrees with the
/// elementwise `deep_view` of a vector of values.
pub proof fn lemma_seq_view_elems(items: Seq<Value>)
    ensures
        spec_seq_view(items).len() == items.len(),
        forall|k: int|
            0 <= k < items.len() ==> spec_seq_view(items)[k] == items[k].deep_view(),
    decreases items.len(),
{
    if items.len() > 0 {
        let tail = items.subrange(1, items.len() as int);
        lemma_seq_view_elems(tail);
        assert(spec_seq_view(items) == seq![items[0].deep_view()] + spec_seq_view(tail));
        assert forall|k: int| 0 <= k < items.len() implies spec_seq_view(items)[k]
            == items[k].deep_view() by {
            if k == 0 {
                assert(spec_seq_view(items)[0] == items[0].deep_view());
            } else {
                assert(spec_seq_view(items)[k] == spec_seq_view(tail)[k - 1]);
                assert(tail[k - 1] == items[k]);
            }
        }
    }
}

/// `spec_pairs_view` maps the sequence elementwise, so it agrees with the
/// elementwise `deep_view` of a vector of key/value pairs.
pub proof fn lemma_pairs_view_elems(pairs: Seq<(String, Value)>)
    ensures
        spec_pairs_view(pairs).len() == pairs.len(),
        forall|k: int|
            0 <= k < pairs.len() ==> spec_pairs_view(pairs)[k] == (
                pairs[k].0@,
                pairs[k].1.deep_view(),
            ),
    decreases pairs.len(),
{
    if pairs.len() > 0 {
        let tail = pairs.subrange(1, pairs.len() as int);
        lemma_pairs_view_elems(tail);
        assert(spec_pairs_view(pairs) == seq![(pairs[0].0@, pairs[0].1.deep_view())]
            + spec_pairs_view(tail));
        assert forall|k: int| 0 <= k < pairs.len() implies spec_pairs_view(pairs)[k] == (
            pairs[k].0@,
            pairs[k].1.deep_view(),
        ) by {
            if k == 0 {
                assert(spec_pairs_view(pairs)[0] == (pairs[0].0@, pairs[0].1.deep_view()));
            } else {
                assert(spec_pairs_view(pairs)[k] == spec_pairs_view(tail)[k - 1]);
                assert(tail[k - 1] == pairs[k]);
            }
        }
    }
}

/// For a vector of values the two ways of taking the model coincide.
pub proof fn lemma_vec_deep_view(v: Vec<Value>)
    ensures
        v.deep_view() == spec_seq_view(v@),
{
    lemma_seq_view_elems(v@);
    assert(v.deep_view() =~= spec_seq_view(v@));
}

/// For a vector of pairs the two ways of taking the model coincide.
pub proof fn lemma_pairs_deep_view(v: Vec<(String, Value)>)
    ensures
        v.deep_view() == spec_pairs_view(v@),
{
    lemma_pairs_view_elems(v@);
    assert(v.deep_view() =~= spec_pairs_view(v@));
}

/// True when no two pairs share a key.
pub open spec fn spec_obj_keys_unique(pairs: Seq<(Seq<char>, SpecValue)>) -> bool {
    forall|p: int, q: int|
        0 <= p < q < pairs.len() ==> pairs[p].0 != pairs[q].0
}

/// The value bound to `key`, taken from the first pair that carries it.
pub open spec fn spec_obj_lookup(pairs: Seq<(Seq<char>, SpecValue)>, key: Seq<char>) -> Option<
    SpecValue,
>
    decreases pairs.len(),
{
    if pairs.len() == 0 {
        None
    } else if pairs[0].0 == key {
        Some(pairs[0].1)
    } else {
        spec_obj_lookup(pairs.drop_first(), key)
    }
}

/// Well-formedness of a value tree: every object in it, at any depth,
/// has unique keys.
pub open spec fn spec_value_wf(v: SpecValue) -> bool
    decreases v,
{
    match v {
        SpecValue::Null => true,
        SpecValue::Boolean(_) => true,
        SpecValue::String(_) => true,
        SpecValue::Number(_) => true,
        SpecValue::Array(items) => forall|k: int|
            0 <= k < items.len() ==> spec_value_wf(#[trigger] items[k]),
        SpecValue::Object(pairs) => spec_obj_keys_unique(pairs) && forall|k: int|
            0 <= k < pairs.len() ==> spec_value_wf((#[trigger] pairs[k]).1),
    }
}

/// Every pair of the insertion's result is the inserted pair or one of
/// the old ones.
pub proof fn lemma_obj_insert_elems(
    pairs: Seq<(Seq<char>, SpecValue)>,
    key: Seq<char>,
    value: SpecValue,
)
    ensures
        forall|p: int|
            0 <= p < spec_obj_insert(pairs, key, value).len() ==> (#[trigger] spec_obj_insert(
                pairs,
                key,
                value,
            )[p] == (key, value) || exists|q: int|
                0 <= q < pairs.len() && pairs[q] == spec_obj_insert(pairs, key, value)[p]),
    decreases pairs.len(),
{
    let out = spec_obj_insert(pairs, key, value);
    if pairs.len() == 0 {
    } else if pairs[0].0 == key {
        assert forall|p: int| 0 <= p < out.len() implies (#[trigger] out[p] == (key, value)
            || exists|q: int| 0 <= q < pairs.len() && pairs[q] == out[p]) by {
            if p > 0 {
                assert(pairs[p] == out[p]);
            }
        }
    } else {
        lemma_obj_insert_elems(pairs.drop_first(), key, value);
        let rest = spec_obj_insert(pairs.drop_first(), key, value);
        assert(out.drop_first() =~= rest);
        assert forall|p: int| 0 <= p < out.len() implies (#[trigger] out[p] == (key, value)
            || exists|q: int| 0 <= q < pairs.len() && pairs[q] == out[p]) by {
            if p == 0 {
                assert(pairs[0] == out[0]);
            } else {
                assert(out[p] == rest[p - 1]);
                if rest[p - 1] != (key, value) {
                    let q = choose|q: int|
                        0 <= q < pairs.drop_first().len() && pairs.drop_first()[q] == rest[p - 1];
                    assert(pairs[q + 1] == out[p]);
                }
            }
        }
    }
}

/// Binding a key that is already present overwrites its value in place;
/// a new key is appended at the end.
pub open spec fn spec_obj_insert(
    pairs: Seq<(Seq<char>, SpecValue)>,
    key: Seq<char>,
    value: SpecValue,
) -> Seq<(Seq<char>, SpecValue)>
    decreases pairs.len(),
{
    if pairs.len() == 0 {
        seq![(key, value)]
    } else if pairs[0].0 == key {
        seq![(key, value)] + pairs.drop_first()
    } else {
        seq![pairs[0]] + spec_obj_insert(pairs.drop_first(), key, value)
    }
}

/// Last write wins: after inserting `(key, value)`, looking `key` up
/// yields `value`, and every other key keeps its previous binding.
pub proof fn lemma_obj_insert_last_write_wins(
    pairs: Seq<(Seq<char>, SpecValue)>,
    key: Seq<char>,
    value: SpecValue,
)
    ensures
        spec_obj_lookup(spec_obj_insert(pairs, key, value), key) == Some(value),
        forall|other: Seq<char>|
            other != key ==> spec_obj_lookup(spec_obj_insert(pairs, key, value), other)
                == spec_obj_lookup(pairs, other),
    decreases pairs.len(),
{
    let out = spec_obj_insert(pairs, key, value);
    if pairs.len() == 0 {
        assert(out[0] == (key, value));
        assert forall|other: Seq<char>| other != key implies spec_obj_lookup(out, other)
            == spec_obj_lookup(pairs, other) by {
            assert(out.drop_first() =~= Seq::<(Seq<char>, SpecValue)>::empty());
            assert(spec_obj_lookup(out, other) == spec_obj_lookup(out.drop_first(), other));
            assert(spec_obj_lookup(out.drop_first(), other) == None::<SpecValue>);
            assert(spec_obj_lookup(pairs, other) == None::<SpecValue>);
        }
    } else if pairs[0].0 == key {
        assert(out[0] == (key, value));
        assert(out.drop_first() =~= pairs.drop_first());
        assert forall|other: Seq<char>| other != key implies spec_obj_lookup(out, other)
            == spec_obj_lookup(pairs, other) by {
            assert(spec_obj_lookup(out, other) == spec_obj_lookup(out.drop_first(), other));
            assert(spec_obj_lookup(pairs, other) == spec_obj_lookup(pairs.drop_first(), other));
        }
    } else {
        lemma_obj_insert_last_write_wins(pairs.drop_first(), key, value);
        assert(out[0] == pairs[0]);
        assert(out.drop_first() =~= spec_obj_insert(pairs.drop_first(), key, value));
        assert(spec_obj_lookup(out, key) == spec_obj_lookup(out.drop_first(), key));
        assert forall|other: Seq<char>| other != key implies spec_obj_lookup(out, other)
            == spec_obj_lookup(pairs, other) by {
            if pairs[0].0 != other {
                assert(spec_obj_lookup(out, other) == spec_obj_lookup(out.drop_first(), other));
                assert(spec_obj_lookup(pairs, other) == spec_obj_lookup(
                    pairs.drop_first(),
                    other,
                ));
            }
        }
    }
}

/// Inserting never introduces a duplicate key.
pub proof fn lemma_obj_insert_preserves_unique(
    pairs: Seq<(Seq<char>, SpecValue)>,
    key: Seq<char>,
    value: SpecValue,
)
    requires
        spec_obj_keys_unique(pairs),
    ensures
        spec_obj_keys_unique(spec_obj_insert(pairs, key, value)),
        spec_obj_insert(pairs, key, value).len() >= 1,
        spec_obj_insert(pairs, key, value).len() <= pairs.len() + 1,
        forall|p: int|
            0 <= p < spec_obj_insert(pairs, key, value).len() ==> (spec_obj_insert(
                pairs,
                key,
                value,
            )[p].0 == key || exists|q: int|
                0 <= q < pairs.len() && pairs[q].0 == #[trigger] spec_obj_insert(
                    pairs,
                    key,
                    value,
                )[p].0),
    decreases pairs.len(),
{
    if pairs.len() == 0 {
    } else if pairs[0].0 == key {
        assert forall|p: int|
            0 <= p < spec_obj_insert(pairs, key, value).len() implies (spec_obj_insert(
            pairs,
            key,
            value,
        )[p].0 == key || exists|q: int|
            0 <= q < pairs.len() && pairs[q].0 == #[trigger] spec_obj_insert(
                pairs,
                key,
                value,
            )[p].0) by {
            if p > 0 {
                assert(spec_obj_insert(pairs, key, value)[p] == pairs[p]);
                assert(pairs[p].0 == pairs[p].0);
            }
        }
    } else {
        lemma_obj_insert_preserves_unique(pairs.drop_first(), key, value);
        let out = spec_obj_insert(pairs, key, value);
        let rest = spec_obj_insert(pairs.drop_first(), key, value);
        assert forall|p: int, q: int| 0 <= p < q < out.len() implies out[p].0 != out[q].0 by {
            if p == 0 {
                assert(out[q] == rest[q - 1]);
                if rest[q - 1].0 == pairs[0].0 {
                    assert(rest[q - 1].0 == key || exists|m: int|
                        0 <= m < pairs.drop_first().len() && pairs.drop_first()[m].0 == rest[q
                            - 1].0);
                    assert(forall|m: int|
                        0 <= m < pairs.drop_first().len() ==> pairs[0].0 != #[trigger] pairs.drop_first()[m].0);
                }
            } else {
                assert(out[p] == rest[p - 1]);
                assert(out[q] == rest[q - 1]);
            }
        }
        assert forall|p: int|
            0 <= p < out.len() implies (out[p].0 == key || exists|q: int|
            0 <= q < pairs.len() && pairs[q].0 == #[trigger] out[p].0) by {
            if p == 0 {
                assert(pairs[0].0 == out[0].0);
            } else {
                assert(out[p] == rest[p - 1]);
                if rest[p - 1].0 != key {
                    let m = choose|m: int|
                        0 <= m < pairs.drop_first().len() && pairs.drop_first()[m].0
                            == rest[p - 1].0;
                    assert(pairs[m + 1].0 == out[p].0);
                }
            }
        }
    }
}

impl Value {
    /// The elements of an array value, or `None` for any other variant.
    pub fn as_array(&self) -> (r: Option<&Vec<Value>>)
        ensures
            r is Some <==> self matches Value::Array(_),
            r matches Some(items) ==> self.deep_view() == SpecValue::Array(items.deep_view()),
    {
        match *self {
            Value::Array(ref array) => {
                proof {
                    lemma_vec_deep_view(*array);
                }
                Some(array)
            },
            _ => None,
        }
    }

    /// True exactly when this value is an array.
    pub fn is_array(&self) -> (r: bool)
        ensures
            r <==> self matches Value::Array(_),
    {
        self.as_array().is_some()
    }

    /// The key/value pairs of an object value, or `None` for any other variant.
    pub fn as_object(&self) -> (r: Option<&Vec<(String, Value)>>)
        ensures
            r is Some <==> self matches Value::Object(_),
            r matches Some(pairs) ==> self.deep_view() == SpecValue::Object(pairs.deep_view()),
    {
        match *self {
            Value::Object(ref object) => {
                proof {
                    lemma_pairs_deep_view(*object);
                }
                Some(object)
            },
            _ => None,
        }
    }

    /// True exactly when this value is an object.
    pub fn is_object(&self) -> (r: bool)
        ensures
            r <==> self matches Value::Object(_),
    {
        self.as_object().is_some()
    }

    /// The text of a string value, or `None` for any other variant.
    pub fn as_string(&self) -> (r: Option<&String>)
        ensures
            r is Some <==> self matches Value::String(_),
            r matches Some(s) ==> self.deep_view() == SpecValue::String(s@),
    {
        match *self {
            Value::String(ref s) => Some(s),
            _ => None,
        }
    }

    /// True exactly when this value is a string.
    pub fn is_string(&self) -> (r: bool)
        ensures
            r <==> self matches Value::String(_),
    {
        self.as_string().is_some()
    }

    /// The payload of a boolean value, or `None` for any other variant.
    pub fn as_boolean(&self) -> (r: Option<bool>)
        ensures
            r == match *self {
                Value::Boolean(b) => Some(b),
                _ => None::<bool>,
            },
    {
        match *self {
            Value::Boolean(b) => Some(b),
            _ => None,
        }
    }

    /// True exactly when this value is a boolean.
    pub fn is_boolean(&self) -> (r: bool)
        ensures
            r <==> self matches Value::Boolean(_),
    {
        self.as_boolean().is_some()
    }

    /// `Some(())` for the null value, `None` for any other variant.
    pub fn as_null(&self) -> (r: Option<()>)
        ensures
            r is Some <==> self matches Value::Null,
    {
        match *self {
            Value::Null => Some(()),
            _ => None,
        }
    }

    /// True exactly when this value is null.
    pub fn is_null(&self) -> (r: bool)
        ensures
            r <==> self matches Value::Null,
    {
        self.as_null().is_some()
    }

    /// Moves this value out, leaving `Value::Null` in its place.
    pub fn take(&mut self) -> (r: Value)
        ensures
            r == *old(self),
            *final(self) == Value::Null,
    {
        let mut out = Value::Null;
        core::mem::swap(&mut out, self);
        out
    }
}

} // verus!
