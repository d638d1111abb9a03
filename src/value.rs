use vstd::prelude::*;
use vstd::string::StringSliceAdditionalSpecFns;

verus! {

/// Mathematical model of a bencoded value.
pub enum Value {
    Bytes(Seq<u8>),
    Int(i64),
    List(Seq<Value>),
    Dict(Seq<(Seq<u8>, Value)>),
}

/// A bencoded value: a byte string, a 64-bit signed integer, a list, or a
/// dictionary from byte-string keys to values.
///
/// A decoded dictionary holds its entries in strictly increasing key order.
/// A dictionary built by hand may hold them in any order; the encoder puts
/// the keys in order when it writes them. Two values are equal when their
/// encodings are, so dictionaries compare as mappings from keys to values,
/// whatever order their entries are held in.
#[derive(Debug, Eq)]
pub enum Benc {
    String(Vec<u8>),
    Int(i64),
    List(Vec<Benc>),
    Dict(Vec<(Vec<u8>, Benc)>),
}

/// The model of a value.
pub open spec fn value_of(b: Benc) -> Value
    decreases b,
{
    match b {
        Benc::String(s) => Value::Bytes(s@),
        Benc::Int(n) => Value::Int(n),
        Benc::List(items) => Value::List(values_of(items@)),
        Benc::Dict(entries) => Value::Dict(entries_of(entries@)),
    }
}

/// The models of a sequence of values.
pub open spec fn values_of(s: Seq<Benc>) -> Seq<Value>
    decreases s,
{
    if s.len() == 0 {
        Seq::empty()
    } else {
        values_of(s.subrange(0, s.len() - 1)).push(value_of(s[s.len() - 1]))
    }
}

/// The models of a dictionary's entries: each key's bytes with its value's
/// model.
pub open spec fn entries_of(s: Seq<(Vec<u8>, Benc)>) -> Seq<(Seq<u8>, Value)>
    decreases s,
{
    if s.len() == 0 {
        Seq::empty()
    } else {
        entries_of(s.subrange(0, s.len() - 1)).push(
            (s[s.len() - 1].0@, value_of(s[s.len() - 1].1)),
        )
    }
}

pub proof fn lemma_values_of_push(s: Seq<Benc>, b: Benc)
    ensures
        values_of(s.push(b)) == values_of(s).push(value_of(b)),
{
    assert(s.push(b).subrange(0, s.len() as int) =~= s);
}

pub proof fn lemma_entries_of_push(s: Seq<(Vec<u8>, Benc)>, e: (Vec<u8>, Benc))
    ensures
        entries_of(s.push(e)) == entries_of(s).push((e.0@, value_of(e.1))),
{
    assert(s.push(e).subrange(0, s.len() as int) =~= s);
}

/// `values_of` maps each element to its model.
pub proof fn lemma_values_of_index(s: Seq<Benc>)
    ensures
        values_of(s).len() == s.len(),
        forall|i: int| 0 <= i < s.len() ==> #[trigger] values_of(s)[i] == value_of(s[i]),
    decreases s.len(),
{
    if s.len() > 0 {
        let t = s.subrange(0, s.len() - 1);
        lemma_values_of_index(t);
        assert forall|i: int| 0 <= i < s.len() implies #[trigger] values_of(s)[i] == value_of(
            s[i],
        ) by {
            if i < s.len() - 1 {
                assert(values_of(t)[i] == value_of(t[i]));
            }
        }
    }
}

/// `entries_of` maps each entry to its key's bytes and its value's model.
pub proof fn lemma_entries_of_index(s: Seq<(Vec<u8>, Benc)>)
    ensures
        entries_of(s).len() == s.len(),
        forall|i: int|
            0 <= i < s.len() ==> #[trigger] entries_of(s)[i] == (s[i].0@, value_of(s[i].1)),
    decreases s.len(),
{
    if s.len() > 0 {
        let t = s.subrange(0, s.len() - 1);
        lemma_entries_of_index(t);
        assert forall|i: int| 0 <= i < s.len() implies #[trigger] entries_of(s)[i] == (
            s[i].0@,
            value_of(s[i].1),
        ) by {
            if i < s.len() - 1 {
                assert(entries_of(t)[i] == (t[i].0@, value_of(t[i].1)));
            }
        }
    }
}

impl View for Benc {
    type V = Value;

    open spec fn view(&self) -> Value {
        value_of(*self)
    }
}

impl Benc {
    /// The byte string of the UTF-8 encoding of `s`.
    pub fn from_text(s: &str) -> (r: Benc)
        ensures
            r@ == Value::Bytes(s.spec_bytes()),
    {
        Benc::String(vstd::slice::slice_to_vec(s.as_bytes()))
    }
}

impl From<Vec<u8>> for Benc {
    fn from(b: Vec<u8>) -> Benc {
        Benc::String(b)
    }
}

impl vstd::std_specs::convert::FromSpecImpl<Vec<u8>> for Benc {
    open spec fn obeys_from_spec() -> bool {
        true
    }

    open spec fn from_spec(b: Vec<u8>) -> Benc {
        Benc::String(b)
    }
}

impl From<i64> for Benc {
    fn from(n: i64) -> Benc {
        Benc::Int(n)
    }
}

impl vstd::std_specs::convert::FromSpecImpl<i64> for Benc {
    open spec fn obeys_from_spec() -> bool {
        true
    }

    open spec fn from_spec(n: i64) -> Benc {
        Benc::Int(n)
    }
}

impl From<Vec<Benc>> for Benc {
    fn from(items: Vec<Benc>) -> Benc {
        Benc::List(items)
    }
}

impl vstd::std_specs::convert::FromSpecImpl<Vec<Benc>> for Benc {
    open spec fn obeys_from_spec() -> bool {
        true
    }

    open spec fn from_spec(items: Vec<Benc>) -> Benc {
        Benc::List(items)
    }
}

impl From<Vec<(Vec<u8>, Benc)>> for Benc {
    fn from(entries: Vec<(Vec<u8>, Benc)>) -> Benc {
        Benc::Dict(entries)
    }
}

impl vstd::std_specs::convert::FromSpecImpl<Vec<(Vec<u8>, Benc)>> for Benc {
    open spec fn obeys_from_spec() -> bool {
        true
    }

    open spec fn from_spec(entries: Vec<(Vec<u8>, Benc)>) -> Benc {
        Benc::Dict(entries)
    }
}

} // verus!
