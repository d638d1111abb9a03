use vstd::prelude::*;

use crate::grammar::{lex_lt, COLON, DICT_START, END, INT_START, LIST_START, MINUS, ZERO};
use crate::value::Value;

verus! {

/// The decimal digits of `n`, without leading zeros (`0` is written `0`).
pub open spec fn decimal(n: nat) -> Seq<u8>
    decreases n,
{
    if n < 10 {
        seq![(ZERO + n) as u8]
    } else {
        decimal(n / 10).push((ZERO + n % 10) as u8)
    }
}

/// The decimal text of `n`, with a leading `-` where it is negative.
pub open spec fn int_text(n: i64) -> Seq<u8> {
    if n < 0 {
        seq![MINUS] + decimal((-n) as nat)
    } else {
        decimal(n as nat)
    }
}

/// A byte string: its length in decimal, `:`, then its bytes.
pub open spec fn encode_bytes(b: Seq<u8>) -> Seq<u8> {
    decimal(b.len()) + seq![COLON] + b
}

/// The canonical encoding of a value. A dictionary's entries are written in
/// increasing key order, whatever order they are held in.
pub open spec fn encode_value(v: Value) -> Seq<u8>
    decreases v,
{
    match v {
        Value::Bytes(b) => encode_bytes(b),
        Value::Int(n) => seq![INT_START] + int_text(n) + seq![END],
        Value::List(items) => seq![LIST_START] + encodings(items).flatten() + seq![END],
        Value::Dict(entries) => seq![DICT_START] + in_key_order(
            entry_encodings(entries),
            key_order(keys_of(entries), entries.len() as int),
        ).flatten() + seq![END],
    }
}

/// The encoding of each value of `s`.
pub open spec fn encodings(s: Seq<Value>) -> Seq<Seq<u8>>
    decreases s,
{
    if s.len() == 0 {
        Seq::empty()
    } else {
        encodings(s.subrange(0, s.len() - 1)).push(encode_value(s[s.len() - 1]))
    }
}

/// The encoding of each entry of `s`: its key, then its value.
pub open spec fn entry_encodings(s: Seq<(Seq<u8>, Value)>) -> Seq<Seq<u8>>
    decreases s,
{
    if s.len() == 0 {
        Seq::empty()
    } else {
        entry_encodings(s.subrange(0, s.len() - 1)).push(
            encode_bytes(s[s.len() - 1].0) + encode_value(s[s.len() - 1].1),
        )
    }
}

pub open spec fn keys_of(entries: Seq<(Seq<u8>, Value)>) -> Seq<Seq<u8>> {
    entries.map_values(|e: (Seq<u8>, Value)| e.0)
}

/// Where index `k` goes among the indices `ord`, which are in key order:
/// before the first index whose key is greater than `k`'s, looking from `j`.
pub open spec fn insert_pos(keys: Seq<Seq<u8>>, ord: Seq<int>, k: int, j: int) -> int
    decreases ord.len() - j,
{
    if j < 0 || j >= ord.len() {
        ord.len() as int
    } else if lex_lt(keys[k], keys[ord[j]]) {
        j
    } else {
        insert_pos(keys, ord, k, j + 1)
    }
}

/// The indices `0..n` sorted by their keys, those with equal keys kept in
/// index order.
pub open spec fn key_order(keys: Seq<Seq<u8>>, n: int) -> Seq<int>
    decreases n,
{
    if n <= 0 {
        Seq::empty()
    } else {
        let ord = key_order(keys, n - 1);
        ord.insert(insert_pos(keys, ord, n - 1, 0), n - 1)
    }
}

pub open spec fn in_key_order(parts: Seq<Seq<u8>>, ord: Seq<int>) -> Seq<Seq<u8>> {
    ord.map_values(|i: int| parts[i])
}

/// `encodings` maps each value to its encoding.
pub proof fn lemma_encodings_index(s: Seq<Value>)
    ensures
        encodings(s).len() == s.len(),
        forall|i: int| 0 <= i < s.len() ==> #[trigger] encodings(s)[i] == encode_value(s[i]),
    decreases s.len(),
{
    if s.len() > 0 {
        let t = s.subrange(0, s.len() - 1);
        lemma_encodings_index(t);
        assert forall|i: int| 0 <= i < s.len() implies #[trigger] encodings(s)[i]
            == encode_value(s[i]) by {
            if i < s.len() - 1 {
                assert(encodings(t)[i] == encode_value(t[i]));
            }
        }
    }
}

/// `entry_encodings` maps each entry to its encoding.
pub proof fn lemma_entry_encodings_index(s: Seq<(Seq<u8>, Value)>)
    ensures
        entry_encodings(s).len() == s.len(),
        forall|i: int|
            0 <= i < s.len() ==> #[trigger] entry_encodings(s)[i] == encode_bytes(s[i].0)
                + encode_value(s[i].1),
    decreases s.len(),
{
    if s.len() > 0 {
        let t = s.subrange(0, s.len() - 1);
        lemma_entry_encodings_index(t);
        assert forall|i: int| 0 <= i < s.len() implies #[trigger] entry_encodings(s)[i]
            == encode_bytes(s[i].0) + encode_value(s[i].1) by {
            if i < s.len() - 1 {
                assert(entry_encodings(t)[i] == encode_bytes(t[i].0) + encode_value(t[i].1));
            }
        }
    }
}

} // verus!
