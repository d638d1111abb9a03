use vstd::prelude::*;

use crate::decode::{bytes_less, same_bytes};
use crate::encoding::{
    decimal, encode_bytes, encode_value, entry_encodings, in_key_order, insert_pos,
    key_order, keys_of, lemma_encodings_index, lemma_entry_encodings_index, encodings,
};
use crate::grammar::{lex_lt, COLON, DICT_START, END, INT_START, LIST_START, MINUS, ZERO};
use crate::value::{
    entries_of, lemma_entries_of_index, lemma_values_of_index, value_of, values_of, Benc,
};

verus! {

broadcast use vstd::seq_lib::group_seq_properties;

/// Appends the decimal digits of `n`.
fn push_decimal(out: &mut Vec<u8>, n: u64)
    ensures
        final(out)@ == old(out)@ + decimal(n as nat),
    decreases n,
{
    if n >= 10 {
        push_decimal(out, n / 10);
    }
    out.push(ZERO + (n % 10) as u8);
    proof {
        assert(final(out)@ =~= old(out)@ + decimal(n as nat));
    }
}

/// Appends the encoding of the byte string `b`.
fn push_bytes(out: &mut Vec<u8>, b: &Vec<u8>)
    ensures
        final(out)@ == old(out)@ + encode_bytes(b@),
{
    let ghost start = out@;
    push_decimal(out, b.len() as u64);
    out.push(COLON);
    let mut i: usize = 0;
    while i < b.len()
        invariant
            i <= b@.len(),
            out@ == start + decimal(b@.len()) + seq![COLON] + b@.subrange(0, i as int),
        decreases b.len() - i,
    {
        out.push(b[i]);
        i = i + 1;
        proof {
            assert(out@ =~= start + decimal(b@.len()) + seq![COLON] + b@.subrange(0, i as int));
        }
    }
    proof {
        assert(b@.subrange(0, b@.len() as int) =~= b@);
        assert(out@ =~= start + encode_bytes(b@));
    }
}

/// The order in which a dictionary's entries are written: their indices
/// sorted by key, entries with equal keys in the order they are held.
fn key_order_of(entries: &Vec<(Vec<u8>, Benc)>) -> (ord: Vec<usize>)
    ensures
        ord@.map_values(|i: usize| i as int) == key_order(
            keys_of(entries_of(entries@)),
            entries@.len() as int,
        ),
        ord@.len() == entries@.len(),
        forall|j: int| 0 <= j < ord@.len() ==> ord@[j] < entries@.len(),
{
    let ghost keys = keys_of(entries_of(entries@));
    proof {
        lemma_entries_of_index(entries@);
        assert forall|i: int| 0 <= i < entries@.len() implies #[trigger] keys[i]
            == entries@[i].0@ by {
            assert(entries_of(entries@)[i] == (entries@[i].0@, value_of(entries@[i].1)));
        }
    }
    let mut ord: Vec<usize> = Vec::new();
    let mut k: usize = 0;
    while k < entries.len()
        invariant
            k <= entries@.len(),
            keys.len() == entries@.len(),
            forall|i: int| 0 <= i < entries@.len() ==> #[trigger] keys[i] == entries@[i].0@,
            keys == keys_of(entries_of(entries@)),
            ord@.map_values(|i: usize| i as int) == key_order(keys, k as int),
            ord@.len() == k,
            forall|j: int| 0 <= j < ord@.len() ==> ord@[j] < k,
        decreases entries.len() - k,
    {
        let ghost o = ord@.map_values(|i: usize| i as int);
        let mut j: usize = 0;
        loop
            invariant
                j <= ord@.len(),
                k < entries@.len(),
                ord@.len() == k,
                o == ord@.map_values(|i: usize| i as int),
                forall|i: int| 0 <= i < ord@.len() ==> ord@[i] < k,
                forall|i: int| 0 <= i < entries@.len() ==> #[trigger] keys[i] == entries@[i].0@,
                insert_pos(keys, o, k as int, 0) == insert_pos(keys, o, k as int, j as int),
            ensures
                j <= ord@.len(),
                j == ord@.len() || lex_lt(keys[k as int], keys[ord@[j as int] as int]),
            decreases ord@.len() - j,
        {
            if j >= ord.len() {
                break;
            }
            if bytes_less(&entries[k].0, &entries[ord[j]].0) {
                break;
            }
            j = j + 1;
        }
        proof {
            assert(o == key_order(keys, k as int));
            assert(insert_pos(keys, o, k as int, 0) == j);
        }
        ord.insert(j, k);
        proof {
            assert(ord@.map_values(|i: usize| i as int) =~= o.insert(j as int, k as int));
        }
        k = k + 1;
    }
    ord
}

/// Appends the encoding of `b`.
fn encode_into(b: &Benc, out: &mut Vec<u8>)
    ensures
        final(out)@ == old(out)@ + encode_value(b@),
    decreases b,
{
    let ghost start = out@;
    match b {
        Benc::String(s) => {
            push_bytes(out, s);
        },
        Benc::Int(n) => {
            out.push(INT_START);
            if *n < 0 {
                out.push(MINUS);
                push_decimal(out, (0i128 - *n as i128) as u64);
            } else {
                push_decimal(out, *n as u64);
            }
            out.push(END);
            proof {
                assert(out@ =~= start + encode_value(b@));
            }
        },
        Benc::List(items) => {
            let ghost parts = encodings(values_of(items@));
            proof {
                lemma_values_of_index(items@);
                lemma_encodings_index(values_of(items@));
            }
            out.push(LIST_START);
            let mut i: usize = 0;
            while i < items.len()
                invariant
                    *b == Benc::List(*items),
                    i <= items@.len(),
                    parts == encodings(values_of(items@)),
                    parts.len() == items@.len(),
                    forall|j: int| 0 <= j < items@.len() ==> #[trigger] parts[j] == encode_value(
                        items@[j]@,
                    ),
                    out@ == start + seq![LIST_START] + parts.subrange(0, i as int).flatten(),
                decreases items.len() - i,
            {
                proof {
                    assert(decreases_to!(*b => b->List_0));
                    assert(decreases_to!(b->List_0 => b->List_0@));
                    assert(decreases_to!(b->List_0@ => items@[i as int]));
                }
                encode_into(&items[i], out);
                proof {
                    Seq::lemma_flatten_push(parts.subrange(0, i as int), parts[i as int]);
                    assert(parts.subrange(0, i + 1) =~= parts.subrange(0, i as int).push(
                        parts[i as int],
                    ));
                }
                i = i + 1;
            }
            out.push(END);
            proof {
                assert(parts.subrange(0, items@.len() as int) =~= parts);
                assert(out@ =~= start + encode_value(b@));
            }
        },
        Benc::Dict(entries) => {
            let ord = key_order_of(entries);
            let ghost es = entries_of(entries@);
            let ghost ko = key_order(keys_of(es), es.len() as int);
            let ghost parts = in_key_order(entry_encodings(es), ko);
            proof {
                lemma_entries_of_index(entries@);
                lemma_entry_encodings_index(es);
            }
            out.push(DICT_START);
            let mut j: usize = 0;
            while j < ord.len()
                invariant
                    *b == Benc::Dict(*entries),
                    j <= ord@.len(),
                    ord@.len() == entries@.len(),
                    forall|m: int| 0 <= m < ord@.len() ==> ord@[m] < entries@.len(),
                    ko == ord@.map_values(|i: usize| i as int),
                    es == entries_of(entries@),
                    es.len() == entries@.len(),
                    forall|m: int|
                        0 <= m < entries@.len() ==> #[trigger] entry_encodings(es)[m]
                            == encode_bytes(es[m].0) + encode_value(es[m].1),
                    forall|m: int|
                        0 <= m < entries@.len() ==> #[trigger] es[m] == (
                            entries@[m].0@,
                            value_of(entries@[m].1),
                        ),
                    entry_encodings(es).len() == entries@.len(),
                    parts == in_key_order(entry_encodings(es), ko),
                    out@ == start + seq![DICT_START] + parts.subrange(0, j as int).flatten(),
                decreases ord.len() - j,
            {
                let idx = ord[j];
                let ghost before = out@;
                push_bytes(out, &entries[idx].0);
                proof {
                    assert(decreases_to!(*b => b->Dict_0));
                    assert(decreases_to!(b->Dict_0 => b->Dict_0@));
                    assert(decreases_to!(b->Dict_0@ => entries@[idx as int]));
                    assert(decreases_to!(entries@[idx as int] => entries@[idx as int].1));
                }
                encode_into(&entries[idx].1, out);
                proof {
                    Seq::lemma_flatten_push(parts.subrange(0, j as int), parts[j as int]);
                    let m = idx as int;
                    assert(ko[j as int] == m);
                    assert(parts[j as int] == entry_encodings(es)[m]);
                    assert(out@ =~= before + (encode_bytes(es[m].0) + encode_value(es[m].1)));
                    assert(parts.subrange(0, j + 1) =~= parts.subrange(0, j as int).push(
                        parts[j as int],
                    ));
                }
                j = j + 1;
            }
            out.push(END);
            proof {
                assert(parts.subrange(0, ord@.len() as int) =~= parts);
                assert(out@ =~= start + encode_value(b@));
            }
        },
    }
}

impl Benc {
    /// The canonical encoding of this value. Dictionary entries are written
    /// in increasing byte order of their keys.
    pub fn encode(&self) -> (r: Vec<u8>)
        ensures
            r@ == encode_value(self@),
    {
        let mut out: Vec<u8> = Vec::new();
        encode_into(self, &mut out);
        proof {
            assert(out@ =~= encode_value(self@));
        }
        out
    }
}

impl PartialEq for Benc {
    fn eq(&self, other: &Benc) -> (r: bool) {
        same_bytes(&self.encode(), &other.encode())
    }
}

impl vstd::std_specs::cmp::PartialEqSpecImpl for Benc {
    open spec fn obeys_eq_spec() -> bool {
        true
    }

    /// Equal canonical encodings.
    open spec fn eq_spec(&self, other: &Benc) -> bool {
        encode_value(self@) == encode_value(other@)
    }
}

} // verus!
