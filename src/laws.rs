use vstd::prelude::*;

use crate::encoding::{
    decimal, encode_bytes, encode_value, encodings, entry_encodings, in_key_order, insert_pos,
    key_order, keys_of, lemma_encodings_index, lemma_entry_encodings_index,
};
use crate::grammar::{
    at_end, decode, digit_value, digits_end, lemma_digits_end, is_digit, lex_lt, lex_lt_from, number, parse_dict, parse_from,
    parse_list, parse_value, COLON, DICT_START, END, INT_START, LIST_START, MINUS, ZERO,
};
use crate::value::{Benc, Value};

verus! {

/// Whether `t` occurs in `s` at index `p`.
pub open spec fn occurs_at(s: Seq<u8>, p: int, t: Seq<u8>) -> bool {
    0 <= p && p + t.len() <= s.len() && s.subrange(p, p + t.len()) == t
}

/// A value that decoding can give back: every byte string, keys included,
/// is non-empty, and each dictionary's keys are strictly increasing.
pub open spec fn canonical(v: Value) -> bool
    decreases v,
{
    match v {
        Value::Bytes(b) => b.len() > 0,
        Value::Int(_) => true,
        Value::List(items) => forall|i: int| 0 <= i < items.len() ==> canonical(#[trigger] items[i]),
        Value::Dict(entries) => {
            &&& forall|i: int|
                0 <= i < entries.len() ==> (#[trigger] entries[i]).0.len() > 0 && canonical(
                    entries[i].1,
                )
            &&& forall|i: int, j: int|
                0 <= i < j < entries.len() ==> lex_lt(
                    (#[trigger] entries[i]).0,
                    (#[trigger] entries[j]).0,
                )
        },
    }
}

proof fn lemma_occurs_split(s: Seq<u8>, p: int, x: Seq<u8>, y: Seq<u8>)
    requires
        occurs_at(s, p, x + y),
    ensures
        occurs_at(s, p, x),
        occurs_at(s, p + x.len(), y),
{
    assert(s.subrange(p, p + x.len()) =~= (x + y).subrange(0, x.len() as int));
    assert((x + y).subrange(0, x.len() as int) =~= x);
    assert(s.subrange(p + x.len(), p + x.len() + y.len()) =~= (x + y).subrange(
        x.len() as int,
        (x + y).len() as int,
    ));
    assert((x + y).subrange(x.len() as int, (x + y).len() as int) =~= y);
}

proof fn lemma_occurs_index(s: Seq<u8>, p: int, t: Seq<u8>, i: int)
    requires
        occurs_at(s, p, t),
        0 <= i < t.len(),
    ensures
        s[p + i] == t[i],
{
    assert(s.subrange(p, p + t.len())[i] == t[i]);
}

proof fn lemma_decimal_digits(n: nat)
    ensures
        decimal(n).len() >= 1,
        forall|i: int| 0 <= i < decimal(n).len() ==> is_digit(#[trigger] decimal(n)[i]),
        n > 0 ==> decimal(n)[0] != ZERO,
        n == 0 ==> decimal(n) == seq![ZERO],
    decreases n,
{
    if n >= 10 {
        lemma_decimal_digits(n / 10);
    }
}

/// A run of digits from `a` that stops at `b` ends there.
proof fn lemma_digits_end_at(s: Seq<u8>, a: int, b: int)
    requires
        0 <= a <= b <= s.len(),
        forall|k: int| a <= k < b ==> is_digit(#[trigger] s[k]),
        b < s.len() ==> !is_digit(s[b]),
    ensures
        digits_end(s, a) == b,
    decreases b - a,
{
    if a < b {
        lemma_digits_end_at(s, a + 1, b);
    }
}

/// The digits of `n`, read back, give `n`.
proof fn lemma_number_decimal(s: Seq<u8>, p: int, n: nat)
    requires
        occurs_at(s, p, decimal(n)),
    ensures
        number(0, s, p, p + decimal(n).len()) == n,
    decreases n,
{
    let t = decimal(n);
    let len = t.len() as int;
    lemma_occurs_index(s, p, t, len - 1);
    assert(number(0, s, p, p + len) == number(0, s, p, p + len - 1) * 10 + digit_value(
        s[p + len - 1],
    ));
    if n < 10 {
        assert(number(0, s, p, p) == 0);
    } else {
        let d = decimal(n / 10);
        assert(t == d.push((ZERO + n % 10) as u8));
        assert(occurs_at(s, p, d)) by {
            assert(s.subrange(p, p + d.len()) =~= t.subrange(0, d.len() as int));
            assert(t.subrange(0, d.len() as int) =~= d);
        }
        lemma_number_decimal(s, p, n / 10);
        vstd::arithmetic::div_mod::lemma_fundamental_div_mod(n as int, 10);
    }
}

/// The first digit can seed the number that the rest of the digits extend.
proof fn lemma_number_seed(s: Seq<u8>, p: int, q: int)
    requires
        p < q,
    ensures
        number(0, s, p, q) == number(digit_value(s[p]), s, p + 1, q),
    decreases q - p,
{
    if q > p + 1 {
        lemma_number_seed(s, p, q - 1);
        assert(number(digit_value(s[p]), s, p + 1, q) == number(digit_value(s[p]), s, p + 1, q - 1)
            * 10 + digit_value(s[q - 1]));
    } else {
        assert(number(0, s, p, p) == 0);
        assert(number(0, s, p, q) == number(0, s, p, p) * 10 + digit_value(s[p]));
    }
}

proof fn lemma_lex_lt_asymmetric(a: Seq<u8>, b: Seq<u8>, i: int)
    ensures
        lex_lt_from(a, b, i) ==> !lex_lt_from(b, a, i),
    decreases a.len() - i,
{
    if i < a.len() && i < b.len() && a[i] == b[i] {
        lemma_lex_lt_asymmetric(a, b, i + 1);
    }
}

proof fn lemma_insert_pos_end(keys: Seq<Seq<u8>>, ord: Seq<int>, k: int, j: int)
    requires
        0 <= j <= ord.len(),
        forall|m: int| j <= m < ord.len() ==> !lex_lt(keys[k], #[trigger] keys[ord[m]]),
    ensures
        insert_pos(keys, ord, k, j) == ord.len(),
    decreases ord.len() - j,
{
    if j < ord.len() {
        lemma_insert_pos_end(keys, ord, k, j + 1);
    }
}

/// Keys that are already strictly increasing keep their order.
proof fn lemma_key_order_sorted(keys: Seq<Seq<u8>>, n: int)
    requires
        0 <= n <= keys.len(),
        forall|i: int, j: int|
            0 <= i < j < keys.len() ==> lex_lt(#[trigger] keys[i], #[trigger] keys[j]),
    ensures
        key_order(keys, n) == Seq::new(n as nat, |i: int| i),
    decreases n,
{
    if n > 0 {
        lemma_key_order_sorted(keys, n - 1);
        let ord = key_order(keys, n - 1);
        assert forall|m: int| 0 <= m < ord.len() implies !lex_lt(
            keys[n - 1],
            #[trigger] keys[ord[m]],
        ) by {
            lemma_lex_lt_asymmetric(keys[m], keys[n - 1], 0);
        }
        lemma_insert_pos_end(keys, ord, n - 1, 0);
        assert(ord.insert(n - 1, n - 1) =~= Seq::new(n as nat, |i: int| i));
    }
}

proof fn lemma_parse_bytes(b: Seq<u8>, s: Seq<u8>, p: int)
    requires
        b.len() > 0,
        occurs_at(s, p, encode_bytes(b)),
    ensures
        parse_value(s, p) == Some((Value::Bytes(b), p + encode_bytes(b).len())),
        is_digit(s[p]),
{
    let d = decimal(b.len());
    let e = encode_bytes(b);
    let n = d.len() as int;
    lemma_decimal_digits(b.len());
    lemma_occurs_split(s, p, d + seq![COLON], b);
    lemma_occurs_split(s, p, d, seq![COLON]);
    lemma_occurs_index(s, p, d, 0);
    lemma_occurs_index(s, p + n, seq![COLON], 0);
    assert forall|k: int| p + 1 <= k < p + n implies is_digit(#[trigger] s[k]) by {
        lemma_occurs_index(s, p, d, k - p);
    }
    lemma_digits_end_at(s, p + 1, p + n);
    lemma_number_decimal(s, p, b.len());
    lemma_number_seed(s, p, p + n);
}

proof fn lemma_parse_int(v: i64, s: Seq<u8>, p: int)
    requires
        occurs_at(s, p, encode_value(Value::Int(v))),
    ensures
        parse_value(s, p) == Some((Value::Int(v), p + encode_value(Value::Int(v)).len())),
{
    let e = encode_value(Value::Int(v));
    lemma_occurs_index(s, p, e, 0);
    if v < 0 {
        let m = (-v) as nat;
        let d = decimal(m);
        let n = d.len() as int;
        lemma_decimal_digits(m);
        assert(e =~= seq![INT_START, MINUS] + d + seq![END]);
        lemma_occurs_split(s, p, seq![INT_START, MINUS] + d, seq![END]);
        lemma_occurs_split(s, p, seq![INT_START, MINUS], d);
        lemma_occurs_index(s, p, seq![INT_START, MINUS], 1);
        lemma_occurs_index(s, p + 2, d, 0);
        lemma_occurs_index(s, p + 2 + n, seq![END], 0);
        assert forall|k: int| p + 2 <= k < p + 2 + n implies is_digit(#[trigger] s[k]) by {
            lemma_occurs_index(s, p + 2, d, k - p - 2);
        }
        lemma_digits_end_at(s, p + 2, p + 2 + n);
        lemma_number_decimal(s, p + 2, m);
    } else if v == 0 {
        lemma_decimal_digits(0);
        assert(e =~= seq![INT_START, ZERO, END]);
        lemma_occurs_index(s, p, e, 1);
        lemma_occurs_index(s, p, e, 2);
    } else {
        let m = v as nat;
        let d = decimal(m);
        let n = d.len() as int;
        lemma_decimal_digits(m);
        assert(e =~= seq![INT_START] + d + seq![END]);
        lemma_occurs_split(s, p, seq![INT_START] + d, seq![END]);
        lemma_occurs_split(s, p, seq![INT_START], d);
        lemma_occurs_index(s, p + 1, d, 0);
        lemma_occurs_index(s, p + 1 + n, seq![END], 0);
        assert forall|k: int| p + 1 <= k < p + 1 + n implies is_digit(#[trigger] s[k]) by {
            lemma_occurs_index(s, p + 1, d, k - p - 1);
        }
        lemma_digits_end_at(s, p + 1, p + 1 + n);
        lemma_number_decimal(s, p + 1, m);
    }
}

/// Parsing a canonical value's encoding, wherever it stands in the input,
/// gives back that value and the index just past the encoding.
proof fn lemma_parse_encoding(v: Value, s: Seq<u8>, p: int)
    requires
        canonical(v),
        occurs_at(s, p, encode_value(v)),
    ensures
        parse_value(s, p) == Some((v, p + encode_value(v).len())),
        encode_value(v).len() > 0,
        s[p] != END,
        s[p] != 0,
    decreases v,
{
    let e = encode_value(v);
    match v {
        Value::Bytes(b) => {
            lemma_parse_bytes(b, s, p);
        },
        Value::Int(n) => {
            lemma_occurs_index(s, p, e, 0);
            lemma_parse_int(n, s, p);
        },
        Value::List(items) => {
            let f = encodings(items).flatten();
            lemma_occurs_index(s, p, e, 0);
            assert(e =~= seq![LIST_START] + (f + seq![END]));
            lemma_occurs_split(s, p, seq![LIST_START], f + seq![END]);
            lemma_parse_items(items, s, p + 1, Seq::empty());
            assert(Seq::<Value>::empty() + items =~= items);
        },
        Value::Dict(entries) => {
            let keys = keys_of(entries);
            lemma_key_order_sorted(keys, entries.len() as int);
            lemma_entry_encodings_index(entries);
            let parts = entry_encodings(entries);
            assert(in_key_order(parts, key_order(keys, entries.len() as int)) =~= parts);
            let f = parts.flatten();
            lemma_occurs_index(s, p, e, 0);
            assert(e =~= seq![DICT_START] + (f + seq![END]));
            lemma_occurs_split(s, p, seq![DICT_START], f + seq![END]);
            lemma_parse_entries(entries, s, p + 1, Seq::empty());
            assert(Seq::<(Seq<u8>, Value)>::empty() + entries =~= entries);
        },
    }
}

proof fn lemma_parse_items(items: Seq<Value>, s: Seq<u8>, q: int, acc: Seq<Value>)
    requires
        forall|i: int| 0 <= i < items.len() ==> canonical(#[trigger] items[i]),
        occurs_at(s, q, encodings(items).flatten() + seq![END]),
    ensures
        parse_list(s, q, acc) == Some(
            (Value::List(acc + items), q + encodings(items).flatten().len() + 1),
        ),
    decreases items,
{
    let parts = encodings(items);
    lemma_encodings_index(items);
    if items.len() == 0 {
        assert(parts =~= Seq::<Seq<u8>>::empty());
        lemma_occurs_index(s, q, parts.flatten() + seq![END], 0);
        assert(acc + items =~= acc);
    } else {
        let rest = items.subrange(1, items.len() as int);
        lemma_encodings_index(rest);
        assert(parts.drop_first() =~= encodings(rest));
        let e0 = encode_value(items[0]);
        let f = encodings(rest).flatten();
        assert(parts.flatten() + seq![END] =~= e0 + (f + seq![END]));
        lemma_occurs_split(s, q, e0, f + seq![END]);
        lemma_parse_encoding(items[0], s, q);
        lemma_parse_items(rest, s, q + e0.len(), acc.push(items[0]));
        assert(acc.push(items[0]) + rest =~= acc + items);
    }
}

proof fn lemma_parse_entries(
    entries: Seq<(Seq<u8>, Value)>,
    s: Seq<u8>,
    q: int,
    acc: Seq<(Seq<u8>, Value)>,
)
    requires
        forall|i: int|
            0 <= i < entries.len() ==> (#[trigger] entries[i]).0.len() > 0 && canonical(
                entries[i].1,
            ),
        forall|i: int, j: int|
            0 <= i < j < entries.len() ==> lex_lt(
                (#[trigger] entries[i]).0,
                (#[trigger] entries[j]).0,
            ),
        acc.len() > 0 && entries.len() > 0 ==> lex_lt(acc.last().0, entries[0].0),
        occurs_at(s, q, entry_encodings(entries).flatten() + seq![END]),
    ensures
        parse_dict(s, q, acc) == Some(
            (Value::Dict(acc + entries), q + entry_encodings(entries).flatten().len() + 1),
        ),
    decreases entries,
{
    let parts = entry_encodings(entries);
    lemma_entry_encodings_index(entries);
    if entries.len() == 0 {
        assert(parts =~= Seq::<Seq<u8>>::empty());
        lemma_occurs_index(s, q, parts.flatten() + seq![END], 0);
        assert(acc + entries =~= acc);
    } else {
        let rest = entries.subrange(1, entries.len() as int);
        lemma_entry_encodings_index(rest);
        assert(parts.drop_first() =~= entry_encodings(rest));
        let k0 = entries[0].0;
        let v0 = entries[0].1;
        let ek = encode_bytes(k0);
        let ev = encode_value(v0);
        let f = entry_encodings(rest).flatten();
        assert(parts.flatten() + seq![END] =~= ek + (ev + (f + seq![END])));
        lemma_occurs_split(s, q, ek, ev + (f + seq![END]));
        lemma_occurs_split(s, q + ek.len(), ev, f + seq![END]);
        lemma_parse_bytes(k0, s, q);
        lemma_parse_encoding(v0, s, q + ek.len());
        assert(rest.len() > 0 ==> lex_lt(entries[0].0, entries[1].0));
        lemma_parse_entries(rest, s, q + ek.len() + ev.len(), acc.push((k0, v0)));
        assert(acc.push((k0, v0)) + rest =~= acc + entries);
    }
}

proof fn lemma_decode_single(v: Value, tail: Seq<u8>)
    requires
        canonical(v),
        tail.len() == 0 || tail[0] == 0,
    ensures
        decode(encode_value(v) + tail) == Some(seq![v]),
{
    let e = encode_value(v);
    let s = e + tail;
    assert(s.subrange(0, e.len() as int) =~= e);
    lemma_parse_encoding(v, s, 0);
    assert(Seq::<Value>::empty().push(v) =~= seq![v]);
    assert(parse_from(s, e.len() as int, seq![v]) == Some(seq![v]));
}

/// Round trip: decoding the encoding of a value whose byte strings are
/// non-empty and whose dictionary keys are strictly increasing gives back
/// exactly that value, as the sole top-level value; so does decoding it
/// with a null byte after it.
pub proof fn round_trip(v: Benc)
    requires
        canonical(v@),
    ensures
        decode(encode_value(v@)) == Some(seq![v@]),
        decode(encode_value(v@) + seq![0u8]) == Some(seq![v@]),
{
    lemma_decode_single(v@, Seq::empty());
    assert(encode_value(v@) + Seq::<u8>::empty() =~= encode_value(v@));
    lemma_decode_single(v@, seq![0u8]);
}

proof fn lemma_number_shift(s: Seq<u8>, p: int, t: Seq<u8>, k: int)
    requires
        occurs_at(s, p, t),
        0 <= k <= t.len(),
    ensures
        number(0, s, p, p + k) == number(0, t, 0, k),
    decreases k,
{
    if k > 0 {
        lemma_number_shift(s, p, t, k - 1);
        lemma_occurs_index(s, p, t, k - 1);
    }
}

/// Integer overflow: an integer literal whose value lies outside the range
/// of `i64` is refused; it never wraps around.
pub proof fn integer_overflow_rejected(digits: Seq<u8>, negative: bool)
    requires
        digits.len() > 0,
        forall|i: int| 0 <= i < digits.len() ==> is_digit(#[trigger] digits[i]),
        if negative {
            -number(0, digits, 0, digits.len() as int) < i64::MIN
        } else {
            number(0, digits, 0, digits.len() as int) > i64::MAX
        },
    ensures
        decode(
            seq![INT_START] + (if negative {
                seq![MINUS]
            } else {
                Seq::empty()
            }) + digits + seq![END],
        ) is None,
{
    let sign: Seq<u8> = if negative {
        seq![MINUS]
    } else {
        Seq::empty()
    };
    let head = seq![INT_START] + sign;
    let s = head + digits + seq![END];
    let a = head.len() as int;
    let n = digits.len() as int;
    assert(s[0] == INT_START);
    assert(occurs_at(s, a, digits)) by {
        assert(s.subrange(a, a + n) =~= digits);
    }
    assert(s[a + n] == END);
    assert forall|k: int| a <= k < a + n implies is_digit(#[trigger] s[k]) by {
        lemma_occurs_index(s, a, digits, k - a);
    }
    lemma_digits_end_at(s, a, a + n);
    lemma_number_shift(s, a, digits, n);
    lemma_occurs_index(s, a, digits, 0);
    if n > 1 {
        lemma_occurs_index(s, a, digits, 1);
    } else {
        assert(number(0, digits, 0, 1) == number(0, digits, 0, 0) * 10 + digit_value(digits[0]));
    }
    if negative {
        assert(s[1] == MINUS);
    }
    assert(parse_value(s, 0) is None);
}

/// Dictionary ordering: a dictionary whose second key is not strictly
/// greater than its first (the same key again, or one that sorts before
/// it) is refused.
pub proof fn unordered_keys_rejected(k1: Seq<u8>, v1: Benc, k2: Seq<u8>, v2: Benc)
    requires
        k1.len() > 0,
        k2.len() > 0,
        canonical(v1@),
        canonical(v2@),
        !lex_lt(k1, k2),
    ensures
        decode(
            seq![DICT_START] + encode_bytes(k1) + encode_value(v1@) + encode_bytes(k2)
                + encode_value(v2@) + seq![END],
        ) is None,
{
    let e1 = encode_bytes(k1);
    let x1 = encode_value(v1@);
    let e2 = encode_bytes(k2);
    let x2 = encode_value(v2@);
    let s = seq![DICT_START] + e1 + x1 + e2 + x2 + seq![END];
    let key1_at = 1int;
    let value1_at = key1_at + e1.len();
    let key2_at = value1_at + x1.len();
    assert(occurs_at(s, key1_at, e1)) by {
        assert(s.subrange(key1_at, value1_at) =~= e1);
    }
    assert(occurs_at(s, value1_at, x1)) by {
        assert(s.subrange(value1_at, key2_at) =~= x1);
    }
    assert(occurs_at(s, key2_at, e2)) by {
        assert(s.subrange(key2_at, key2_at + e2.len()) =~= e2);
    }
    lemma_parse_bytes(k1, s, key1_at);
    lemma_parse_encoding(v1@, s, value1_at);
    lemma_parse_bytes(k2, s, key2_at);
    let acc = Seq::<(Seq<u8>, Value)>::empty().push((k1, v1@));
    assert(parse_dict(s, key2_at, acc) is None);
    assert(s[0] == DICT_START);
    assert(parse_value(s, 0) is None);
}

proof fn lemma_lex_lt_irreflexive(a: Seq<u8>, i: int)
    ensures
        !lex_lt_from(a, a, i),
    decreases a.len() - i,
{
    if i < a.len() {
        lemma_lex_lt_irreflexive(a, i + 1);
    }
}

proof fn lemma_lex_lt_transitive(a: Seq<u8>, b: Seq<u8>, c: Seq<u8>, i: int)
    requires
        lex_lt_from(a, b, i),
        lex_lt_from(b, c, i),
    ensures
        lex_lt_from(a, c, i),
    decreases a.len() - i,
{
    if i < a.len() && i < b.len() && i < c.len() && a[i] == b[i] && b[i] == c[i] {
        lemma_lex_lt_transitive(a, b, c, i + 1);
    }
}

/// Two different byte strings are ordered one way or the other.
proof fn lemma_lex_lt_total(a: Seq<u8>, b: Seq<u8>, i: int)
    requires
        0 <= i,
        i <= a.len(),
        i <= b.len(),
        a.subrange(0, i) == b.subrange(0, i),
        a != b,
    ensures
        lex_lt_from(a, b, i) || lex_lt_from(b, a, i),
    decreases a.len() - i,
{
    if i == a.len() && i == b.len() {
        assert(a =~= a.subrange(0, i));
        assert(b =~= b.subrange(0, i));
    } else if i < a.len() && i < b.len() && a[i] == b[i] {
        assert(a.subrange(0, i + 1) =~= a.subrange(0, i).push(a[i]));
        assert(b.subrange(0, i + 1) =~= b.subrange(0, i).push(b[i]));
        lemma_lex_lt_total(a, b, i + 1);
    }
}

/// `key_order` lists each index below `n` once, with keys that never
/// decrease.
proof fn lemma_key_order_sorts(keys: Seq<Seq<u8>>, n: int)
    requires
        0 <= n <= keys.len(),
    ensures
        key_order(keys, n).len() == n,
        forall|j: int| 0 <= j < n ==> 0 <= #[trigger] key_order(keys, n)[j] < n,
        forall|j1: int, j2: int|
            0 <= j1 < j2 < n ==> #[trigger] key_order(keys, n)[j1] != #[trigger] key_order(
                keys,
                n,
            )[j2],
        forall|i: int| 0 <= i < n ==> #[trigger] key_order(keys, n).contains(i),
        forall|j1: int, j2: int|
            0 <= j1 < j2 < n ==> !lex_lt(
                keys[key_order(keys, n)[j2]],
                #[trigger] keys[key_order(keys, n)[j1]],
            ) && #[trigger] key_order(keys, n)[j2] == key_order(keys, n)[j2],
    decreases n,
{
    if n > 0 {
        let k = n - 1;
        lemma_key_order_sorts(keys, k);
        let ord = key_order(keys, k);
        let p = insert_pos(keys, ord, k, 0);
        lemma_insert_pos(keys, ord, k, 0);
        let o = ord.insert(p, k);
        assert(key_order(keys, n) == o);
        assert forall|i: int| 0 <= i < n implies #[trigger] o.contains(i) by {
            if i == k {
                assert(o[p] == k);
            } else {
                assert(ord.contains(i));
                let j = choose|j: int| 0 <= j < ord.len() && ord[j] == i;
                if j < p {
                    assert(o[j] == i);
                } else {
                    assert(o[j + 1] == i);
                }
            }
        }
        assert forall|j1: int, j2: int| 0 <= j1 < j2 < n implies !lex_lt(
            keys[o[j2]],
            #[trigger] keys[o[j1]],
        ) && #[trigger] o[j2] == o[j2] by {
            if j2 < p {
                assert(o[j1] == ord[j1] && o[j2] == ord[j2]);
                assert(!lex_lt(keys[ord[j2]], keys[ord[j1]]) && ord[j2] == ord[j2]);
            } else if j2 == p {
                assert(o[j1] == ord[j1]);
            } else if j1 > p {
                assert(o[j1] == ord[j1 - 1] && o[j2] == ord[j2 - 1]);
                assert(!lex_lt(keys[ord[j2 - 1]], keys[ord[j1 - 1]]) && ord[j2 - 1] == ord[j2
                    - 1]);
            } else if j1 == p {
                // keys[k] < keys[ord[p]] <= keys[ord[j2 - 1]]
                assert(o[j2] == ord[j2 - 1]);
                if lex_lt(keys[ord[j2 - 1]], keys[k]) {
                    if j2 - 1 == p {
                        lemma_lex_lt_asymmetric(keys[ord[p]], keys[k], 0);
                    } else {
                        assert(!lex_lt(keys[ord[j2 - 1]], keys[ord[p]]) && ord[j2 - 1] == ord[j2
                            - 1]);
                        lemma_lex_lt_transitive(keys[ord[j2 - 1]], keys[k], keys[ord[p]], 0);
                    }
                }
            } else {
                assert(o[j1] == ord[j1] && o[j2] == ord[j2 - 1]);
                assert(!lex_lt(keys[ord[j2 - 1]], keys[ord[j1]]) && ord[j2 - 1] == ord[j2 - 1]);
            }
        }
        assert forall|j1: int, j2: int| 0 <= j1 < j2 < n implies #[trigger] o[j1]
            != #[trigger] o[j2] by {
            if j1 < p && j2 < p {
                assert(o[j1] == ord[j1] && o[j2] == ord[j2]);
            } else if j1 < p && j2 > p {
                assert(o[j1] == ord[j1] && o[j2] == ord[j2 - 1]);
            } else if j1 > p {
                assert(o[j1] == ord[j1 - 1] && o[j2] == ord[j2 - 1]);
            } else if j1 == p {
                assert(o[j2] == ord[j2 - 1]);
            } else {
                assert(o[j1] == ord[j1]);
            }
        }
        assert forall|j: int| 0 <= j < n implies 0 <= #[trigger] o[j] < n by {
            if j < p {
                assert(o[j] == ord[j]);
            } else if j > p {
                assert(o[j] == ord[j - 1]);
            }
        }
    }
}

/// The index that `insert_pos` gives lies among `ord`: the keys before it
/// are not above the key of `k`, and the key at it is.
proof fn lemma_insert_pos(keys: Seq<Seq<u8>>, ord: Seq<int>, k: int, j: int)
    requires
        0 <= j <= ord.len(),
    ensures
        j <= insert_pos(keys, ord, k, j) <= ord.len(),
        forall|m: int|
            j <= m < insert_pos(keys, ord, k, j) ==> !lex_lt(keys[k], #[trigger] keys[ord[m]]),
        insert_pos(keys, ord, k, j) < ord.len() ==> lex_lt(
            keys[k],
            keys[ord[insert_pos(keys, ord, k, j)]],
        ),
    decreases ord.len() - j,
{
    if j < ord.len() && !lex_lt(keys[k], keys[ord[j]]) {
        lemma_insert_pos(keys, ord, k, j + 1);
    }
}

/// Whether the entries' keys are pairwise different.
pub open spec fn keys_distinct(entries: Seq<(Seq<u8>, Value)>) -> bool {
    forall|i: int, j: int|
        0 <= i < j < entries.len() ==> (#[trigger] entries[i]).0 != (#[trigger] entries[j]).0
}

/// Whether the entries' keys strictly increase.
pub open spec fn keys_increase(entries: Seq<(Seq<u8>, Value)>) -> bool {
    forall|i: int, j: int|
        0 <= i < j < entries.len() ==> lex_lt((#[trigger] entries[i]).0, (#[trigger] entries[j]).0)
}

/// Two sequences of entries with strictly increasing keys that hold the same
/// entries are equal.
proof fn lemma_increasing_unique(s1: Seq<(Seq<u8>, Value)>, s2: Seq<(Seq<u8>, Value)>)
    requires
        keys_increase(s1),
        keys_increase(s2),
        forall|x: (Seq<u8>, Value)| s1.contains(x) <==> s2.contains(x),
    ensures
        s1 == s2,
    decreases s1.len(),
{
    if s1.len() == 0 {
        if s2.len() > 0 {
            assert(s2.contains(s2[0]));
        }
        assert(s1 =~= s2);
    } else if s2.len() == 0 {
        assert(s1.contains(s1[0]));
    } else {
        assert(s1.contains(s1[0]));
        assert(s2.contains(s2[0]));
        let i = choose|i: int| 0 <= i < s1.len() && s1[i] == s2[0];
        let j = choose|j: int| 0 <= j < s2.len() && s2[j] == s1[0];
        if i > 0 {
            assert(lex_lt(s1[0].0, s1[i].0));
            if j > 0 {
                assert(lex_lt(s2[0].0, s2[j].0));
                lemma_lex_lt_asymmetric(s1[0].0, s2[0].0, 0);
            } else {
                lemma_lex_lt_irreflexive(s1[0].0, 0);
            }
        } else if j > 0 {
            assert(lex_lt(s2[0].0, s2[j].0));
            lemma_lex_lt_irreflexive(s2[0].0, 0);
        }
        assert(s1[0] == s2[0]);
        let t1 = s1.subrange(1, s1.len() as int);
        let t2 = s2.subrange(1, s2.len() as int);
        assert forall|x: (Seq<u8>, Value)| t1.contains(x) <==> t2.contains(x) by {
            if t1.contains(x) {
                let a = choose|a: int| 0 <= a < t1.len() && t1[a] == x;
                assert(s1[a + 1] == x);
                assert(lex_lt(s1[0].0, s1[a + 1].0));
                lemma_lex_lt_irreflexive(x.0, 0);
                assert(s2.contains(x));
                let b = choose|b: int| 0 <= b < s2.len() && s2[b] == x;
                assert(b != 0);
                assert(t2[b - 1] == x);
            }
            if t2.contains(x) {
                let b = choose|b: int| 0 <= b < t2.len() && t2[b] == x;
                assert(s2[b + 1] == x);
                assert(lex_lt(s2[0].0, s2[b + 1].0));
                lemma_lex_lt_irreflexive(x.0, 0);
                assert(s1.contains(x));
                let a = choose|a: int| 0 <= a < s1.len() && s1[a] == x;
                assert(a != 0);
                assert(t1[a - 1] == x);
            }
        }
        lemma_increasing_unique(t1, t2);
        assert(s1 =~= seq![s1[0]] + t1);
        assert(s2 =~= seq![s2[0]] + t2);
    }
}

/// The entries of a dictionary with distinct keys, in the order in which
/// the encoder writes them, have strictly increasing keys and are the
/// dictionary's entries.
proof fn lemma_written_order(entries: Seq<(Seq<u8>, Value)>)
    requires
        keys_distinct(entries),
    ensures
        ({
            let ord = key_order(keys_of(entries), entries.len() as int);
            let w = ord.map_values(|i: int| entries[i]);
            &&& keys_increase(w)
            &&& forall|x: (Seq<u8>, Value)| w.contains(x) <==> entries.contains(x)
            &&& in_key_order(entry_encodings(entries), ord) == entry_encodings(w)
        }),
{
    let keys = keys_of(entries);
    let n = entries.len() as int;
    let ord = key_order(keys, n);
    let w = ord.map_values(|i: int| entries[i]);
    lemma_key_order_sorts(keys, n);
    assert forall|i: int, j: int| 0 <= i < j < w.len() implies lex_lt(
        (#[trigger] w[i]).0,
        (#[trigger] w[j]).0,
    ) by {
        assert(!lex_lt(keys[ord[j]], keys[ord[i]]) && ord[j] == ord[j]);
        assert(ord[i] != ord[j]);
        if ord[i] < ord[j] {
            assert(entries[ord[i]].0 != entries[ord[j]].0);
        } else {
            assert(entries[ord[j]].0 != entries[ord[i]].0);
        }
        assert(ord[i] == ord[i]);
        assert(w[i].0 == keys[ord[i]] && w[j].0 == keys[ord[j]]);
        assert(w[i].0.subrange(0, 0) =~= w[j].0.subrange(0, 0));
        lemma_lex_lt_total(w[i].0, w[j].0, 0);
    }
    assert forall|x: (Seq<u8>, Value)| w.contains(x) <==> entries.contains(x) by {
        if w.contains(x) {
            let j = choose|j: int| 0 <= j < w.len() && w[j] == x;
            assert(entries[ord[j]] == x);
        }
        if entries.contains(x) {
            let i = choose|i: int| 0 <= i < entries.len() && entries[i] == x;
            assert(ord.contains(i));
            let j = choose|j: int| 0 <= j < ord.len() && ord[j] == i;
            assert(w[j] == x);
        }
    }
    lemma_entry_encodings_index(entries);
    lemma_entry_encodings_index(w);
    assert(in_key_order(entry_encodings(entries), ord) =~= entry_encodings(w));
}

/// Dictionary ordering: a dictionary's encoding does not depend on the order
/// in which its entries are held. Two dictionaries that hold the same
/// entries, with pairwise different keys, encode to the same bytes.
pub proof fn encoding_ignores_entry_order(x: Benc, y: Benc)
    requires
        x@ matches Value::Dict(a) && keys_distinct(a),
        y@ matches Value::Dict(b) && keys_distinct(b),
        forall|e: (Seq<u8>, Value)|
            (x@->Dict_0).contains(e) <==> (y@->Dict_0).contains(e),
    ensures
        encode_value(x@) == encode_value(y@),
{
    let a = x@->Dict_0;
    let b = y@->Dict_0;
    lemma_written_order(a);
    lemma_written_order(b);
    let wa = key_order(keys_of(a), a.len() as int).map_values(|i: int| a[i]);
    let wb = key_order(keys_of(b), b.len() as int).map_values(|i: int| b[i]);
    lemma_increasing_unique(wa, wb);
}

/// Whether `entries` could be the entries of a canonical dictionary.
pub open spec fn canonical_entries(entries: Seq<(Seq<u8>, Value)>) -> bool {
    &&& forall|i: int|
        0 <= i < entries.len() ==> (#[trigger] entries[i]).0.len() > 0 && canonical(entries[i].1)
    &&& keys_increase(entries)
}

proof fn lemma_parse_value_canonical(s: Seq<u8>, p: int)
    ensures
        parse_value(s, p) matches Some((v, _)) ==> canonical(v),
    decreases s.len() - p, 0int,
{
    if 0 <= p < s.len() {
        lemma_digits_end(s, p + 1);
        if s[p] == LIST_START {
            lemma_parse_list_canonical(s, p + 1, Seq::empty());
        } else if s[p] == DICT_START {
            lemma_parse_dict_canonical(s, p + 1, Seq::empty());
        }
    }
}

proof fn lemma_parse_list_canonical(s: Seq<u8>, p: int, acc: Seq<Value>)
    requires
        forall|i: int| 0 <= i < acc.len() ==> canonical(#[trigger] acc[i]),
    ensures
        parse_list(s, p, acc) matches Some((v, _)) ==> canonical(v),
    decreases s.len() - p, 1int,
{
    if !(0 <= p < s.len() && s[p] == END) {
        lemma_parse_value_canonical(s, p);
        if let Some((v, q)) = parse_value(s, p) {
            if p < q <= s.len() {
                let next = acc.push(v);
                assert forall|i: int| 0 <= i < next.len() implies canonical(#[trigger] next[i]) by {
                    if i < acc.len() {
                        assert(next[i] == acc[i]);
                    }
                }
                lemma_parse_list_canonical(s, q, next);
            }
        }
    }
}

proof fn lemma_parse_dict_canonical(s: Seq<u8>, p: int, acc: Seq<(Seq<u8>, Value)>)
    requires
        canonical_entries(acc),
    ensures
        parse_dict(s, p, acc) matches Some((v, _)) ==> canonical(v),
    decreases s.len() - p, 1int,
{
    if !(0 <= p < s.len() && s[p] == END) {
        lemma_parse_value_canonical(s, p);
        if let Some((Value::Bytes(k), q)) = parse_value(s, p) {
            if p < q <= s.len() && (acc.len() == 0 || lex_lt(acc.last().0, k)) {
                lemma_parse_value_canonical(s, q);
                if let Some((v, r)) = parse_value(s, q) {
                    if q < r <= s.len() {
                        let next = acc.push((k, v));
                        assert forall|i: int, j: int| 0 <= i < j < next.len() implies lex_lt(
                            (#[trigger] next[i]).0,
                            (#[trigger] next[j]).0,
                        ) by {
                            if j < acc.len() {
                                assert(next[i] == acc[i] && next[j] == acc[j]);
                            } else if i < acc.len() - 1 {
                                assert(lex_lt(acc[i].0, acc[acc.len() - 1].0));
                                lemma_lex_lt_transitive(acc[i].0, acc[acc.len() - 1].0, k, 0);
                            }
                        }
                        assert forall|i: int| 0 <= i < next.len() implies (
                        #[trigger] next[i]).0.len() > 0 && canonical(next[i].1) by {
                            if i < acc.len() {
                                assert(next[i] == acc[i]);
                            }
                        }
                        lemma_parse_dict_canonical(s, r, next);
                    }
                }
            }
        }
    }
}

proof fn lemma_parse_from_canonical(s: Seq<u8>, p: int, acc: Seq<Value>)
    requires
        forall|i: int| 0 <= i < acc.len() ==> canonical(#[trigger] acc[i]),
    ensures
        parse_from(s, p, acc) matches Some(vs) ==> forall|i: int|
            0 <= i < vs.len() ==> canonical(#[trigger] vs[i]),
    decreases s.len() - p,
{
    if p >= 0 && !at_end(s, p) {
        lemma_parse_value_canonical(s, p);
        if let Some((v, q)) = parse_value(s, p) {
            if p < q <= s.len() {
                let next = acc.push(v);
                assert forall|i: int| 0 <= i < next.len() implies canonical(#[trigger] next[i]) by {
                    if i < acc.len() {
                        assert(next[i] == acc[i]);
                    }
                }
                lemma_parse_from_canonical(s, q, next);
            }
        }
    }
}

/// Decoding gives canonical values only: every byte string is non-empty and
/// every dictionary's keys strictly increase. So each decoded value goes
/// through `round_trip`: encoding it and decoding the bytes gives it back.
pub proof fn decoded_values_are_canonical(s: Seq<u8>)
    ensures
        decode(s) matches Some(vs) ==> forall|i: int|
            0 <= i < vs.len() ==> canonical(#[trigger] vs[i]),
{
    lemma_parse_from_canonical(s, 0, Seq::empty());
}

} // verus!
