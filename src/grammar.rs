use vstd::prelude::*;

use crate::value::Value;

verus! {

pub const ZERO: u8 = 48;

pub const ONE: u8 = 49;

pub const NINE: u8 = 57;

pub const COLON: u8 = 58;

pub const MINUS: u8 = 45;

pub const END: u8 = 101;

pub const INT_START: u8 = 105;

pub const LIST_START: u8 = 108;

pub const DICT_START: u8 = 100;

/// The kind of node that a leading byte announces.
#[derive(Debug, Clone, Copy, PartialEq, Eq, Structural)]
pub enum NodeType {
    String,
    Int,
    List,
    Dict,
}

pub open spec fn is_digit(c: u8) -> bool {
    ZERO <= c <= NINE
}

pub open spec fn digit_value(c: u8) -> nat {
    (c - ZERO) as nat
}

pub open spec fn kind_of(c: u8) -> Option<NodeType> {
    if is_digit(c) {
        Some(NodeType::String)
    } else if c == INT_START {
        Some(NodeType::Int)
    } else if c == LIST_START {
        Some(NodeType::List)
    } else if c == DICT_START {
        Some(NodeType::Dict)
    } else {
        None
    }
}

/// Strict byte-lexicographic order: `a` is a proper prefix of `b`, or at the
/// first index where they differ `a` holds the smaller byte.
pub open spec fn lex_lt(a: Seq<u8>, b: Seq<u8>) -> bool {
    lex_lt_from(a, b, 0)
}

pub open spec fn lex_lt_from(a: Seq<u8>, b: Seq<u8>, i: int) -> bool
    decreases a.len() - i,
{
    if i >= a.len() {
        i < b.len()
    } else if i >= b.len() {
        false
    } else if a[i] != b[i] {
        a[i] < b[i]
    } else {
        lex_lt_from(a, b, i + 1)
    }
}

/// The index of the first byte at or after `p` that is not an ASCII digit.
pub open spec fn digits_end(s: Seq<u8>, p: int) -> int
    decreases s.len() - p,
{
    if 0 <= p < s.len() && is_digit(s[p]) {
        digits_end(s, p + 1)
    } else {
        p
    }
}

/// The decimal number written by `seed`'s digits followed by `s[p..q]`.
pub open spec fn number(seed: nat, s: Seq<u8>, p: int, q: int) -> nat
    decreases q - p,
{
    if q <= p {
        seed
    } else {
        number(seed, s, p, q - 1) * 10 + digit_value(s[q - 1])
    }
}

/// A byte string whose length prefix starts with the digit `first` and
/// goes on at `p`: more digits, `:`, then exactly that many raw bytes.
pub open spec fn parse_string(first: u8, s: Seq<u8>, p: int) -> Option<(Seq<u8>, int)> {
    let colon = digits_end(s, p);
    let n = number(digit_value(first), s, p, colon);
    if is_digit(first) && colon < s.len() && s[colon] == COLON && n > 0 && colon + 1 + n
        <= s.len() {
        Some((s.subrange(colon + 1, colon + 1 + n), colon + 1 + n))
    } else {
        None
    }
}

/// The body of an integer node, after its `i`: an optional `-`, digits
/// without a leading zero (a lone `0` for zero, no `-0`), then `e`; the
/// value must fit in an `i64`.
pub open spec fn parse_int(s: Seq<u8>, p: int) -> Option<(i64, int)> {
    if p < 0 || p >= s.len() {
        None
    } else if s[p] == MINUS {
        let end = digits_end(s, p + 1);
        let n = number(0, s, p + 1, end);
        if p + 1 < s.len() && ONE <= s[p + 1] <= NINE && end < s.len() && s[end] == END && n
            <= 0x8000_0000_0000_0000 {
            Some(((-n) as i64, end + 1))
        } else {
            None
        }
    } else if s[p] == ZERO {
        if p + 1 < s.len() && s[p + 1] == END {
            Some((0, p + 2))
        } else {
            None
        }
    } else if is_digit(s[p]) {
        let end = digits_end(s, p);
        let n = number(0, s, p, end);
        if end < s.len() && s[end] == END && n <= 0x7fff_ffff_ffff_ffff {
            Some((n as i64, end + 1))
        } else {
            None
        }
    } else {
        None
    }
}

/// One complete node starting at `p`, and the index just past it.
pub open spec fn parse_value(s: Seq<u8>, p: int) -> Option<(Value, int)>
    decreases s.len() - p, 0int,
{
    if p < 0 || p >= s.len() {
        None
    } else {
        match kind_of(s[p]) {
            Some(NodeType::String) => match parse_string(s[p], s, p + 1) {
                Some((b, q)) => Some((Value::Bytes(b), q)),
                None => None,
            },
            Some(NodeType::Int) => match parse_int(s, p + 1) {
                Some((n, q)) => Some((Value::Int(n), q)),
                None => None,
            },
            Some(NodeType::List) => parse_list(s, p + 1, Seq::empty()),
            Some(NodeType::Dict) => parse_dict(s, p + 1, Seq::empty()),
            None => None,
        }
    }
}

/// The rest of a list whose items so far are `acc`: nodes up to its `e`.
pub open spec fn parse_list(s: Seq<u8>, p: int, acc: Seq<Value>) -> Option<(Value, int)>
    decreases s.len() - p, 1int,
{
    if 0 <= p < s.len() && s[p] == END {
        Some((Value::List(acc), p + 1))
    } else {
        match parse_value(s, p) {
            Some((v, q)) => if p < q <= s.len() {
                parse_list(s, q, acc.push(v))
            } else {
                None
            },
            None => None,
        }
    }
}

/// The rest of a dictionary whose entries so far are `acc`: key and value
/// nodes up to its `e`, each key a byte string above the one before it.
pub open spec fn parse_dict(s: Seq<u8>, p: int, acc: Seq<(Seq<u8>, Value)>) -> Option<
    (Value, int),
>
    decreases s.len() - p, 1int,
{
    if 0 <= p < s.len() && s[p] == END {
        Some((Value::Dict(acc), p + 1))
    } else {
        match parse_value(s, p) {
            Some((Value::Bytes(k), q)) => if p < q <= s.len() && (acc.len() == 0 || lex_lt(
                acc.last().0,
                k,
            )) {
                match parse_value(s, q) {
                    Some((v, r)) => if q < r <= s.len() {
                        parse_dict(s, r, acc.push((k, v)))
                    } else {
                        None
                    },
                    None => None,
                }
            } else {
                None
            },
            _ => None,
        }
    }
}

/// Whether the top-level scan stops cleanly at `p`: the input is used up,
/// or holds a null byte there.
pub open spec fn at_end(s: Seq<u8>, p: int) -> bool {
    p >= s.len() || s[p] == 0
}

/// Top-level nodes from `p` on, after the nodes `acc`, until the input ends.
pub open spec fn parse_from(s: Seq<u8>, p: int, acc: Seq<Value>) -> Option<Seq<Value>>
    decreases s.len() - p,
{
    if p < 0 {
        None
    } else if at_end(s, p) {
        Some(acc)
    } else {
        match parse_value(s, p) {
            Some((v, q)) => if p < q <= s.len() {
                parse_from(s, q, acc.push(v))
            } else {
                None
            },
            None => None,
        }
    }
}

/// What decoding a whole input gives: its sequence of top-level values, or
/// `None` where it is malformed.
pub open spec fn decode(s: Seq<u8>) -> Option<Seq<Value>> {
    parse_from(s, 0, Seq::empty())
}

/// The bytes from `p` up to `digits_end(s, p)` are digits, and the run
/// stops there.
pub proof fn lemma_digits_end(s: Seq<u8>, p: int)
    requires
        0 <= p <= s.len(),
    ensures
        p <= digits_end(s, p) <= s.len(),
        forall|k: int| p <= k < digits_end(s, p) ==> is_digit(#[trigger] s[k]),
        digits_end(s, p) < s.len() ==> !is_digit(s[digits_end(s, p)]),
    decreases s.len() - p,
{
    if p < s.len() && is_digit(s[p]) {
        lemma_digits_end(s, p + 1);
    }
}

/// Reading more digits never makes the number smaller.
pub proof fn lemma_number_monotone(seed: nat, s: Seq<u8>, p: int, q1: int, q2: int)
    requires
        p <= q1 <= q2,
    ensures
        number(seed, s, p, q1) <= number(seed, s, p, q2),
    decreases q2 - q1,
{
    if q1 < q2 {
        lemma_number_monotone(seed, s, p, q1, q2 - 1);
    }
}

} // verus!
