use vstd::prelude::*;

use crate::error::Error;
use crate::grammar::{
    at_end, decode, digit_value, digits_end, kind_of, lemma_digits_end, lemma_number_monotone,
    lex_lt, lex_lt_from, number, parse_dict, parse_int, parse_list, parse_string, parse_value,
    parse_from, NodeType, COLON, DICT_START, END, INT_START, LIST_START, MINUS, NINE, ONE, ZERO,
};
use crate::value::{
    entries_of, lemma_entries_of_index, lemma_entries_of_push, lemma_values_of_push, values_of,
    Benc, Value,
};

verus! {

/// Whether the byte at `pos` is the delimiter that the caller waits for.
pub open spec fn delim_at(s: Seq<u8>, pos: int, delim: Option<u8>) -> bool {
    delim matches Some(c) && 0 <= pos < s.len() && s[pos] == c
}

/// Strict byte-lexicographic comparison of two byte strings.
pub fn bytes_less(a: &Vec<u8>, b: &Vec<u8>) -> (r: bool)
    ensures
        r == lex_lt(a@, b@),
{
    let mut i: usize = 0;
    while i < a.len() && i < b.len() && a[i] == b[i]
        invariant
            i <= a.len(),
            i <= b.len(),
            lex_lt(a@, b@) == lex_lt_from(a@, b@, i as int),
        decreases a.len() - i,
    {
        i = i + 1;
    }
    if i >= a.len() {
        i < b.len()
    } else if i >= b.len() {
        false
    } else {
        a[i] < b[i]
    }
}

/// Whether two byte strings are equal.
pub fn same_bytes(a: &Vec<u8>, b: &Vec<u8>) -> (r: bool)
    ensures
        r == (a@ == b@),
{
    if a.len() != b.len() {
        return false;
    }
    let mut i: usize = 0;
    while i < a.len()
        invariant
            a@.len() == b@.len(),
            i <= a@.len(),
            forall|j: int| 0 <= j < i ==> a@[j] == b@[j],
        decreases a.len() - i,
    {
        if a[i] != b[i] {
            return false;
        }
        i = i + 1;
    }
    assert(a@ =~= b@);
    true
}

impl NodeType {
    /// Returns the kind of node that the byte `c` starts, if any.
    pub fn type_of(c: u8) -> (r: Option<NodeType>)
        ensures
            r == kind_of(c),
    {
        if ZERO <= c && c <= NINE {
            Some(NodeType::String)
        } else if c == INT_START {
            Some(NodeType::Int)
        } else if c == LIST_START {
            Some(NodeType::List)
        } else if c == DICT_START {
            Some(NodeType::Dict)
        } else {
            None
        }
    }
}

/// Reads the digits at `start` as a decimal number with the given sign, up
/// to the terminating `e`, refusing any value outside the `i64` range.
fn read_digits(bytes: &[u8], start: usize, negative: bool) -> (r: Result<(i64, usize), Error>)
    requires
        start <= bytes@.len(),
    ensures
        ({
            let s = bytes@;
            let end = digits_end(s, start as int);
            let n = number(0, s, start as int, end);
            let fits = if negative {
                n <= 0x8000_0000_0000_0000
            } else {
                n <= 0x7fff_ffff_ffff_ffff
            };
            match r {
                Ok((v, q)) => start <= end < s.len() && s[end] == END && fits && q == end + 1 && v == (
                if negative {
                    -n
                } else {
                    n as int
                }),
                Err(e) => e is Other && !(end < s.len() && s[end] == END && fits),
            }
        }),
{
    let ghost s = bytes@;
    let mut num: i64 = 0;
    let mut i: usize = start;
    proof {
        lemma_digits_end(s, start as int);
    }
    while i < bytes.len() && ZERO <= bytes[i] && bytes[i] <= NINE
        invariant
            start <= i <= bytes@.len(),
            s == bytes@,
            digits_end(s, start as int) == digits_end(s, i as int),
            num as int == if negative {
                -number(0, s, start as int, i as int)
            } else {
                number(0, s, start as int, i as int) as int
            },
        decreases bytes.len() - i,
    {
        let d = (bytes[i] - ZERO) as i128;
        let next: i128 = if negative {
            num as i128 * 10 - d
        } else {
            num as i128 * 10 + d
        };
        if next < i64::MIN as i128 || next > i64::MAX as i128 {
            proof {
                lemma_digits_end(s, i as int);
                lemma_number_monotone(
                    0,
                    s,
                    start as int,
                    i + 1,
                    digits_end(s, start as int),
                );
            }
            return Err(Error::Other("Integer overflow"));
        }
        num = next as i64;
        i = i + 1;
    }
    if i < bytes.len() && bytes[i] == END {
        Ok((num, i + 1))
    } else {
        Err(Error::Other("Invalid int bencoding"))
    }
}

impl Benc {
    /// Decodes every top-level value of `bytes`, in order, until the input
    /// ends or holds a null byte where a value could start. Fails on the
    /// first malformed value.
    pub fn new(bytes: &[u8]) -> (r: Result<Vec<Benc>, Error>)
        ensures
            match r {
                Ok(vs) => decode(bytes@) == Some(values_of(vs@)),
                Err(e) => decode(bytes@) is None && e is Other,
            },
    {
        let ghost s = bytes@;
        let mut ast: Vec<Benc> = Vec::new();
        let mut p: usize = 0;
        loop
            invariant
                p <= bytes@.len(),
                s == bytes@,
                decode(s) == parse_from(s, p as int, values_of(ast@)),
            decreases bytes.len() - p,
        {
            match Benc::node(bytes, p, None) {
                Ok((n, q)) => {
                    proof {
                        lemma_values_of_push(ast@, n);
                    }
                    ast.push(n);
                    p = q;
                },
                Err(Error::EndOfFile) => return Ok(ast),
                Err(e) => return Err(e),
            }
        }
    }

    /// Reads a byte string whose first length digit `first` was already
    /// taken from the input; `bytes` holds the rest.
    pub fn string(bytes: &[u8], first: u8) -> (r: Result<Vec<u8>, Error>)
        ensures
            match r {
                Ok(b) => parse_string(first, bytes@, 0) matches Some((x, _)) && x == b@,
                Err(e) => parse_string(first, bytes@, 0) is None && e is Other,
            },
    {
        match Benc::read_string(bytes, first, 0) {
            Ok((b, _)) => Ok(b),
            Err(e) => Err(e),
        }
    }

    /// Reads an integer node whose `i` was already taken from the input.
    pub fn integer(bytes: &[u8]) -> (r: Result<i64, Error>)
        ensures
            match r {
                Ok(n) => parse_int(bytes@, 0) matches Some((x, _)) && x == n,
                Err(e) => parse_int(bytes@, 0) is None && e is Other,
            },
    {
        match Benc::read_int(bytes, 0) {
            Ok((n, _)) => Ok(n),
            Err(e) => Err(e),
        }
    }

    /// Reads a list node whose `l` was already taken from the input.
    pub fn list(bytes: &[u8]) -> (r: Result<Vec<Benc>, Error>)
        ensures
            match r {
                Ok(items) => parse_list(bytes@, 0, Seq::empty()) matches Some((x, _)) && x
                    == Value::List(values_of(items@)),
                Err(e) => parse_list(bytes@, 0, Seq::empty()) is None && e is Other,
            },
    {
        match Benc::read_list(bytes, 0) {
            Ok((items, _)) => Ok(items),
            Err(e) => Err(e),
        }
    }

    /// Reads a dictionary node whose `d` was already taken from the input.
    pub fn dict(bytes: &[u8]) -> (r: Result<Vec<(Vec<u8>, Benc)>, Error>)
        ensures
            match r {
                Ok(entries) => parse_dict(bytes@, 0, Seq::empty()) matches Some((x, _)) && x
                    == Value::Dict(entries_of(entries@)),
                Err(e) => parse_dict(bytes@, 0, Seq::empty()) is None && e is Other,
            },
    {
        match Benc::read_dict(bytes, 0) {
            Ok((entries, _)) => Ok(entries),
            Err(e) => Err(e),
        }
    }

    /// Decodes the node that starts at `pos`. Where a node could start, the
    /// awaited `delim` gives `Error::Delim`, and the end of the input or a
    /// null byte gives `Error::EndOfFile`.
    fn node(bytes: &[u8], pos: usize, delim: Option<u8>) -> (r: Result<(Benc, usize), Error>)
        requires
            pos <= bytes@.len(),
        ensures
            delim_at(bytes@, pos as int, delim) ==> (r matches Err(Error::Delim(c)) && Some(c)
                == delim),
            !delim_at(bytes@, pos as int, delim) && at_end(bytes@, pos as int) ==> (r matches Err(
                Error::EndOfFile,
            )),
            !delim_at(bytes@, pos as int, delim) && !at_end(bytes@, pos as int) ==> match r {
                Ok((v, q)) => parse_value(bytes@, pos as int) == Some((v@, q as int)) && pos < q
                    <= bytes@.len(),
                Err(e) => parse_value(bytes@, pos as int) is None && e is Other,
            },
            r matches Err(Error::Delim(_)) ==> delim_at(bytes@, pos as int, delim),
        decreases bytes@.len() - pos, 0int,
    {
        if pos >= bytes.len() {
            return Err(Error::EndOfFile);
        }
        let c = bytes[pos];
        if let Some(d) = delim {
            if c == d {
                return Err(Error::Delim(c));
            }
        }
        if c == 0 {
            return Err(Error::EndOfFile);
        }
        proof {
            lemma_digits_end(bytes@, pos + 1);
        }
        match NodeType::type_of(c) {
            Some(NodeType::String) => match Benc::read_string(bytes, c, pos + 1) {
                Ok((b, q)) => Ok((Benc::String(b), q)),
                Err(e) => Err(e),
            },
            Some(NodeType::Int) => match Benc::read_int(bytes, pos + 1) {
                Ok((n, q)) => Ok((Benc::Int(n), q)),
                Err(e) => Err(e),
            },
            Some(NodeType::List) => match Benc::read_list(bytes, pos + 1) {
                Ok((items, q)) => Ok((Benc::List(items), q)),
                Err(e) => Err(e),
            },
            Some(NodeType::Dict) => match Benc::read_dict(bytes, pos + 1) {
                Ok((entries, q)) => Ok((Benc::Dict(entries), q)),
                Err(e) => Err(e),
            },
            None => Err(Error::Other("Parse error")),
        }
    }

    /// Reads a byte string whose first length digit `first` was already
    /// read; the rest of the node starts at `pos`.
    fn read_string(bytes: &[u8], first: u8, pos: usize) -> (r: Result<(Vec<u8>, usize), Error>)
        requires
            pos <= bytes@.len(),
        ensures
            match r {
                Ok((b, q)) => parse_string(first, bytes@, pos as int) == Some((b@, q as int)) && pos
                    < q <= bytes@.len(),
                Err(e) => parse_string(first, bytes@, pos as int) is None && e is Other,
            },
    {
        let ghost s = bytes@;
        if !(ZERO <= first && first <= NINE) {
            return Err(Error::Other("Invalid string bencoding"));
        }
        let mut len: usize = (first - ZERO) as usize;
        let mut i: usize = pos;
        proof {
            lemma_digits_end(s, pos as int);
        }
        while i < bytes.len() && ZERO <= bytes[i] && bytes[i] <= NINE
            invariant
                pos <= i <= bytes@.len(),
                s == bytes@,
                digits_end(s, pos as int) == digits_end(s, i as int),
                len as nat == number(digit_value(first), s, pos as int, i as int),
            decreases bytes.len() - i,
        {
            let d = (bytes[i] - ZERO) as usize;
            let next = match len.checked_mul(10) {
                Some(m) => m.checked_add(d),
                None => None,
            };
            match next {
                Some(n) => {
                    len = n;
                },
                None => {
                    proof {
                        lemma_digits_end(s, i as int);
                        lemma_number_monotone(
                            digit_value(first),
                            s,
                            pos as int,
                            i + 1,
                            digits_end(s, pos as int),
                        );
                    }
                    return Err(Error::Other("Integer overflow"));
                },
            }
            i = i + 1;
        }
        if i >= bytes.len() || bytes[i] != COLON || len == 0 {
            return Err(Error::Other("Invalid string bencoding"));
        }
        let start = i + 1;
        if len > bytes.len() - start {
            return Err(Error::Other("Invalid string bencoding"));
        }
        let end = start + len;
        let mut buf: Vec<u8> = Vec::with_capacity(len);
        let mut j: usize = start;
        while j < end
            invariant
                start <= j <= end <= bytes@.len(),
                buf@ == bytes@.subrange(start as int, j as int),
            decreases end - j,
        {
            buf.push(bytes[j]);
            j = j + 1;
            assert(buf@ =~= bytes@.subrange(start as int, j as int));
        }
        Ok((buf, end))
    }

    /// Reads the body of an integer node, which starts at `pos`, just after
    /// its `i`.
    fn read_int(bytes: &[u8], pos: usize) -> (r: Result<(i64, usize), Error>)
        requires
            pos <= bytes@.len(),
        ensures
            match r {
                Ok((n, q)) => parse_int(bytes@, pos as int) == Some((n, q as int)) && pos < q
                    <= bytes@.len(),
                Err(e) => parse_int(bytes@, pos as int) is None && e is Other,
            },
    {
        if pos >= bytes.len() {
            return Err(Error::Other("Invalid int bencoding"));
        }
        let c = bytes[pos];
        if c == MINUS {
            // a digit from 1 to 9 must follow the sign
            if pos + 1 < bytes.len() && ONE <= bytes[pos + 1] && bytes[pos + 1] <= NINE {
                read_digits(bytes, pos + 1, true)
            } else {
                Err(Error::Other("Invalid int bencoding"))
            }
        } else if c == ZERO {
            // no digit may follow a leading zero
            if pos + 1 < bytes.len() && bytes[pos + 1] == END {
                Ok((0, pos + 2))
            } else {
                Err(Error::Other("Invalid int bencoding"))
            }
        } else if ONE <= c && c <= NINE {
            read_digits(bytes, pos, false)
        } else {
            Err(Error::Other("Invalid int bencoding"))
        }
    }

    /// Reads the items of a list, from `pos` (just after its `l`) through
    /// its closing `e`.
    fn read_list(bytes: &[u8], pos: usize) -> (r: Result<(Vec<Benc>, usize), Error>)
        requires
            pos <= bytes@.len(),
        ensures
            match r {
                Ok((items, q)) => parse_list(bytes@, pos as int, Seq::empty()) == Some(
                    (Value::List(values_of(items@)), q as int),
                ) && pos < q <= bytes@.len(),
                Err(e) => parse_list(bytes@, pos as int, Seq::empty()) is None && e is Other,
            },
        decreases bytes@.len() - pos, 1int,
    {
        let ghost s = bytes@;
        let mut list: Vec<Benc> = Vec::new();
        let mut p: usize = pos;
        loop
            invariant
                pos <= p <= bytes@.len(),
                bytes@.len() == bytes.len(),
                s == bytes@,
                parse_list(s, pos as int, Seq::empty()) == parse_list(
                    s,
                    p as int,
                    values_of(list@),
                ),
            decreases bytes@.len() - p,
        {
            match Benc::node(bytes, p, Some(END)) {
                Ok((n, q)) => {
                    proof {
                        lemma_values_of_push(list@, n);
                    }
                    list.push(n);
                    p = q;
                },
                Err(Error::Delim(_)) => return Ok((list, p + 1)),
                Err(Error::EndOfFile) => return Err(Error::Other("Unexpected end of list")),
                Err(e) => return Err(e),
            }
        }
    }

    /// Reads the entries of a dictionary, from `pos` (just after its `d`)
    /// through its closing `e`. Each key must be a byte string greater than
    /// the key before it.
    fn read_dict(bytes: &[u8], pos: usize) -> (r: Result<(Vec<(Vec<u8>, Benc)>, usize), Error>)
        requires
            pos <= bytes@.len(),
        ensures
            match r {
                Ok((entries, q)) => parse_dict(bytes@, pos as int, Seq::empty()) == Some(
                    (Value::Dict(entries_of(entries@)), q as int),
                ) && pos < q <= bytes@.len(),
                Err(e) => parse_dict(bytes@, pos as int, Seq::empty()) is None && e is Other,
            },
        decreases bytes@.len() - pos, 1int,
    {
        let ghost s = bytes@;
        let mut dict: Vec<(Vec<u8>, Benc)> = Vec::new();
        let mut p: usize = pos;
        loop
            invariant
                pos <= p <= bytes@.len(),
                bytes@.len() == bytes.len(),
                s == bytes@,
                parse_dict(s, pos as int, Seq::empty()) == parse_dict(
                    s,
                    p as int,
                    entries_of(dict@),
                ),
            decreases bytes@.len() - p,
        {
            let (key, q) = match Benc::node(bytes, p, Some(END)) {
                Ok((Benc::String(k), q)) => (k, q),
                Ok(_) => return Err(Error::Other("Expected `BString` key for dictionary")),
                Err(Error::Delim(_)) => return Ok((dict, p + 1)),
                Err(Error::EndOfFile) => return Err(Error::Other("Unexpected end of dictionary")),
                Err(e) => return Err(e),
            };
            if dict.len() > 0 {
                proof {
                    lemma_entries_of_index(dict@);
                }
                if !bytes_less(&dict[dict.len() - 1].0, &key) {
                    return Err(Error::Other("Invalid dict bencoding"));
                }
            }
            match Benc::node(bytes, q, None) {
                Ok((v, r)) => {
                    proof {
                        lemma_entries_of_push(dict@, (key, v));
                    }
                    dict.push((key, v));
                    p = r;
                },
                Err(Error::EndOfFile) => return Err(Error::Other("Unexpected end of dictionary")),
                Err(e) => return Err(e),
            }
        }
    }
}

} // verus!
