//! Whitespace-separated signed decimal integers read from a byte sequence.

use vstd::prelude::*;
use vstd::string::StringSliceAdditionalSpecFns;

verus! {

/// ASCII whitespace as the input format defines it: space, tab, LF and CR.
pub open spec fn is_ws(b: u8) -> bool {
    b == 32 || b == 9 || b == 10 || b == 13
}

pub open spec fn is_digit(b: u8) -> bool {
    48 <= b && b <= 57
}

pub open spec fn all_digits(t: Seq<u8>) -> bool {
    forall|j: int| 0 <= j < t.len() ==> is_digit(#[trigger] t[j])
}

/// The first index at or after `i` that does not hold whitespace (or the end).
pub open spec fn skip_ws(b: Seq<u8>, i: int) -> int
    decreases b.len() - i,
{
    if i >= b.len() || !is_ws(b[i]) {
        i
    } else {
        skip_ws(b, i + 1)
    }
}

/// The first index at or after `i` that holds whitespace (or the end).
pub open spec fn token_end(b: Seq<u8>, i: int) -> int
    decreases b.len() - i,
{
    if i >= b.len() || is_ws(b[i]) {
        i
    } else {
        token_end(b, i + 1)
    }
}

/// The value of a non-empty string of decimal digits.
pub open spec fn digits_value(t: Seq<u8>) -> int
    decreases t.len(),
{
    if t.len() == 0 {
        0
    } else {
        digits_value(t.drop_last()) * 10 + (t.last() - 48)
    }
}

pub open spec fn in_i32(v: int) -> bool {
    i32::MIN <= v && v <= i32::MAX
}

/// The integer a token denotes: an optional `-` followed by one or more decimal
/// digits, within the range of `i32`.
pub open spec fn token_value(t: Seq<u8>) -> Option<i32> {
    if t.len() >= 2 && t[0] == 45 && all_digits(t.drop_first()) && in_i32(
        -digits_value(t.drop_first()),
    ) {
        Some((-digits_value(t.drop_first())) as i32)
    } else if t.len() >= 1 && all_digits(t) && in_i32(digits_value(t)) {
        Some(digits_value(t) as i32)
    } else {
        None
    }
}

/// The records in `b` from index `i` on, or the offset of the first token that
/// is not a valid record.
pub open spec fn parse_from(b: Seq<u8>, i: int) -> Result<Seq<i32>, int>
    decreases b.len() - i via parse_from_decreases
{
    let s = skip_ws(b, i);
    if s >= b.len() {
        Ok(Seq::empty())
    } else {
        let e = token_end(b, s);
        match token_value(b.subrange(s, e)) {
            None => Err(s),
            Some(v) => match parse_from(b, e) {
                Ok(rest) => Ok(seq![v] + rest),
                Err(o) => Err(o),
            },
        }
    }
}

#[via_fn]
proof fn parse_from_decreases(b: Seq<u8>, i: int) {
    lemma_skip_ws(b, i);
    let s = skip_ws(b, i);
    if s < b.len() {
        lemma_token_end(b, s);
    }
}

/// The records of a whole input, or the offset of its first bad token.
pub open spec fn parse_all(b: Seq<u8>) -> Result<Seq<i32>, int> {
    parse_from(b, 0)
}

pub open spec fn prepend(a: Seq<i32>, r: Result<Seq<i32>, int>) -> Result<Seq<i32>, int> {
    match r {
        Ok(s) => Ok(a + s),
        Err(o) => Err(o),
    }
}

proof fn lemma_skip_ws(b: Seq<u8>, i: int)
    ensures
        skip_ws(b, i) >= i,
        skip_ws(b, i) >= b.len() || !is_ws(b[skip_ws(b, i)]),
        i <= b.len() ==> skip_ws(b, i) <= b.len(),
        forall|j: int| i <= j < skip_ws(b, i) ==> is_ws(#[trigger] b[j]),
    decreases b.len() - i,
{
    if i < b.len() && is_ws(b[i]) {
        lemma_skip_ws(b, i + 1);
    }
}

proof fn lemma_token_end(b: Seq<u8>, i: int)
    ensures
        token_end(b, i) >= i,
        i < b.len() && !is_ws(b[i]) ==> token_end(b, i) > i,
        i <= b.len() ==> token_end(b, i) <= b.len(),
        forall|j: int| i <= j < token_end(b, i) ==> !is_ws(#[trigger] b[j]),
    decreases b.len() - i,
{
    if i < b.len() && !is_ws(b[i]) {
        lemma_token_end(b, i + 1);
    }
}

/// A prefix of a string of digits has no greater value.
proof fn lemma_digits_prefix(t: Seq<u8>, n: int)
    requires
        0 <= n <= t.len(),
        all_digits(t),
    ensures
        0 <= digits_value(t.take(n)) <= digits_value(t),
    decreases t.len(),
{
    if t.len() > 0 {
        if n == t.len() {
            assert(t.take(n) =~= t);
            lemma_digits_prefix(t.drop_last(), n - 1);
        } else {
            assert(t.drop_last().take(n) =~= t.take(n));
            lemma_digits_prefix(t.drop_last(), n);
        }
        assert(is_digit(t[t.len() - 1]));
    }
}

/// What went wrong while reading records.
#[derive(Debug, Clone, Copy, PartialEq, Eq, Structural)]
pub struct InputError {
    /// Byte offset of the token that is not a signed 32-bit decimal integer.
    pub offset: usize,
}

/// Reads records one at a time from a byte sequence.
pub struct InputElementReader {
    bytes: Vec<u8>,
    pos: usize,
}

/// Value of the digits in `b[from..to]`, or `None` where one is no digit or
/// the value exceeds 2^31.
fn parse_digits(b: &Vec<u8>, from: usize, to: usize) -> (r: Option<i64>)
    requires
        from <= to <= b.len(),
    ensures
        match r {
            Some(v) => all_digits(b@.subrange(from as int, to as int)) && v == digits_value(
                b@.subrange(from as int, to as int),
            ) && 0 <= v <= 2147483648,
            None => !all_digits(b@.subrange(from as int, to as int)) || digits_value(
                b@.subrange(from as int, to as int),
            ) > 2147483648,
        },
{
    let ghost t = b@.subrange(from as int, to as int);
    let mut acc: i64 = 0;
    let mut i: usize = from;
    while i < to
        invariant
            from <= i <= to <= b.len(),
            t == b@.subrange(from as int, to as int),
            all_digits(t.take(i - from)),
            acc == digits_value(t.take(i - from)),
            0 <= acc <= 2147483648,
        decreases to - i,
    {
        let c = b[i];
        if c < 48 || c > 57 {
            assert(!is_digit(t[i - from]));
            return None;
        }
        proof {
            let p = t.take(i - from + 1);
            assert(p.drop_last() =~= t.take(i - from));
            assert(p.last() == c);
        }
        acc = acc * 10 + (c - 48) as i64;
        if acc > 2147483648 {
            proof {
                let n = i - from + 1;
                if all_digits(t) {
                    lemma_digits_prefix(t, n);
                }
            }
            return None;
        }
        i = i + 1;
    }
    assert(t.take(to - from) =~= t);
    Some(acc)
}

/// The value of the token `b[s..e]`, if it is a record.
fn parse_token(b: &Vec<u8>, s: usize, e: usize) -> (r: Option<i32>)
    requires
        s < e <= b.len(),
    ensures
        r == token_value(b@.subrange(s as int, e as int)),
{
    let ghost t = b@.subrange(s as int, e as int);
    if b[s] == 45 {
        assert(!is_digit(t[0]));
        if e - s < 2 {
            return None;
        }
        assert(t.drop_first() =~= b@.subrange(s + 1, e as int));
        match parse_digits(b, s + 1, e) {
            Some(v) => {
                let n = -v;
                if n < -2147483648 {
                    None
                } else {
                    Some(n as i32)
                }
            },
            None => None,
        }
    } else {
        assert(!all_digits(t.drop_first()) || t[0] != 45);
        match parse_digits(b, s, e) {
            Some(v) => {
                if v > 2147483647 {
                    None
                } else {
                    Some(v as i32)
                }
            },
            None => None,
        }
    }
}

impl InputElementReader {
    pub closed spec fn data(&self) -> Seq<u8> {
        self.bytes@
    }

    pub closed spec fn position(&self) -> int {
        self.pos as int
    }

    pub open spec fn inv(&self) -> bool {
        0 <= self.position() <= self.data().len()
    }

    /// The records that are still to be read.
    pub open spec fn remaining(&self) -> Result<Seq<i32>, int> {
        parse_from(self.data(), self.position())
    }

    pub fn new(bytes: Vec<u8>) -> (r: Self)
        ensures
            r.inv(),
            r.data() == bytes@,
            r.position() == 0,
    {
        InputElementReader { bytes, pos: 0 }
    }

    /// Reads the next record: `Ok(None)` once only whitespace is left, an error
    /// at the first token that is not a signed 32-bit decimal integer.
    pub fn next_element(&mut self) -> (r: Result<Option<i32>, InputError>)
        requires
            old(self).inv(),
        ensures
            final(self).inv(),
            final(self).data() == old(self).data(),
            ({
                let b = old(self).data();
                let s = skip_ws(b, old(self).position());
                let e = token_end(b, s);
                match r {
                    Ok(None) => s >= b.len() && final(self).position() == b.len(),
                    Ok(Some(v)) => s < b.len() && token_value(b.subrange(s, e)) == Some(v)
                        && final(self).position() == e,
                    Err(err) => s < b.len() && token_value(b.subrange(s, e)) is None
                        && err.offset == s,
                }
            }),
            match r {
                Ok(None) => old(self).remaining() == Ok::<Seq<i32>, int>(Seq::<i32>::empty()),
                Ok(Some(v)) => old(self).remaining() == prepend(seq![v], final(self).remaining()),
                Err(err) => old(self).remaining() == Err::<Seq<i32>, int>(err.offset as int),
            },
    {
        let ghost b = self.bytes@;
        let n = self.bytes.len();
        proof {
            lemma_skip_ws(b, self.pos as int);
        }
        let mut s = self.pos;
        while s < n && (self.bytes[s] == 32 || self.bytes[s] == 9 || self.bytes[s] == 10
            || self.bytes[s] == 13)
            invariant
                self.pos <= s <= n == b.len(),
                b == self.bytes@,
                skip_ws(b, self.pos as int) == skip_ws(b, s as int),
            decreases n - s,
        {
            s = s + 1;
        }
        if s >= n {
            self.pos = n;
            return Ok(None);
        }
        proof {
            lemma_token_end(b, s as int);
        }
        let mut e = s;
        while e < n && !(self.bytes[e] == 32 || self.bytes[e] == 9 || self.bytes[e] == 10
            || self.bytes[e] == 13)
            invariant
                s <= e <= n == b.len(),
                b == self.bytes@,
                token_end(b, s as int) == token_end(b, e as int),
            decreases n - e,
        {
            e = e + 1;
        }
        proof {
            lemma_token_end(b, s as int);
        }
        match parse_token(&self.bytes, s, e) {
            Some(v) => {
                self.pos = e;
                Ok(Some(v))
            },
            None => Err(InputError { offset: s }),
        }
    }
}

/// Parses a whole input into its records.
pub fn parse_records(bytes: Vec<u8>) -> (r: Result<Vec<i32>, InputError>)
    ensures
        match r {
            Ok(v) => parse_all(bytes@) == Ok::<Seq<i32>, int>(v@),
            Err(e) => parse_all(bytes@) == Err::<Seq<i32>, int>(e.offset as int),
        },
{
    let mut reader = InputElementReader::new(bytes);
    let mut out: Vec<i32> = Vec::new();
    loop
        invariant
            reader.inv(),
            reader.data() == bytes@,
            parse_all(bytes@) == prepend(out@, reader.remaining()),
        decreases reader.data().len() - reader.position(),
    {
        let ghost p0 = reader.position();
        match reader.next_element() {
            Ok(Some(v)) => {
                proof {
                    lemma_skip_ws(bytes@, p0);
                    lemma_token_end(bytes@, skip_ws(bytes@, p0));
                    assert(out@.push(v) =~= out@ + seq![v]);
                    match reader.remaining() {
                        Ok(rest) => assert(out@ + (seq![v] + rest) =~= out@.push(v) + rest),
                        Err(_) => {},
                    }
                }
                out.push(v);
            },
            Ok(None) => {
                assert(out@ + Seq::<i32>::empty() =~= out@);
                return Ok(out);
            },
            Err(e) => {
                return Err(e);
            },
        }
    }
}


/// Every record takes at least one byte.
pub proof fn lemma_parse_len(b: Seq<u8>, i: int)
    requires
        0 <= i <= b.len(),
    ensures
        parse_from(b, i) matches Ok(v) ==> v.len() <= b.len() - i,
    decreases b.len() - i,
{
    lemma_skip_ws(b, i);
    let s = skip_ws(b, i);
    if s < b.len() {
        lemma_token_end(b, s);
        let e = token_end(b, s);
        lemma_parse_len(b, e);
    }
}


/// The id a run file name encodes: `run_<id>.txt`, the id an optional `+`
/// followed by decimal digits within the range of `u32`.
pub open spec fn run_id_of(b: Seq<u8>) -> Option<u32> {
    if b.len() >= 9 && b.take(4) == seq![114u8, 117u8, 110u8, 95u8] && b.skip(b.len() - 4) == seq![
        46u8,
        116u8,
        120u8,
        116u8,
    ] {
        let m = b.subrange(4, b.len() - 4);
        let d = if m[0] == 43 {
            m.drop_first()
        } else {
            m
        };
        if d.len() >= 1 && all_digits(d) && digits_value(d) <= u32::MAX {
            Some(digits_value(d) as u32)
        } else {
            None
        }
    } else {
        None
    }
}

/// Reads the id out of a run file name, `None` for any other name.
pub fn parse_run_id(file_name: &str) -> (r: Option<u32>)
    ensures
        r == run_id_of(file_name.spec_bytes()),
{
    let b = file_name.as_bytes();
    let n = b.len();
    if n < 9 {
        return None;
    }
    if !(b[0] == 114 && b[1] == 117 && b[2] == 110 && b[3] == 95) {
        assert(b@.take(4) != seq![114u8, 117u8, 110u8, 95u8]) by {
            if b@.take(4) == seq![114u8, 117u8, 110u8, 95u8] {
                assert(b@.take(4)[0] == 114u8 && b@.take(4)[1] == 117u8);
                assert(b@.take(4)[2] == 110u8 && b@.take(4)[3] == 95u8);
            }
        }
        return None;
    }
    if !(b[n - 4] == 46 && b[n - 3] == 116 && b[n - 2] == 120 && b[n - 1] == 116) {
        assert(b@.skip(n - 4) != seq![46u8, 116u8, 120u8, 116u8]) by {
            if b@.skip(n - 4) == seq![46u8, 116u8, 120u8, 116u8] {
                assert(b@.skip(n - 4)[0] == 46u8 && b@.skip(n - 4)[1] == 116u8);
                assert(b@.skip(n - 4)[2] == 120u8 && b@.skip(n - 4)[3] == 116u8);
            }
        }
        return None;
    }
    assert(b@.take(4) =~= seq![114u8, 117u8, 110u8, 95u8]);
    assert(b@.skip(n - 4) =~= seq![46u8, 116u8, 120u8, 116u8]);
    let ghost m = b@.subrange(4, n - 4);
    let start: usize = if b[4] == 43 { 5 } else { 4 };
    let end = n - 4;
    let ghost d = b@.subrange(start as int, end as int);
    assert(d =~= if m[0] == 43 { m.drop_first() } else { m });
    assert(run_id_of(b@) == (if d.len() >= 1 && all_digits(d) && digits_value(d) <= u32::MAX {
        Some(digits_value(d) as u32)
    } else {
        None
    }));
    if start >= end {
        return None;
    }
    let mut acc: u64 = 0;
    let mut i: usize = start;
    while i < end
        invariant
            start <= i <= end <= b@.len(),
            b@ == file_name.spec_bytes(),
            d.len() >= 1,
            run_id_of(b@) == (if d.len() >= 1 && all_digits(d) && digits_value(d) <= u32::MAX {
                Some(digits_value(d) as u32)
            } else {
                None
            }),
            d == b@.subrange(start as int, end as int),
            all_digits(d.take(i - start)),
            acc == digits_value(d.take(i - start)),
            acc <= u32::MAX,
        decreases end - i,
    {
        let c = b[i];
        if c < 48 || c > 57 {
            assert(!is_digit(d[i - start]));
            return None;
        }
        proof {
            let p = d.take(i - start + 1);
            assert(p.drop_last() =~= d.take(i - start));
            assert(p.last() == c);
        }
        acc = acc * 10 + (c - 48) as u64;
        if acc > 4294967295 {
            proof {
                if all_digits(d) {
                    lemma_digits_prefix(d, i - start + 1);
                }
            }
            return None;
        }
        i = i + 1;
    }
    assert(d.take(end - start) =~= d);
    Some(acc as u32)
}

/// Counts the records of an input, or reports its first bad token.
pub fn count_elements(bytes: Vec<u8>) -> (r: Result<u64, InputError>)
    requires
        bytes.len() <= u64::MAX,
    ensures
        match parse_all(bytes@) {
            Ok(v) => r == Ok::<u64, InputError>(v.len() as u64),
            Err(o) => r == Err::<u64, InputError>(InputError { offset: o as usize }),
        },
{
    let mut reader = InputElementReader::new(bytes);
    let mut count: u64 = 0;
    proof {
        lemma_parse_len(bytes@, 0);
    }
    loop
        invariant
            reader.inv(),
            reader.data() == bytes@,
            bytes@.len() <= u64::MAX,
            match parse_all(bytes@) {
                Ok(v) => reader.remaining() matches Ok(rest) && v.len() == count + rest.len(),
                Err(o) => reader.remaining() == Err::<Seq<i32>, int>(o),
            },
            count <= reader.position(),
        decreases reader.data().len() - reader.position(),
    {
        let ghost p0 = reader.position();
        proof {
            lemma_parse_len(bytes@, p0);
        }
        match reader.next_element() {
            Ok(Some(_)) => {
                proof {
                    lemma_skip_ws(bytes@, p0);
                    lemma_token_end(bytes@, skip_ws(bytes@, p0));
                    lemma_parse_len(bytes@, reader.position());
                }
                count = count + 1;
            },
            Ok(None) => {
                return Ok(count);
            },
            Err(e) => {
                return Err(e);
            },
        }
    }
}

} // verus!
