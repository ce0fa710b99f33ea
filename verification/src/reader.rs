//! The input reader: turns one line of text into a guess value.
//!
//! A line is trimmed of surrounding ASCII whitespace and then read as an
//! unsigned 8-bit decimal literal (an optional `+` sign followed by one or
//! more digits, with a value of at most 255).  Anything else is reported
//! as a parse failure that carries the offending (trimmed) text, so the
//! caller can show it and ask again.

use vstd::prelude::*;

verus! {

/// Error reported when a line cannot be parsed as a guess.
///
/// A failure of the input channel itself is fatal and is handled by the
/// surrounding program before the text reaches this library, so only the
/// parse failure is represented here.
#[derive(Debug, PartialEq, Eq)]
pub enum MyError {
    /// The trimmed line that did not parse.
    ParseError(String),
}

/// The ASCII whitespace characters stripped from both ends of a line.
pub open spec fn is_space_char(c: char) -> bool {
    c == ' ' || c == '\t' || c == '\n' || c == '\r' || c == '\x0b' || c == '\x0c'
}

/// A sequence with its leading whitespace removed.
pub open spec fn ltrim(s: Seq<char>) -> Seq<char>
    decreases s.len(),
{
    if s.len() > 0 && is_space_char(s[0]) {
        ltrim(s.skip(1))
    } else {
        s
    }
}

/// A sequence with its trailing whitespace removed.
pub open spec fn rtrim(s: Seq<char>) -> Seq<char>
    decreases s.len(),
{
    if s.len() > 0 && is_space_char(s.last()) {
        rtrim(s.take(s.len() - 1))
    } else {
        s
    }
}

/// A sequence with whitespace removed from both ends.
pub open spec fn trim_of(s: Seq<char>) -> Seq<char> {
    rtrim(ltrim(s))
}

/// An ASCII decimal digit, `'0'` through `'9'`.
pub open spec fn is_digit_char(c: char) -> bool {
    48 <= c as int && c as int <= 57
}

/// The numeric value of an ASCII decimal digit.
pub open spec fn digit_of(c: char) -> int {
    c as int - 48
}

/// Every character of the sequence is an ASCII decimal digit.
pub open spec fn all_digits(s: Seq<char>) -> bool {
    forall|i: int| 0 <= i < s.len() ==> is_digit_char(s[i])
}

/// The value of a digit sequence read as a base-10 numeral.
pub open spec fn digits_value(s: Seq<char>) -> int
    decreases s.len(),
{
    if s.len() == 0 {
        0
    } else {
        digits_value(s.take(s.len() - 1)) * 10 + digit_of(s.last())
    }
}

/// The digits of a literal: everything after an optional leading `+`.
pub open spec fn literal_body(s: Seq<char>) -> Seq<char> {
    if s.len() > 0 && s[0] == '+' {
        s.skip(1)
    } else {
        s
    }
}

/// The (already trimmed) sequence is a valid unsigned 8-bit decimal
/// literal: an optional `+`, then one or more digits, value at most 255.
pub open spec fn is_u8_literal(s: Seq<char>) -> bool {
    &&& literal_body(s).len() > 0
    &&& all_digits(literal_body(s))
    &&& digits_value(literal_body(s)) <= 255
}

/// The value of a valid unsigned 8-bit decimal literal.
pub open spec fn u8_literal_value(s: Seq<char>) -> int {
    digits_value(literal_body(s))
}

proof fn lemma_digits_value_nonneg(s: Seq<char>)
    requires
        all_digits(s),
    ensures
        digits_value(s) >= 0,
    decreases s.len(),
{
    if s.len() > 0 {
        assert(all_digits(s.take(s.len() - 1)));
        lemma_digits_value_nonneg(s.take(s.len() - 1));
    }
}

proof fn lemma_digits_value_mono(s: Seq<char>, j: int)
    requires
        all_digits(s),
        0 <= j <= s.len(),
    ensures
        digits_value(s) >= digits_value(s.take(j)),
    decreases s.len(),
{
    if j == s.len() {
        assert(s.take(j) =~= s);
    } else {
        let front = s.take(s.len() - 1);
        assert(all_digits(front));
        assert(front.take(j) =~= s.take(j));
        lemma_digits_value_mono(front, j);
        lemma_digits_value_nonneg(front);
    }
}

proof fn lemma_ltrim_skip(s: Seq<char>, lo: int)
    requires
        0 <= lo <= s.len(),
        forall|i: int| 0 <= i < lo ==> is_space_char(s[i]),
        lo == s.len() || !is_space_char(s[lo]),
    ensures
        ltrim(s) == s.skip(lo),
    decreases lo,
{
    if lo == 0 {
        assert(s.skip(0) =~= s);
    } else {
        assert(is_space_char(s[0]));
        let rest = s.skip(1);
        assert(forall|i: int| 0 <= i < lo - 1 ==> is_space_char(rest[i]));
        lemma_ltrim_skip(rest, lo - 1);
        assert(rest.skip(lo - 1) =~= s.skip(lo));
    }
}

proof fn lemma_rtrim_take(s: Seq<char>, hi: int)
    requires
        0 <= hi <= s.len(),
        forall|i: int| hi <= i < s.len() ==> is_space_char(s[i]),
        hi == 0 || !is_space_char(s[hi - 1]),
    ensures
        rtrim(s) == s.take(hi),
    decreases s.len() - hi,
{
    if hi == s.len() {
        assert(s.take(hi) =~= s);
    } else {
        assert(is_space_char(s.last()));
        let front = s.take(s.len() - 1);
        assert(forall|i: int| hi <= i < front.len() ==> is_space_char(front[i]));
        lemma_rtrim_take(front, hi);
        assert(front.take(hi) =~= s.take(hi));
    }
}

/// Trimming keeps exactly the characters between the first and the last
/// non-whitespace position.
proof fn lemma_trim_of_subrange(s: Seq<char>, lo: int, hi: int)
    requires
        0 <= lo <= hi <= s.len(),
        forall|i: int| 0 <= i < lo ==> is_space_char(s[i]),
        forall|i: int| hi <= i < s.len() ==> is_space_char(s[i]),
        lo == s.len() || !is_space_char(s[lo]),
        hi == lo || !is_space_char(s[hi - 1]),
    ensures
        trim_of(s) == s.subrange(lo, hi),
{
    lemma_ltrim_skip(s, lo);
    let mid = s.skip(lo);
    assert(forall|i: int| hi - lo <= i < mid.len() ==> is_space_char(mid[i]));
    lemma_rtrim_take(mid, hi - lo);
    assert(mid.take(hi - lo) =~= s.subrange(lo, hi));
}

fn is_space(c: char) -> (b: bool)
    ensures
        b == is_space_char(c),
{
    c == ' ' || c == '\t' || c == '\n' || c == '\r' || c == '\x0b' || c == '\x0c'
}

/// Parse one line of input as a guess: trim surrounding whitespace, then
/// read the text as an unsigned 8-bit decimal literal.
///
/// Returns the parsed value when the trimmed line is a valid literal, and
/// otherwise a [`MyError::ParseError`] carrying the trimmed line.
pub fn prompt_parsed(line: &str) -> (r: Result<u8, MyError>)
    ensures
        is_u8_literal(trim_of(line@)) ==> (r matches Ok(v) && v as int == u8_literal_value(
            trim_of(line@),
        )),
        !is_u8_literal(trim_of(line@)) ==> (r matches Err(MyError::ParseError(t)) && t@ == trim_of(
            line@,
        )),
{
    let len = line.unicode_len();
    let mut lo: usize = 0;
    loop
        invariant
            lo <= len,
            len == line@.len(),
            forall|i: int| 0 <= i < lo ==> is_space_char(line@[i]),
        ensures
            lo <= len,
            len == line@.len(),
            forall|i: int| 0 <= i < lo ==> is_space_char(line@[i]),
            lo == len || !is_space_char(line@[lo as int]),
        decreases len - lo,
    {
        if lo == len {
            break ;
        }
        let c = line.get_char(lo);
        if !is_space(c) {
            break ;
        }
        lo = lo + 1;
    }
    let mut hi: usize = len;
    loop
        invariant
            lo <= hi <= len,
            len == line@.len(),
            forall|i: int| hi <= i < len ==> is_space_char(line@[i]),
        ensures
            lo <= hi <= len,
            forall|i: int| hi <= i < len ==> is_space_char(line@[i]),
            hi == lo || !is_space_char(line@[hi - 1]),
        decreases hi,
    {
        if hi == lo {
            break ;
        }
        let c = line.get_char(hi - 1);
        if !is_space(c) {
            break ;
        }
        hi = hi - 1;
    }
    proof {
        lemma_trim_of_subrange(line@, lo as int, hi as int);
    }
    let ghost t = trim_of(line@);
    let trimmed = line.substring_char(lo, hi);
    if lo == hi {
        assert(literal_body(t).len() == 0);
        return Err(MyError::ParseError(String::from_str(trimmed)));
    }
    let first = line.get_char(lo);
    let start: usize = if first == '+' {
        lo + 1
    } else {
        lo
    };
    let ghost body = literal_body(t);
    proof {
        assert(body =~= line@.subrange(start as int, hi as int));
    }
    if start == hi {
        assert(body.len() == 0);
        return Err(MyError::ParseError(String::from_str(trimmed)));
    }
    let mut i: usize = start;
    let mut val: u32 = 0;
    while i < hi
        invariant
            start <= i <= hi <= len,
            len == line@.len(),
            t == trim_of(line@),
            trimmed@ == t,
            body == line@.subrange(start as int, hi as int),
            body == literal_body(t),
            body.len() == hi - start,
            forall|j: int| 0 <= j < i - start ==> is_digit_char(body[j]),
            val == digits_value(body.take(i - start)),
            val <= 255,
        decreases hi - i,
    {
        let c = line.get_char(i);
        let u = c as u32;
        let ghost k = i - start;
        assert(body[k] == c);
        if u < 48 || u > 57 {
            assert(!is_digit_char(body[k]));
            return Err(MyError::ParseError(String::from_str(trimmed)));
        }
        let d = u - 48;
        proof {
            assert(body.take(k + 1).take(k) =~= body.take(k));
            assert(body.take(k + 1).last() == body[k]);
            assert(digits_value(body.take(k + 1)) == val * 10 + digit_of(c));
        }
        let v2 = val * 10 + d;
        if v2 > 255 {
            proof {
                if all_digits(body) {
                    lemma_digits_value_mono(body, k + 1);
                }
            }
            return Err(MyError::ParseError(String::from_str(trimmed)));
        }
        val = v2;
        i = i + 1;
    }
    proof {
        assert(body.take(hi - start) =~= body);
    }
    Ok(val as u8)
}

} // verus!
