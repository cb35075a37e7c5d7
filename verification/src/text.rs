//! Texts as bytes: lines, pieces between separators, words and unsigned numbers.

use vstd::prelude::*;
use vstd::slice::slice_subrange;
use crate::decimal::number;

verus! {

/// The byte `\n`.
pub const NEWLINE: u8 = 0x0a;

/// The byte `\r`.
pub const CARRIAGE_RETURN: u8 = 0x0d;

/// The byte `+`.
pub const PLUS: u8 = 0x2b;

/// What is wrong with a text: the entry at position `at`, counted from zero, is not of the
/// expected form, while those before it are.
#[derive(Debug, Clone, Copy, PartialEq, Eq, Structural)]
pub struct Malformed {
    pub at: usize,
}

/// The position of the first `sep` in `s`, or the length of `s` when it holds none.
pub open spec fn index_of(s: Seq<u8>, sep: u8) -> int
    decreases s.len(),
{
    if s.len() == 0 || s[0] == sep {
        0
    } else {
        1 + index_of(s.drop_first(), sep)
    }
}

/// The pieces of `s` between the occurrences of `sep`: always at least one, possibly empty.
pub open spec fn split_on(s: Seq<u8>, sep: u8) -> Seq<Seq<u8>>
    decreases s.len(),
{
    let at = index_of(s, sep);
    if 0 <= at < s.len() {
        seq![s.take(at)] + split_on(s.skip(at + 1), sep)
    } else {
        seq![s]
    }
}

/// `line` without the carriage return that it may end in.
pub open spec fn without_carriage_return(line: Seq<u8>) -> Seq<u8> {
    if line.len() > 0 && line.last() == CARRIAGE_RETURN {
        line.drop_last()
    } else {
        line
    }
}

/// The lines of `s`: each ends at a newline, which is dropped together with a carriage return
/// right before it; what follows the last newline is a line too unless it is empty.
pub open spec fn lines_of(s: Seq<u8>) -> Seq<Seq<u8>>
    decreases s.len(),
{
    let at = index_of(s, NEWLINE);
    if s.len() == 0 {
        Seq::empty()
    } else if 0 <= at < s.len() {
        seq![without_carriage_return(s.take(at))] + lines_of(s.skip(at + 1))
    } else {
        seq![s]
    }
}

/// The byte for a blank.
pub const SPACE: u8 = 0x20;

/// The pieces of `parts` that are not empty, in order.
pub open spec fn non_empty(parts: Seq<Seq<u8>>) -> Seq<Seq<u8>>
    decreases parts.len(),
{
    if parts.len() == 0 {
        Seq::empty()
    } else if parts.last().len() == 0 {
        non_empty(parts.drop_last())
    } else {
        non_empty(parts.drop_last()).push(parts.last())
    }
}

/// The words of `line`: what stands between its blanks.
pub open spec fn words_of(line: Seq<u8>) -> Seq<Seq<u8>> {
    non_empty(split_on(line, SPACE))
}

/// What each of `parts` holds.
pub open spec fn contents(parts: Seq<&[u8]>) -> Seq<Seq<u8>> {
    Seq::new(parts.len(), |i: int| parts[i]@)
}

/// Whether `b` is an ASCII digit.
pub open spec fn is_digit(b: u8) -> bool {
    0x30 <= b <= 0x39
}

/// The values of the ASCII digits `s`.
pub open spec fn digit_values(s: Seq<u8>) -> Seq<u8> {
    Seq::new(s.len(), |i: int| (s[i] - 0x30) as u8)
}

/// `s` without the plus sign that it may start with.
pub open spec fn after_sign(s: Seq<u8>) -> Seq<u8> {
    if s.len() > 0 && s[0] == PLUS {
        s.skip(1)
    } else {
        s
    }
}

/// Whether `s` is an unsigned number in base ten: one or more digits, after at most one plus
/// sign.
pub open spec fn is_unsigned(s: Seq<u8>) -> bool {
    &&& after_sign(s).len() > 0
    &&& forall|i: int| 0 <= i < after_sign(s).len() ==> is_digit(#[trigger] after_sign(s)[i])
}

/// The number that the digits of `s` spell.
pub open spec fn unsigned_value(s: Seq<u8>) -> nat {
    number(digit_values(after_sign(s)))
}

/// The first `sep` is where the first `sep` is seen.
proof fn lemma_index_of(s: Seq<u8>, sep: u8, at: int)
    requires
        0 <= at <= s.len(),
        forall|i: int| 0 <= i < at ==> s[i] != sep,
        at < s.len() ==> s[at] == sep,
    ensures
        index_of(s, sep) == at,
    decreases s.len(),
{
    if at > 0 {
        lemma_index_of(s.drop_first(), sep, at - 1);
    }
}

/// Splits `bytes` at every `sep`.
pub fn split<'a>(bytes: &'a [u8], sep: u8) -> (parts: Vec<&'a [u8]>)
    ensures
        contents(parts@) == split_on(bytes@, sep),
        parts@.len() >= 1,
{
    let ghost s = bytes@;
    let mut parts: Vec<&'a [u8]> = Vec::new();
    let mut start: usize = 0;
    let mut i: usize = 0;
    assert(contents(parts@) + split_on(s.skip(0), sep) =~= split_on(s, sep)) by {
        assert(s.skip(0) == s);
    }
    while i < bytes.len()
        invariant
            start <= i <= s.len(),
            s == bytes@,
            contents(parts@) + split_on(s.skip(start as int), sep) == split_on(s, sep),
            forall|j: int| start <= j < i ==> s[j] != sep,
        decreases s.len() - i,
    {
        if bytes[i] == sep {
            let part = slice_subrange(bytes, start, i);
            proof {
                let rest = s.skip(start as int);
                lemma_index_of(rest, sep, i - start);
                assert(rest.take(i - start) == s.subrange(start as int, i as int));
                assert(rest.skip(i - start + 1) == s.skip(i + 1));
                assert(contents(parts@) + (seq![part@] + split_on(s.skip(i + 1), sep)) =~= (
                contents(parts@) + seq![part@]) + split_on(s.skip(i + 1), sep));
            }
            parts.push(part);
            start = i + 1;
        }
        i += 1;
    }
    let part = slice_subrange(bytes, start, i);
    proof {
        let rest = s.skip(start as int);
        lemma_index_of(rest, sep, i - start);
    }
    parts.push(part);
    parts
}

/// Splits `bytes` into lines.
pub fn lines<'a>(bytes: &'a [u8]) -> (found: Vec<&'a [u8]>)
    ensures
        contents(found@) == lines_of(bytes@),
{
    let ghost s = bytes@;
    let mut found: Vec<&'a [u8]> = Vec::new();
    let mut start: usize = 0;
    let mut i: usize = 0;
    assert(contents(found@) + lines_of(s.skip(0)) =~= lines_of(s)) by {
        assert(s.skip(0) == s);
    }
    while i < bytes.len()
        invariant
            start <= i <= s.len(),
            s == bytes@,
            contents(found@) + lines_of(s.skip(start as int)) == lines_of(s),
            forall|j: int| start <= j < i ==> s[j] != NEWLINE,
        decreases s.len() - i,
    {
        if bytes[i] == NEWLINE {
            let end = if i > start && bytes[i - 1] == CARRIAGE_RETURN {
                i - 1
            } else {
                i
            };
            let line = slice_subrange(bytes, start, end);
            proof {
                let rest = s.skip(start as int);
                lemma_index_of(rest, NEWLINE, i - start);
                assert(rest.take(i - start) == s.subrange(start as int, i as int));
                assert(without_carriage_return(s.subrange(start as int, i as int)) =~= line@);
                assert(rest.skip(i - start + 1) == s.skip(i + 1));
                assert(contents(found@) + (seq![line@] + lines_of(s.skip(i + 1))) =~= (contents(
                    found@,
                ) + seq![line@]) + lines_of(s.skip(i + 1)));
            }
            found.push(line);
            start = i + 1;
        }
        i += 1;
    }
    if start < i {
        let line = slice_subrange(bytes, start, i);
        proof {
            let rest = s.skip(start as int);
            lemma_index_of(rest, NEWLINE, i - start);
        }
        found.push(line);
    }
    found
}

/// Splits `line` into its words.
pub fn words<'a>(line: &'a [u8]) -> (found: Vec<&'a [u8]>)
    ensures
        contents(found@) == words_of(line@),
        forall|i: int| 0 <= i < found@.len() ==> (#[trigger] found@[i])@.len() > 0,
{
    let parts = split(line, SPACE);
    let ghost pieces = split_on(line@, SPACE);
    let mut found: Vec<&'a [u8]> = Vec::new();
    let mut i: usize = 0;
    while i < parts.len()
        invariant
            i <= parts@.len(),
            contents(parts@) == pieces,
            contents(found@) == non_empty(pieces.take(i as int)),
            forall|k: int| 0 <= k < found@.len() ==> (#[trigger] found@[k])@.len() > 0,
        decreases parts@.len() - i,
    {
        let part = parts[i];
        proof {
            assert(pieces.take(i + 1).drop_last() == pieces.take(i as int));
        }
        if part.len() > 0 {
            found.push(part);
        }
        i += 1;
    }
    assert(pieces.take(i as int) == pieces);
    found
}

/// The first digits of a number spell no more than all of them.
proof fn lemma_number_prefix(d: Seq<u8>, k: int)
    requires
        0 <= k <= d.len(),
    ensures
        number(d.take(k)) <= number(d),
    decreases d.len() - k,
{
    if k < d.len() {
        lemma_number_prefix(d.drop_last(), k);
        assert(d.drop_last().take(k) == d.take(k));
    } else {
        assert(d.take(k) == d);
    }
}

/// Reads an unsigned number in base ten that is no larger than `max`: the value when `bytes`
/// is such a number, nothing otherwise.
pub fn parse_unsigned(bytes: &[u8], max: u64) -> (parsed: Option<u64>)
    ensures
        parsed == if is_unsigned(bytes@) && unsigned_value(bytes@) <= max {
            Some(unsigned_value(bytes@) as u64)
        } else {
            None
        },
{
    let ghost s = bytes@;
    let ghost d = after_sign(s);
    let start: usize = if bytes.len() > 0 && bytes[0] == PLUS {
        1
    } else {
        0
    };
    if start == bytes.len() {
        return None;
    }
    let mut acc: u64 = 0;
    let mut i: usize = start;
    while i < bytes.len()
        invariant
            start <= i <= s.len(),
            s == bytes@,
            d == after_sign(s),
            d.len() == s.len() - start,
            forall|j: int| 0 <= j < d.len() ==> d[j] == s[j + start],
            forall|j: int| 0 <= j < i - start ==> is_digit(#[trigger] d[j]),
            acc == number(digit_values(d).take(i - start)),
            acc <= max,
        decreases s.len() - i,
    {
        let b = bytes[i];
        if b < 0x30 || b > 0x39 {
            assert(!is_digit(d[i - start]));
            return None;
        }
        proof {
            let all = digit_values(d);
            assert(all.take(i - start + 1).drop_last() == all.take(i - start));
            lemma_number_prefix(all, i - start + 1);
        }
        let digit = (b - 0x30) as u64;
        let tenfold = match acc.checked_mul(10) {
            Some(tenfold) => tenfold,
            None => {
                return None;
            },
        };
        acc = match tenfold.checked_add(digit) {
            Some(sum) => sum,
            None => {
                return None;
            },
        };
        if acc > max {
            return None;
        }
        i += 1;
    }
    assert(digit_values(d).take(i - start) == digit_values(d));
    Some(acc)
}

} // verus!
