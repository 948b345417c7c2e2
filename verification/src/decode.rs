//! The decoder: one reply from the bytes received so far.

use vstd::prelude::*;
use vstd::slice::slice_subrange;
use crate::error::Error;
use crate::reply::{Reply, ReturnType};
use crate::text::decode_text;
use crate::wire::{
    all_digits, declared, digits_value, is_digit, is_space, lemma_digits_prefix,
    lemma_line_end_unique, lemma_no_line, lemma_prepend_nothing, lemma_prepend_step,
    lemma_token_end_unique, line_end, line_text, parse_bulk, parse_items, parse_reply, prepend,
    shift, strip_cr, token, Parsed, CR, LF, MAX_DEPTH,
};

verus! {

/// What a decoder's result says in terms of the grammar: the reply by its
/// model, the position as a number of bytes.
pub open spec fn outcome(r: Result<(ReturnType, usize), Error>) -> Parsed {
    match r {
        Ok((reply, end)) => Ok((reply@, end as int)),
        Err(e) => Err(e),
    }
}

/// Finds the first line feed of `input` at or after `from`.
fn find_line_end(input: &[u8], from: usize) -> (found: Option<usize>)
    requires
        from <= input.len(),
    ensures
        match found {
            Some(end) => from <= end < input.len() && line_end(input@.skip(from as int)) == Some(
                end - from,
            ),
            None => line_end(input@.skip(from as int)) is None,
        },
{
    let ghost s = input@.skip(from as int);
    let mut i: usize = from;
    while i < input.len()
        invariant
            from <= i <= input.len(),
            s == input@.skip(from as int),
            forall|j: int| 0 <= j < i - from ==> #[trigger] s[j] != LF,
        decreases input.len() - i,
    {
        if input[i] == LF {
            proof {
                assert(s[i - from] == input@[i as int]);
                lemma_line_end_unique(s, i - from);
            }
            return Some(i);
        }
        assert(s[i - from] == input@[i as int]);
        i += 1;
    }
    proof {
        lemma_no_line(s);
    }
    None
}

/// Whether `b` is ASCII whitespace.
fn space(b: u8) -> (yes: bool)
    ensures
        yes == is_space(b),
{
    b == 32 || (9 <= b && b <= 13)
}

/// Reads the signed integer that the first token of `text` writes.
#[verifier::loop_isolation(false)]
pub fn parse_declared(text: &[u8]) -> (value: Option<i64>)
    ensures
        match declared(token(text@)) {
            Some(n) => value == Some(n as i64) && n == n as i64,
            None => value is None,
        },
{
    let mut stop: usize = 0;
    while stop < text.len() && !space(text[stop])
        invariant
            stop <= text.len(),
            forall|j: int| 0 <= j < stop ==> !is_space(#[trigger] text@[j]),
        decreases text.len() - stop,
    {
        stop += 1;
    }
    proof {
        lemma_token_end_unique(text@, stop as int);
    }
    let ghost tok = text@.take(stop as int);
    let negative = stop > 0 && text[0] == 45;
    let signed = stop > 0 && (text[0] == 45 || text[0] == 43);
    let first: usize = if signed { 1 } else { 0 };
    let ghost digits = if signed { tok.drop_first() } else { tok };
    assert(digits =~= text@.subrange(first as int, stop as int));
    if first == stop {
        return None;
    }
    let limit: u64 = if negative { 9223372036854775808 } else { 9223372036854775807 };
    let mut magnitude: u64 = 0;
    let mut i: usize = first;
    while i < stop
        invariant
            first <= i <= stop <= text.len(),
            digits == text@.subrange(first as int, stop as int),
            all_digits(text@.subrange(first as int, i as int)),
            magnitude == digits_value(text@.subrange(first as int, i as int)),
            magnitude <= limit,
            limit <= 9223372036854775808,
        decreases stop - i,
    {
        let b = text[i];
        let ghost before = text@.subrange(first as int, i as int);
        let ghost upto = text@.subrange(first as int, i + 1);
        assert(upto.drop_last() =~= before);
        assert(upto.last() == b);
        assert(upto =~= digits.take(i + 1 - first));
        if b < 48 || b > 57 {
            assert(digits[i - first] == b);
            return None;
        }
        let next: u128 = magnitude as u128 * 10 + (b - 48) as u128;
        if next > limit as u128 {
            proof {
                assert(digits_value(upto) == next);
                lemma_digits_prefix(digits, i + 1 - first);
            }
            return None;
        }
        magnitude = next as u64;
        assert forall|j: int| 0 <= j < upto.len() implies is_digit(#[trigger] upto[j]) by {
            if j < before.len() {
                assert(upto[j] == before[j]);
            }
        }
        i += 1;
    }
    assert(text@.subrange(first as int, i as int) =~= digits);
    if negative {
        if magnitude == 9223372036854775808 {
            Some(i64::MIN)
        } else {
            Some(-(magnitude as i64))
        }
    } else {
        Some(magnitude as i64)
    }
}

/// The line's text: the bytes of `input` from `from` to `end`, without a
/// carriage return at their end.
fn text_between(input: &[u8], from: usize, end: usize) -> (text: &[u8])
    requires
        from <= end <= input.len(),
    ensures
        text@ == strip_cr(input@.subrange(from as int, end as int)),
{
    let ghost line = input@.subrange(from as int, end as int);
    if end > from && input[end - 1] == CR {
        assert(line.last() == input@[end - 1]);
        assert(line.drop_last() =~= input@.subrange(from as int, end - 1));
        slice_subrange(input, from, end - 1)
    } else {
        if end > from {
            assert(line.last() == input@[end - 1]);
        }
        slice_subrange(input, from, end)
    }
}

/// Decodes a bulk string's payload, which starts at `start` in `input`, from
/// the length that its header declared.
fn decode_bulk(input: &[u8], start: usize, length: Option<i64>) -> (r: Result<
    (ReturnType, usize),
    Error,
>)
    requires
        start <= input.len(),
    ensures
        outcome(r) == shift(
            parse_bulk(
                input@.skip(start as int),
                match length {
                    Some(n) => Some(n as int),
                    None => None,
                },
            ),
            start as int,
        ),
        r matches Ok((_, end)) ==> start <= end <= input.len(),
{
    let ghost rest = input@.skip(start as int);
    let n = match length {
        Some(n) => n,
        None => { return Err(Error::MalformedLength); },
    };
    if n == -1 {
        return Ok((ReturnType::Null, start));
    }
    if n < 0 {
        return Err(Error::MalformedLength);
    }
    let left: usize = input.len() - start;
    if left < 2 || n as u64 > (left - 2) as u64 {
        return Err(Error::ReadEmptyData);
    }
    let size: usize = n as usize;
    let stop: usize = start + size;
    assert(rest[n as int] == input@[stop as int]);
    assert(rest[n + 1] == input@[stop + 1]);
    if input[stop] != CR || input[stop + 1] != LF {
        return Err(Error::MalformedLength);
    }
    let payload = slice_subrange(input, start, stop);
    assert(payload@ =~= rest.take(n as int));
    match decode_text(payload) {
        Some(data) => Ok((ReturnType::BulkString { data, size }, stop + 2)),
        None => Err(Error::FailedDataRead),
    }
}

/// Decodes the reply that starts at `from` in `input`, where `budget` further
/// levels of arrays may open inside it. On success the second part of the
/// result is the position just behind the reply.
#[verifier::loop_isolation(false)]
fn decode_at(input: &[u8], from: usize, budget: usize) -> (r: Result<
    (ReturnType, usize),
    Error,
>)
    requires
        from <= input.len(),
    ensures
        outcome(r) == shift(parse_reply(input@.skip(from as int), budget as nat), from as int),
        r matches Ok((_, end)) ==> from <= end <= input.len(),
    decreases budget,
{
    let ghost s = input@.skip(from as int);
    if from == input.len() {
        return Err(Error::ReadEmptyData);
    }
    let tag = input[from];
    assert(s[0] == tag);
    if tag != 43 && tag != 45 && tag != 36 && tag != 58 && tag != 42 {
        return Err(Error::UnknownType);
    }
    let end = match find_line_end(input, from) {
        Some(end) => end,
        None => { return Err(Error::ReadEmptyData); },
    };
    let after: usize = end + 1;
    assert(s.subrange(1, end - from) =~= input@.subrange(from + 1, end as int));
    assert(s.skip(end - from + 1) =~= input@.skip(after as int));
    let text = text_between(input, from + 1, end);
    assert(text@ == line_text(s, end - from));
    if tag == 43 || tag == 45 {
        return match decode_text(text) {
            Some(t) => Ok((ReturnType::State(t), after)),
            None => Err(Error::FailedDataRead),
        };
    }
    if tag == 58 {
        return match decode_text(text) {
            Some(t) => Ok((ReturnType::Integer(t), after)),
            None => Err(Error::FailedDataRead),
        };
    }
    let length = parse_declared(text);
    if tag == 36 {
        return decode_bulk(input, after, length);
    }
    let count = match length {
        Some(n) => n,
        None => { return Err(Error::MalformedLength); },
    };
    if count == -1 {
        return Ok((ReturnType::Null, after));
    }
    if count < 0 {
        return Err(Error::MalformedLength);
    }
    if count == 0 {
        let none: Vec<Box<ReturnType>> = Vec::new();
        assert(ReturnType::Array(none)@ == Reply::Array(Seq::empty())) by {
            assert(ReturnType::Array(none).model()->Array_0 =~= Seq::<Reply>::empty());
        }
        return Ok((ReturnType::Array(none), after));
    }
    if budget == 0 {
        return Err(Error::NestingTooDeep);
    }
    let ghost rest = input@.skip(after as int);
    let ghost inner = (budget - 1) as nat;
    let mut items: Vec<Box<ReturnType>> = Vec::new();
    let ghost mut models: Seq<Reply> = Seq::empty();
    let mut at: usize = after;
    let mut done: i64 = 0;
    proof {
        lemma_prepend_nothing(parse_items(rest, count as nat, inner));
        assert(rest.skip(0) =~= rest);
    }
    while done < count
        invariant
            0 <= done <= count,
            budget > 0,
            inner == budget - 1,
            after <= at <= input.len(),
            rest == input@.skip(after as int),
            models.len() == items@.len(),
            forall|i: int| 0 <= i < models.len() ==> (*#[trigger] items@[i]).model() == models[i],
            parse_items(rest, count as nat, inner) == prepend(
                models,
                at - after,
                parse_items(input@.skip(at as int), (count - done) as nat, inner),
            ),
        decreases count - done,
    {
        let (item, next) = match decode_at(input, at, budget - 1) {
            Ok(pair) => pair,
            Err(e) => { return Err(e); },
        };
        proof {
            let here = input@.skip(at as int);
            lemma_prepend_step(
                here,
                (count - done) as nat,
                inner,
                models,
                at - after,
                item@,
                next - at,
            );
            assert(here.skip(next - at) =~= input@.skip(next as int));
            models = models.push(item@);
        }
        items.push(Box::new(item));
        at = next;
        done += 1;
    }
    assert(models + Seq::<Reply>::empty() =~= models);
    assert(ReturnType::Array(items)@ == Reply::Array(models)) by {
        assert(ReturnType::Array(items).model()->Array_0 =~= models);
    }
    Ok((ReturnType::Array(items), at))
}

/// Decodes the one reply that `input` starts with. On success the result
/// holds the reply and the number of bytes it took; bytes behind it are left
/// alone.
pub fn try_parse(input: &[u8]) -> (r: Result<(ReturnType, usize), Error>)
    ensures
        outcome(r) == parse_reply(input@, MAX_DEPTH as nat),
        r matches Ok((_, used)) ==> used <= input.len(),
{
    assert(input@.skip(0) =~= input@);
    let r = decode_at(input, 0, MAX_DEPTH);
    proof {
        let p = parse_reply(input@, MAX_DEPTH as nat);
        if let Ok((reply, used)) = p {
            assert(shift(p, 0) == p);
        }
    }
    r
}

} // verus!
