//! The grammar of replies, as functions on sequences of bytes.
//!
//! A reply starts with a line: a tag byte, the line's text, and a terminator.
//! A line ends at its first line feed; a carriage return directly before the
//! line feed belongs to the terminator. Bulk strings carry their payload by
//! declared length, never by line boundaries, and arrays carry further
//! replies.

use vstd::prelude::*;
use vstd::utf8::{decode_utf8, valid_utf8};
use crate::error::Error;
use crate::reply::Reply;

verus! {

/// The line feed that ends every line.
pub const LF: u8 = 10;

/// The carriage return that precedes the line feed in a terminator.
pub const CR: u8 = 13;

/// How many arrays may stand inside one another in a single reply.
pub const MAX_DEPTH: usize = 64;

/// What decoding yields: the reply with the number of bytes it took, or the
/// reason why there is none.
pub type Parsed = Result<(Reply, int), Error>;

/// `i` is the place of the first line feed in `s`.
pub open spec fn is_line_end(s: Seq<u8>, i: int) -> bool {
    &&& 0 <= i < s.len()
    &&& s[i] == LF
    &&& forall|j: int| 0 <= j < i ==> #[trigger] s[j] != LF
}

/// The place of the first line feed in `s`, if it holds one.
pub open spec fn line_end(s: Seq<u8>) -> Option<int> {
    if exists|i: int| is_line_end(s, i) {
        Some(choose|i: int| is_line_end(s, i))
    } else {
        None
    }
}

/// `line` without the carriage return at its end, if it has one.
pub open spec fn strip_cr(line: Seq<u8>) -> Seq<u8> {
    if line.len() > 0 && line.last() == CR {
        line.drop_last()
    } else {
        line
    }
}

/// The text of the first line of `s`, whose line feed stands at `end`: what
/// lies between the tag byte and the terminator.
pub open spec fn line_text(s: Seq<u8>, end: int) -> Seq<u8> {
    strip_cr(s.subrange(1, end))
}

/// ASCII whitespace: space, tab, line feed, vertical tab, form feed,
/// carriage return.
pub open spec fn is_space(b: u8) -> bool {
    b == 32 || 9 <= b <= 13
}

/// `i` is where the leading run of non-whitespace bytes of `s` ends.
pub open spec fn is_token_end(s: Seq<u8>, i: int) -> bool {
    &&& 0 <= i <= s.len()
    &&& i < s.len() ==> is_space(s[i])
    &&& forall|j: int| 0 <= j < i ==> !is_space(#[trigger] s[j])
}

/// The bytes of `s` up to its first whitespace.
pub open spec fn token(s: Seq<u8>) -> Seq<u8> {
    s.take(choose|i: int| is_token_end(s, i))
}

/// An ASCII decimal digit.
pub open spec fn is_digit(b: u8) -> bool {
    48 <= b <= 57
}

/// Every byte of `d` is a decimal digit.
pub open spec fn all_digits(d: Seq<u8>) -> bool {
    forall|i: int| 0 <= i < d.len() ==> is_digit(#[trigger] d[i])
}

/// The number that the decimal digits `d` write.
pub open spec fn digits_value(d: Seq<u8>) -> nat
    decreases d.len(),
{
    if d.len() == 0 {
        0
    } else {
        digits_value(d.drop_last()) * 10 + (d.last() - 48) as nat
    }
}

/// The signed integer that `tok` writes: an optional `+` or `-`, then at
/// least one digit and nothing else, with a value that fits 64 bits.
pub open spec fn declared(tok: Seq<u8>) -> Option<int> {
    let signed = tok.len() > 0 && (tok[0] == 45 || tok[0] == 43);
    let digits = if signed { tok.drop_first() } else { tok };
    let magnitude = digits_value(digits) as int;
    let value = if signed && tok[0] == 45 { -magnitude } else { magnitude };
    if digits.len() > 0 && all_digits(digits) && i64::MIN <= value <= i64::MAX {
        Some(value)
    } else {
        None
    }
}

/// The characters that `bytes` encode, if they are UTF-8.
pub open spec fn text_of(bytes: Seq<u8>) -> Option<Seq<char>> {
    if valid_utf8(bytes) {
        Some(decode_utf8(bytes))
    } else {
        None
    }
}

/// `parsed`, with `by` more bytes taken before it.
pub open spec fn shift(parsed: Parsed, by: int) -> Parsed {
    match parsed {
        Ok((reply, used)) => Ok((reply, by + used)),
        Err(e) => Err(e),
    }
}

/// A status line (`+` or `-`) with the given text.
pub open spec fn parse_state(text: Seq<u8>) -> Parsed {
    match text_of(text) {
        Some(t) => Ok((Reply::State(t), 0)),
        None => Err(Error::FailedDataRead),
    }
}

/// An integer line (`:`) with the given text.
pub open spec fn parse_integer(text: Seq<u8>) -> Parsed {
    match text_of(text) {
        Some(t) => Ok((Reply::Integer(t), 0)),
        None => Err(Error::FailedDataRead),
    }
}

/// A bulk string whose header declared `length`, read from `rest`, the bytes
/// after the header line: exactly the declared number of bytes, then the
/// terminator. The payload may itself hold terminator bytes.
pub open spec fn parse_bulk(rest: Seq<u8>, length: Option<int>) -> Parsed {
    match length {
        None => Err(Error::MalformedLength),
        Some(n) => if n == -1 {
            Ok((Reply::Null, 0))
        } else if n < 0 {
            Err(Error::MalformedLength)
        } else if rest.len() < n + 2 {
            Err(Error::ReadEmptyData)
        } else if rest[n] != CR || rest[n + 1] != LF {
            Err(Error::MalformedLength)
        } else {
            match text_of(rest.take(n)) {
                Some(t) => Ok((Reply::BulkString { data: t, size: n as nat }, n + 2)),
                None => Err(Error::FailedDataRead),
            }
        },
    }
}

/// Whether `b` is the tag of a reply type.
pub open spec fn is_tag(b: u8) -> bool {
    b == 43 || b == 45 || b == 36 || b == 58 || b == 42
}

/// An array whose header declared `count`, read from `rest`, the bytes after
/// the header line, where `budget` further levels of arrays may open.
pub open spec fn parse_array(rest: Seq<u8>, count: Option<int>, budget: nat) -> Parsed
    decreases budget, 0nat,
{
    match count {
        None => Err(Error::MalformedLength),
        Some(n) => if n == -1 {
            Ok((Reply::Null, 0))
        } else if n < 0 {
            Err(Error::MalformedLength)
        } else if n == 0 {
            Ok((Reply::Array(Seq::empty()), 0))
        } else if budget == 0 {
            Err(Error::NestingTooDeep)
        } else {
            match parse_items(rest, n as nat, (budget - 1) as nat) {
                Ok((items, used)) => Ok((Reply::Array(items), used)),
                Err(e) => Err(e),
            }
        },
    }
}

/// The reply that `s` starts with, where `budget` further levels of arrays
/// may open inside it.
///
/// Nothing to read is `ReadEmptyData`; a first byte that is no tag is
/// `UnknownType`; a line that the bytes do not finish is `ReadEmptyData`.
/// Then the tag decides: `+` and `-` give the line's text as a status, `:`
/// gives it as an integer, `$` a bulk string and `*` an array, each of the
/// length that the line's first token declares.
pub open spec fn parse_reply(s: Seq<u8>, budget: nat) -> Parsed
    decreases budget, 1nat,
{
    if s.len() == 0 {
        Err(Error::ReadEmptyData)
    } else if !is_tag(s[0]) {
        Err(Error::UnknownType)
    } else {
        match line_end(s) {
            None => Err(Error::ReadEmptyData),
            Some(end) => {
                let tag = s[0];
                let text = line_text(s, end);
                let rest = s.skip(end + 1);
                if tag == 43 || tag == 45 {
                    shift(parse_state(text), end + 1)
                } else if tag == 58 {
                    shift(parse_integer(text), end + 1)
                } else if tag == 36 {
                    shift(parse_bulk(rest, declared(token(text))), end + 1)
                } else {
                    shift(parse_array(rest, declared(token(text)), budget), end + 1)
                }
            },
        }
    }
}

/// The `count` replies that `s` starts with, one after the other, and the
/// bytes they take together. The first that fails decides the error.
pub open spec fn parse_items(s: Seq<u8>, count: nat, budget: nat) -> Result<
    (Seq<Reply>, int),
    Error,
>
    decreases budget, count + 2,
{
    if count == 0 {
        Ok((Seq::empty(), 0))
    } else {
        match parse_reply(s, budget) {
            Err(e) => Err(e),
            Ok((first, used)) => match parse_items(s.skip(used), (count - 1) as nat, budget) {
                Err(e) => Err(e),
                Ok((others, more)) => Ok((seq![first] + others, used + more)),
            },
        }
    }
}

/// `items` and `used` bytes put before what `tail` yields.
pub open spec fn prepend(items: Seq<Reply>, used: int, tail: Result<(Seq<Reply>, int), Error>)
    -> Result<(Seq<Reply>, int), Error> {
    match tail {
        Ok((others, more)) => Ok((items + others, used + more)),
        Err(e) => Err(e),
    }
}

/// The first line feed is the only place that `is_line_end` accepts.
pub proof fn lemma_line_end_unique(s: Seq<u8>, i: int)
    requires
        is_line_end(s, i),
    ensures
        line_end(s) == Some(i),
{
    let c = choose|c: int| is_line_end(s, c);
    assert(is_line_end(s, c));
    if c < i {
        assert(s[c] != LF);
    }
    if i < c {
        assert(s[i] != LF);
    }
}

/// Bytes without a line feed hold no line.
pub proof fn lemma_no_line(s: Seq<u8>)
    requires
        forall|j: int| 0 <= j < s.len() ==> #[trigger] s[j] != LF,
    ensures
        line_end(s) is None,
{
}

/// The token ends at the only place that `is_token_end` accepts.
pub proof fn lemma_token_end_unique(s: Seq<u8>, i: int)
    requires
        is_token_end(s, i),
    ensures
        token(s) == s.take(i),
{
    let c = choose|c: int| is_token_end(s, c);
    assert(is_token_end(s, c));
    if c < i {
        assert(!is_space(s[c]));
    }
    if i < c {
        assert(!is_space(s[i]));
    }
}

/// Digits written after a number never make it smaller.
pub proof fn lemma_digits_prefix(d: Seq<u8>, k: int)
    requires
        0 <= k <= d.len(),
    ensures
        digits_value(d.take(k)) <= digits_value(d),
    decreases d.len(),
{
    if k == d.len() {
        assert(d.take(k) =~= d);
    } else {
        lemma_digits_prefix(d.drop_last(), k);
        assert(d.drop_last().take(k) =~= d.take(k));
    }
}

/// Nothing put before a sequence of replies leaves it as it is.
pub proof fn lemma_prepend_nothing(tail: Result<(Seq<Reply>, int), Error>)
    ensures
        prepend(Seq::empty(), 0, tail) == tail,
{
    if let Ok((others, more)) = tail {
        assert(Seq::<Reply>::empty() + others =~= others);
    }
}

/// Taking the first of `count` replies off `s` moves it from the tail to
/// the items before it.
pub proof fn lemma_prepend_step(
    s: Seq<u8>,
    count: nat,
    budget: nat,
    items: Seq<Reply>,
    used: int,
    first: Reply,
    taken: int,
)
    requires
        count > 0,
        parse_reply(s, budget) == Ok::<(Reply, int), Error>((first, taken)),
    ensures
        prepend(items, used, parse_items(s, count, budget)) == prepend(
            items.push(first),
            used + taken,
            parse_items(s.skip(taken), (count - 1) as nat, budget),
        ),
{
    if let Ok((others, more)) = parse_items(s.skip(taken), (count - 1) as nat, budget) {
        assert(items + (seq![first] + others) =~= items.push(first) + others);
    }
}

} // verus!
