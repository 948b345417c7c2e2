//! What holds of the grammar for every input.

use vstd::prelude::*;
use vstd::utf8::decode_utf8_encode_utf8;
use crate::error::Error;
use crate::exchange::{step, Event, Step};
use crate::reply::Reply;
use crate::wire::{
    declared, is_line_end, is_tag, lemma_line_end_unique, line_end, line_text, parse_items,
    parse_reply, token, MAX_DEPTH,
};

verus! {

/// Nothing to read where a reply should start is an empty read.
pub proof fn lemma_no_bytes_is_empty_read(s: Seq<u8>, budget: nat)
    requires
        s.len() == 0,
    ensures
        parse_reply(s, budget) == Err::<(Reply, int), Error>(Error::ReadEmptyData),
{
}

/// A first byte that is none of `+`, `-`, `$`, `:`, `*` gives `UnknownType`
/// and no reply, whatever follows it.
pub proof fn lemma_unknown_tag_is_rejected(s: Seq<u8>, budget: nat)
    requires
        s.len() > 0,
        !is_tag(s[0]),
    ensures
        parse_reply(s, budget) == Err::<(Reply, int), Error>(Error::UnknownType),
{
}

/// A bulk string or an array that declares `-1` is `Null` and takes its
/// header line only: the bytes behind the line have no say.
pub proof fn lemma_null_sentinel(s: Seq<u8>, end: int, budget: nat)
    requires
        is_line_end(s, end),
        s[0] == 36 || s[0] == 42,
        declared(token(line_text(s, end))) == Some(-1int),
    ensures
        parse_reply(s, budget) == Ok::<(Reply, int), Error>((Reply::Null, end + 1)),
{
    lemma_line_end_unique(s, end);
}

/// An array that declares no elements is the empty array and takes its
/// header line only: the bytes behind the line have no say.
pub proof fn lemma_empty_array(s: Seq<u8>, end: int, budget: nat)
    requires
        is_line_end(s, end),
        s[0] == 42,
        declared(token(line_text(s, end))) == Some(0int),
    ensures
        parse_reply(s, budget) == Ok::<(Reply, int), Error>(
            (Reply::Array(Seq::empty()), end + 1),
        ),
{
    lemma_line_end_unique(s, end);
}

/// A reply takes at least its tag and a line feed, and never more bytes
/// than there are.
pub proof fn lemma_reply_within(s: Seq<u8>, budget: nat)
    ensures
        parse_reply(s, budget) matches Ok((_, used)) ==> 2 <= used <= s.len(),
    decreases budget, 1nat,
{
    if s.len() > 0 && is_tag(s[0]) {
        if let Some(end) = line_end(s) {
            assert(is_line_end(s, end));
            let rest = s.skip(end + 1);
            let count = declared(token(line_text(s, end)));
            if s[0] == 42 {
                if let Some(n) = count {
                    if n > 0 && budget > 0 {
                        lemma_items_within(rest, n as nat, (budget - 1) as nat);
                    }
                }
            }
        }
    }
}

/// Replies decoded in a row are as many as were asked for, and take no more
/// bytes than there are.
pub proof fn lemma_items_within(s: Seq<u8>, count: nat, budget: nat)
    ensures
        parse_items(s, count, budget) matches Ok((items, used)) ==> items.len() == count && 0
            <= used <= s.len(),
    decreases budget, count + 2,
{
    if count > 0 {
        lemma_reply_within(s, budget);
        if let Ok((first, used)) = parse_reply(s, budget) {
            lemma_items_within(s.skip(used), (count - 1) as nat, budget);
        }
    }
}

/// An array that declares `n` elements, `n` not negative, is decoded as an
/// array of exactly `n` elements or not at all.
pub proof fn lemma_array_holds_declared_count(s: Seq<u8>, end: int, n: int, budget: nat)
    requires
        is_line_end(s, end),
        s[0] == 42,
        declared(token(line_text(s, end))) == Some(n),
        n >= 0,
    ensures
        match parse_reply(s, budget) {
            Ok((reply, _)) => reply matches Reply::Array(items) && items.len() == n,
            Err(_) => true,
        },
{
    lemma_line_end_unique(s, end);
    if n > 0 && budget > 0 {
        lemma_items_within(s.skip(end + 1), n as nat, (budget - 1) as nat);
    }
}

/// Every reply that decoding gives is well formed: its bulk strings have
/// the sizes that their headers declared, which are the sizes of their data.
pub proof fn lemma_reply_well_formed(s: Seq<u8>, budget: nat)
    ensures
        parse_reply(s, budget) matches Ok((reply, _)) ==> reply.well_formed(),
    decreases budget, 1nat,
{
    if let Ok((reply, _)) = parse_reply(s, budget) {
        let end = line_end(s)->Some_0;
        let rest = s.skip(end + 1);
        let count = declared(token(line_text(s, end)));
        if s[0] == 36 {
            let n = count->Some_0;
            if n >= 0 {
                decode_utf8_encode_utf8(rest.take(n));
            }
        } else if s[0] == 42 {
            let n = count->Some_0;
            if n > 0 {
                lemma_items_well_formed(rest, n as nat, (budget - 1) as nat);
            }
        }
    }
}

/// Replies decoded in a row are each well formed.
pub proof fn lemma_items_well_formed(s: Seq<u8>, count: nat, budget: nat)
    ensures
        parse_items(s, count, budget) matches Ok((items, _)) ==> forall|i: int|
            0 <= i < items.len() ==> (#[trigger] items[i]).well_formed(),
    decreases budget, count + 2,
{
    if count > 0 {
        lemma_reply_well_formed(s, budget);
        if let Ok((first, used)) = parse_reply(s, budget) {
            lemma_items_well_formed(s.skip(used), (count - 1) as nat, budget);
        }
    }
}

/// Where the `i`th of the replies decoded in a row from `s` starts.
pub open spec fn item_start(s: Seq<u8>, i: nat, budget: nat) -> int
    decreases i,
{
    if i == 0 {
        0
    } else {
        match parse_reply(s, budget) {
            Ok((_, used)) => used + item_start(s.skip(used), (i - 1) as nat, budget),
            Err(_) => 0,
        }
    }
}

/// Each element of an array is a reply in its own right: the one that
/// decoding finds where the elements before it end.
pub proof fn lemma_items_are_replies(s: Seq<u8>, count: nat, budget: nat, i: nat)
    requires
        parse_items(s, count, budget) is Ok,
        i < count,
    ensures
        0 <= item_start(s, i, budget) <= s.len(),
        match parse_items(s, count, budget) {
            Ok((items, _)) => match parse_reply(s.skip(item_start(s, i, budget)), budget) {
                Ok((reply, _)) => i < items.len() && reply == items[i as int],
                Err(_) => false,
            },
            Err(_) => true,
        },
    decreases i,
{
    lemma_reply_within(s, budget);
    lemma_items_within(s, count, budget);
    let (first, used) = parse_reply(s, budget)->Ok_0;
    let (others, more) = parse_items(s.skip(used), (count - 1) as nat, budget)->Ok_0;
    if i == 0 {
        assert(s.skip(0) =~= s);
    } else {
        let tail = s.skip(used);
        lemma_items_are_replies(tail, (count - 1) as nat, budget, (i - 1) as nat);
        let at = item_start(tail, (i - 1) as nat, budget);
        assert(tail.skip(at) =~= s.skip(used + at));
        assert((seq![first] + others)[i as int] == others[i - 1]);
    }
}

/// A reply that has been decoded stays what it is when more bytes arrive,
/// and so does every failure but the empty read: only an empty read may
/// turn into something else.
pub proof fn lemma_reply_stable(s: Seq<u8>, more: Seq<u8>, budget: nat)
    requires
        parse_reply(s, budget) != Err::<(Reply, int), Error>(Error::ReadEmptyData),
    ensures
        parse_reply(s + more, budget) == parse_reply(s, budget),
    decreases budget, 1nat,
{
    let t = s + more;
    assert(t[0] == s[0]);
    if is_tag(s[0]) {
        let end = line_end(s)->Some_0;
        assert(is_line_end(s, end));
        assert forall|j: int| 0 <= j <= end implies t[j] == s[j] by {}
        assert(is_line_end(t, end));
        lemma_line_end_unique(t, end);
        assert(t.subrange(1, end) =~= s.subrange(1, end));
        let rest = s.skip(end + 1);
        assert(t.skip(end + 1) =~= rest + more);
        let count = declared(token(line_text(s, end)));
        if s[0] == 36 {
            if let Some(n) = count {
                if n >= 0 {
                    assert(rest.len() >= n + 2);
                    assert((rest + more)[n] == rest[n]);
                    assert((rest + more)[n + 1] == rest[n + 1]);
                    assert((rest + more).take(n) =~= rest.take(n));
                }
            }
        } else if s[0] == 42 {
            if let Some(n) = count {
                if n > 0 && budget > 0 {
                    lemma_items_stable(rest, more, n as nat, (budget - 1) as nat);
                }
            }
        }
    }
}

/// Replies decoded in a row stay what they are when more bytes arrive, as
/// one reply does.
pub proof fn lemma_items_stable(s: Seq<u8>, more: Seq<u8>, count: nat, budget: nat)
    requires
        parse_items(s, count, budget) != Err::<(Seq<Reply>, int), Error>(Error::ReadEmptyData),
    ensures
        parse_items(s + more, count, budget) == parse_items(s, count, budget),
    decreases budget, count + 2,
{
    if count > 0 {
        lemma_reply_stable(s, more, budget);
        lemma_reply_within(s, budget);
        if let Ok((first, used)) = parse_reply(s, budget) {
            assert((s + more).skip(used) =~= s.skip(used) + more);
            lemma_items_stable(s.skip(used), more, (count - 1) as nat, budget);
        }
    }
}

/// A reply is decoded from the bytes it takes and from no others: cut off
/// behind them, the input gives the same reply.
pub proof fn lemma_reply_local(s: Seq<u8>, budget: nat)
    requires
        parse_reply(s, budget) is Ok,
    ensures
        parse_reply(s, budget) matches Ok((_, used)) && parse_reply(s.take(used), budget)
            == parse_reply(s, budget),
    decreases budget, 1nat,
{
    lemma_reply_within(s, budget);
    let used = parse_reply(s, budget)->Ok_0.1;
    let t = s.take(used);
    let end = line_end(s)->Some_0;
    assert(is_line_end(s, end));
    let rest = s.skip(end + 1);
    let count = declared(token(line_text(s, end)));
    if s[0] == 42 {
        let n = count->Some_0;
        if n > 0 {
            lemma_items_within(rest, n as nat, (budget - 1) as nat);
            lemma_items_local(rest, n as nat, (budget - 1) as nat);
        }
    }
    assert(end + 1 <= used);
    assert(t[0] == s[0]);
    assert forall|j: int| 0 <= j <= end implies t[j] == s[j] by {}
    assert(is_line_end(t, end));
    lemma_line_end_unique(t, end);
    assert(t.subrange(1, end) =~= s.subrange(1, end));
    assert(t.skip(end + 1) =~= rest.take(used - end - 1));
    if s[0] == 36 {
        let n = count->Some_0;
        if n >= 0 {
            let cut = rest.take(n + 2);
            assert(cut[n] == rest[n]);
            assert(cut[n + 1] == rest[n + 1]);
            assert(cut.take(n) =~= rest.take(n));
        }
    }
}

/// Replies decoded in a row are decoded from the bytes they take and from
/// no others.
pub proof fn lemma_items_local(s: Seq<u8>, count: nat, budget: nat)
    requires
        parse_items(s, count, budget) is Ok,
    ensures
        parse_items(s, count, budget) matches Ok((_, used)) && parse_items(
            s.take(used),
            count,
            budget,
        ) == parse_items(s, count, budget),
    decreases budget, count + 2,
{
    if count > 0 {
        lemma_reply_within(s, budget);
        let (first, one) = parse_reply(s, budget)->Ok_0;
        let tail = s.skip(one);
        lemma_items_within(tail, (count - 1) as nat, budget);
        let (others, two) = parse_items(tail, (count - 1) as nat, budget)->Ok_0;
        let t = s.take(one + two);
        lemma_reply_local(s, budget);
        lemma_reply_stable(s.take(one), s.subrange(one, one + two), budget);
        assert(s.take(one) + s.subrange(one, one + two) =~= t);
        lemma_items_local(tail, (count - 1) as nat, budget);
        assert(t.skip(one) =~= tail.take(two));
    }
}

/// An exchange that ends on received bytes ends with what the whole stream
/// decodes to, whatever the peer sends after them.
pub proof fn lemma_done_is_final(got: Seq<u8>, event: Event, more: Seq<u8>)
    requires
        event matches Event::Received(chunk) && chunk@.len() > 0,
        step(got, event) is Done,
    ensures
        event matches Event::Received(chunk) && step(got, event) == Step::Done(
            parse_reply(got + chunk@ + more, MAX_DEPTH as nat),
        ),
{
    let chunk = event->Received_0;
    lemma_reply_stable(got + chunk@, more, MAX_DEPTH as nat);
}

} // verus!
