//! Writing a stream and reading it back: the text of a stream built from
//! messages is the text of the messages, one after the other.

use crate::dump::verdict;
use crate::record::Fault;
use crate::record::{decode_message, lemma_join_append, message_lines, message_text};
use crate::source::{head, tail};
use crate::stream::{first_frame, stream_lines, stream_text, stream_verdict};
use crate::wire::{run_rest, varint_at, varint_len, varint_span, varint_sum, word};
use vstd::arithmetic::div_mod::{lemma_fundamental_div_mod, lemma_small_mod};
use vstd::arithmetic::power2::{lemma2_to64, lemma_pow2_adds, pow2};
use vstd::prelude::*;

verus! {

/// The octets that encode `n` as a variable-length integer: seven bits in
/// each, low-order group first, the high bit set in all but the last.
pub open spec fn encode_varint(n: nat) -> Seq<u8>
    decreases n,
{
    if n < 128 {
        seq![n as u8]
    } else {
        seq![(128 + n % 128) as u8] + encode_varint(n / 128)
    }
}

/// The stream that holds `messages`: each behind its length.
pub open spec fn encode_stream(messages: Seq<Seq<u8>>) -> Seq<u8>
    decreases messages.len(),
{
    if messages.len() == 0 {
        Seq::empty()
    } else {
        encode_varint(messages[0].len()) + messages[0] + encode_stream(messages.skip(1))
    }
}

/// The lines written for `messages` where each is dumped on its own, one
/// after the other.
pub open spec fn lines_of_each(messages: Seq<Seq<u8>>) -> Seq<Seq<u8>>
    decreases messages.len(),
{
    if messages.len() == 0 {
        Seq::empty()
    } else {
        message_lines(decode_message(messages[0]), 0) + lines_of_each(messages.skip(1))
    }
}

/// The text written for `messages` where each is dumped on its own, one
/// after the other.
pub open spec fn text_of_each(messages: Seq<Seq<u8>>) -> Seq<u8>
    decreases messages.len(),
{
    if messages.len() == 0 {
        Seq::empty()
    } else {
        message_text(messages[0], 0) + text_of_each(messages.skip(1))
    }
}

/// How dumping `messages` one after the other ends where the first fault
/// ends it: with that fault, or cleanly where there is none.
pub open spec fn end_of_each(messages: Seq<Seq<u8>>) -> Result<(), Fault>
    decreases messages.len(),
{
    if messages.len() == 0 {
        Ok(())
    } else if verdict(decode_message(messages[0])) is Err {
        verdict(decode_message(messages[0]))
    } else {
        end_of_each(messages.skip(1))
    }
}

/// The weighted sum of an octet followed by `t` is the octet's low seven
/// bits plus 128 times the weighted sum of `t`.
proof fn lemma_varint_sum_front(b: u8, t: Seq<u8>)
    ensures
        varint_sum(seq![b] + t) == (b & 0x7f) as nat + 128 * varint_sum(t),
    decreases t.len(),
{
    let s = seq![b] + t;
    lemma2_to64();
    assert(s.len() == t.len() + 1);
    if t.len() == 0 {
        assert(s.drop_last() =~= Seq::<u8>::empty());
        assert(varint_sum(s.drop_last()) == 0);
        assert(s.last() == b);
        assert(varint_sum(s) == varint_sum(s.drop_last()) + (b & 0x7f) as nat * pow2(0));
        assert(varint_sum(t) == 0);
    } else {
        let low = (t.last() & 0x7f) as nat;
        let place = pow2((7 * (t.len() - 1)) as nat);
        assert(s.drop_last() =~= seq![b] + t.drop_last());
        assert(s.last() == t.last());
        lemma_varint_sum_front(b, t.drop_last());
        lemma_pow2_adds(7, (7 * (t.len() - 1)) as nat);
        assert(7 + 7 * (t.len() - 1) == 7 * (s.len() - 1));
        assert(pow2((7 * (s.len() - 1)) as nat) == 128 * place);
        assert(low * (128 * place) == 128 * (low * place)) by (nonlinear_arith);
        assert(varint_sum(s) == varint_sum(s.drop_last()) + low * (128 * place));
        assert(varint_sum(t) == varint_sum(t.drop_last()) + low * place);
    }
}

/// The encoding of `n` ends where it should and sums to `n`, whatever
/// follows it.
proof fn lemma_encode_varint(n: nat, rest: Seq<u8>)
    ensures
        varint_len(encode_varint(n) + rest) == Some(encode_varint(n).len()),
        varint_sum(encode_varint(n)) == n,
    decreases n,
{
    let e = encode_varint(n);
    let s = e + rest;
    lemma2_to64();
    if n < 128 {
        let b = n as u8;
        assert(b & 0x80 == 0 && b & 0x7f == b) by (bit_vector)
            requires
                b < 128,
        ;
        assert(s[0] == b);
        assert(e.drop_last() =~= Seq::<u8>::empty());
        assert(varint_sum(e.drop_last()) == 0);
        assert(e.last() == b);
        assert(varint_sum(e) == varint_sum(e.drop_last()) + (b & 0x7f) as nat * pow2(0));
    } else {
        let b = (128 + n % 128) as u8;
        let more = encode_varint(n / 128);
        assert(b & 0x80 != 0 && b & 0x7f == b - 128) by (bit_vector)
            requires
                b >= 128,
        ;
        assert(s[0] == b);
        assert(s.skip(1) =~= more + rest);
        lemma_encode_varint(n / 128, rest);
        lemma_varint_sum_front(b, more);
        lemma_fundamental_div_mod(n as int, 128);
        assert(e =~= seq![b] + more);
        assert((b & 0x7f) as nat == n % 128);
    }
}

/// Reading back the encoding of a number that fits in 64 bits gives the
/// number and leaves what followed the encoding.
pub proof fn lemma_varint_roundtrip(n: nat, rest: Seq<u8>)
    requires
        n < word(),
    ensures
        varint_at(encode_varint(n) + rest) == Some(n as u64),
        tail(encode_varint(n) + rest, varint_span(encode_varint(n) + rest)) == rest,
{
    let e = encode_varint(n);
    let s = e + rest;
    lemma_encode_varint(n, rest);
    assert(s.take(e.len() as int) =~= e);
    lemma_small_mod(n, word());
    assert(tail(s, e.len()) =~= rest);
}

/// The first message of a stream that was built from messages is the first
/// of them, and behind it stands the stream of the others.
proof fn lemma_encoded_front(messages: Seq<Seq<u8>>)
    requires
        messages.len() > 0,
        messages[0].len() < word(),
    ensures
        encode_stream(messages).len() > 0,
        varint_at(encode_stream(messages)) == Some(messages[0].len() as u64),
        first_frame(encode_stream(messages), messages[0].len() as u64) == messages[0],
        run_rest(encode_stream(messages)) == encode_stream(messages.skip(1)),
{
    let m = messages[0];
    let back = encode_stream(messages.skip(1));
    let s = encode_stream(messages);
    lemma_varint_roundtrip(m.len(), m + back);
    assert(s =~= encode_varint(m.len()) + (m + back));
    assert(head(m + back, m.len()) =~= m);
    assert(tail(m + back, m.len()) =~= back);
}

/// Dumping a stream that was built from messages writes what dumping each
/// message on its own writes, one text after the other, and ends with the
/// first fault among them. This holds where a message that ends with a
/// fault is followed by empty messages only: a stream is not read beyond a
/// fault.
pub proof fn lemma_stream_of_messages(messages: Seq<Seq<u8>>)
    requires
        forall|i: int| 0 <= i < messages.len() ==> (#[trigger] messages[i]).len() < word(),
        forall|i: int, j: int|
            0 <= i < j < messages.len() && verdict(decode_message(#[trigger] messages[i])) is Err
                ==> (#[trigger] messages[j]).len() == 0,
    ensures
        stream_lines(encode_stream(messages)) == lines_of_each(messages),
        stream_text(encode_stream(messages)) == text_of_each(messages),
        stream_verdict(encode_stream(messages)) == end_of_each(messages),
    decreases messages.len(),
{
    if messages.len() == 0 {
    } else {
        let m = messages[0];
        let others = messages.skip(1);
        let s = encode_stream(messages);
        lemma_encoded_front(messages);
        lemma_join_append(message_lines(decode_message(m), 0), lines_of_each(others));
        assert forall|i: int, j: int|
            0 <= i < j < others.len() && verdict(decode_message(#[trigger] others[i])) is Err
                implies (#[trigger] others[j]).len() == 0 by {
            assert(others[i] == messages[i + 1]);
            assert(others[j] == messages[j + 1]);
        }
        assert forall|i: int| 0 <= i < others.len() implies (#[trigger] others[i]).len()
            < word() by {
            assert(others[i] == messages[i + 1]);
        }
        if verdict(decode_message(m)) is Err {
            assert forall|j: int| 0 <= j < others.len() implies (#[trigger] others[j]).len()
                == 0 by {
                assert(others[j] == messages[j + 1]);
            }
            lemma_only_empty(others);
            assert(stream_lines(s) =~= lines_of_each(messages));
            assert(text_of_each(messages) =~= message_text(m, 0));
        } else {
            lemma_stream_of_messages(others);
        }
    }
}

/// Empty messages write nothing.
proof fn lemma_only_empty(messages: Seq<Seq<u8>>)
    requires
        forall|j: int| 0 <= j < messages.len() ==> (#[trigger] messages[j]).len() == 0,
    ensures
        lines_of_each(messages) == Seq::<Seq<u8>>::empty(),
        text_of_each(messages) == Seq::<u8>::empty(),
    decreases messages.len(),
{
    if messages.len() > 0 {
        let others = messages.skip(1);
        assert forall|j: int| 0 <= j < others.len() implies (#[trigger] others[j]).len() == 0 by {
            assert(others[j] == messages[j + 1]);
        }
        lemma_only_empty(others);
        assert(messages[0].len() == 0);
        assert(message_lines(decode_message(messages[0]), 0) =~= Seq::<Seq<u8>>::empty());
        assert(lines_of_each(messages) =~= Seq::<Seq<u8>>::empty());
        assert(text_of_each(messages) =~= Seq::<u8>::empty());
    }
}

} // verus!
