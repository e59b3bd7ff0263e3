//! Framing: a stream is a row of messages, each behind its length.

use crate::dump::{decode_one, line_end, push_fault, verdict};
use crate::record::{
    decode_message, fault_phrase, join, lemma_join_append, message_lines, message_text, Fault,
};
use crate::source::{head, tail, ByteSource};
use crate::wire::{lemma_varint_len_bound, read_leb128, run_rest, varint_at, varint_span};
use vstd::prelude::*;

verus! {

/// The message at the front of the stream `s`, whose length prefix reads
/// `len`: the `len` octets behind the prefix, or what is there of them.
pub open spec fn first_frame(s: Seq<u8>, len: u64) -> Seq<u8> {
    head(tail(s, varint_span(s)), len as nat)
}

/// The lines written for the stream `s`: none for an empty stream; the line
/// of the fault where no length can be read at its front; else the lines of
/// its first message and, where that message ends without a fault, the
/// lines of the stream behind it.
pub open spec fn stream_lines(s: Seq<u8>) -> Seq<Seq<u8>>
    decreases s.len(),
{
    if s.len() == 0 {
        Seq::empty()
    } else {
        match varint_at(s) {
            None => seq![fault_phrase(Fault::BadMessageLength)],
            Some(len) => {
                let frame = first_frame(s, len);
                if verdict(decode_message(frame)) is Err {
                    message_lines(decode_message(frame), 0)
                } else {
                    proof {
                        lemma_varint_len_bound(s);
                    }
                    message_lines(decode_message(frame), 0) + stream_lines(run_rest(s))
                }
            },
        }
    }
}

/// The text written for the stream `s`.
pub open spec fn stream_text(s: Seq<u8>) -> Seq<u8> {
    join(stream_lines(s))
}

/// The text of a stream that is not empty, by what stands at its front.
pub proof fn lemma_stream_step(s: Seq<u8>)
    requires
        s.len() > 0,
    ensures
        stream_text(s) == match varint_at(s) {
            None => fault_phrase(Fault::BadMessageLength) + line_end(),
            Some(len) => if verdict(decode_message(first_frame(s, len))) is Err {
                message_text(first_frame(s, len), 0)
            } else {
                message_text(first_frame(s, len), 0) + stream_text(run_rest(s))
            },
        },
{
    match varint_at(s) {
        None => {
            let lines = seq![fault_phrase(Fault::BadMessageLength)];
            assert(lines.skip(1) =~= Seq::<Seq<u8>>::empty());
            assert(join(lines.skip(1)) =~= Seq::<u8>::empty());
            assert(join(lines) =~= fault_phrase(Fault::BadMessageLength) + line_end());
        },
        Some(len) => {
            let frame = first_frame(s, len);
            if !(verdict(decode_message(frame)) is Err) {
                lemma_join_append(
                    message_lines(decode_message(frame), 0),
                    stream_lines(run_rest(s)),
                );
            }
        },
    }
}

/// How the decoding of the stream `s` ends: with the first fault, be it in
/// a length prefix or inside a message, or cleanly at the end of the input.
pub open spec fn stream_verdict(s: Seq<u8>) -> Result<(), Fault>
    decreases s.len(),
{
    if s.len() == 0 {
        Ok(())
    } else {
        match varint_at(s) {
            None => Err(Fault::BadMessageLength),
            Some(len) => {
                let frame = first_frame(s, len);
                if verdict(decode_message(frame)) is Err {
                    verdict(decode_message(frame))
                } else {
                    proof {
                        lemma_varint_len_bound(s);
                    }
                    stream_verdict(run_rest(s))
                }
            },
        }
    }
}

/// What decoding the stream `s` leaves unread: nothing where it ends
/// cleanly or in a length prefix, else what follows the message with the
/// fault.
pub open spec fn stream_rest(s: Seq<u8>) -> Seq<u8>
    decreases s.len(),
{
    if s.len() == 0 {
        s
    } else {
        match varint_at(s) {
            None => Seq::empty(),
            Some(len) => {
                let frame = first_frame(s, len);
                if verdict(decode_message(frame)) is Err {
                    run_rest(s)
                } else {
                    proof {
                        lemma_varint_len_bound(s);
                    }
                    stream_rest(run_rest(s))
                }
            },
        }
    }
}

/// Decodes a stream of messages, each behind its length: as long as the
/// source is not exhausted, reads a length, takes that many octets (or what
/// is there of them) and decodes them as one message, which sees nothing of
/// what follows it. Stops behind the line of the first fault and returns
/// it.
pub fn decode_stream(bytes: &mut ByteSource, out: &mut Vec<u8>) -> (end: Result<(), Fault>)
    ensures
        final(out)@ == old(out)@ + stream_text(old(bytes)@),
        final(bytes)@ == stream_rest(old(bytes)@),
        end == stream_verdict(old(bytes)@),
{
    assert(out@ + stream_text(bytes@) =~= old(out)@ + stream_text(old(bytes)@));
    loop
        invariant
            out@ + stream_text(bytes@) == old(out)@ + stream_text(old(bytes)@),
            stream_rest(bytes@) == stream_rest(old(bytes)@),
            stream_verdict(bytes@) == stream_verdict(old(bytes)@),
        decreases bytes@.len(),
    {
        let ghost s = bytes@;
        let ghost written = out@;
        if bytes.peek().is_none() {
            assert(out@ =~= written + stream_text(s));
            return Ok(());
        }
        proof {
            lemma_varint_len_bound(s);
            lemma_stream_step(s);
        }
        let len = match read_leb128(bytes) {
            None => {
                push_fault(out, Fault::BadMessageLength);
                assert(out@ =~= written + stream_text(s));
                assert(bytes@ =~= stream_rest(s));
                return Err(Fault::BadMessageLength);
            },
            Some(len) => len,
        };
        let buf = bytes.take(len);
        let mut message = ByteSource::new(buf);
        match decode_one(&mut message, out) {
            Err(fault) => {
                assert(out@ =~= written + stream_text(s));
                return Err(fault);
            },
            Ok(()) => {
                assert(out@ + stream_text(bytes@) =~= written + stream_text(s));
            },
        }
    }
}

} // verus!
