//! The record decoder: it reads tag after tag from a message and writes one
//! line of text for each field.

use crate::record::{
    body_at, body_phrase, bump, decode_message, fault_of, fault_phrase, first_item, fixed32_body,
    fixed64_body, hex_run, item_line, join, message_lines, message_rest, message_text, rest_after,
    run_body, run_text, varint_body, warning_line, Body, Fault, Item,
};
use crate::source::{tail, ByteSource};
use crate::text::{push_decimal, push_hex, push_str};
use crate::wire::{
    all_printable, read_fixed32, read_fixed64, read_leb128, read_run, run_rest, varint_span,
};
use vstd::prelude::*;

verus! {

/// The line feed that ends every line.
pub open spec fn line_end() -> Seq<u8> {
    seq![0x0au8]
}

/// How decoding goes on behind a payload: it stops with the fault of a
/// broken one.
pub open spec fn outcome(body: Body) -> Result<(), Fault> {
    match body {
        Body::Broken(fault) => Err(fault),
        _ => Ok(()),
    }
}

/// How the decoding of `items` ended.
pub open spec fn verdict(items: Seq<Item>) -> Result<(), Fault> {
    match fault_of(items) {
        Some(fault) => Err(fault),
        None => Ok(()),
    }
}

/// Writes the line that reports `fault`.
pub fn push_fault(out: &mut Vec<u8>, fault: Fault)
    ensures
        final(out)@ == old(out)@ + fault_phrase(fault) + line_end(),
{
    match fault {
        Fault::BadVarint => {
            proof {
                reveal_strlit("corrupt: bad varint");
            }
            push_str(out, "corrupt: bad varint");
        },
        Fault::BadStringLength => {
            proof {
                reveal_strlit("corrupt: bad length on string tag");
            }
            push_str(out, "corrupt: bad length on string tag");
        },
        Fault::BadMessageLength => {
            proof {
                reveal_strlit("corrupt: bad length on message");
            }
            push_str(out, "corrupt: bad length on message");
        },
        Fault::InvalidTag { tag, field } => {
            proof {
                reveal_strlit("corrupt: invalid tag ");
                reveal_strlit(" at field ");
            }
            push_str(out, "corrupt: invalid tag ");
            push_decimal(out, tag as u64);
            push_str(out, " at field ");
            push_decimal(out, field as u64);
        },
        Fault::Group => {
            proof {
                reveal_strlit("should dump a group here, but we don't know how yet.  sorry.");
            }
            push_str(out, "should dump a group here, but we don't know how yet.  sorry.");
        },
    }
    out.push(0x0a);
    assert(final(out)@ =~= old(out)@ + fault_phrase(fault) + line_end());
}

/// Reads a variable-length integer payload and writes its line; where the
/// input ends inside the integer, writes the fault's line instead.
pub fn dump_varint(bytes: &mut ByteSource, out: &mut Vec<u8>) -> (step: Result<(), Fault>)
    ensures
        final(out)@ == old(out)@ + body_phrase(varint_body(old(bytes)@)) + line_end(),
        final(bytes)@ == tail(old(bytes)@, varint_span(old(bytes)@)),
        step == outcome(varint_body(old(bytes)@)),
{
    match read_leb128(bytes) {
        None => {
            push_fault(out, Fault::BadVarint);
            Err(Fault::BadVarint)
        },
        Some(x) => {
            proof {
                reveal_strlit("varint ");
            }
            push_str(out, "varint ");
            push_decimal(out, x);
            out.push(0x0a);
            assert(final(out)@ =~= old(out)@ + body_phrase(varint_body(old(bytes)@)) + line_end());
            Ok(())
        },
    }
}

/// Reads a 32-bit payload and writes its line.
pub fn dump_fixed32(bytes: &mut ByteSource, out: &mut Vec<u8>)
    ensures
        final(out)@ == old(out)@ + body_phrase(fixed32_body(old(bytes)@)) + line_end(),
        final(bytes)@ == tail(old(bytes)@, 4),
{
    let x = read_fixed32(bytes);
    proof {
        reveal_strlit("fixed32 ");
    }
    push_str(out, "fixed32 ");
    push_decimal(out, x as u64);
    out.push(0x0a);
    assert(final(out)@ =~= old(out)@ + body_phrase(fixed32_body(old(bytes)@)) + line_end());
}

/// Reads a 64-bit payload and writes its line.
pub fn dump_fixed64(bytes: &mut ByteSource, out: &mut Vec<u8>)
    ensures
        final(out)@ == old(out)@ + body_phrase(fixed64_body(old(bytes)@)) + line_end(),
        final(bytes)@ == tail(old(bytes)@, 8),
{
    let x = read_fixed64(bytes);
    proof {
        reveal_strlit("fixed64 ");
    }
    push_str(out, "fixed64 ");
    push_decimal(out, x);
    out.push(0x0a);
    assert(final(out)@ =~= old(out)@ + body_phrase(fixed64_body(old(bytes)@)) + line_end());
}

/// Writes a run of octets: as it is where all of it is printable, else each
/// octet in hexadecimal with a space behind it.
pub fn push_run(out: &mut Vec<u8>, run: &Vec<u8>)
    ensures
        final(out)@ == old(out)@ + run_text(run@),
{
    if all_printable(run) {
        out.extend_from_slice(run.as_slice());
    } else {
        let mut i: usize = 0;
        assert(run@.take(0) =~= Seq::<u8>::empty());
        assert(out@ =~= old(out)@ + hex_run(run@.take(0)));
        while i < run.len()
            invariant
                i <= run.len(),
                out@ == old(out)@ + hex_run(run@.take(i as int)),
            decreases run.len() - i,
        {
            push_hex(out, run[i]);
            out.push(0x20);
            proof {
                assert(run@.take(i + 1).drop_last() =~= run@.take(i as int));
                assert(out@ =~= old(out)@ + hex_run(run@.take(i + 1)));
            }
            i = i + 1;
        }
        assert(run@.take(run@.len() as int) =~= run@);
    }
}

/// Reads a length-delimited payload and writes its line: the declared
/// length, then the octets that were there to take. Where the input ends
/// inside the length, writes the fault's line instead.
pub fn dump_string(bytes: &mut ByteSource, out: &mut Vec<u8>) -> (step: Result<(), Fault>)
    ensures
        final(out)@ == old(out)@ + body_phrase(run_body(old(bytes)@)) + line_end(),
        final(bytes)@ == run_rest(old(bytes)@),
        step == outcome(run_body(old(bytes)@)),
{
    match read_run(bytes) {
        None => {
            push_fault(out, Fault::BadStringLength);
            Err(Fault::BadStringLength)
        },
        Some((len, s)) => {
            push_decimal(out, len);
            proof {
                reveal_strlit("-byte string: ");
            }
            push_str(out, "-byte string: ");
            push_run(out, &s);
            out.push(0x0a);
            assert(final(out)@ =~= old(out)@ + body_phrase(run_body(old(bytes)@)) + line_end());
            Ok(())
        },
    }
}

/// The warning in front of a field's line, with its line end; empty where
/// the field's number is not below the highest seen.
pub open spec fn warning_text(number: u8, max: u8) -> Seq<u8> {
    if number < max {
        warning_line(number, max) + line_end()
    } else {
        Seq::empty()
    }
}

/// The text of a message that is not empty starts with the text of its
/// first field; behind a field that is not broken comes the text of the
/// rest of the message, and how the rest ends is how the message ends.
pub proof fn lemma_message_step(s: Seq<u8>, max: u8)
    requires
        s.len() > 0,
    ensures
        first_item(s).body is Broken ==> {
            &&& message_text(s, max) == warning_text(first_item(s).number, max) + item_line(
                first_item(s),
            ) + line_end()
            &&& verdict(decode_message(s)) == outcome(first_item(s).body)
        },
        !(first_item(s).body is Broken) ==> {
            &&& message_text(s, max) == warning_text(first_item(s).number, max) + item_line(
                first_item(s),
            ) + line_end() + message_text(
                rest_after(s[0], s.skip(1)),
                bump(max, first_item(s).number),
            )
            &&& verdict(decode_message(s)) == verdict(
                decode_message(rest_after(s[0], s.skip(1))),
            )
        },
{
    let first = first_item(s);
    let items = decode_message(s);
    let more = items.skip(1);
    let next = bump(max, first.number);
    assert(items[0] == first);
    if !(first.body is Broken) {
        assert(more =~= decode_message(rest_after(s[0], s.skip(1))));
        if more.len() > 0 {
            assert(items.last() == more.last());
        }
    } else {
        assert(more =~= Seq::<Item>::empty());
    }
    let own = seq![item_line(first)] + message_lines(more, next);
    assert(own.skip(1) =~= message_lines(more, next));
    assert(join(own) =~= item_line(first) + line_end() + join(message_lines(more, next)));
    if first.number < max {
        let all = seq![warning_line(first.number, max)] + own;
        assert(all.skip(1) =~= own);
        assert(join(all) =~= warning_line(first.number, max) + line_end() + join(own));
    }
    assert(join(message_lines(more, next)) =~= if first.body is Broken {
        Seq::<u8>::empty()
    } else {
        message_text(rest_after(s[0], s.skip(1)), next)
    });
    assert(message_text(s, max) =~= warning_text(first.number, max) + item_line(first) + line_end()
        + join(message_lines(more, next)));
}

/// Writes the warning of a field number below the highest one seen.
fn push_warning(out: &mut Vec<u8>, number: u8, max: u8)
    ensures
        final(out)@ == old(out)@ + warning_line(number, max) + line_end(),
{
    proof {
        reveal_strlit("Warning: message has out-of-order fields (");
        reveal_strlit(" < ");
        reveal_strlit(")");
    }
    push_str(out, "Warning: message has out-of-order fields (");
    push_decimal(out, number as u64);
    push_str(out, " < ");
    push_decimal(out, max as u64);
    push_str(out, ")");
    out.push(0x0a);
    assert(final(out)@ =~= old(out)@ + warning_line(number, max) + line_end());
}

/// Reads the payload that the tag octet `tag` announces and writes what
/// stands behind the field's number on its line.
fn dump_body(tag: u8, bytes: &mut ByteSource, out: &mut Vec<u8>) -> (step: Result<(), Fault>)
    ensures
        final(out)@ == old(out)@ + body_phrase(body_at(tag, old(bytes)@))
            + line_end(),
        final(bytes)@ == rest_after(tag, old(bytes)@),
        step == outcome(body_at(tag, old(bytes)@)),
{
    let kind = tag & 7;
    if kind == 0 {
        dump_varint(bytes, out)
    } else if kind == 1 {
        dump_fixed32(bytes, out);
        Ok(())
    } else if kind == 2 {
        dump_string(bytes, out)
    } else if kind == 3 {
        push_fault(out, Fault::Group);
        Err(Fault::Group)
    } else if kind == 5 {
        dump_fixed64(bytes, out);
        Ok(())
    } else {
        let fault = Fault::InvalidTag { tag: kind, field: tag >> 3 };
        push_fault(out, fault);
        Err(fault)
    }
}

/// Decodes one message: reads tags until the source is exhausted and writes
/// a line for each field, with a warning before the line of a field whose
/// number is below the highest seen so far. Stops behind the line of the
/// first fault and returns it.
pub fn decode_one(bytes: &mut ByteSource, out: &mut Vec<u8>) -> (end: Result<(), Fault>)
    ensures
        final(out)@ == old(out)@ + message_text(old(bytes)@, 0),
        final(bytes)@ == message_rest(old(bytes)@),
        end == verdict(decode_message(old(bytes)@)),
{
    let mut max_field_seen: u8 = 0;
    assert(out@ + message_text(bytes@, 0) =~= old(out)@ + message_text(old(bytes)@, 0));
    loop
        invariant
            out@ + message_text(bytes@, max_field_seen) == old(out)@ + message_text(
                old(bytes)@,
                0,
            ),
            message_rest(bytes@) == message_rest(old(bytes)@),
            verdict(decode_message(bytes@)) == verdict(decode_message(old(bytes)@)),
        decreases bytes@.len(),
    {
        let ghost s = bytes@;
        let ghost written = out@;
        let ghost max = max_field_seen;
        let b = match bytes.next() {
            None => {
                assert(message_text(s, max) =~= Seq::<u8>::empty());
                assert(out@ =~= out@ + message_text(s, max));
                return Ok(());
            },
            Some(b) => b,
        };
        proof {
            lemma_message_step(s, max);
            assert(bytes@ =~= s.skip(1));
        }
        let field = b >> 3;
        if field < max_field_seen {
            push_warning(out, field, max_field_seen);
        } else {
            max_field_seen = field;
        }
        push_decimal(out, field as u64);
        proof {
            reveal_strlit(": ");
        }
        push_str(out, ": ");
        let step = dump_body(b, bytes, out);
        assert(out@ =~= written + warning_text(field, max) + item_line(first_item(s)) + line_end());
        match step {
            Err(fault) => {
                assert(out@ =~= written + message_text(s, max));
                return Err(fault);
            },
            Ok(()) => {
                assert(out@ + message_text(bytes@, max_field_seen) =~= written + message_text(
                    s,
                    max,
                ));
            },
        }
    }
}

} // verus!
