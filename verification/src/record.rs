//! What a message decodes to, and the text that stands for it.

use crate::source::{head, tail};
use crate::text::{ascii, decimal, hex};
use crate::wire::{big_endian, printable, run_at, run_rest, varint_at, varint_span};
use vstd::prelude::*;

verus! {

/// Why decoding stopped before the end of the input.
#[derive(Clone, Copy, Debug, PartialEq, Eq, Structural)]
pub enum Fault {
    /// A variable-length integer payload has no last octet.
    BadVarint,
    /// The length of a length-delimited payload has no last octet.
    BadStringLength,
    /// The length in front of a message of a stream has no last octet.
    BadMessageLength,
    /// The tag of field `field` names the wire kind `tag`, which is none of
    /// the five known ones.
    InvalidTag { tag: u8, field: u8 },
    /// The tag opens a group, which cannot be dumped.
    Group,
}

/// The payload of one field, as decoded.
pub enum Body {
    Varint(u64),
    Fixed32(u32),
    Fixed64(u64),
    /// A length-delimited run: the length it declares and the octets that
    /// were there to take, which are fewer where the input ends early.
    Run { declared: u64, octets: Seq<u8> },
    /// The payload could not be decoded.
    Broken(Fault),
}

/// One field of a message: the number from its tag and its payload.
pub struct Item {
    pub number: u8,
    pub body: Body,
}

/// The field number that a tag octet carries.
pub open spec fn field_number(tag: u8) -> u8 {
    tag >> 3
}

/// The wire kind that a tag octet carries.
pub open spec fn wire_kind(tag: u8) -> u8 {
    tag & 7
}

/// What a variable-length integer payload at the front of `t` decodes to.
pub open spec fn varint_body(t: Seq<u8>) -> Body {
    match varint_at(t) {
        Some(v) => Body::Varint(v),
        None => Body::Broken(Fault::BadVarint),
    }
}

/// What a 32-bit payload at the front of `t` decodes to.
pub open spec fn fixed32_body(t: Seq<u8>) -> Body {
    Body::Fixed32(big_endian(head(t, 4)) as u32)
}

/// What a 64-bit payload at the front of `t` decodes to.
pub open spec fn fixed64_body(t: Seq<u8>) -> Body {
    Body::Fixed64(big_endian(head(t, 8)) as u64)
}

/// What a length-delimited payload at the front of `t` decodes to.
pub open spec fn run_body(t: Seq<u8>) -> Body {
    match run_at(t) {
        Some((declared, octets)) => Body::Run { declared, octets },
        None => Body::Broken(Fault::BadStringLength),
    }
}

/// What the payload behind the tag octet `tag` decodes to, `t` being the
/// input behind the tag.
pub open spec fn body_at(tag: u8, t: Seq<u8>) -> Body {
    let kind = wire_kind(tag);
    if kind == 0 {
        varint_body(t)
    } else if kind == 1 {
        fixed32_body(t)
    } else if kind == 2 {
        run_body(t)
    } else if kind == 3 {
        Body::Broken(Fault::Group)
    } else if kind == 5 {
        fixed64_body(t)
    } else {
        Body::Broken(Fault::InvalidTag { tag: kind, field: field_number(tag) })
    }
}

/// What is left of `t` behind the payload that the tag octet `tag`
/// announces.
pub open spec fn rest_after(tag: u8, t: Seq<u8>) -> Seq<u8> {
    let kind = wire_kind(tag);
    if kind == 0 {
        tail(t, varint_span(t))
    } else if kind == 1 {
        tail(t, 4)
    } else if kind == 2 {
        run_rest(t)
    } else if kind == 5 {
        tail(t, 8)
    } else {
        t
    }
}

/// The field at the front of a message `s` that is not empty.
pub open spec fn first_item(s: Seq<u8>) -> Item
    recommends
        s.len() > 0,
{
    Item { number: field_number(s[0]), body: body_at(s[0], s.skip(1)) }
}

/// The fields of the message `s`, in order. Decoding ends with the input,
/// or with the first field whose payload is broken, which is then the last
/// item.
pub open spec fn decode_message(s: Seq<u8>) -> Seq<Item>
    decreases s.len(),
{
    if s.len() == 0 {
        Seq::empty()
    } else if first_item(s).body is Broken {
        seq![first_item(s)]
    } else {
        seq![first_item(s)] + decode_message(rest_after(s[0], s.skip(1)))
    }
}

/// What decoding the message `s` leaves unread: nothing where it reaches
/// the end, else what follows the octets read for the broken field.
pub open spec fn message_rest(s: Seq<u8>) -> Seq<u8>
    decreases s.len(),
{
    if s.len() == 0 {
        s
    } else if first_item(s).body is Broken {
        rest_after(s[0], s.skip(1))
    } else {
        message_rest(rest_after(s[0], s.skip(1)))
    }
}

/// The fault that ended the decoding of `items`, if one did.
pub open spec fn fault_of(items: Seq<Item>) -> Option<Fault> {
    if items.len() > 0 && items.last().body is Broken {
        Some(items.last().body->Broken_0)
    } else {
        None
    }
}

/// The octets of `s` in lower-case hexadecimal, each followed by a space.
pub open spec fn hex_run(s: Seq<u8>) -> Seq<u8>
    decreases s.len(),
{
    if s.len() == 0 {
        Seq::empty()
    } else {
        hex_run(s.drop_last()) + hex(s.last()) + seq![0x20u8]
    }
}

/// How a run of octets is shown: as it is where all of it is printable,
/// else in hexadecimal.
pub open spec fn run_text(s: Seq<u8>) -> Seq<u8> {
    if printable(s) {
        s
    } else {
        hex_run(s)
    }
}

/// The line that reports a fault, without its line end.
pub open spec fn fault_phrase(fault: Fault) -> Seq<u8> {
    match fault {
        Fault::BadVarint => ascii("corrupt: bad varint"@),
        Fault::BadStringLength => ascii("corrupt: bad length on string tag"@),
        Fault::BadMessageLength => ascii("corrupt: bad length on message"@),
        Fault::InvalidTag { tag, field } => ascii("corrupt: invalid tag "@) + decimal(tag as nat)
            + ascii(" at field "@) + decimal(field as nat),
        Fault::Group => ascii("should dump a group here, but we don't know how yet.  sorry."@),
    }
}

/// What is written for a payload behind the field's number, without the
/// line end.
pub open spec fn body_phrase(body: Body) -> Seq<u8> {
    match body {
        Body::Varint(v) => ascii("varint "@) + decimal(v as nat),
        Body::Fixed32(v) => ascii("fixed32 "@) + decimal(v as nat),
        Body::Fixed64(v) => ascii("fixed64 "@) + decimal(v as nat),
        Body::Run { declared, octets } => decimal(declared as nat) + ascii("-byte string: "@)
            + run_text(octets),
        Body::Broken(fault) => fault_phrase(fault),
    }
}

/// The line of one field, without its line end: the number, a colon and a
/// space, then the payload.
pub open spec fn item_line(item: Item) -> Seq<u8> {
    decimal(item.number as nat) + ascii(": "@) + body_phrase(item.body)
}

/// The line that warns of a field number `number` below the highest one
/// seen, `max`.
pub open spec fn warning_line(number: u8, max: u8) -> Seq<u8> {
    ascii("Warning: message has out-of-order fields ("@) + decimal(number as nat) + ascii(" < "@)
        + decimal(max as nat) + ascii(")"@)
}

/// The highest field number seen once `number` has come, `max` having been
/// the highest before.
pub open spec fn bump(max: u8, number: u8) -> u8 {
    if number < max {
        max
    } else {
        number
    }
}

/// The lines written for `items`, `max` being the highest field number seen
/// before them: for each item its line, and before that a warning where
/// its number is below the highest seen so far.
pub open spec fn message_lines(items: Seq<Item>, max: u8) -> Seq<Seq<u8>>
    decreases items.len(),
{
    if items.len() == 0 {
        Seq::empty()
    } else {
        let number = items[0].number;
        let own = seq![item_line(items[0])] + message_lines(items.skip(1), bump(max, number));
        if number < max {
            seq![warning_line(number, max)] + own
        } else {
            own
        }
    }
}

/// The text of `lines`: each line followed by a line feed.
pub open spec fn join(lines: Seq<Seq<u8>>) -> Seq<u8>
    decreases lines.len(),
{
    if lines.len() == 0 {
        Seq::empty()
    } else {
        lines[0] + seq![0x0au8] + join(lines.skip(1))
    }
}

/// The text written for the message `s`, `max` being the highest field
/// number seen before it.
pub open spec fn message_text(s: Seq<u8>, max: u8) -> Seq<u8> {
    join(message_lines(decode_message(s), max))
}

/// The text of two rows of lines, one behind the other, is the text of the
/// first followed by the text of the second.
pub proof fn lemma_join_append(front: Seq<Seq<u8>>, back: Seq<Seq<u8>>)
    ensures
        join(front + back) == join(front) + join(back),
    decreases front.len(),
{
    if front.len() == 0 {
        assert(front + back =~= back);
        assert(join(front) + join(back) =~= join(back));
    } else {
        lemma_join_append(front.skip(1), back);
        assert((front + back).skip(1) =~= front.skip(1) + back);
        assert(join(front + back) =~= join(front) + join(back));
    }
}

} // verus!
