//! What holds of the text of every input.

use crate::dump::{outcome, verdict};
use crate::program::{run_lines, run_text, run_verdict, status_of, Mode, SysExits};
use crate::record::{
    body_at, body_phrase, bump, decode_message, fault_phrase, field_number, first_item, hex_run,
    item_line, join, message_lines, rest_after, run_text as shown, warning_line, wire_kind, Body,
    Fault, Item,
};
use crate::source::tail;
use crate::stream::{first_frame, stream_lines, stream_verdict};
use crate::text::{ascii, decimal, hex};
use crate::wire::{lemma_varint_len_bound, run_rest, varint_at, varint_len, varint_span};
use vstd::prelude::*;

verus! {

/// Whether `s` holds no line feed, so that it can be one line of a text.
pub open spec fn plain(s: Seq<u8>) -> bool {
    forall|i: int| 0 <= i < s.len() ==> #[trigger] s[i] != 0x0a
}

/// A decimal numeral is made of digits, and of one at least.
pub proof fn lemma_decimal_digits(n: nat)
    ensures
        decimal(n).len() > 0,
        forall|i: int| 0 <= i < decimal(n).len() ==> 48 <= #[trigger] decimal(n)[i] <= 57,
        plain(decimal(n)),
    decreases n,
{
    if n >= 10 {
        lemma_decimal_digits(n / 10);
    }
}

proof fn lemma_hex_run_plain(s: Seq<u8>)
    ensures
        plain(hex_run(s)),
    decreases s.len(),
{
    if s.len() > 0 {
        lemma_hex_run_plain(s.drop_last());
        assert(plain(hex(s.last())));
    }
}

proof fn lemma_fault_phrase_plain(fault: Fault)
    ensures
        plain(fault_phrase(fault)),
{
    reveal_strlit("corrupt: bad varint");
    reveal_strlit("corrupt: bad length on string tag");
    reveal_strlit("corrupt: bad length on message");
    reveal_strlit("corrupt: invalid tag ");
    reveal_strlit(" at field ");
    reveal_strlit("should dump a group here, but we don't know how yet.  sorry.");
    match fault {
        Fault::InvalidTag { tag, field } => {
            lemma_decimal_digits(tag as nat);
            lemma_decimal_digits(field as nat);
        },
        _ => {},
    }
}

proof fn lemma_body_phrase_plain(body: Body)
    ensures
        plain(body_phrase(body)),
{
    reveal_strlit("varint ");
    reveal_strlit("fixed32 ");
    reveal_strlit("fixed64 ");
    reveal_strlit("-byte string: ");
    match body {
        Body::Varint(v) => {
            lemma_decimal_digits(v as nat);
        },
        Body::Fixed32(v) => {
            lemma_decimal_digits(v as nat);
        },
        Body::Fixed64(v) => {
            lemma_decimal_digits(v as nat);
        },
        Body::Run { declared, octets } => {
            lemma_decimal_digits(declared as nat);
            lemma_hex_run_plain(octets);
            assert(plain(shown(octets)));
        },
        Body::Broken(fault) => {
            lemma_fault_phrase_plain(fault);
        },
    }
}

proof fn lemma_item_line_plain(item: Item)
    ensures
        plain(item_line(item)),
{
    reveal_strlit(": ");
    lemma_decimal_digits(item.number as nat);
    lemma_body_phrase_plain(item.body);
}

proof fn lemma_warning_line_plain(number: u8, max: u8)
    ensures
        plain(warning_line(number, max)),
{
    reveal_strlit("Warning: message has out-of-order fields (");
    reveal_strlit(" < ");
    reveal_strlit(")");
    lemma_decimal_digits(number as nat);
    lemma_decimal_digits(max as nat);
}

/// No line written for a message holds a line feed: the lines are the
/// lines of the text.
pub proof fn lemma_message_lines_plain(items: Seq<Item>, max: u8)
    ensures
        forall|i: int|
            0 <= i < message_lines(items, max).len() ==> plain(
                #[trigger] message_lines(items, max)[i],
            ),
    decreases items.len(),
{
    if items.len() > 0 {
        let number = items[0].number;
        lemma_item_line_plain(items[0]);
        lemma_warning_line_plain(number, max);
        lemma_message_lines_plain(items.skip(1), bump(max, number));
        let lines = message_lines(items, max);
        let rest = message_lines(items.skip(1), bump(max, number));
        let own = seq![item_line(items[0])] + rest;
        assert forall|i: int| 0 <= i < lines.len() implies plain(#[trigger] lines[i]) by {
            let j = if number < max {
                i - 1
            } else {
                i
            };
            if j > 0 {
                assert(lines[i] == rest[j - 1]);
            } else if j == 0 {
                assert(lines[i] == item_line(items[0]));
            }
        }
    }
}

/// Whether the line `l` begins with the number `n`, a colon and a space.
pub open spec fn numbered_by(l: Seq<u8>, n: u8) -> bool {
    (decimal(n as nat) + ascii(": "@)).is_prefix_of(l)
}

/// Whether the line `l` begins with a field number, a colon and a space.
pub open spec fn numbered(l: Seq<u8>) -> bool {
    exists|n: u8| numbered_by(l, n)
}

/// The test that picks the numbered lines out of a text.
pub open spec fn is_numbered() -> spec_fn(Seq<u8>) -> bool {
    |l: Seq<u8>| numbered(l)
}

/// The lines of the fields `items`, one for each, in order.
pub open spec fn field_lines(items: Seq<Item>) -> Seq<Seq<u8>> {
    Seq::new(items.len(), |i: int| item_line(items[i]))
}

proof fn lemma_item_line_numbered(item: Item)
    ensures
        numbered_by(item_line(item), item.number),
        numbered(item_line(item)),
{
    let lead = decimal(item.number as nat) + ascii(": "@);
    assert(item_line(item).subrange(0, lead.len() as int) =~= lead);
    assert(numbered_by(item_line(item), item.number));
}

proof fn lemma_warning_line_not_numbered(number: u8, max: u8)
    ensures
        !numbered(warning_line(number, max)),
{
    let line = warning_line(number, max);
    reveal_strlit("Warning: message has out-of-order fields (");
    assert(line[0] == 87);
    assert forall|n: u8| !numbered_by(line, n) by {
        let lead = decimal(n as nat) + ascii(": "@);
        lemma_decimal_digits(n as nat);
        if lead.is_prefix_of(line) {
            assert(lead[0] == line.subrange(0, lead.len() as int)[0]);
        }
    }
}

/// Among the lines written for a message, those that begin with a field
/// number are the lines of its fields: one for each field, in the order of
/// the fields, each begun by the number of its field. The other lines are
/// the warnings.
pub proof fn lemma_one_line_per_field(items: Seq<Item>, max: u8)
    ensures
        message_lines(items, max).filter(is_numbered()) == field_lines(items),
        forall|i: int|
            0 <= i < items.len() ==> numbered_by(#[trigger] field_lines(items)[i], items[i].number),
    decreases items.len(),
{
    assert forall|i: int| 0 <= i < items.len() implies numbered_by(
        #[trigger] field_lines(items)[i],
        items[i].number,
    ) by {
        lemma_item_line_numbered(items[i]);
    }
    if items.len() == 0 {
        assert(message_lines(items, max).filter(is_numbered()) =~= field_lines(items)) by {
            reveal(Seq::filter);
        }
    } else {
        let number = items[0].number;
        let rest = message_lines(items.skip(1), bump(max, number));
        let own = seq![item_line(items[0])] + rest;
        lemma_one_line_per_field(items.skip(1), bump(max, number));
        lemma_item_line_numbered(items[0]);
        rest.lemma_filter_prepend(item_line(items[0]), is_numbered());
        assert(field_lines(items) =~= seq![item_line(items[0])] + field_lines(items.skip(1)));
        if number < max {
            lemma_warning_line_not_numbered(number, max);
            own.lemma_filter_prepend(warning_line(number, max), is_numbered());
            assert(message_lines(items, max).filter(is_numbered()) =~= field_lines(items));
        } else {
            assert(message_lines(items, max).filter(is_numbered()) =~= field_lines(items));
        }
    }
}

/// Where in the message `s` the tags of its fields stand, in order.
pub open spec fn tag_positions(s: Seq<u8>) -> Seq<int>
    decreases s.len(),
{
    if s.len() == 0 {
        Seq::empty()
    } else if first_item(s).body is Broken {
        seq![0int]
    } else {
        let rest = rest_after(s[0], s.skip(1));
        let shift = s.len() - rest.len();
        seq![0int] + Seq::new(tag_positions(rest).len(), |i: int| tag_positions(rest)[i] + shift)
    }
}

/// What is left behind a payload is the end of the input that held it.
pub proof fn lemma_rest_is_suffix(tag: u8, t: Seq<u8>)
    ensures
        rest_after(tag, t).len() <= t.len(),
        rest_after(tag, t) == t.skip(t.len() - rest_after(tag, t).len()),
{
    lemma_varint_len_bound(t);
    let kind = wire_kind(tag);
    if kind == 2 && varint_at(t) is Some {
        let inner = tail(t, varint_span(t));
        let len = varint_at(t)->Some_0 as nat;
        assert(tail(inner, len) =~= t.skip(t.len() - tail(inner, len).len()));
    } else {
        assert(rest_after(tag, t) =~= t.skip(t.len() - rest_after(tag, t).len()));
    }
}

/// Whether item `i` of the message `s` is what the tag at position `i` of
/// its tags and the octets behind that tag decode to.
pub open spec fn item_at_tag(s: Seq<u8>, i: int) -> bool {
    let at = tag_positions(s)[i];
    let item = decode_message(s)[i];
    &&& 0 <= at < s.len()
    &&& item == first_item(s.skip(at))
    &&& item.number == field_number(s[at])
    &&& item.body == body_at(s[at], s.skip(at + 1))
}

/// Whether item `i` of the message `s` is not broken and the next tag
/// stands right behind its payload.
pub open spec fn tag_behind_payload(s: Seq<u8>, i: int) -> bool {
    let at = tag_positions(s)[i];
    &&& !(decode_message(s)[i].body is Broken)
    &&& tag_positions(s)[i + 1] == s.len() - rest_after(s[at], s.skip(at + 1)).len()
    &&& at < tag_positions(s)[i + 1]
}

/// The fields of a message follow its tags: there is one item for each tag
/// that decoding reaches, the first tag is the first octet, each next tag
/// stands behind the payload of the one before, and each item is what its
/// tag and the octets behind it decode to. Only the last item can be
/// broken.
pub proof fn lemma_items_follow_tags(s: Seq<u8>)
    ensures
        tag_positions(s).len() == decode_message(s).len(),
        s.len() > 0 ==> decode_message(s).len() > 0 && tag_positions(s)[0] == 0,
        forall|i: int| 0 <= i < decode_message(s).len() ==> #[trigger] item_at_tag(s, i),
        forall|i: int| 0 <= i < decode_message(s).len() - 1 ==> #[trigger] tag_behind_payload(s, i),
    decreases s.len(),
{
    if s.len() > 0 {
        let items = decode_message(s);
        let at = tag_positions(s);
        assert(s.skip(0) =~= s);
        assert(item_at_tag(s, 0));
        if !(first_item(s).body is Broken) {
            let rest = rest_after(s[0], s.skip(1));
            let shift = s.len() - rest.len();
            lemma_rest_is_suffix(s[0], s.skip(1));
            lemma_items_follow_tags(rest);
            assert(rest =~= s.skip(shift));
            let inner = decode_message(rest);
            let inner_at = tag_positions(rest);
            assert forall|i: int| 0 <= i < items.len() implies #[trigger] item_at_tag(s, i) by {
                if i > 0 {
                    assert(item_at_tag(rest, i - 1));
                    assert(items[i] == inner[i - 1]);
                    assert(at[i] == inner_at[i - 1] + shift);
                    assert(rest.skip(inner_at[i - 1]) =~= s.skip(at[i]));
                    assert(rest.skip(inner_at[i - 1] + 1) =~= s.skip(at[i] + 1));
                }
            }
            assert forall|i: int| 0 <= i < items.len() - 1 implies #[trigger] tag_behind_payload(
                s,
                i,
            ) by {
                if i > 0 {
                    assert(tag_behind_payload(rest, i - 1));
                    assert(item_at_tag(rest, i - 1));
                    assert(items[i] == inner[i - 1]);
                    assert(at[i] == inner_at[i - 1] + shift);
                    assert(at[i + 1] == inner_at[i] + shift);
                    assert(rest.skip(inner_at[i - 1] + 1) =~= s.skip(at[i] + 1));
                } else {
                    assert(inner.len() > 0);
                    assert(rest.len() > 0);
                    assert(inner_at[0] == 0);
                    assert(at[1] == inner_at[0] + shift);
                }
            }
        }
    }
}

/// No variable-length integer ends in `t` exactly where every octet of `t`
/// has its high bit set.
pub proof fn lemma_unterminated(t: Seq<u8>)
    ensures
        varint_len(t) is None <==> forall|i: int| 0 <= i < t.len() ==> #[trigger] t[i] & 0x80 != 0,
    decreases t.len(),
{
    if t.len() > 0 {
        let rest = t.skip(1);
        lemma_unterminated(rest);
        if t[0] & 0x80 != 0 {
            if varint_len(rest) is None {
                assert forall|i: int| 0 <= i < t.len() implies #[trigger] t[i] & 0x80 != 0 by {
                    if i > 0 {
                        assert(t[i] == rest[i - 1]);
                    }
                }
            } else {
                let j = choose|j: int| 0 <= j < rest.len() && !(#[trigger] rest[j] & 0x80 != 0);
                assert(t[j + 1] == rest[j]);
            }
        }
    }
}

/// The faults of a field, each by the input that gives it: a payload is
/// broken exactly where a variable-length integer or the length of a run
/// does not end, where the tag opens a group, or where the tag names none of
/// the known wire kinds.
pub proof fn lemma_body_faults(tag: u8, t: Seq<u8>)
    ensures
        wire_kind(tag) <= 7,
        field_number(tag) <= 31,
        body_at(tag, t) == Body::Broken(Fault::BadVarint) <==> wire_kind(tag) == 0 && varint_len(
            t,
        ) is None,
        body_at(tag, t) == Body::Broken(Fault::BadStringLength) <==> wire_kind(tag) == 2
            && varint_len(t) is None,
        body_at(tag, t) == Body::Broken(Fault::Group) <==> wire_kind(tag) == 3,
        body_at(tag, t) == Body::Broken(
            Fault::InvalidTag { tag: wire_kind(tag), field: field_number(tag) },
        ) <==> wire_kind(tag) == 4 || wire_kind(tag) == 6 || wire_kind(tag) == 7,
        body_at(tag, t) is Broken ==> {
            ||| body_at(tag, t) == Body::Broken(Fault::BadVarint)
            ||| body_at(tag, t) == Body::Broken(Fault::BadStringLength)
            ||| body_at(tag, t) == Body::Broken(Fault::Group)
            ||| body_at(tag, t) == Body::Broken(
                Fault::InvalidTag { tag: wire_kind(tag), field: field_number(tag) },
            )
        },
{
    assert(tag & 7 <= 7) by (bit_vector);
    assert(tag >> 3 <= 31) by (bit_vector);
}

/// A run ends with status 65 exactly on a fault that is corrupt input, with
/// status 70 exactly on a group, and with status 0 exactly where there is no
/// fault.
pub proof fn lemma_status_by_fault(end: Result<(), Fault>)
    ensures
        status_of(end).number() == 65 <==> (end matches Err(fault) && fault.is_corruption()),
        status_of(end).number() == 70 <==> end == Err::<(), Fault>(Fault::Group),
        status_of(end).number() == 0 <==> end is Ok,
        status_of(end).number() == 0 || status_of(end).number() == 65 || status_of(end).number()
            == 70,
{
}

/// The line of a fault that is corrupt input begins with `corrupt: `.
pub proof fn lemma_corrupt_phrase(fault: Fault)
    requires
        fault.is_corruption(),
    ensures
        ascii("corrupt: "@).is_prefix_of(fault_phrase(fault)),
{
    reveal_strlit("corrupt: ");
    reveal_strlit("corrupt: bad varint");
    reveal_strlit("corrupt: bad length on string tag");
    reveal_strlit("corrupt: bad length on message");
    reveal_strlit("corrupt: invalid tag ");
    let lead = ascii("corrupt: "@);
    assert(fault_phrase(fault).subrange(0, lead.len() as int) =~= lead);
}

/// The last line written for a message is the line of its last field; where
/// the message ends with a fault, that is the line of the broken field.
pub proof fn lemma_last_line(items: Seq<Item>, max: u8)
    requires
        items.len() > 0,
    ensures
        message_lines(items, max).len() > 0,
        message_lines(items, max).last() == item_line(items.last()),
    decreases items.len(),
{
    let number = items[0].number;
    let rest = message_lines(items.skip(1), bump(max, number));
    if items.len() > 1 {
        lemma_last_line(items.skip(1), bump(max, number));
        assert(items.skip(1).last() == items.last());
    } else {
        assert(rest =~= Seq::<Seq<u8>>::empty());
    }
}

/// A message that ends with a fault ends with the fault of its last field,
/// which is never that of a stream's length prefix.
pub proof fn lemma_message_verdict(s: Seq<u8>)
    ensures
        verdict(decode_message(s)) != Err::<(), Fault>(Fault::BadMessageLength),
        verdict(decode_message(s)) is Err ==> decode_message(s).len() > 0 && outcome(
            decode_message(s).last().body,
        ) == verdict(decode_message(s)),
{
    let items = decode_message(s);
    lemma_items_follow_tags(s);
    if items.len() > 0 {
        let i = items.len() - 1;
        assert(item_at_tag(s, i));
        lemma_body_faults(s[tag_positions(s)[i]], s.skip(tag_positions(s)[i] + 1));
    }
}

/// Whether `line` reports `fault` the way a run that ends with it does: a
/// fault in a stream's length prefix on a line of its own, any other behind
/// the number of the broken field.
pub open spec fn reports(line: Seq<u8>, fault: Fault) -> bool {
    if fault == Fault::BadMessageLength {
        line == fault_phrase(fault)
    } else {
        exists|n: u8| line == #[trigger] decimal(n as nat) + ascii(": "@) + fault_phrase(fault)
    }
}

proof fn lemma_stream_fault_line(s: Seq<u8>)
    requires
        stream_verdict(s) is Err,
    ensures
        stream_lines(s).len() > 0,
        reports(stream_lines(s).last(), stream_verdict(s)->Err_0),
    decreases s.len(),
{
    match varint_at(s) {
        None => {},
        Some(len) => {
            let frame = first_frame(s, len);
            let items = decode_message(frame);
            if verdict(items) is Err {
                lemma_message_verdict(frame);
                lemma_last_line(items, 0);
                let n = items.last().number;
                assert(item_line(items.last()) == decimal(n as nat) + ascii(": "@) + fault_phrase(
                    stream_verdict(s)->Err_0,
                ));
            } else {
                lemma_varint_len_bound(s);
                lemma_stream_fault_line(run_rest(s));
            }
        },
    }
}

/// Every line of a stream's text is free of line feeds.
pub proof fn lemma_stream_lines_plain(s: Seq<u8>)
    ensures
        forall|i: int| 0 <= i < stream_lines(s).len() ==> plain(#[trigger] stream_lines(s)[i]),
    decreases s.len(),
{
    if s.len() > 0 {
        match varint_at(s) {
            None => {
                lemma_fault_phrase_plain(Fault::BadMessageLength);
            },
            Some(len) => {
                let frame = first_frame(s, len);
                let front = message_lines(decode_message(frame), 0);
                lemma_message_lines_plain(decode_message(frame), 0);
                if !(verdict(decode_message(frame)) is Err) {
                    lemma_varint_len_bound(s);
                    let back = stream_lines(run_rest(s));
                    lemma_stream_lines_plain(run_rest(s));
                    assert forall|i: int| 0 <= i < stream_lines(s).len() implies plain(
                        #[trigger] stream_lines(s)[i],
                    ) by {
                        if i >= front.len() {
                            assert(stream_lines(s)[i] == back[i - front.len()]);
                        } else {
                            assert(stream_lines(s)[i] == front[i]);
                        }
                    }
                }
            },
        }
    }
}

/// The text of a run is made of lines, none of which holds a line feed.
/// Where the run ends with a fault, the last line reports it: a fault in a
/// stream's length prefix on a line of its own, any other behind the number
/// of the broken field; and the report of corrupt input begins with
/// `corrupt: `.
pub proof fn lemma_fault_is_last_line(mode: Mode, input: Seq<u8>)
    ensures
        run_text(mode, input) == join(run_lines(mode, input)),
        forall|i: int|
            0 <= i < run_lines(mode, input).len() ==> plain(#[trigger] run_lines(mode, input)[i]),
        run_verdict(mode, input) matches Err(fault) ==> {
            &&& run_lines(mode, input).len() > 0
            &&& reports(run_lines(mode, input).last(), fault)
            &&& fault.is_corruption() ==> ascii("corrupt: "@).is_prefix_of(fault_phrase(fault))
        },
{
    match mode {
        Mode::Single => {
            let items = decode_message(input);
            lemma_message_lines_plain(items, 0);
            if verdict(items) is Err {
                lemma_message_verdict(input);
                lemma_last_line(items, 0);
                let fault = verdict(items)->Err_0;
                let n = items.last().number;
                assert(item_line(items.last()) == decimal(n as nat) + ascii(": "@) + fault_phrase(
                    fault,
                ));
            }
        },
        Mode::Multiple => {
            lemma_stream_lines_plain(input);
            if stream_verdict(input) is Err {
                lemma_stream_fault_line(input);
            }
        },
    }
    if run_verdict(mode, input) is Err {
        let fault = run_verdict(mode, input)->Err_0;
        if fault.is_corruption() {
            lemma_corrupt_phrase(fault);
        }
    }
}

/// A stream that is empty writes nothing and ends with status 0.
pub proof fn lemma_empty_stream()
    ensures
        run_text(Mode::Multiple, Seq::empty()) == Seq::<u8>::empty(),
        status_of(run_verdict(Mode::Multiple, Seq::empty())) == SysExits::Success,
        SysExits::Success.number() == 0,
{
    assert(run_text(Mode::Multiple, Seq::empty()) =~= Seq::<u8>::empty());
}

} // verus!
