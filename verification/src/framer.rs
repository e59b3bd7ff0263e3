//! Dumping a stream while it arrives: the framer takes the input octet by
//! octet and writes the text of each message as soon as the message is
//! whole.

use crate::dump::{decode_one, push_fault, verdict};
use crate::program::{status_of, SysExits};
use crate::record::{decode_message, lemma_join_append, message_lines, message_text, Fault};
use crate::source::{tail, ByteSource};
use crate::stream::{first_frame, lemma_stream_step, stream_lines, stream_text, stream_verdict};
use crate::wire::{
    lemma_varint_extend, lemma_varint_len_bound, run_rest, varint_at, varint_len, varint_span,
    Partial, Progress,
};
use vstd::prelude::*;

verus! {

/// Whether `p` is one message behind its length, whole and with nothing
/// after it.
pub open spec fn whole_frame(p: Seq<u8>) -> bool {
    varint_at(p) matches Some(len) && p.len() == varint_span(p) + len
}

/// The message in `p`, which is its length followed by the message or a
/// part of it.
pub open spec fn frame_of(p: Seq<u8>) -> Seq<u8> {
    tail(p, varint_span(p))
}

/// Where in a stream the framer stands.
enum Place {
    /// Between two messages.
    Boundary,
    /// Inside the length of a message.
    Prefix(Partial),
    /// Inside a message of which `left` octets are still to come.
    Body { left: u64, buf: Vec<u8> },
}

/// The reader of a stream that is fed octet by octet. Its view is what it
/// was fed of the message that it is in: nothing between two messages.
pub struct Framer {
    place: Place,
    pending: Ghost<Seq<u8>>,
}

impl View for Framer {
    type V = Seq<u8>;

    closed spec fn view(&self) -> Seq<u8> {
        self.pending@
    }
}

impl Framer {
    #[verifier::type_invariant]
    spec fn sound(&self) -> bool {
        match self.place {
            Place::Boundary => self.pending@.len() == 0,
            Place::Prefix(partial) => {
                &&& partial@ == self.pending@
                &&& self.pending@.len() > 0
                &&& varint_len(self.pending@) is None
            },
            Place::Body { left, buf } => {
                &&& left > 0
                &&& varint_at(self.pending@) is Some
                &&& buf@.len() + left == varint_at(self.pending@)->Some_0
                &&& frame_of(self.pending@) == buf@
            },
        }
    }

    /// A framer at the start of a stream.
    pub fn new() -> (fresh: Framer)
        ensures
            fresh@ == Seq::<u8>::empty(),
    {
        Framer { place: Place::Boundary, pending: Ghost(Seq::empty()) }
    }

    /// Takes the next event of the input, an octet or, as `None`, the end,
    /// and returns the framer to go on with and, once the run is over, the
    /// status to exit with.
    ///
    /// An octet that completes a message has the text of that message
    /// written, and ends the run where the message ends with a fault; any
    /// other octet is kept. At the end of the input what is pending is
    /// dumped as the rest of the stream.
    pub fn feed(self, event: Option<u8>, out: &mut Vec<u8>) -> (turn: (Framer, Option<SysExits>))
        ensures
            match event {
                None => {
                    &&& final(out)@ == old(out)@ + stream_text(self@)
                    &&& turn.1 == Some(status_of(stream_verdict(self@)))
                    &&& turn.0@ == Seq::<u8>::empty()
                },
                Some(b) => if whole_frame(self@.push(b)) {
                    &&& final(out)@ == old(out)@ + message_text(frame_of(self@.push(b)), 0)
                    &&& turn.1 == match verdict(decode_message(frame_of(self@.push(b)))) {
                        Err(fault) => Some(fault.status()),
                        Ok(()) => None,
                    }
                    &&& turn.0@ == Seq::<u8>::empty()
                } else {
                    &&& final(out)@ == old(out)@
                    &&& turn.1 is None
                    &&& turn.0@ == self@.push(b)
                },
            },
    {
        proof {
            use_type_invariant(&self);
        }
        let ghost pending = self.pending@;
        match event {
            None => match self.place {
                Place::Boundary => {
                    assert(stream_lines(pending) =~= Seq::<Seq<u8>>::empty());
                    assert(out@ =~= old(out)@ + stream_text(pending));
                    (Framer::new(), Some(SysExits::Success))
                },
                Place::Prefix(_) => {
                    proof {
                        lemma_stream_step(pending);
                    }
                    push_fault(out, Fault::BadMessageLength);
                    assert(out@ =~= old(out)@ + stream_text(pending));
                    (Framer::new(), Some(Fault::BadMessageLength.exit_status()))
                },
                Place::Body { left, buf } => {
                    proof {
                        lemma_stream_step(pending);
                        lemma_varint_len_bound(pending);
                        let len = varint_at(pending)->Some_0;
                        assert(first_frame(pending, len) =~= buf@);
                        assert(run_rest(pending) =~= Seq::<u8>::empty());
                        assert(stream_lines(run_rest(pending)) =~= Seq::<Seq<u8>>::empty());
                        assert(stream_text(run_rest(pending)) =~= Seq::<u8>::empty());
                        assert(stream_verdict(run_rest(pending)) == Ok::<(), Fault>(()));
                    }
                    let mut message = ByteSource::new(buf);
                    let end = decode_one(&mut message, out);
                    assert(out@ =~= old(out)@ + stream_text(pending));
                    match end {
                        Ok(()) => (Framer::new(), Some(SysExits::Success)),
                        Err(fault) => (Framer::new(), Some(fault.exit_status())),
                    }
                },
            },
            Some(b) => {
                let ghost longer = pending.push(b);
                match self.place {
                    Place::Body { left, buf } => {
                        let mut buf = buf;
                        buf.push(b);
                        proof {
                            lemma_varint_len_bound(pending);
                            lemma_varint_extend(pending, seq![b]);
                            assert(pending + seq![b] =~= longer);
                            assert(frame_of(longer) =~= buf@);
                        }
                        if left == 1 {
                            let mut message = ByteSource::new(buf);
                            let end = decode_one(&mut message, out);
                            match end {
                                Ok(()) => (Framer::new(), None),
                                Err(fault) => (Framer::new(), Some(fault.exit_status())),
                            }
                        } else {
                            (Framer { place: Place::Body { left: left - 1, buf }, pending: Ghost(longer) }, None)
                        }
                    },
                    place => {
                        let partial = match place {
                            Place::Prefix(partial) => partial,
                            _ => Partial::new(),
                        };
                        assert(partial@ == pending);
                        match partial.push(b) {
                            Progress::More(partial) => {
                                (Framer { place: Place::Prefix(partial), pending: Ghost(longer) }, None)
                            },
                            Progress::Value(len) => {
                                proof {
                                    assert(frame_of(longer) =~= Seq::<u8>::empty());
                                }
                                if len == 0 {
                                    assert(out@ =~= old(out)@ + message_text(frame_of(longer), 0));
                                    (Framer::new(), None)
                                } else {
                                    (
                                        Framer {
                                            place: Place::Body { left: len, buf: Vec::new() },
                                            pending: Ghost(longer),
                                        },
                                        None,
                                    )
                                }
                            },
                        }
                    },
                }
            },
        }
    }
}

/// A stream that begins with a whole frame is dumped as the message of that
/// frame and, where the message ends without a fault, the rest of the
/// stream behind it.
pub proof fn lemma_whole_frame(p: Seq<u8>, rest: Seq<u8>)
    requires
        whole_frame(p),
    ensures
        stream_lines(p + rest) == if verdict(decode_message(frame_of(p))) is Err {
            message_lines(decode_message(frame_of(p)), 0)
        } else {
            message_lines(decode_message(frame_of(p)), 0) + stream_lines(rest)
        },
        stream_verdict(p + rest) == if verdict(decode_message(frame_of(p))) is Err {
            verdict(decode_message(frame_of(p)))
        } else {
            stream_verdict(rest)
        },
{
    let s = p + rest;
    let len = varint_at(p)->Some_0;
    lemma_varint_len_bound(p);
    lemma_varint_extend(p, rest);
    assert(tail(s, varint_span(s)) =~= frame_of(p) + rest);
    assert(first_frame(s, len) =~= frame_of(p));
    assert(run_rest(s) =~= rest);
}

/// The text written by a framer that holds `pending` and is fed the octets
/// of `s` one by one and then the end of the input, the feeding stopped by
/// the first status that it returns.
pub open spec fn fed_text(pending: Seq<u8>, s: Seq<u8>) -> Seq<u8>
    decreases s.len(),
{
    if s.len() == 0 {
        stream_text(pending)
    } else if !whole_frame(pending.push(s[0])) {
        fed_text(pending.push(s[0]), s.skip(1))
    } else if verdict(decode_message(frame_of(pending.push(s[0])))) is Err {
        message_text(frame_of(pending.push(s[0])), 0)
    } else {
        message_text(frame_of(pending.push(s[0])), 0) + fed_text(Seq::empty(), s.skip(1))
    }
}

/// The status returned to a caller that feeds a framer as `fed_text` says.
pub open spec fn fed_status(pending: Seq<u8>, s: Seq<u8>) -> SysExits
    decreases s.len(),
{
    if s.len() == 0 {
        status_of(stream_verdict(pending))
    } else if !whole_frame(pending.push(s[0])) {
        fed_status(pending.push(s[0]), s.skip(1))
    } else if verdict(decode_message(frame_of(pending.push(s[0])))) is Err {
        status_of(verdict(decode_message(frame_of(pending.push(s[0])))))
    } else {
        fed_status(Seq::empty(), s.skip(1))
    }
}

/// Feeding a stream to a framer octet by octet writes the text, and ends
/// with the status, of dumping the stream as a whole.
pub proof fn lemma_fed_is_stream(pending: Seq<u8>, s: Seq<u8>)
    ensures
        fed_text(pending, s) == stream_text(pending + s),
        fed_status(pending, s) == status_of(stream_verdict(pending + s)),
    decreases s.len(),
{
    if s.len() == 0 {
        assert(pending + s =~= pending);
    } else {
        let p = pending.push(s[0]);
        assert(p + s.skip(1) =~= pending + s);
        if !whole_frame(p) {
            lemma_fed_is_stream(p, s.skip(1));
        } else {
            lemma_whole_frame(p, s.skip(1));
            let lines = message_lines(decode_message(frame_of(p)), 0);
            if !(verdict(decode_message(frame_of(p))) is Err) {
                lemma_fed_is_stream(Seq::empty(), s.skip(1));
                assert(Seq::<u8>::empty() + s.skip(1) =~= s.skip(1));
                lemma_join_append(lines, stream_lines(s.skip(1)));
            }
        }
    }
}

} // verus!
