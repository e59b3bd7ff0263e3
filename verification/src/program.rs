//! The two ways of reading the input, the choice between them, and the
//! status that a run ends with.

use crate::dump::{decode_one, line_end, verdict};
use crate::record::{decode_message, join, message_lines, Fault};
use crate::source::ByteSource;
use crate::stream::{decode_stream, stream_lines, stream_verdict};
use crate::text::{ascii, push_str};
use vstd::prelude::*;

verus! {

/// How the input is cut into messages.
#[derive(Clone, Copy, Debug, PartialEq, Eq, Structural)]
pub enum Mode {
    /// The input is a row of messages, each behind its length.
    Multiple,
    /// All of the input is one message.
    Single,
}

impl Default for Mode {
    /// A stream, which is what is read where nothing else is asked for.
    fn default() -> (mode: Mode)
        ensures
            mode == Mode::Multiple,
    {
        Mode::Multiple
    }
}

/// The exit statuses of the system's conventions.
#[derive(Clone, Copy, Debug, PartialEq, Eq, Structural)]
pub enum SysExits {
    /// successful termination
    Success,
    /// command line usage error
    Usage,
    /// data format error
    DataErr,
    /// cannot open input
    NoInput,
    /// addressee unknown
    NoUser,
    /// host name unknown
    NoHost,
    /// service unavailable
    Unavailable,
    /// internal software error
    Software,
    /// system error
    OsErr,
    /// critical OS file missing
    OsFile,
    /// cannot create output file
    CantCreat,
    /// input/output error
    IoErr,
    /// temporary failure
    TempFail,
    /// remote error in protocol
    Protocol,
    /// permission denied
    NoPerm,
    /// configuration error
    Config,
}

impl SysExits {
    /// The number that the process exits with.
    pub open spec fn number(self) -> int {
        match self {
            SysExits::Success => 0,
            SysExits::Usage => 64,
            SysExits::DataErr => 65,
            SysExits::NoInput => 66,
            SysExits::NoUser => 67,
            SysExits::NoHost => 68,
            SysExits::Unavailable => 69,
            SysExits::Software => 70,
            SysExits::OsErr => 71,
            SysExits::OsFile => 72,
            SysExits::CantCreat => 73,
            SysExits::IoErr => 74,
            SysExits::TempFail => 75,
            SysExits::Protocol => 76,
            SysExits::NoPerm => 77,
            SysExits::Config => 78,
        }
    }

    /// The number that the process exits with.
    pub fn code(self) -> (c: i32)
        ensures
            c == self.number(),
    {
        match self {
            SysExits::Success => 0,
            SysExits::Usage => 64,
            SysExits::DataErr => 65,
            SysExits::NoInput => 66,
            SysExits::NoUser => 67,
            SysExits::NoHost => 68,
            SysExits::Unavailable => 69,
            SysExits::Software => 70,
            SysExits::OsErr => 71,
            SysExits::OsFile => 72,
            SysExits::CantCreat => 73,
            SysExits::IoErr => 74,
            SysExits::TempFail => 75,
            SysExits::Protocol => 76,
            SysExits::NoPerm => 77,
            SysExits::Config => 78,
        }
    }
}

impl Fault {
    /// Whether the fault is corrupt input, as against a construct that is
    /// valid but cannot be dumped.
    pub open spec fn is_corruption(self) -> bool {
        !(self is Group)
    }

    /// The status that a run ends with on this fault.
    pub open spec fn status(self) -> SysExits {
        if self is Group {
            SysExits::Software
        } else {
            SysExits::DataErr
        }
    }

    /// The status that a run ends with on this fault: a data error for
    /// corrupt input, a software error for a group.
    pub fn exit_status(self) -> (status: SysExits)
        ensures
            status == self.status(),
    {
        match self {
            Fault::Group => SysExits::Software,
            _ => SysExits::DataErr,
        }
    }
}

/// The status of a run that ended as `end` says.
pub open spec fn status_of(end: Result<(), Fault>) -> SysExits {
    match end {
        Ok(()) => SysExits::Success,
        Err(fault) => fault.status(),
    }
}

/// The mode that the arguments behind the program's name ask for: none of
/// them for a stream, the one word `single` for a single message. `None`
/// for anything else.
pub open spec fn mode_of(args: Seq<String>) -> Option<Mode> {
    if args.len() == 0 {
        Some(Mode::Multiple)
    } else if args.len() == 1 && args[0]@ == "single"@ {
        Some(Mode::Single)
    } else {
        None
    }
}

/// What is said to a caller whose arguments are not understood.
pub open spec fn usage_text() -> Seq<u8> {
    ascii(
        "This tool is very dumb.  Pass the argument \"single\" to read a single protobuf message, otherwise we try to read a stream of (LEB128) length-delimited messages.  stdin only."@,
    ) + line_end()
}

/// Writes the usage message.
pub fn push_usage(out: &mut Vec<u8>)
    ensures
        final(out)@ == old(out)@ + usage_text(),
{
    proof {
        reveal_strlit(
            "This tool is very dumb.  Pass the argument \"single\" to read a single protobuf message, otherwise we try to read a stream of (LEB128) length-delimited messages.  stdin only.",
        );
    }
    push_str(
        out,
        "This tool is very dumb.  Pass the argument \"single\" to read a single protobuf message, otherwise we try to read a stream of (LEB128) length-delimited messages.  stdin only.",
    );
    out.push(0x0a);
    assert(final(out)@ =~= old(out)@ + usage_text());
}

/// Chooses the mode from the arguments behind the program's name. Where
/// they are not understood, writes the usage message and returns the status
/// to exit with.
pub fn select_mode(args: &Vec<String>, out: &mut Vec<u8>) -> (choice: Result<Mode, SysExits>)
    ensures
        match mode_of(args@) {
            Some(mode) => choice == Ok::<Mode, SysExits>(mode) && final(out)@ == old(out)@,
            None => choice == Err::<Mode, SysExits>(SysExits::Usage) && final(out)@ == old(out)@
                + usage_text(),
        },
{
    if args.len() == 0 {
        return Ok(Mode::Multiple);
    }
    if args.len() == 1 {
        let single = "single".to_owned();
        if args[0] == single {
            return Ok(Mode::Single);
        }
    }
    push_usage(out);
    Err(SysExits::Usage)
}

/// The lines that a run over `input` writes.
pub open spec fn run_lines(mode: Mode, input: Seq<u8>) -> Seq<Seq<u8>> {
    match mode {
        Mode::Single => message_lines(decode_message(input), 0),
        Mode::Multiple => stream_lines(input),
    }
}

/// The text that a run over `input` writes.
pub open spec fn run_text(mode: Mode, input: Seq<u8>) -> Seq<u8> {
    join(run_lines(mode, input))
}

/// How a run over `input` ends.
pub open spec fn run_verdict(mode: Mode, input: Seq<u8>) -> Result<(), Fault> {
    match mode {
        Mode::Single => verdict(decode_message(input)),
        Mode::Multiple => stream_verdict(input),
    }
}

/// Dumps `input` in the given mode: writes the text to `out` and returns
/// the status to exit with.
pub fn run(mode: Mode, input: Vec<u8>, out: &mut Vec<u8>) -> (status: SysExits)
    ensures
        final(out)@ == old(out)@ + run_text(mode, input@),
        status == status_of(run_verdict(mode, input@)),
{
    let mut bytes = ByteSource::new(input);
    let end = match mode {
        Mode::Single => decode_one(&mut bytes, out),
        Mode::Multiple => decode_stream(&mut bytes, out),
    };
    match end {
        Ok(()) => SysExits::Success,
        Err(fault) => fault.exit_status(),
    }
}

} // verus!
