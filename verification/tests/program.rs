use protodump::program::{push_usage, select_mode, Mode, SysExits};
use protodump::record::Fault;

fn args(words: &[&str]) -> Vec<String> {
    words.iter().map(|w| w.to_string()).collect()
}

const USAGE: &str = "This tool is very dumb.  Pass the argument \"single\" to read a single protobuf \
                     message, otherwise we try to read a stream of (LEB128) length-delimited messages.  \
                     stdin only.\n";

fn pick(words: &[&str]) -> (Result<Mode, SysExits>, String) {
    let mut out = Vec::new();
    let choice = select_mode(&args(words), &mut out);
    (choice, String::from_utf8(out).unwrap())
}

#[test]
fn no_argument_selects_the_stream() {
    assert_eq!(pick(&[]), (Ok(Mode::Multiple), String::new()));
    assert_eq!(Mode::default(), Mode::Multiple);
}

#[test]
fn single_selects_one_message() {
    assert_eq!(pick(&["single"]), (Ok(Mode::Single), String::new()));
}

#[test]
fn other_arguments_are_refused() {
    for words in [
        &["Single"][..],
        &["multiple"],
        &[""],
        &["single", "single"],
        &["single", "x"],
        &["a", "b", "c"],
    ] {
        let (choice, text) = pick(words);
        assert_eq!(choice, Err(SysExits::Usage));
        assert_eq!(text, USAGE);
    }
    assert_eq!(SysExits::Usage.code(), 64);
}

#[test]
fn usage_message() {
    let mut out = Vec::new();
    push_usage(&mut out);
    assert_eq!(String::from_utf8(out).unwrap(), USAGE);
}

#[test]
fn exit_numbers() {
    assert_eq!(SysExits::Success.code(), 0);
    assert_eq!(SysExits::Usage.code(), 64);
    assert_eq!(SysExits::DataErr.code(), 65);
    assert_eq!(SysExits::NoInput.code(), 66);
    assert_eq!(SysExits::NoUser.code(), 67);
    assert_eq!(SysExits::NoHost.code(), 68);
    assert_eq!(SysExits::Unavailable.code(), 69);
    assert_eq!(SysExits::Software.code(), 70);
    assert_eq!(SysExits::OsErr.code(), 71);
    assert_eq!(SysExits::OsFile.code(), 72);
    assert_eq!(SysExits::CantCreat.code(), 73);
    assert_eq!(SysExits::IoErr.code(), 74);
    assert_eq!(SysExits::TempFail.code(), 75);
    assert_eq!(SysExits::Protocol.code(), 76);
    assert_eq!(SysExits::NoPerm.code(), 77);
    assert_eq!(SysExits::Config.code(), 78);
}

#[test]
fn faults_and_their_status() {
    assert_eq!(Fault::BadVarint.exit_status(), SysExits::DataErr);
    assert_eq!(Fault::BadStringLength.exit_status(), SysExits::DataErr);
    assert_eq!(Fault::BadMessageLength.exit_status(), SysExits::DataErr);
    assert_eq!(Fault::InvalidTag { tag: 4, field: 0 }.exit_status(), SysExits::DataErr);
    assert_eq!(Fault::Group.exit_status(), SysExits::Software);
}
