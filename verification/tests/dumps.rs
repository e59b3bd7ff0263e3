use protodump::program::{run, Mode, SysExits};

fn dump(mode: Mode, input: &[u8]) -> (String, i32) {
    let mut out = Vec::new();
    let status = run(mode, input.to_vec(), &mut out);
    (String::from_utf8(out).unwrap(), status.code())
}

#[test]
fn single_varint() {
    let (text, code) = dump(Mode::Single, &[0x08, 0x96, 0x01]);
    assert_eq!(text, "1: varint 150\n");
    assert_eq!(code, 0);
}

#[test]
fn ascii_string() {
    let (text, code) = dump(Mode::Single, &[0x12, 0x05, 0x68, 0x65, 0x6c, 0x6c, 0x6f]);
    assert_eq!(text, "2: 5-byte string: hello\n");
    assert_eq!(code, 0);
}

#[test]
fn binary_string() {
    let (text, code) = dump(Mode::Single, &[0x12, 0x03, 0x00, 0x01, 0xff]);
    assert_eq!(text, "2: 3-byte string: 0 1 ff \n");
    assert_eq!(code, 0);
}

#[test]
fn fixed32_big_endian() {
    let (text, code) = dump(Mode::Single, &[0x09, 0x00, 0x00, 0x00, 0x2a]);
    assert_eq!(text, "1: fixed32 42\n");
    assert_eq!(code, 0);
}

#[test]
fn fixed64_short_read_spells_what_is_there() {
    let (text, code) = dump(Mode::Single, &[0x0d, 0x00, 0x00, 0x00, 0x2a]);
    assert_eq!(text, "1: fixed64 42\n");
    assert_eq!(code, 0);
}

#[test]
fn fixed64_big_endian() {
    let (text, _) = dump(
        Mode::Single,
        &[0x0d, 0x01, 0x02, 0x03, 0x04, 0x05, 0x06, 0x07, 0x08],
    );
    assert_eq!(text, "1: fixed64 72623859790382856\n");
}

#[test]
fn fixed32_reads_four_octets_only() {
    let (text, _) = dump(Mode::Single, &[0x09, 0xff, 0xff, 0xff, 0xff, 0x08, 0x01]);
    assert_eq!(text, "1: fixed32 4294967295\n1: varint 1\n");
}

#[test]
fn out_of_order_warning() {
    let (text, code) = dump(Mode::Single, &[0x10, 0x01, 0x08, 0x02]);
    assert_eq!(
        text,
        "2: varint 1\nWarning: message has out-of-order fields (1 < 2)\n1: varint 2\n"
    );
    assert_eq!(code, 0);
}

#[test]
fn warning_repeats_below_a_spike() {
    // field 5, then fields 1, 2, 1: each of the three lies below 5
    let (text, _) = dump(
        Mode::Single,
        &[0x28, 0x00, 0x08, 0x00, 0x10, 0x00, 0x08, 0x00],
    );
    assert_eq!(
        text,
        "5: varint 0\n\
         Warning: message has out-of-order fields (1 < 5)\n1: varint 0\n\
         Warning: message has out-of-order fields (2 < 5)\n2: varint 0\n\
         Warning: message has out-of-order fields (1 < 5)\n1: varint 0\n"
    );
}

#[test]
fn equal_field_numbers_do_not_warn() {
    let (text, _) = dump(Mode::Single, &[0x10, 0x01, 0x10, 0x02]);
    assert_eq!(text, "2: varint 1\n2: varint 2\n");
}

#[test]
fn stream_framing() {
    let (text, code) = dump(
        Mode::Multiple,
        &[0x03, 0x08, 0x96, 0x01, 0x05, 0x12, 0x01, 0x41],
    );
    assert_eq!(text, "1: varint 150\n2: 1-byte string: A\n");
    assert_eq!(code, 0);
}

#[test]
fn stream_hides_the_next_message_from_a_greedy_payload() {
    // the run of the first message asks for 9 octets but its frame holds 1
    let (text, code) = dump(
        Mode::Multiple,
        &[0x03, 0x12, 0x09, 0x41, 0x02, 0x08, 0x07],
    );
    assert_eq!(text, "2: 9-byte string: A\n1: varint 7\n");
    assert_eq!(code, 0);
}

#[test]
fn stream_empty_input() {
    let (text, code) = dump(Mode::Multiple, &[]);
    assert_eq!(text, "");
    assert_eq!(code, 0);
}

#[test]
fn stream_of_empty_messages() {
    let (text, code) = dump(Mode::Multiple, &[0x00, 0x00, 0x00]);
    assert_eq!(text, "");
    assert_eq!(code, 0);
}

#[test]
fn single_empty_input() {
    let (text, code) = dump(Mode::Single, &[]);
    assert_eq!(text, "");
    assert_eq!(code, 0);
}

#[test]
fn corrupt_bad_varint() {
    let (text, code) = dump(Mode::Single, &[0x08, 0x80]);
    assert_eq!(text, "1: corrupt: bad varint\n");
    assert!(text.ends_with("corrupt: bad varint\n"));
    assert_eq!(code, 65);
}

#[test]
fn corrupt_bad_varint_keeps_what_was_written() {
    let (text, code) = dump(Mode::Single, &[0x08, 0x01, 0x10]);
    assert_eq!(text, "1: varint 1\n2: corrupt: bad varint\n");
    assert_eq!(code, 65);
}

#[test]
fn corrupt_bad_string_length() {
    let (text, code) = dump(Mode::Single, &[0x12, 0xff]);
    assert_eq!(text, "2: corrupt: bad length on string tag\n");
    assert_eq!(code, 65);
}

#[test]
fn corrupt_bad_message_length() {
    let (text, code) = dump(Mode::Multiple, &[0x02, 0x08, 0x01, 0x80]);
    assert_eq!(text, "1: varint 1\ncorrupt: bad length on message\n");
    assert_eq!(text.lines().last().unwrap(), "corrupt: bad length on message");
    assert_eq!(code, 65);
}

#[test]
fn corrupt_invalid_tag() {
    let (text, code) = dump(Mode::Single, &[0x0c]);
    assert_eq!(text, "1: corrupt: invalid tag 4 at field 1\n");
    assert_eq!(code, 65);
    let (text, code) = dump(Mode::Single, &[0xfe]);
    assert_eq!(text, "31: corrupt: invalid tag 6 at field 31\n");
    assert_eq!(code, 65);
    let (text, code) = dump(Mode::Single, &[0x07, 0x08, 0x01]);
    assert_eq!(text, "0: corrupt: invalid tag 7 at field 0\n");
    assert_eq!(code, 65);
}

#[test]
fn unsupported_group() {
    let (text, code) = dump(Mode::Single, &[0x1b]);
    assert_eq!(
        text,
        "3: should dump a group here, but we don't know how yet.  sorry.\n"
    );
    assert_eq!(code, 70);
}

#[test]
fn stream_stops_at_the_first_fault() {
    let (text, code) = dump(Mode::Multiple, &[0x01, 0x1b, 0x02, 0x08, 0x01]);
    assert_eq!(
        text,
        "3: should dump a group here, but we don't know how yet.  sorry.\n"
    );
    assert_eq!(code, 70);
}

#[test]
fn fault_behind_a_warning() {
    let (text, code) = dump(Mode::Single, &[0x10, 0x01, 0x0c]);
    assert_eq!(
        text,
        "2: varint 1\nWarning: message has out-of-order fields (1 < 2)\n\
         1: corrupt: invalid tag 4 at field 1\n"
    );
    assert_eq!(code, 65);
}

#[test]
fn short_run_is_dumped_with_its_declared_length() {
    let (text, code) = dump(Mode::Single, &[0x12, 0x05, 0x68, 0x69]);
    assert_eq!(text, "2: 5-byte string: hi\n");
    assert_eq!(code, 0);
}

#[test]
fn empty_run() {
    let (text, _) = dump(Mode::Single, &[0x12, 0x00]);
    assert_eq!(text, "2: 0-byte string: \n");
}

#[test]
fn run_with_the_edges_of_the_printable_range() {
    let (text, _) = dump(Mode::Single, &[0x12, 0x02, 0x20, 0x7f]);
    assert_eq!(text, "2: 2-byte string:  \u{7f}\n");
    let (text, _) = dump(Mode::Single, &[0x12, 0x02, 0x1f, 0x41]);
    assert_eq!(text, "2: 2-byte string: 1f 41 \n");
    let (text, _) = dump(Mode::Single, &[0x12, 0x02, 0x41, 0x80]);
    assert_eq!(text, "2: 2-byte string: 41 80 \n");
}

#[test]
fn one_line_per_field() {
    let input = [0x08, 0x01, 0x12, 0x01, 0x41, 0x19, 0, 0, 0, 1, 0x25, 0, 0, 0, 0, 0, 0, 0, 2];
    let (text, code) = dump(Mode::Single, &input);
    assert_eq!(code, 0);
    let lines: Vec<&str> = text.lines().collect();
    assert_eq!(lines.len(), 4);
    assert!(lines[0].starts_with("1: "));
    assert!(lines[1].starts_with("2: "));
    assert!(lines[2].starts_with("3: "));
    assert!(lines[3].starts_with("4: "));
    assert_eq!(
        text,
        "1: varint 1\n2: 1-byte string: A\n3: fixed32 1\n4: fixed64 2\n"
    );
}

#[test]
fn stream_equals_messages_one_by_one() {
    let first: Vec<u8> = vec![0x08, 0x96, 0x01];
    let second: Vec<u8> = vec![0x12, 0x03, 0x00, 0x01, 0xff, 0x08, 0x02];
    let third: Vec<u8> = vec![];
    let mut stream = Vec::new();
    let mut expected = String::new();
    for m in [&first, &second, &third] {
        stream.push(m.len() as u8);
        stream.extend_from_slice(m);
        expected.push_str(&dump(Mode::Single, m).0);
    }
    let (text, code) = dump(Mode::Multiple, &stream);
    assert_eq!(text, expected);
    assert_eq!(code, 0);
}

#[test]
fn run_appends_to_what_is_there() {
    let mut out = b"seen\n".to_vec();
    let status = run(Mode::Single, vec![0x08, 0x01], &mut out);
    assert_eq!(out, b"seen\n1: varint 1\n".to_vec());
    assert_eq!(status, SysExits::Success);
}
