use protodump::framer::Framer;
use protodump::program::{run, Mode, SysExits};

/// Feeds `input` octet by octet, then the end, and stops at the first status.
fn feed_all(input: &[u8]) -> (String, i32) {
    let mut out = Vec::new();
    let mut framer = Framer::new();
    let mut events: Vec<Option<u8>> = input.iter().map(|b| Some(*b)).collect();
    events.push(None);
    for event in events {
        let (next, stop) = framer.feed(event, &mut out);
        framer = next;
        if let Some(status) = stop {
            return (String::from_utf8(out).unwrap(), status.code());
        }
    }
    unreachable!()
}

fn whole(input: &[u8]) -> (String, i32) {
    let mut out = Vec::new();
    let status = run(Mode::Multiple, input.to_vec(), &mut out);
    (String::from_utf8(out).unwrap(), status.code())
}

#[test]
fn framer_on_an_empty_stream() {
    let mut out = Vec::new();
    let (_, stop) = Framer::new().feed(None, &mut out);
    assert_eq!(stop, Some(SysExits::Success));
    assert!(out.is_empty());
}

#[test]
fn framer_writes_a_message_with_its_last_octet() {
    let mut out = Vec::new();
    let framer = Framer::new();
    let (framer, stop) = framer.feed(Some(0x03), &mut out);
    assert_eq!(stop, None);
    let (framer, stop) = framer.feed(Some(0x08), &mut out);
    assert_eq!(stop, None);
    let (framer, stop) = framer.feed(Some(0x96), &mut out);
    assert_eq!(stop, None);
    assert!(out.is_empty());
    let (framer, stop) = framer.feed(Some(0x01), &mut out);
    assert_eq!(stop, None);
    assert_eq!(out, b"1: varint 150\n".to_vec());
    let (_, stop) = framer.feed(None, &mut out);
    assert_eq!(stop, Some(SysExits::Success));
    assert_eq!(out, b"1: varint 150\n".to_vec());
}

#[test]
fn framer_stops_at_a_fault_inside_a_message() {
    let mut out = Vec::new();
    let (framer, stop) = Framer::new().feed(Some(0x01), &mut out);
    assert_eq!(stop, None);
    let (_, stop) = framer.feed(Some(0x1b), &mut out);
    assert_eq!(stop, Some(SysExits::Software));
    assert_eq!(
        String::from_utf8(out).unwrap(),
        "3: should dump a group here, but we don't know how yet.  sorry.\n"
    );
}

#[test]
fn framer_reports_a_length_cut_short() {
    assert_eq!(
        feed_all(&[0x00, 0x80, 0x80]),
        ("corrupt: bad length on message\n".to_string(), 65)
    );
}

#[test]
fn framer_dumps_a_message_cut_short() {
    assert_eq!(
        feed_all(&[0x03, 0x08, 0x96, 0x01, 0x05, 0x12, 0x01, 0x41]),
        ("1: varint 150\n2: 1-byte string: A\n".to_string(), 0)
    );
    assert_eq!(
        feed_all(&[0x05, 0x08]),
        ("1: corrupt: bad varint\n".to_string(), 65)
    );
}

#[test]
fn framer_reads_a_length_of_two_octets() {
    let mut input = vec![0x82, 0x01];
    let mut expected = String::new();
    for _ in 0..65 {
        input.extend_from_slice(&[0x08, 0x07]);
        expected.push_str("1: varint 7\n");
    }
    assert_eq!(feed_all(&input), (expected, 0));
}

#[test]
fn framer_agrees_with_the_dump_of_the_whole_stream() {
    let streams: Vec<Vec<u8>> = vec![
        vec![],
        vec![0x00],
        vec![0x00, 0x00, 0x02, 0x08, 0x01],
        vec![0x03, 0x08, 0x96, 0x01, 0x05, 0x12, 0x01, 0x41],
        vec![0x03, 0x12, 0x09, 0x41, 0x02, 0x08, 0x07],
        vec![0x02, 0x08, 0x01, 0x80],
        vec![0x01, 0x0c, 0x02, 0x08, 0x01],
        vec![0x01, 0x08, 0x02, 0x10, 0x01],
        vec![0x04, 0x10, 0x01, 0x08, 0x02, 0x01, 0x1b],
        vec![0x80],
        vec![0x7f, 0x0d, 0x01, 0x02],
    ];
    for stream in streams {
        assert_eq!(feed_all(&stream), whole(&stream));
    }
}
