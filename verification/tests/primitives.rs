use protodump::dump::{decode_one, dump_fixed32, dump_fixed64, dump_string, dump_varint, push_fault, push_run};
use protodump::record::Fault;
use protodump::source::ByteSource;
use protodump::stream::decode_stream;
use protodump::text::{push_decimal, push_hex, push_str};
use protodump::wire::{
    all_printable, read_fixed32, read_fixed64, read_leb128, read_run, Partial, Progress,
};

fn source(bytes: &[u8]) -> ByteSource {
    ByteSource::new(bytes.to_vec())
}

#[test]
fn leb128_one_octet() {
    let mut src = source(&[0x05, 0x07]);
    assert_eq!(read_leb128(&mut src), Some(5));
    assert_eq!(src.remaining(), 1);
    assert_eq!(src.peek(), Some(0x07));
}

#[test]
fn leb128_two_octets() {
    let mut src = source(&[0x96, 0x01]);
    assert_eq!(read_leb128(&mut src), Some(150));
    assert!(src.is_empty());
}

#[test]
fn leb128_largest_value() {
    let mut src = source(&[0xff, 0xff, 0xff, 0xff, 0xff, 0xff, 0xff, 0xff, 0xff, 0x01]);
    assert_eq!(read_leb128(&mut src), Some(u64::MAX));
}

#[test]
fn leb128_wraps_beyond_64_bits() {
    // the tenth octet holds 2 at weight 2^63: only its lowest bit fits
    let mut src = source(&[0x81, 0x80, 0x80, 0x80, 0x80, 0x80, 0x80, 0x80, 0x80, 0x02]);
    assert_eq!(read_leb128(&mut src), Some(1));
    let mut src = source(&[0x81, 0x80, 0x80, 0x80, 0x80, 0x80, 0x80, 0x80, 0x80, 0x03]);
    assert_eq!(read_leb128(&mut src), Some(1 + (1u64 << 63)));
    // an eleventh octet weighs 2^70 and adds nothing
    let mut src = source(&[0x81, 0x80, 0x80, 0x80, 0x80, 0x80, 0x80, 0x80, 0x80, 0x80, 0x7f, 0x09]);
    assert_eq!(read_leb128(&mut src), Some(1));
    assert_eq!(src.remaining(), 1);
}

#[test]
fn leb128_unterminated() {
    let mut src = source(&[0x80, 0x80]);
    assert_eq!(read_leb128(&mut src), None);
    assert!(src.is_empty());
    let mut src = source(&[]);
    assert_eq!(read_leb128(&mut src), None);
}

#[test]
fn leb128_zero_with_padding() {
    let mut src = source(&[0x80, 0x00]);
    assert_eq!(read_leb128(&mut src), Some(0));
    assert!(src.is_empty());
}

#[test]
fn fixed32_full_and_short() {
    let mut src = source(&[0x01, 0x02, 0x03, 0x04, 0x05]);
    assert_eq!(read_fixed32(&mut src), 0x01020304);
    assert_eq!(src.remaining(), 1);
    let mut src = source(&[0x01, 0x02]);
    assert_eq!(read_fixed32(&mut src), 0x0102);
    assert!(src.is_empty());
    let mut src = source(&[]);
    assert_eq!(read_fixed32(&mut src), 0);
}

#[test]
fn fixed64_full_and_short() {
    let mut src = source(&[0xff, 0xff, 0xff, 0xff, 0xff, 0xff, 0xff, 0xff, 0x01]);
    assert_eq!(read_fixed64(&mut src), u64::MAX);
    assert_eq!(src.remaining(), 1);
    let mut src = source(&[0x01, 0x00, 0x00]);
    assert_eq!(read_fixed64(&mut src), 0x010000);
    assert!(src.is_empty());
}

#[test]
fn partial_takes_an_integer_octet_by_octet() {
    let partial = match Partial::new().push(0xac) {
        Progress::More(partial) => partial,
        Progress::Value(_) => panic!("0xac has its high bit set"),
    };
    match partial.push(0x02) {
        Progress::Value(value) => assert_eq!(value, 300),
        Progress::More(_) => panic!("0x02 has its high bit clear"),
    }
    match Partial::new().push(0x7f) {
        Progress::Value(value) => assert_eq!(value, 127),
        Progress::More(_) => panic!("0x7f has its high bit clear"),
    }
}

#[test]
fn run_whole_short_and_without_length() {
    let mut src = source(&[0x02, 0x41, 0x42, 0x43]);
    assert_eq!(read_run(&mut src), Some((2, vec![0x41, 0x42])));
    assert_eq!(src.remaining(), 1);
    let mut src = source(&[0x05, 0x41, 0x42]);
    assert_eq!(read_run(&mut src), Some((5, vec![0x41, 0x42])));
    assert!(src.is_empty());
    let mut src = source(&[0x00]);
    assert_eq!(read_run(&mut src), Some((0, vec![])));
    let mut src = source(&[0x85]);
    assert_eq!(read_run(&mut src), None);
    assert!(src.is_empty());
}

#[test]
fn printable_range() {
    assert!(all_printable(&vec![]));
    assert!(all_printable(&vec![0x20, 0x41, 0x7f]));
    assert!(!all_printable(&vec![0x41, 0x1f]));
    assert!(!all_printable(&vec![0x80, 0x41]));
    assert!(!all_printable(&vec![0x0a]));
}

#[test]
fn source_hands_out_octets_in_order() {
    let mut src = source(&[1, 2, 3, 4, 5]);
    assert_eq!(src.remaining(), 5);
    assert_eq!(src.peek(), Some(1));
    assert_eq!(src.next(), Some(1));
    assert_eq!(src.take(2), vec![2, 3]);
    assert_eq!(src.take(0), Vec::<u8>::new());
    assert_eq!(src.take(u64::MAX), vec![4, 5]);
    assert!(src.is_empty());
    assert_eq!(src.peek(), None);
    assert_eq!(src.next(), None);
    assert_eq!(src.next(), None);
    assert_eq!(src.take(3), Vec::<u8>::new());
}

#[test]
fn decimal_numerals() {
    let mut out = Vec::new();
    push_decimal(&mut out, 0);
    out.push(b' ');
    push_decimal(&mut out, 9);
    out.push(b' ');
    push_decimal(&mut out, 10);
    out.push(b' ');
    push_decimal(&mut out, 1090);
    out.push(b' ');
    push_decimal(&mut out, u64::MAX);
    assert_eq!(out, b"0 9 10 1090 18446744073709551615".to_vec());
}

#[test]
fn hexadecimal_numerals() {
    let mut out = Vec::new();
    for b in [0x00u8, 0x09, 0x0a, 0x0f, 0x10, 0x9a, 0xff] {
        push_hex(&mut out, b);
        out.push(b' ');
    }
    assert_eq!(out, b"0 9 a f 10 9a ff ".to_vec());
}

#[test]
fn phrase_is_appended() {
    let mut out = b"a".to_vec();
    push_str(&mut out, "bc: ");
    assert_eq!(out, b"abc: ".to_vec());
}

#[test]
fn run_as_text_or_hexadecimal() {
    let mut out = Vec::new();
    push_run(&mut out, &b"hello".to_vec());
    assert_eq!(out, b"hello".to_vec());
    let mut out = Vec::new();
    push_run(&mut out, &vec![0x68, 0x0a, 0xab]);
    assert_eq!(out, b"68 a ab ".to_vec());
}

#[test]
fn fault_lines() {
    let cases = [
        (Fault::BadVarint, "corrupt: bad varint\n"),
        (Fault::BadStringLength, "corrupt: bad length on string tag\n"),
        (Fault::BadMessageLength, "corrupt: bad length on message\n"),
        (
            Fault::InvalidTag { tag: 6, field: 17 },
            "corrupt: invalid tag 6 at field 17\n",
        ),
        (
            Fault::Group,
            "should dump a group here, but we don't know how yet.  sorry.\n",
        ),
    ];
    for (fault, line) in cases {
        let mut out = Vec::new();
        push_fault(&mut out, fault);
        assert_eq!(String::from_utf8(out).unwrap(), line);
    }
}

#[test]
fn dump_varint_line() {
    let mut src = source(&[0xac, 0x02, 0x01]);
    let mut out = Vec::new();
    assert_eq!(dump_varint(&mut src, &mut out), Ok(()));
    assert_eq!(out, b"varint 300\n".to_vec());
    assert_eq!(src.remaining(), 1);
    let mut src = source(&[0xac]);
    let mut out = Vec::new();
    assert_eq!(dump_varint(&mut src, &mut out), Err(Fault::BadVarint));
    assert_eq!(out, b"corrupt: bad varint\n".to_vec());
}

#[test]
fn dump_fixed_lines() {
    let mut src = source(&[0, 0, 1, 0, 9]);
    let mut out = Vec::new();
    dump_fixed32(&mut src, &mut out);
    assert_eq!(out, b"fixed32 256\n".to_vec());
    assert_eq!(src.remaining(), 1);
    let mut src = source(&[0, 0, 0, 0, 0, 0, 1, 0, 9]);
    let mut out = Vec::new();
    dump_fixed64(&mut src, &mut out);
    assert_eq!(out, b"fixed64 256\n".to_vec());
    assert_eq!(src.remaining(), 1);
}

#[test]
fn dump_string_line() {
    let mut src = source(&[0x02, 0x4f, 0x4b, 0x08]);
    let mut out = Vec::new();
    assert_eq!(dump_string(&mut src, &mut out), Ok(()));
    assert_eq!(out, b"2-byte string: OK\n".to_vec());
    assert_eq!(src.remaining(), 1);
    let mut src = source(&[0x82]);
    let mut out = Vec::new();
    assert_eq!(dump_string(&mut src, &mut out), Err(Fault::BadStringLength));
    assert_eq!(out, b"corrupt: bad length on string tag\n".to_vec());
}

#[test]
fn decode_one_returns_the_fault_and_stops_reading() {
    let mut src = source(&[0x08, 0x01, 0x0c, 0x08, 0x02]);
    let mut out = Vec::new();
    let end = decode_one(&mut src, &mut out);
    assert_eq!(end, Err(Fault::InvalidTag { tag: 4, field: 1 }));
    assert_eq!(
        String::from_utf8(out).unwrap(),
        "1: varint 1\n1: corrupt: invalid tag 4 at field 1\n"
    );
    assert_eq!(src.remaining(), 2);
}

#[test]
fn decode_one_reads_to_the_end() {
    let mut src = source(&[0x08, 0x01, 0x10, 0x02]);
    let mut out = Vec::new();
    assert_eq!(decode_one(&mut src, &mut out), Ok(()));
    assert!(src.is_empty());
}

#[test]
fn decode_stream_leaves_what_follows_a_broken_message() {
    let mut src = source(&[0x01, 0x08, 0x02, 0x10, 0x01]);
    let mut out = Vec::new();
    assert_eq!(decode_stream(&mut src, &mut out), Err(Fault::BadVarint));
    assert_eq!(String::from_utf8(out).unwrap(), "1: corrupt: bad varint\n");
    assert_eq!(src.remaining(), 3);
}
