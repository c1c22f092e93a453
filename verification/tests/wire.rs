use miaow::name::push_name;
use miaow::wire::{
    pop_u16, pop_u32, pop_u8, push_bytes, push_str, push_u16, push_u32, push_u8, ByteCursor,
};
use miaow::{DnsError, Malformation};

const TRUNCATED: DnsError = DnsError::Malformed(Malformation::Truncated);

#[test]
fn push_u8_appends_the_byte() {
    let mut buffer = vec![1];
    push_u8(&mut buffer, 0xab);
    assert_eq!(vec![1, 0xab], buffer);
}

#[test]
fn push_u16_is_big_endian() {
    let mut buffer = vec![9];
    push_u16(&mut buffer, 0x1234);
    push_u16(&mut buffer, 8080);
    push_u16(&mut buffer, 0);
    push_u16(&mut buffer, 0xffff);
    assert_eq!(vec![9, 0x12, 0x34, 0x1f, 0x90, 0, 0, 0xff, 0xff], buffer);
}

#[test]
fn push_u32_is_big_endian() {
    let mut buffer = Vec::new();
    push_u32(&mut buffer, 0x0102_0304);
    push_u32(&mut buffer, 10);
    push_u32(&mut buffer, 0xffee_ddcc);
    assert_eq!(vec![1, 2, 3, 4, 0, 0, 0, 10, 0xff, 0xee, 0xdd, 0xcc], buffer);
}

#[test]
fn push_str_appends_the_utf8_bytes() {
    let mut buffer = vec![0];
    push_str(&mut buffer, "ab");
    push_str(&mut buffer, "");
    push_str(&mut buffer, "\u{e9}");
    assert_eq!(vec![0, b'a', b'b', 0xc3, 0xa9], buffer);
}

#[test]
fn push_bytes_appends_the_run() {
    let mut buffer = vec![7];
    push_bytes(&mut buffer, &[1, 2, 3]);
    push_bytes(&mut buffer, &[]);
    assert_eq!(vec![7, 1, 2, 3], buffer);
}

#[test]
fn pop_takes_big_endian_values_in_turn() {
    let bytes = [0xab, 0x1f, 0x90, 0x01, 0x02, 0x03, 0x04, 0xff];
    let mut cursor = ByteCursor::new(&bytes);
    assert_eq!(Ok(0xab), pop_u8(&mut cursor));
    assert_eq!(Ok(8080), pop_u16(&mut cursor));
    assert_eq!(Ok(0x0102_0304), pop_u32(&mut cursor));
    assert_eq!(7, cursor.position());
    assert_eq!(1, cursor.remaining());
}

#[test]
fn pop_fails_when_too_few_bytes_are_left() {
    let one = [0x1f];
    let mut cursor = ByteCursor::new(&one);
    assert_eq!(Err(TRUNCATED), pop_u16(&mut cursor));
    assert_eq!(Err(TRUNCATED), pop_u32(&mut cursor));
    assert_eq!(0, cursor.position());
    assert_eq!(Ok(0x1f), pop_u8(&mut cursor));
    assert_eq!(Err(TRUNCATED), pop_u8(&mut cursor));
    assert_eq!(1, cursor.position());
    let three = [1, 2, 3];
    let mut cursor = ByteCursor::new(&three);
    assert_eq!(Err(TRUNCATED), pop_u32(&mut cursor));
    assert_eq!(Ok(0x0102), pop_u16(&mut cursor));
    assert_eq!(Err(TRUNCATED), pop_u16(&mut cursor));
    assert_eq!(2, cursor.position());
    let none: [u8; 0] = [];
    let mut cursor = ByteCursor::new(&none);
    assert_eq!(Err(TRUNCATED), pop_u8(&mut cursor));
    assert_eq!(Err(TRUNCATED), pop_u16(&mut cursor));
}

#[test]
fn read_takes_big_endian_values_in_turn() {
    let bytes = [0xab, 0x1f, 0x90, 0x01, 0x02, 0x03, 0x04, 0xff];
    let mut cursor = ByteCursor::new(&bytes);
    assert_eq!(Ok(0xab), cursor.read_u8());
    assert_eq!(Ok(8080), cursor.read_u16());
    assert_eq!(Ok(0x0102_0304), cursor.read_u32());
    assert_eq!(Ok(0xff), cursor.read_u8());
    assert_eq!(8, cursor.position());
    assert_eq!(0, cursor.remaining());
}

#[test]
fn written_values_read_back() {
    let mut buffer = Vec::new();
    push_u8(&mut buffer, 200);
    push_u16(&mut buffer, 513);
    push_u32(&mut buffer, 3_000_000_000);
    let mut cursor = ByteCursor::new(&buffer);
    assert_eq!(Ok(200), cursor.read_u8());
    assert_eq!(Ok(513), cursor.read_u16());
    assert_eq!(Ok(3_000_000_000), cursor.read_u32());
}

#[test]
fn read_fails_when_too_few_bytes_are_left() {
    let bytes = [1, 2, 3];
    let mut cursor = ByteCursor::new(&bytes);
    assert_eq!(Err(TRUNCATED), cursor.read_u32());
    assert_eq!(0, cursor.position());
    assert_eq!(Ok(0x0102), cursor.read_u16());
    assert_eq!(Err(TRUNCATED), cursor.read_u16());
    assert_eq!(2, cursor.position());
    assert_eq!(Ok(3), cursor.read_u8());
    assert_eq!(Err(TRUNCATED), cursor.read_u8());
    assert_eq!(3, cursor.position());
}

#[test]
fn read_bytes_takes_exactly_the_count() {
    let bytes = [1, 2, 3, 4, 5];
    let mut cursor = ByteCursor::new(&bytes);
    assert_eq!(Ok(vec![]), cursor.read_bytes(0));
    assert_eq!(Ok(vec![1, 2]), cursor.read_bytes(2));
    assert_eq!(Err(TRUNCATED), cursor.read_bytes(4));
    assert_eq!(2, cursor.position());
    assert_eq!(Ok(vec![3, 4, 5]), cursor.read_bytes(3));
    assert_eq!(Ok(vec![]), cursor.read_bytes(0));
    assert_eq!(Err(TRUNCATED), cursor.read_bytes(usize::MAX));
}

#[test]
fn read_labels_stops_behind_the_terminator() {
    let bytes = [5, b'_', b'h', b't', b't', b'p', 4, b'_', b't', b'c', b'p', 0, 0, 12, 5, b'x'];
    let mut cursor = ByteCursor::new(&bytes);
    assert_eq!(Ok(b"_http._tcp".to_vec()), cursor.read_labels());
    assert_eq!(12, cursor.position());
    assert_eq!(Ok(12), cursor.read_u16());
}

#[test]
fn read_labels_from_the_same_place_ends_at_the_same_place() {
    let bytes = [9, 1, b'a', 2, b'b', b'c', 0, 7, 7];
    let mut first = ByteCursor::new(&bytes);
    first.read_u8().unwrap();
    let mut second = first;
    assert_eq!(Ok(b"a.bc".to_vec()), first.read_labels());
    assert_eq!(Ok(b"a.bc".to_vec()), second.read_labels());
    assert_eq!(7, first.position());
    assert_eq!(first.position(), second.position());
}

#[test]
fn read_labels_of_the_root_is_empty() {
    let bytes = [0, 3];
    let mut cursor = ByteCursor::new(&bytes);
    assert_eq!(Ok(vec![]), cursor.read_labels());
    assert_eq!(1, cursor.position());
}

#[test]
fn read_labels_takes_a_zero_inside_a_label_as_data() {
    let bytes = [3, b'a', 0, b'b', 0];
    let mut cursor = ByteCursor::new(&bytes);
    assert_eq!(Ok(vec![b'a', 0, b'b']), cursor.read_labels());
    assert_eq!(5, cursor.position());
}

#[test]
fn read_labels_fails_without_terminator() {
    let cases: [&[u8]; 4] = [&[], &[1, b'a'], &[3, b'a', b'b'], &[1, b'a', 2, b'b']];
    for bytes in cases {
        let mut cursor = ByteCursor::new(bytes);
        assert_eq!(Err(TRUNCATED), cursor.read_labels());
        assert_eq!(0, cursor.position());
    }
}

#[test]
fn push_name_writes_length_prefixed_labels() {
    let mut buffer = vec![0xee];
    push_name(&mut buffer, b"_http._tcp.local");
    let expected: Vec<u8> = vec![
        0xee, 5, b'_', b'h', b't', b't', b'p', 4, b'_', b't', b'c', b'p', 5, b'l', b'o', b'c',
        b'a', b'l', 0,
    ];
    assert_eq!(expected, buffer);
}

#[test]
fn push_name_then_read_labels_gives_the_name_back() {
    let longest = vec![b'y'; 255];
    let names: [&[u8]; 5] = [b"a", b"a.b", b"_http._tcp.local", b"x-1.y_2.z", &longest];
    for name in names {
        let mut buffer = Vec::new();
        push_name(&mut buffer, name);
        let written = buffer.len();
        buffer.extend_from_slice(&[1, 2, 3]);
        let mut cursor = ByteCursor::new(&buffer);
        assert_eq!(Ok(name.to_vec()), cursor.read_labels());
        assert_eq!(written, cursor.position());
    }
}

#[test]
fn describe_names_each_failure() {
    assert_eq!("transport failure", DnsError::Transport.describe());
    assert_eq!("buffer too short", TRUNCATED.describe());
    assert_eq!(
        "name pointer required",
        DnsError::Malformed(Malformation::NamePointerRequired).describe()
    );
    assert_eq!(
        "address must be four bytes",
        DnsError::Malformed(Malformation::AddressLength).describe()
    );
    assert_eq!("response for another query", DnsError::IdMismatch.describe());
    assert_eq!("no share announced", DnsError::Unverified.describe());
    assert_eq!("buffer too short", Malformation::Truncated.describe());
}
