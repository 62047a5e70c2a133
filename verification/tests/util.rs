use entrepixels::error::{Error, ErrorKind};
use entrepixels::util::{read_be_u32, read_le_u16, read_le_u32, write_le_u32};

#[test]
fn reads_numbers_in_both_byte_orders() {
    let buf = [0x00, 0x78, 0x56, 0x34, 0x12, 0xff];
    assert_eq!(read_le_u32(&buf, 1), 0x1234_5678);
    assert_eq!(read_be_u32(&buf, 1), 0x7856_3412);
    assert_eq!(read_le_u16(&buf, 1), 0x5678);
    assert_eq!(read_le_u16(&buf, 4), 0xff12);
}

#[test]
fn writes_a_number_lowest_byte_first() {
    let mut buf = [0xaa; 6];
    write_le_u32(&mut buf, 1, 0x1234_5678);
    assert_eq!(buf, [0xaa, 0x78, 0x56, 0x34, 0x12, 0xaa]);
    assert_eq!(read_le_u32(&buf, 1), 0x1234_5678);
}

#[test]
fn error_shows_its_message() {
    let error = Error::new("Empty message");
    assert_eq!(error.kind(), ErrorKind::Other);
    assert_eq!(error.description(), "Empty message");
    assert_eq!(error.to_string(), "Err: Empty message");
    let error = Error::with_kind(ErrorKind::Format, "Invalid File");
    assert_eq!(error.kind(), ErrorKind::Format);
    assert_eq!(error.to_string(), "Err: Invalid File");
}
