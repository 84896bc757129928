use unity_asset::reader::{ByteOrder, Eof, ReadStringError, Reader};

#[test]
fn fixed_width_reads_follow_byte_order() {
    let bytes = [0x12, 0x34, 0x56, 0x78, 0x9A, 0xBC, 0xDE, 0xF0];
    let mut le = Reader::new(&bytes, ByteOrder::Little);
    assert_eq!(le.read_u16(), Ok(0x3412));
    assert_eq!(le.read_u16(), Ok(0x7856));
    assert_eq!(le.read_i32(), Ok(0xF0DEBC9Au32 as i32));
    assert_eq!(le.position(), 8);
    let mut be = Reader::new(&bytes, ByteOrder::Big);
    assert_eq!(be.read_u64(), Ok(0x123456789ABCDEF0));
    let mut be = Reader::new(&bytes, ByteOrder::Big);
    assert_eq!(be.read_i8(), Ok(0x12));
    assert_eq!(be.read_i16(), Ok(0x3456));
    assert_eq!(be.read_u8(), Ok(0x78));
    assert_eq!(be.read_u32(), Ok(0x9ABCDEF0));
    let mut le = Reader::new(&bytes, ByteOrder::Little);
    assert_eq!(le.read_i64(), Ok(0xF0DEBC9A78563412u64 as i64));
}

#[test]
fn short_reads_are_eof_and_do_not_move() {
    let bytes = [1, 2, 3];
    let mut r = Reader::new(&bytes, ByteOrder::Little);
    assert_eq!(r.read_u32(), Err(Eof));
    assert_eq!(r.position(), 0);
    assert_eq!(r.read_u8_list(4), Err(Eof));
    assert_eq!(r.read_u8_list(2), Ok(vec![1, 2]));
    assert_eq!(r.remaining(), 1);
}

#[test]
fn bool_is_any_nonzero_byte() {
    let bytes = [0, 1, 0x80];
    let mut r = Reader::new(&bytes, ByteOrder::Big);
    assert_eq!(r.read_bool(), Ok(false));
    assert_eq!(r.read_bool(), Ok(true));
    assert_eq!(r.read_bool(), Ok(true));
    assert_eq!(r.read_bool(), Err(Eof));
}

#[test]
fn align_rounds_up_to_four() {
    let bytes = [0u8; 6];
    let mut r = Reader::new(&bytes, ByteOrder::Little);
    assert_eq!(r.align(), Ok(()));
    assert_eq!(r.position(), 0);
    r.read_u8().unwrap();
    assert_eq!(r.align(), Ok(()));
    assert_eq!(r.position(), 4);
    r.read_u8().unwrap();
    assert_eq!(r.align(), Err(Eof));
    assert_eq!(r.position(), 5);
}

#[test]
fn aligned_string_reads_text_and_pads() {
    let bytes = [3, 0, 0, 0, b'a', b'b', b'c', 0, 7];
    let mut r = Reader::new(&bytes, ByteOrder::Little);
    assert_eq!(r.read_aligned_string(), Ok("abc".to_string()));
    assert_eq!(r.position(), 8);
    let bad = [0, 0, 0, 2, 0xC3, 0x28, 0, 0];
    let mut r = Reader::new(&bad, ByteOrder::Big);
    assert_eq!(r.read_aligned_string(), Err(ReadStringError::Utf8));
    let short = [5, 0, 0, 0, b'a'];
    let mut r = Reader::new(&short, ByteOrder::Little);
    assert_eq!(r.read_aligned_string(), Err(ReadStringError::Eof));
    let unpadded = [1, 0, 0, 0, b'z'];
    let mut r = Reader::new(&unpadded, ByteOrder::Little);
    assert_eq!(r.read_aligned_string(), Err(ReadStringError::Eof));
}
