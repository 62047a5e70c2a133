use entrepixels::error::ErrorKind;
use entrepixels::io::bitbuf::{BitBuf, BitSeekFrom};
use entrepixels::io::cursor::Cursor;

#[test]
fn new() {
    let data = Cursor::new(vec![0xfe, 0xdc, 0xba, 0x98, 0x76, 0x54, 0x32, 0x10]);
    BitBuf::from(data);
}

#[test]
fn into_inner() {
    let data = Cursor::new(vec![0xfe, 0xdc, 0xba, 0x98, 0x76, 0x54, 0x32, 0x10]);
    assert_eq!(
        &BitBuf::from(data).into_inner().into_inner()[..],
        &[0xfe, 0xdc, 0xba, 0x98, 0x76, 0x54, 0x32, 0x10]
    );
}

#[test]
fn read() {
    let data = Cursor::new(vec![0x8c, 0x80, 0x41, 0x00]);
    let mut data = BitBuf::from(data);
    assert_eq!(data.read(5).unwrap(), 0x11);
    assert_eq!(data.read(4).unwrap(), 0x09);
    assert_eq!(data.read(15).unwrap(), 0x41);

    assert_eq!(&data.into_inner().into_inner()[..], &[0x8c, 0x80, 0x41, 0x00]);
}

#[test]
fn write() {
    let data = Cursor::new(vec![0xfe, 0xdc, 0xba, 0x98, 0x76, 0x54, 0x32, 0x10]);
    let mut data = BitBuf::from(data);
    assert_eq!(data.write(0x1234, 16).unwrap(), 16);
    assert_eq!(data.write(0x1234, 16).unwrap(), 16);
    assert_eq!(data.write(0x1234, 16).unwrap(), 16);
    assert!(data.write(0x1234, 20).is_err());

    assert_eq!(
        &data.into_inner().into_inner()[..],
        &[0x12, 0x34, 0x12, 0x34, 0x12, 0x34, 0x01, 0x23]
    );

    let data = Cursor::new(vec![0x00; 4]);
    let mut data = BitBuf::from(data);
    assert_eq!(data.write(0x11, 5).unwrap(), 5);
    assert_eq!(data.write(0x09, 4).unwrap(), 4);
    assert_eq!(data.write(0x41, 15).unwrap(), 15);

    assert_eq!(&data.into_inner().into_inner()[..], &[0x8c, 0x80, 0x41, 0x00]);
}

#[test]
fn flush() {
    let raw_data = [0x00; 4];
    let data = Cursor::new(raw_data.to_vec());
    let mut data = BitBuf::from(data);
    assert_eq!(data.write(0x11, 5).unwrap(), 5);
    assert_eq!(data.write(0x09, 4).unwrap(), 4);
    assert_eq!(data.write(0x41, 14).unwrap(), 14);

    data.flush().unwrap();

    assert_eq!(&data.into_inner().into_inner()[..], &[0x8c, 0x80, 0x82, 0x00]);
}

#[test]
fn seek() {
    let data = Cursor::new(vec![0x8C, 0x80, 0x82, 0x02]);
    let mut data = BitBuf::from(data);

    assert_eq!(data.seek(BitSeekFrom::Current(0)).unwrap(), 0);
    assert_eq!(data.seek(BitSeekFrom::Current(0)).unwrap(), 0);
    assert!(data.seek(BitSeekFrom::Current(-1)).is_err());
    assert_eq!(data.seek(BitSeekFrom::Current(0)).unwrap(), 0);
    assert!(data.seek(BitSeekFrom::Current(-5)).is_err());
    assert_eq!(data.seek(BitSeekFrom::Current(0)).unwrap(), 0);
    assert!(data.seek(BitSeekFrom::Current(32)).is_err());
    assert_eq!(data.seek(BitSeekFrom::Current(0)).unwrap(), 0);

    assert_eq!(data.seek(BitSeekFrom::Current(5)).unwrap(), 5);
    assert_eq!(data.read(8).unwrap(), 0x90);

    assert_eq!(data.seek(BitSeekFrom::Current(5)).unwrap(), 18);
    assert_eq!(data.read(8).unwrap(), 0x08);

    assert_eq!(data.seek(BitSeekFrom::Current(-2)).unwrap(), 24);
    assert_eq!(data.read(7).unwrap(), 0x01);

    assert_eq!(data.seek(BitSeekFrom::Current(-10)).unwrap(), 21);
    assert_eq!(data.read(8).unwrap(), 0x40);

    assert_eq!(data.seek(BitSeekFrom::End(-32)).unwrap(), 0);
    assert!(data.seek(BitSeekFrom::End(-33)).is_err());
    assert_eq!(data.seek(BitSeekFrom::Current(0)).unwrap(), 0);
    assert_eq!(data.seek(BitSeekFrom::End(-1)).unwrap(), 31);
}

#[test]
fn write_then_read_gives_low_bits() {
    for bits in 1u8..=32 {
        for &value in &[0u32, 1, 0x5555_5555, 0xaaaa_aaaa, 0xdead_beef, 0xffff_ffff] {
            let mut data = BitBuf::from(Cursor::new(vec![0x00; 4]));
            assert_eq!(data.write(value, bits).unwrap(), bits);
            assert_eq!(data.seek(BitSeekFrom::Start(0)).unwrap(), 0);
            let mask = if bits == 32 { 0xffff_ffff } else { (1u32 << bits) - 1 };
            assert_eq!(data.read(bits).unwrap(), value & mask);
        }
    }
}

#[test]
fn write_then_read_at_every_offset() {
    for offset in 0u64..24 {
        let mut data = BitBuf::from(Cursor::new(vec![0xff; 8]));
        assert_eq!(data.seek(BitSeekFrom::Start(offset)).unwrap(), offset);
        assert_eq!(data.write(0x1_2345, 17).unwrap(), 17);
        assert_eq!(data.seek(BitSeekFrom::Start(offset)).unwrap(), offset);
        assert_eq!(data.read(17).unwrap(), 0x1_2345);
        data.flush().unwrap();
        let bytes = data.into_inner().into_inner();
        let mut rest = BitBuf::from(Cursor::new(bytes));
        if offset > 0 {
            assert_eq!(rest.read(offset as u8).unwrap(), (1u32 << offset) - 1);
        }
        assert_eq!(rest.read(17).unwrap(), 0x1_2345);
        assert_eq!(rest.read(23).unwrap(), 0x7f_ffff);
    }
}

#[test]
fn read_after_partial_write_keeps_what_was_written() {
    let mut data = BitBuf::from(Cursor::new(vec![0x00, 0xff]));
    assert_eq!(data.write(0b101, 3).unwrap(), 3);
    assert_eq!(data.read(5).unwrap(), 0);
    assert_eq!(data.read(8).unwrap(), 0xff);
    assert_eq!(&data.into_inner().into_inner()[..], &[0xa0, 0xff]);
}

#[test]
fn into_inner_without_flush_lacks_the_cached_byte() {
    let mut data = BitBuf::from(Cursor::new(vec![0x00, 0x00]));
    assert_eq!(data.write(0x1ff, 9).unwrap(), 9);
    assert_eq!(&data.into_inner().into_inner()[..], &[0xff, 0x00]);
}

#[test]
fn seek_current_zero_is_idempotent() {
    let mut data = BitBuf::from(Cursor::new(vec![0x12, 0x34, 0x56]));
    assert_eq!(data.read(11).unwrap(), 0x91);
    for _ in 0..5 {
        assert_eq!(data.seek(BitSeekFrom::Current(0)).unwrap(), 11);
    }
    assert_eq!(&data.into_inner().into_inner()[..], &[0x12, 0x34, 0x56]);
}

#[test]
fn forward_seeks_then_backward_seek_returns_to_start() {
    let mut data = BitBuf::from(Cursor::new(vec![0x00; 16]));
    assert_eq!(data.seek(BitSeekFrom::Start(13)).unwrap(), 13);
    assert_eq!(data.seek(BitSeekFrom::Current(3)).unwrap(), 16);
    assert_eq!(data.seek(BitSeekFrom::Current(21)).unwrap(), 37);
    assert_eq!(data.seek(BitSeekFrom::Current(70)).unwrap(), 107);
    assert_eq!(data.seek(BitSeekFrom::Current(-94)).unwrap(), 13);
}

#[test]
fn failed_seek_leaves_the_cursor() {
    let mut data = BitBuf::from(Cursor::new(vec![0xf0, 0x0f]));
    assert_eq!(data.seek(BitSeekFrom::Start(6)).unwrap(), 6);
    assert_eq!(data.seek(BitSeekFrom::Start(16)).unwrap_err().kind(), ErrorKind::IoExhausted);
    assert_eq!(data.seek(BitSeekFrom::End(0)).unwrap_err().kind(), ErrorKind::IoExhausted);
    assert_eq!(data.seek(BitSeekFrom::End(3)).unwrap_err().kind(), ErrorKind::IoExhausted);
    assert_eq!(data.seek(BitSeekFrom::Current(-7)).unwrap_err().kind(), ErrorKind::IoExhausted);
    assert_eq!(data.seek(BitSeekFrom::Current(0)).unwrap(), 6);
    assert_eq!(data.read(4).unwrap(), 0b0000);
}

#[test]
fn read_and_write_refuse_more_than_32_bits() {
    let mut data = BitBuf::from(Cursor::new(vec![0xab; 8]));
    assert_eq!(data.read(33).unwrap_err().kind(), ErrorKind::BitWidth);
    assert_eq!(data.write(0, 33).unwrap_err().kind(), ErrorKind::BitWidth);
    assert_eq!(data.read(32).unwrap(), 0xabab_abab);
    assert_eq!(&data.into_inner().into_inner()[..], &[0xab; 8]);
}

#[test]
fn read_past_the_end_fails_at_the_end() {
    let mut data = BitBuf::from(Cursor::new(vec![0xab, 0xcd]));
    assert_eq!(data.read(4).unwrap(), 0xa);
    assert_eq!(data.read(13).unwrap_err().kind(), ErrorKind::IoExhausted);
    assert_eq!(data.read(1).unwrap_err().kind(), ErrorKind::IoExhausted);
    assert_eq!(data.seek(BitSeekFrom::Current(-12)).unwrap(), 4);
    assert_eq!(data.read(12).unwrap(), 0xbcd);
}

#[test]
fn zero_bits_read_and_write_nothing() {
    let mut data = BitBuf::from(Cursor::new(vec![0xab]));
    assert_eq!(data.read(0).unwrap(), 0);
    assert_eq!(data.write(0xffff_ffff, 0).unwrap(), 0);
    assert_eq!(data.read(8).unwrap(), 0xab);
}

#[test]
fn cursor_reads_and_writes_bytes() {
    let mut store = Cursor::new(vec![1, 2, 3]);
    assert_eq!(store.len(), 3);
    assert_eq!(store.position(), 0);
    assert_eq!(store.read_byte(), Some(1));
    assert!(store.write_byte(9));
    assert_eq!(store.position(), 2);
    assert!(!store.set_position(4));
    assert!(store.set_position(3));
    assert_eq!(store.read_byte(), None);
    assert!(!store.write_byte(7));
    assert_eq!(store.into_inner(), vec![1, 9, 3]);
}

fn bits_of(bytes: &[u8]) -> Vec<bool> {
    (0..bytes.len() * 8).map(|k| bytes[k / 8] & (0x80 >> (k % 8)) != 0).collect()
}

#[test]
fn buffer_agrees_with_a_bit_array() {
    let mut seed: u64 = 0x2545_f491_4f6c_dd1d;
    let mut next = move || {
        seed ^= seed << 13;
        seed ^= seed >> 7;
        seed ^= seed << 17;
        seed
    };
    let bytes: Vec<u8> = (0..24).map(|_| next() as u8).collect();
    let mut model = bits_of(&bytes);
    let mut position: usize = 0;
    let mut data = BitBuf::from(Cursor::new(bytes));
    for _ in 0..4000 {
        let choice = next() % 4;
        let bits = (next() % 33) as usize;
        if choice == 0 {
            let target = (next() % (model.len() as u64 + 8)) as usize;
            let moved = data.seek(BitSeekFrom::Start(target as u64));
            if target < model.len() {
                assert_eq!(moved.unwrap(), target as u64);
                position = target;
            } else {
                assert!(moved.is_err());
            }
        } else if choice == 1 {
            let offset = (next() % 129) as i64 - 64;
            let target = position as i64 + offset;
            let moved = data.seek(BitSeekFrom::Current(offset));
            if 0 <= target && (target as usize) < model.len() {
                assert_eq!(moved.unwrap(), target as u64);
                position = target as usize;
            } else {
                assert!(moved.is_err());
            }
        } else if choice == 2 {
            let read = data.read(bits as u8);
            if position + bits <= model.len() {
                let expected = model[position..position + bits]
                    .iter()
                    .fold(0u32, |value, &bit| (value << 1) | bit as u32);
                assert_eq!(read.unwrap(), expected);
                position += bits;
            } else {
                assert!(read.is_err());
                position = model.len();
            }
        } else {
            let value = next() as u32;
            let written = data.write(value, bits as u8);
            let fit = bits.min(model.len() - position);
            for i in 0..fit {
                model[position + i] = value >> (bits - 1 - i) & 1 == 1;
            }
            if fit == bits {
                assert_eq!(written.unwrap() as usize, bits);
            } else {
                assert!(written.is_err());
            }
            position += fit;
        }
    }
    data.flush().unwrap();
    assert_eq!(bits_of(&data.into_inner().into_inner()), model);
}
