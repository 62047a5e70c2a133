use entrepixels::bitmap::pixel::PixelFormat;
use entrepixels::bitmap::{Bitmap, ImageDescriptor};
use entrepixels::error::ErrorKind;
use entrepixels::message::{hide_message, read_message, show_message, write_message};
use entrepixels::secret::BitmapStream;

fn rgb_file(width: u32, height: u32) -> Vec<u8> {
    let row_bytes = (width * 3 + 3) / 4 * 4;
    let mut file = vec![0x80u8; 54 + (row_bytes * height) as usize];
    file[..54].fill(0);
    file[0] = b'B';
    file[1] = b'M';
    file[0x0a..0x0e].copy_from_slice(&54u32.to_le_bytes());
    file[0x12..0x16].copy_from_slice(&width.to_le_bytes());
    file[0x16..0x1a].copy_from_slice(&height.to_le_bytes());
    file[0x1c] = 24;
    file[0x22..0x26].copy_from_slice(&(row_bytes * height).to_le_bytes());
    file
}

fn rgb_stream(width: u32, height: u32) -> BitmapStream {
    BitmapStream::from_bitmap(Bitmap::try_from(rgb_file(width, height)).ok().unwrap())
}

#[test]
fn hidden_message_is_shown_again() {
    let message = String::from("entre pixels: ação, naïve, 日本語");
    let hidden = hide_message(rgb_file(20, 20), &message).unwrap();
    assert_eq!(hidden.len(), rgb_file(20, 20).len());
    assert_eq!(&hidden[..54], &rgb_file(20, 20)[..54]);
    assert_eq!(show_message(hidden).unwrap(), message);
}

#[test]
fn hiding_changes_only_the_lowest_bits() {
    let message = String::from("secret");
    let plain = rgb_file(8, 8);
    let hidden = hide_message(plain.clone(), &message).unwrap();
    assert!(plain.iter().zip(hidden.iter()).all(|(a, b)| a | 1 == b | 1));
    assert!(plain != hidden);
}

#[test]
fn message_is_framed_by_its_length() {
    let mut stream = rgb_stream(16, 16);
    write_message(&mut stream, &String::from("abc")).unwrap();
    let mut stream = BitmapStream::from_bitmap(stream.into_bitmap());
    let mut frame = [0u8; 7];
    assert_eq!(stream.read(&mut frame).unwrap(), 7);
    assert_eq!(frame, [3, 0, 0, 0, b'a', b'b', b'c']);
}

#[test]
fn read_message_reads_what_write_message_wrote() {
    let mut stream = rgb_stream(16, 16);
    write_message(&mut stream, &String::from("first")).unwrap();
    write_message(&mut stream, &String::from("second")).unwrap();
    let mut stream = BitmapStream::from_bitmap(stream.into_bitmap());
    assert_eq!(read_message(&mut stream).unwrap(), "first");
    assert_eq!(read_message(&mut stream).unwrap(), "second");
}

#[test]
fn message_that_exceeds_the_capacity_is_refused() {
    // 4 * 4 pixels carry 48 bits: six bytes, four of which are the length.
    let exact = hide_message(rgb_file(4, 4), &String::from("ab")).unwrap();
    assert_eq!(show_message(exact).unwrap(), "ab");
    let error = hide_message(rgb_file(4, 4), &String::from("abc")).unwrap_err();
    assert_eq!(error.kind(), ErrorKind::Capacity);
    let error = hide_message(rgb_file(1, 1), &String::from("a")).unwrap_err();
    assert_eq!(error.kind(), ErrorKind::Capacity);
}

#[test]
fn empty_message_is_refused() {
    let error = hide_message(rgb_file(4, 4), &String::new()).unwrap_err();
    assert_eq!(error.kind(), ErrorKind::Other);
    assert_eq!(error.description(), "Empty message");
}

#[test]
fn files_that_are_no_images_hide_and_show_nothing() {
    let message = String::from("secret");
    assert_eq!(hide_message(b"no image".to_vec(), &message).unwrap_err().kind(), ErrorKind::Format);
    assert_eq!(show_message(b"no image".to_vec()).unwrap_err().kind(), ErrorKind::Format);
}

#[test]
fn image_too_small_for_a_length_shows_nothing() {
    assert_eq!(show_message(rgb_file(3, 3)).unwrap_err().kind(), ErrorKind::IoExhausted);
}

#[test]
fn length_beyond_the_image_shows_nothing() {
    let mut stream = rgb_stream(8, 8);
    assert_eq!(stream.write(&[200, 0, 0, 0, b'x']).unwrap(), 5);
    stream.flush().unwrap();
    let file = Bitmap::try_unwrap_data(stream.into_bitmap()).ok().unwrap();
    assert_eq!(show_message(file).unwrap_err().kind(), ErrorKind::IoExhausted);
}

#[test]
fn bytes_that_are_no_text_are_refused() {
    let mut stream = rgb_stream(8, 8);
    assert_eq!(stream.write(&[2, 0, 0, 0, 0xc3, 0x28]).unwrap(), 6);
    stream.flush().unwrap();
    let file = Bitmap::try_unwrap_data(stream.into_bitmap()).ok().unwrap();
    let error = show_message(file).unwrap_err();
    assert_eq!(error.kind(), ErrorKind::Encoding);
    assert_eq!(error.description(), "Can't create utf-8 string");
}

#[test]
fn text_of_several_bytes_per_character_is_decoded() {
    let mut stream = rgb_stream(8, 8);
    assert_eq!(stream.write(&[5, 0, 0, 0, 0xc3, 0xa9, 0xe2, 0x82, 0xac]).unwrap(), 9);
    stream.flush().unwrap();
    let file = Bitmap::try_unwrap_data(stream.into_bitmap()).ok().unwrap();
    assert_eq!(show_message(file).unwrap(), "é€");
}

#[test]
fn message_in_a_bit_field_image() {
    let descriptor = ImageDescriptor {
        offset: 0,
        width: 16,
        height: 8,
        row_length: 16 * 32,
        pixel_format: PixelFormat {
            depth: 32,
            red_mask: 0x00ff_0000,
            green_mask: 0x0000_ff00,
            blue_mask: 0x0000_00ff,
            alpha_mask: 0xff00_0000,
        },
    };
    let bitmap = Bitmap::new(vec![0x33; 16 * 8 * 4], descriptor).ok().unwrap();
    let mut stream = BitmapStream::from_bitmap(bitmap);
    assert_eq!(stream.remaining(), 16 * 8 * 4);
    write_message(&mut stream, &String::from("four slots a pixel")).unwrap();
    let mut stream = BitmapStream::from_bitmap(stream.into_bitmap());
    assert_eq!(read_message(&mut stream).unwrap(), "four slots a pixel");
}

#[test]
fn message_in_a_bit_field_file() {
    let width = 12u32;
    let height = 6u32;
    let mut file = vec![0xa5u8; 0x46 + (width * height * 4) as usize];
    file[..0x46].fill(0);
    file[0] = b'B';
    file[1] = b'M';
    file[0x0a..0x0e].copy_from_slice(&0x46u32.to_le_bytes());
    file[0x12..0x16].copy_from_slice(&width.to_le_bytes());
    file[0x16..0x1a].copy_from_slice(&height.to_le_bytes());
    file[0x1c] = 32;
    file[0x1e..0x22].copy_from_slice(&3u32.to_le_bytes());
    file[0x22..0x26].copy_from_slice(&(width * height * 4).to_le_bytes());
    file[0x36..0x3a].copy_from_slice(&[0x00, 0xff, 0x00, 0x00]);
    file[0x3a..0x3e].copy_from_slice(&[0x00, 0x00, 0xff, 0x00]);
    file[0x3e..0x42].copy_from_slice(&[0x00, 0x00, 0x00, 0xff]);
    file[0x42..0x46].copy_from_slice(&[0xff, 0x00, 0x00, 0x00]);
    let message = String::from("four bits a pixel");
    let hidden = hide_message(file.clone(), &message).unwrap();
    assert_eq!(&hidden[..0x46], &file[..0x46]);
    assert!(file.iter().zip(hidden.iter()).all(|(a, b)| a | 1 == b | 1));
    assert_eq!(show_message(hidden).unwrap(), message);
    let long = "x".repeat((width * height * 4 / 8 - 4) as usize);
    assert_eq!(show_message(hide_message(file.clone(), &long).unwrap()).unwrap(), long);
    let too_long = "x".repeat((width * height * 4 / 8 - 3) as usize);
    assert_eq!(hide_message(file, &too_long).unwrap_err().kind(), ErrorKind::Capacity);
}
