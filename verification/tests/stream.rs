use entrepixels::bitmap::pixel::PixelFormat;
use entrepixels::bitmap::{Bitmap, ImageDescriptor};
use entrepixels::secret::{lowest_set_bit, BitmapStream};

fn rgb_image(width: u32, height: u32, fill: u8) -> Bitmap {
    let descriptor = ImageDescriptor {
        offset: 0,
        width,
        height,
        row_length: width * 24,
        pixel_format: PixelFormat {
            depth: 24,
            red_mask: 0xff0000,
            green_mask: 0xff00,
            blue_mask: 0xff,
            alpha_mask: 0,
        },
    };
    Bitmap::new(vec![fill; (width * height * 3) as usize], descriptor).ok().unwrap()
}

#[test]
fn lowest_set_bit_of_masks() {
    assert_eq!(lowest_set_bit(0), 0);
    assert_eq!(lowest_set_bit(1), 1);
    assert_eq!(lowest_set_bit(0xff0000), 0x010000);
    assert_eq!(lowest_set_bit(0xff00), 0x0100);
    assert_eq!(lowest_set_bit(0x8000_0000), 0x8000_0000);
    assert_eq!(lowest_set_bit(0xffff_fff0), 0x10);
}

#[test]
fn stream_writes_the_lowest_bit_of_each_channel() {
    let mut stream = BitmapStream::from_bitmap(rgb_image(3, 1, 0x00));
    assert_eq!(stream.remaining(), 9);
    assert_eq!(stream.write(&[0b1011_0010]).unwrap(), 1);
    assert_eq!(stream.remaining(), 1);
    stream.flush().unwrap();
    let bytes = Bitmap::try_unwrap_data(stream.into_bitmap()).ok().unwrap();
    assert_eq!(bytes, vec![1, 0, 1, 1, 0, 0, 1, 0, 0]);
}

#[test]
fn stream_clears_bits_as_well_as_sets_them() {
    let mut stream = BitmapStream::from_bitmap(rgb_image(3, 1, 0xff));
    assert_eq!(stream.write(&[0b1011_0010]).unwrap(), 1);
    stream.flush().unwrap();
    let bytes = Bitmap::try_unwrap_data(stream.into_bitmap()).ok().unwrap();
    assert_eq!(bytes, vec![0xff, 0xfe, 0xff, 0xff, 0xfe, 0xfe, 0xff, 0xfe, 0xff]);
}

#[test]
fn stream_reads_what_it_wrote() {
    let payload: Vec<u8> = (0u8..40).map(|i| i.wrapping_mul(37).wrapping_add(11)).collect();
    let mut stream = BitmapStream::from_bitmap(rgb_image(11, 10, 0x5a));
    assert_eq!(stream.write(&payload).unwrap(), 40);
    let mut stream = BitmapStream::from_bitmap(stream.into_bitmap());
    let mut back = vec![0u8; 40];
    assert_eq!(stream.read(&mut back).unwrap(), 40);
    assert_eq!(back, payload);
}

#[test]
fn stream_reads_in_pieces_what_was_written_at_once() {
    let payload: Vec<u8> = (0u8..12).map(|i| 0xf0 ^ i).collect();
    let mut stream = BitmapStream::from_bitmap(rgb_image(8, 4, 0));
    assert_eq!(stream.write(&payload[..5]).unwrap(), 5);
    assert_eq!(stream.write(&payload[5..]).unwrap(), 7);
    let mut stream = BitmapStream::from_bitmap(stream.into_bitmap());
    let mut head = [0u8; 3];
    let mut tail = [0u8; 9];
    assert_eq!(stream.read(&mut head).unwrap(), 3);
    assert_eq!(stream.read(&mut tail).unwrap(), 9);
    assert_eq!(&head[..], &payload[..3]);
    assert_eq!(&tail[..], &payload[3..]);
}

#[test]
fn short_write_when_the_payload_exceeds_the_capacity() {
    // 5 * 5 pixels with 3 slots each are 75 slots: 9 bytes and 3 bits.
    let mut stream = BitmapStream::from_bitmap(rgb_image(5, 5, 0));
    assert_eq!(stream.remaining(), 75);
    assert_eq!(stream.write(&[0xff; 10]).unwrap(), 9);
    assert_eq!(stream.remaining(), 0);
    assert_eq!(stream.write(&[0xff; 4]).unwrap(), 0);
    stream.flush().unwrap();
    let bytes = Bitmap::try_unwrap_data(stream.into_bitmap()).ok().unwrap();
    assert_eq!(bytes, vec![1u8; 75]);
}

#[test]
fn short_read_when_the_pixels_run_out() {
    let mut stream = BitmapStream::from_bitmap(rgb_image(5, 5, 0xff));
    let mut back = [0u8; 12];
    assert_eq!(stream.read(&mut back).unwrap(), 9);
    assert_eq!(&back[..9], &[0xff; 9]);
    assert_eq!(&back[9..], &[0, 0, 0]);
    assert_eq!(stream.read(&mut back).unwrap(), 0);
}

#[test]
fn empty_buffers_move_nothing() {
    let mut stream = BitmapStream::from_bitmap(rgb_image(2, 2, 0));
    assert_eq!(stream.write(&[]).unwrap(), 0);
    assert_eq!(stream.read(&mut []).unwrap(), 0);
    assert_eq!(stream.remaining(), 12);
}

#[test]
fn slots_go_from_the_highest_mask_down() {
    let descriptor = ImageDescriptor {
        offset: 0,
        width: 2,
        height: 1,
        row_length: 32,
        pixel_format: PixelFormat {
            depth: 16,
            red_mask: 0x001f,
            green_mask: 0x07e0,
            blue_mask: 0xf800,
            alpha_mask: 0,
        },
    };
    let bitmap = Bitmap::new(vec![0; 4], descriptor).ok().unwrap();
    let mut stream = BitmapStream::from_bitmap(bitmap);
    assert_eq!(stream.remaining(), 6);
    assert_eq!(stream.write(&[0b1001_1100]).unwrap(), 0);
    stream.flush().unwrap();
    let bytes = Bitmap::try_unwrap_data(stream.into_bitmap()).ok().unwrap();
    assert_eq!(bytes, vec![0x08, 0x00, 0x08, 0x21]);
}

#[test]
fn an_image_without_channels_has_no_slots() {
    let descriptor = ImageDescriptor {
        offset: 0,
        width: 2,
        height: 2,
        row_length: 16,
        pixel_format: PixelFormat { depth: 8, red_mask: 0, green_mask: 0, blue_mask: 0, alpha_mask: 0 },
    };
    let bitmap = Bitmap::new(vec![0x77; 4], descriptor).ok().unwrap();
    let mut stream = BitmapStream::from_bitmap(bitmap);
    assert_eq!(stream.remaining(), 0);
    assert_eq!(stream.write(&[1, 2, 3]).unwrap(), 0);
    let mut back = [9u8; 2];
    assert_eq!(stream.read(&mut back).unwrap(), 0);
    assert_eq!(back, [9, 9]);
    let bytes = Bitmap::try_unwrap_data(stream.into_bitmap()).ok().unwrap();
    assert_eq!(bytes, vec![0x77; 4]);
}

#[test]
fn capacity_is_an_eighth_of_the_slots() {
    assert_eq!(BitmapStream::from_bitmap(rgb_image(5, 5, 0)).capacity(), 9);
    assert_eq!(BitmapStream::from_bitmap(rgb_image(8, 1, 0)).capacity(), 3);
    assert_eq!(BitmapStream::from_bitmap(rgb_image(2, 1, 0)).capacity(), 0);
    assert_eq!(BitmapStream::from_bitmap(rgb_image(0, 7, 0)).capacity(), 0);
    let mut stream = BitmapStream::from_bitmap(rgb_image(5, 5, 0));
    assert_eq!(stream.write(&[1, 2]).unwrap(), 2);
    assert_eq!(stream.capacity(), 9);
    assert_eq!(stream.remaining(), 59);
}

#[test]
fn round_trip_in_every_depth() {
    for depth in 1u8..=32 {
        let low = |channel: u32| if channel < depth as u32 { 1u32 << channel } else { 0 };
        let top = depth as u32 - 1;
        let format = PixelFormat {
            depth,
            red_mask: low(0) | low(5) << 1,
            green_mask: low(3),
            blue_mask: if top == 0 || top == 3 || top == 9 { 0 } else { low(top) },
            alpha_mask: low(9) | low(10),
        };
        let width = 7u32;
        let height = 5u32;
        let row_length = (width * depth as u32 + 31) / 32 * 32;
        let descriptor = ImageDescriptor { offset: 3, width, height, row_length, pixel_format: format };
        let len = 3 + (row_length * height / 8) as usize;
        let file: Vec<u8> = (0..len).map(|i| (i * 29 + 7) as u8).collect();
        let bitmap = Bitmap::new(file.clone(), descriptor).ok().unwrap();
        let mut stream = BitmapStream::from_bitmap(bitmap);
        let capacity = stream.capacity() as usize;
        let payload: Vec<u8> = (0..capacity).map(|i| (i * 101 + 13) as u8).collect();
        assert_eq!(stream.write(&payload).unwrap(), capacity);
        stream.flush().unwrap();
        let written = Bitmap::try_unwrap_data(stream.into_bitmap()).ok().unwrap();
        assert_eq!(written.len(), file.len());
        assert_eq!(&written[..3], &file[..3]);
        let bitmap = Bitmap::new(written, descriptor).ok().unwrap();
        let mut stream = BitmapStream::from_bitmap(bitmap);
        let mut back = vec![0u8; capacity];
        assert_eq!(stream.read(&mut back).unwrap(), capacity);
        assert_eq!(back, payload);
    }
}

#[test]
fn channels_that_share_their_lowest_bit_lose_the_payload() {
    let descriptor = ImageDescriptor {
        offset: 0,
        width: 8,
        height: 1,
        row_length: 64,
        pixel_format: PixelFormat {
            depth: 8,
            red_mask: 0x0f,
            green_mask: 0xff,
            blue_mask: 0,
            alpha_mask: 0,
        },
    };
    let bitmap = Bitmap::new(vec![0; 8], descriptor).ok().unwrap();
    let mut stream = BitmapStream::from_bitmap(bitmap);
    assert_eq!(stream.capacity(), 2);
    assert_eq!(stream.write(&[0b1010_1010, 0b1010_1010]).unwrap(), 2);
    let mut stream = BitmapStream::from_bitmap(stream.into_bitmap());
    let mut back = [0u8; 2];
    assert_eq!(stream.read(&mut back).unwrap(), 2);
    assert_eq!(back, [0, 0]);
}
