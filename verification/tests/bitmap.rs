use entrepixels::bitmap::pixel::{Pixel, PixelFormat};
use entrepixels::bitmap::{Bitmap, ImageDescriptor, Pixels};
use entrepixels::error::ErrorKind;
use entrepixels::io::bitbuf::BitBuf;
use entrepixels::io::cursor::Cursor;

fn put_u32(file: &mut [u8], position: usize, number: u32) {
    file[position..position + 4].copy_from_slice(&number.to_le_bytes());
}

/// A plain 24 bit image whose pixel bytes count up from zero.
fn rgb_file(width: u32, height: u32) -> Vec<u8> {
    let row_bytes = (width * 3 + 3) / 4 * 4;
    let mut file = vec![0u8; 54 + (row_bytes * height) as usize];
    file[0] = b'B';
    file[1] = b'M';
    put_u32(&mut file, 0x0a, 54);
    put_u32(&mut file, 0x12, width);
    put_u32(&mut file, 0x16, height);
    file[0x1c] = 24;
    put_u32(&mut file, 0x1e, 0);
    put_u32(&mut file, 0x22, row_bytes * height);
    for (i, byte) in file.iter_mut().enumerate().skip(54) {
        *byte = (i - 54) as u8;
    }
    file
}

fn rgb_format() -> PixelFormat {
    PixelFormat { depth: 24, red_mask: 0xff0000, green_mask: 0xff00, blue_mask: 0xff, alpha_mask: 0 }
}

#[test]
fn try_from_reads_the_header() {
    let bitmap = Bitmap::try_from(rgb_file(3, 2)).unwrap();
    let descriptor = bitmap.descriptor();
    assert_eq!(descriptor.offset, 54);
    assert_eq!(descriptor.width, 3);
    assert_eq!(descriptor.height, 2);
    assert_eq!(descriptor.row_length, 96);
    assert_eq!(descriptor.pixel_format.depth, 24);
    assert_eq!(bitmap.pixel_format().red_mask, 0xff0000);
    assert_eq!(bitmap.pixel_format().green_mask, 0xff00);
    assert_eq!(bitmap.pixel_format().blue_mask, 0xff);
    assert_eq!(bitmap.pixel_format().alpha_mask, 0);
    assert_eq!(Bitmap::try_unwrap_data(bitmap).ok().unwrap(), rgb_file(3, 2));
}

#[test]
fn try_from_reads_bit_field_masks() {
    let mut file = vec![0u8; 0x46 + 8];
    file[0] = b'B';
    file[1] = b'M';
    put_u32(&mut file, 0x0a, 0x46);
    put_u32(&mut file, 0x12, 2);
    put_u32(&mut file, 0x16, 2);
    file[0x1c] = 16;
    put_u32(&mut file, 0x1e, 3);
    put_u32(&mut file, 0x22, 8);
    file[0x36..0x3a].copy_from_slice(&[0x00, 0x00, 0xf8, 0x00]);
    file[0x3a..0x3e].copy_from_slice(&[0x00, 0x00, 0x07, 0xe0]);
    file[0x3e..0x42].copy_from_slice(&[0x00, 0x00, 0x00, 0x1f]);
    let bitmap = Bitmap::try_from(file).unwrap();
    assert_eq!(bitmap.descriptor().row_length, 32);
    assert_eq!(bitmap.pixel_format().depth, 16);
    assert_eq!(bitmap.pixel_format().red_mask, 0xf800);
    assert_eq!(bitmap.pixel_format().green_mask, 0x07e0);
    assert_eq!(bitmap.pixel_format().blue_mask, 0x001f);
    assert_eq!(bitmap.pixel_format().alpha_mask, 0);
}

#[test]
fn unsupported_compression_is_refused() {
    for compression in [1u32, 2, 4, 5, 0xffff_ffff] {
        let mut file = rgb_file(3, 2);
        put_u32(&mut file, 0x1e, compression);
        assert_eq!(Bitmap::try_from(file.clone()).err().unwrap().kind(), ErrorKind::Format);
        let mut header = file.clone();
        header.resize(256, 0);
        let error = Bitmap::read_pixel_format(&header).unwrap_err();
        assert_eq!(error.kind(), ErrorKind::Format);
        assert_eq!(error.description(), "Unsupported pixel compression type");
    }
}

#[test]
fn unsupported_depth_is_refused() {
    let mut file = rgb_file(3, 2);
    file[0x1c] = 8;
    assert_eq!(Bitmap::try_from(file).err().unwrap().kind(), ErrorKind::Format);
    let mut file = rgb_file(3, 2);
    put_u32(&mut file, 0x1e, 3);
    file[0x1c] = 0;
    assert_eq!(Bitmap::try_from(file).err().unwrap().kind(), ErrorKind::Format);
    let mut file = rgb_file(3, 2);
    put_u32(&mut file, 0x1e, 3);
    file[0x1c] = 33;
    assert_eq!(Bitmap::try_from(file).err().unwrap().kind(), ErrorKind::Format);
}

#[test]
fn files_that_are_no_images_are_refused() {
    assert_eq!(Bitmap::try_from(vec![]).err().unwrap().kind(), ErrorKind::Format);
    assert_eq!(Bitmap::try_from(vec![b'B']).err().unwrap().kind(), ErrorKind::Format);
    assert_eq!(Bitmap::try_from(b"BM short".to_vec()).err().unwrap().kind(), ErrorKind::Format);
    let mut file = rgb_file(3, 2);
    file[0] = b'P';
    let error = Bitmap::try_from(file).err().unwrap();
    assert_eq!(error.kind(), ErrorKind::Format);
    assert_eq!(error.description(), "Invalid file signature");
    let mut file = rgb_file(3, 2);
    put_u32(&mut file, 0x16, 0);
    assert_eq!(Bitmap::try_from(file).err().unwrap().kind(), ErrorKind::Format);
    let mut file = rgb_file(3, 2);
    file.truncate(60);
    assert_eq!(Bitmap::try_from(file).err().unwrap().kind(), ErrorKind::Format);
    let mut file = rgb_file(3, 2);
    put_u32(&mut file, 0x12, 5);
    assert_eq!(Bitmap::try_from(file).err().unwrap().kind(), ErrorKind::Format);
}

#[test]
fn read_header_fills_up_with_zeros() {
    let file = rgb_file(1, 1);
    let header = Bitmap::read_header(&file).unwrap();
    assert_eq!(header.len(), 256);
    assert_eq!(&header[..file.len()], &file[..]);
    assert!(header[file.len()..].iter().all(|&byte| byte == 0));
    assert_eq!(Bitmap::read_header(&vec![b'B', b'M', 0]).unwrap_err().kind(), ErrorKind::Format);
}

#[test]
fn new_checks_that_the_pixels_lie_inside() {
    let descriptor = ImageDescriptor {
        offset: 2,
        width: 3,
        height: 2,
        row_length: 16,
        pixel_format: PixelFormat { depth: 5, red_mask: 1, green_mask: 0, blue_mask: 0, alpha_mask: 0 },
    };
    assert!(Bitmap::new(vec![0; 6], descriptor).is_ok());
    assert_eq!(Bitmap::new(vec![0; 5], descriptor).err().unwrap().kind(), ErrorKind::Format);
    let narrow = ImageDescriptor { row_length: 14, ..descriptor };
    assert_eq!(Bitmap::new(vec![0; 6], narrow).err().unwrap().kind(), ErrorKind::Format);
    let deep = ImageDescriptor {
        pixel_format: PixelFormat { depth: 33, ..descriptor.pixel_format },
        ..descriptor
    };
    assert_eq!(Bitmap::new(vec![0; 600], deep).err().unwrap().kind(), ErrorKind::Format);
}

#[test]
fn pixels_come_in_raster_order() {
    let bitmap = Bitmap::try_from(rgb_file(3, 2)).unwrap();
    let mut pixels = bitmap.pixels_from(&None);
    let mut cells = Vec::new();
    while let Some(pixel) = pixels.next() {
        cells.push((pixel.row(), pixel.column()));
    }
    assert_eq!(cells, vec![(0, 0), (0, 1), (0, 2), (1, 0), (1, 1), (1, 2)]);
    assert!(pixels.next().is_none());
}

#[test]
fn pixels_resume_after_a_given_pixel() {
    let bitmap = Bitmap::try_from(rgb_file(3, 2)).unwrap();
    let start = Pixel::new(0, 2, 0, rgb_format());
    let mut pixels = bitmap.pixels_from(&Some(start));
    let mut cells = Vec::new();
    while let Some(pixel) = pixels.next() {
        cells.push((pixel.row(), pixel.column()));
    }
    assert_eq!(cells, vec![(1, 0), (1, 1), (1, 2)]);
    let last = Pixel::new(0, 2, 1, rgb_format());
    assert!(bitmap.pixels_from(&Some(last)).next().is_none());
}

#[test]
fn an_image_without_pixels_has_none() {
    let bitmap = Bitmap::try_from(rgb_file(0, 2)).unwrap();
    assert!(bitmap.pixels_from(&None).next().is_none());
}

#[test]
fn pixel_values_are_read_at_their_offsets() {
    let mut bitmap = Bitmap::try_from(rgb_file(3, 2)).unwrap();
    let mut pixels = bitmap.pixels_from(&None);
    let mut all = Vec::new();
    while let Some(pixel) = pixels.next() {
        all.push(pixel);
    }
    let values: Vec<u32> = all.iter_mut().map(|pixel| bitmap.value_of(pixel).unwrap()).collect();
    assert_eq!(values, vec![0x000102, 0x030405, 0x060708, 0x0c0d0e, 0x0f1011, 0x121314]);
}

#[test]
fn pixel_reads_once_and_remembers() {
    let mut data = BitBuf::from(Cursor::new(vec![0x12, 0x34, 0x56, 0x78]));
    let format = PixelFormat { depth: 12, red_mask: 0, green_mask: 0, blue_mask: 0, alpha_mask: 0 };
    let mut pixel = Pixel::new(4, 0, 0, format);
    let mut twin = Pixel::new(4, 0, 0, format);
    assert_eq!(pixel.value(&mut data).unwrap(), 0x234);
    twin.set_value(&mut data, 0xfabc).unwrap();
    assert_eq!(twin.value(&mut data).unwrap(), 0xabc);
    assert_eq!(pixel.value(&mut data).unwrap(), 0x234);
    let mut fresh = Pixel::new(4, 0, 0, format);
    assert_eq!(fresh.value(&mut data).unwrap(), 0xabc);
    data.flush().unwrap();
    assert_eq!(data.into_inner().into_inner(), vec![0x1a, 0xbc, 0x56, 0x78]);
}

#[test]
fn pixel_of_32_bits_keeps_every_bit() {
    let mut data = BitBuf::from(Cursor::new(vec![0; 4]));
    let format = PixelFormat { depth: 32, red_mask: 0, green_mask: 0, blue_mask: 0, alpha_mask: 0 };
    let mut pixel = Pixel::new(0, 0, 0, format);
    pixel.set_value(&mut data, 0xdead_beef).unwrap();
    assert_eq!(pixel.value(&mut data).unwrap(), 0xdead_beef);
    assert_eq!(data.into_inner().into_inner(), vec![0xde, 0xad, 0xbe, 0xef]);
}

#[test]
fn pixel_outside_the_store_fails() {
    let mut data = BitBuf::from(Cursor::new(vec![0xff; 2]));
    let format = PixelFormat { depth: 8, red_mask: 0, green_mask: 0, blue_mask: 0, alpha_mask: 0 };
    let mut outside = Pixel::new(16, 0, 0, format);
    assert_eq!(outside.value(&mut data).unwrap_err().kind(), ErrorKind::IoExhausted);
    assert_eq!(outside.set_value(&mut data, 1).unwrap_err().kind(), ErrorKind::IoExhausted);
    let mut across = Pixel::new(12, 0, 0, format);
    assert_eq!(across.value(&mut data).unwrap_err().kind(), ErrorKind::IoExhausted);
    let wide = PixelFormat { depth: 40, ..format };
    let mut too_wide = Pixel::new(0, 0, 0, wide);
    assert_eq!(too_wide.value(&mut data).unwrap_err().kind(), ErrorKind::BitWidth);
    assert_eq!(too_wide.set_value(&mut data, 1).unwrap_err().kind(), ErrorKind::BitWidth);
    assert_eq!(data.into_inner().into_inner(), vec![0xff; 2]);
}

#[test]
fn iterate_wraps_at_the_end_of_a_row() {
    let bitmap = Bitmap::try_from(rgb_file(2, 2)).unwrap();
    let mut pixels = Pixels::new(&bitmap, &None);
    pixels.iterate();
    pixels.iterate();
    let pixel = pixels.next().unwrap();
    assert_eq!((pixel.row(), pixel.column()), (1, 0));
    pixels.iterate();
    assert!(pixels.next().is_none());
}
