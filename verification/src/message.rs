//! A message in an image: four bytes that give the length of its text in bytes, lowest byte
//! first, and then the text.

use crate::bitmap::consts::{
    ALPHA_MASK_POSITION, BI_BITFIELDS_COMPRESSION, COMPRESSION_POSITION,
    RAW_BITMAP_DATA_SIZE_POSITION,
};
use crate::bitmap::{descriptor_of, header_of, Bitmap, ImageDescriptor};
use crate::error::{Error, ErrorKind};
use crate::secret::BitmapStream;
use crate::slots::{
    channels_separate, lemma_read_slots_after_write, lemma_with_slots_keeps_before, payload_bits,
    slot_count, slots_value, with_slots,
};
use crate::util::{le_bytes_of_u32, le_u32_at, lemma_u32_of_its_bytes, read_le_u32, u32_of_bytes};
use vstd::prelude::*;
use vstd::utf8::{
    decode_utf8, encode_utf8, encode_utf8_decode_utf8, encode_utf8_valid_utf8, valid_utf8,
};

verus! {

/// The bytes that carry `payload`: its length and then the payload itself.
pub open spec fn frame_of(payload: Seq<u8>) -> Seq<u8> {
    le_bytes_of_u32(payload.len() as u32) + payload
}

/// The `count` bytes that the slots of an image spell from `slot` on.
pub open spec fn slot_bytes(d: ImageDescriptor, bytes: Seq<u8>, slot: nat, count: nat) -> Seq<u8> {
    Seq::new(count, |i: int| slots_value(d, bytes, (slot + 8 * i) as nat, 8))
}

/// The length that the slots of an image state from `slot` on, where 32 slots are left.
pub open spec fn framed_len(d: ImageDescriptor, bytes: Seq<u8>, slot: nat) -> u32 {
    u32_of_bytes(
        slots_value(d, bytes, slot, 8),
        slots_value(d, bytes, slot + 8, 8),
        slots_value(d, bytes, slot + 16, 8),
        slots_value(d, bytes, slot + 24, 8),
    )
}

/// The payload that the slots of an image carry from `slot` on, or `None` where the slots
/// end before the length or before the payload does.
pub open spec fn framed_payload(d: ImageDescriptor, bytes: Seq<u8>, slot: nat) -> Option<Seq<u8>> {
    if slot + 32 > slot_count(d) {
        None
    } else if slot + 32 + 8 * framed_len(d, bytes, slot) > slot_count(d) {
        None
    } else {
        Some(slot_bytes(d, bytes, slot + 32, framed_len(d, bytes, slot) as nat))
    }
}

/// The bits of two runs of bytes, one after the other, are the bits of the runs joined.
pub proof fn lemma_payload_bits_concat(a: Seq<u8>, b: Seq<u8>)
    ensures
        payload_bits(a + b) == payload_bits(a) + payload_bits(b),
{
    assert(payload_bits(a + b) =~= payload_bits(a) + payload_bits(b));
}

/// Putting two runs of bits into the slots, the second right after the first, is putting
/// in the two runs joined.
pub proof fn lemma_with_slots_concat(
    d: ImageDescriptor,
    bytes: Seq<u8>,
    start: nat,
    first: Seq<bool>,
    second: Seq<bool>,
)
    ensures
        with_slots(d, with_slots(d, bytes, start, first), start + first.len(), second)
            == with_slots(d, bytes, start, first + second),
    decreases second.len(),
{
    if second.len() == 0 {
        assert(first + second =~= first);
    } else {
        lemma_with_slots_concat(d, bytes, start, first, second.drop_last());
        assert((first + second).drop_last() =~= first + second.drop_last());
        assert((first + second).last() == second.last());
    }
}

/// A payload that was just written into the slots with its length before it is the payload
/// that the slots carry, where the colour channels are separate and the slots suffice.
pub proof fn lemma_framed_round_trip(
    d: ImageDescriptor,
    bytes: Seq<u8>,
    start: nat,
    payload: Seq<u8>,
)
    requires
        d.fits(bytes.len()),
        channels_separate(d.pixel_format),
        payload.len() <= u32::MAX,
        start + 8 * (4 + payload.len()) <= slot_count(d),
    ensures
        framed_payload(d, with_slots(d, bytes, start, payload_bits(frame_of(payload))), start)
            == Some(payload),
{
    let frame = frame_of(payload);
    let done = with_slots(d, bytes, start, payload_bits(frame));
    let len = payload.len() as u32;
    lemma_read_slots_after_write(d, bytes, start, frame, 0);
    lemma_read_slots_after_write(d, bytes, start, frame, 1);
    lemma_read_slots_after_write(d, bytes, start, frame, 2);
    lemma_read_slots_after_write(d, bytes, start, frame, 3);
    lemma_u32_of_its_bytes(len);
    assert(framed_len(d, done, start) == len);
    assert forall|i: int| 0 <= i < payload.len() implies slots_value(
        d,
        done,
        (start + 32 + 8 * i) as nat,
        8,
    ) == payload[i] by {
        lemma_read_slots_after_write(d, bytes, start, frame, i + 4);
    }
    assert(slot_bytes(d, done, start + 32, len as nat) =~= payload);
}

/// Text that was just written into the slots as a message is the text that the slots carry.
pub proof fn lemma_message_round_trip(
    d: ImageDescriptor,
    bytes: Seq<u8>,
    start: nat,
    text: Seq<char>,
)
    requires
        d.fits(bytes.len()),
        channels_separate(d.pixel_format),
        encode_utf8(text).len() <= u32::MAX,
        start + 8 * (4 + encode_utf8(text).len()) <= slot_count(d),
    ensures
        ({
            let done = with_slots(d, bytes, start, payload_bits(frame_of(encode_utf8(text))));
            framed_payload(d, done, start) matches Some(payload) && valid_utf8(payload)
                && decode_utf8(payload) == text
        }),
{
    lemma_framed_round_trip(d, bytes, start, encode_utf8(text));
    encode_utf8_valid_utf8(text);
    encode_utf8_decode_utf8(text);
}

/// Whether the pixel data of an image file start after the fields of its header: after the
/// channel masks where the header states bit fields, and after the size of the pixel data
/// where it does not.
pub open spec fn pixels_after_header(file: Seq<u8>, d: ImageDescriptor) -> bool {
    &&& d.offset >= RAW_BITMAP_DATA_SIZE_POSITION + 4
    &&& le_u32_at(header_of(file), COMPRESSION_POSITION as int) == BI_BITFIELDS_COMPRESSION
        ==> d.offset >= ALPHA_MASK_POSITION + 4
}

/// A message that is hidden in an image file is the message that the file then shows,
/// where the colour channels are separate, the pixel data start after the header and the
/// image has slots enough: the file still describes the same image, and the slots carry the
/// text.
pub proof fn lemma_hidden_message_is_shown(file: Seq<u8>, d: ImageDescriptor, text: Seq<char>)
    requires
        descriptor_of(file) == Some(d),
        channels_separate(d.pixel_format),
        pixels_after_header(file, d),
        encode_utf8(text).len() <= u32::MAX,
        8 * (4 + encode_utf8(text).len()) <= slot_count(d),
    ensures
        ({
            let hidden = with_slots(d, file, 0, payload_bits(frame_of(encode_utf8(text))));
            &&& descriptor_of(hidden) == Some(d)
            &&& framed_payload(d, hidden, 0) matches Some(payload) && valid_utf8(payload)
                && decode_utf8(payload) == text
        }),
{
    let bits = payload_bits(frame_of(encode_utf8(text)));
    let hidden = with_slots(d, file, 0, bits);
    lemma_message_round_trip(d, file, 0, text);
    assert forall|k: int| 0 <= k < d.offset implies hidden[k] == file[k] && hidden.len()
        == file.len() by {
        lemma_with_slots_keeps_before(d, file, 0, bits, k);
    }
    lemma_with_slots_keeps_before(d, file, 0, bits, 0);
    let header = header_of(file);
    let hidden_header = header_of(hidden);
    assert forall|k: int| 0 <= k < d.offset && k < 256 implies hidden_header[k] == header[k] by {
        assert(hidden[k] == file[k]);
    }
}

/// The text that `bytes` spell, or `None` where they are not valid UTF-8.
///
/// This calls `String::from_utf8` of the standard library, and its contract is taken on
/// trust from that function's documentation: the call succeeds on valid UTF-8 and on nothing
/// else, and the text that it returns is the one that the bytes encode.
#[verifier::external_body]
fn string_from_utf8(bytes: Vec<u8>) -> (text: Option<String>)
    ensures
        text.is_some() == valid_utf8(bytes@),
        text matches Some(s) ==> s@ == decode_utf8(bytes@),
{
    String::from_utf8(bytes).ok()
}

/// Writes `message` into the slots at which the stream stands: four bytes with the length
/// of its text in bytes, and then the text.
///
/// The message is refused where the slots that are left do not suffice; as many of its bits
/// as there are slots left are then written all the same.
pub fn write_message(bit_buf: &mut BitmapStream, message: &String) -> (r: Result<(), Error>)
    requires
        old(bit_buf).inv(),
    ensures
        final(bit_buf).inv(),
        final(bit_buf).descriptor() == old(bit_buf).descriptor(),
        ({
            let d = old(bit_buf).descriptor();
            let start = old(bit_buf).position();
            let left = (slot_count(d) - start) as nat;
            let text = encode_utf8(message@);
            let bits = payload_bits(frame_of(text));
            if text.len() > u32::MAX {
                &&& r matches Err(e) && e.kind() == ErrorKind::Capacity
                &&& final(bit_buf).contents() == old(bit_buf).contents()
                &&& final(bit_buf).position() == start
            } else if bits.len() <= left {
                &&& r is Ok
                &&& final(bit_buf).contents() == with_slots(d, old(bit_buf).contents(), start, bits)
                &&& final(bit_buf).position() == start + bits.len()
            } else {
                &&& r matches Err(e) && e.kind() == ErrorKind::Capacity
                &&& final(bit_buf).contents() == with_slots(
                    d,
                    old(bit_buf).contents(),
                    start,
                    bits.take(left as int),
                )
                &&& final(bit_buf).position() == slot_count(d)
            }
        }),
{
    let text = message.as_str().as_bytes();
    let len = text.len();
    if len > 0xffff_ffff {
        return Err(Error::with_kind(ErrorKind::Capacity, "Message too long"));
    }
    let ghost d = bit_buf.descriptor();
    let ghost start = bit_buf.position();
    let ghost before = bit_buf.contents();
    let ghost prefix_bits = payload_bits(le_bytes_of_u32(len as u32));
    let ghost text_bits = payload_bits(text@);
    let mut message_len: Vec<u8> = vec![0u8, 0u8, 0u8, 0u8];
    crate::util::write_le_u32(message_len.as_mut_slice(), 0, len as u32);
    proof {
        bit_buf.lemma_inv();
        assert(message_len@ =~= le_bytes_of_u32(len as u32));
        lemma_payload_bits_concat(le_bytes_of_u32(len as u32), text@);
    }
    let written = match bit_buf.write(message_len.as_slice()) {
        Ok(written) => written,
        Err(e) => {
            return Err(e);
        },
    };
    if written < 4 {
        proof {
            let left = (slot_count(d) - start) as nat;
            assert(prefix_bits.take(left as int) =~= (prefix_bits + text_bits).take(left as int));
        }
        return Err(Error::with_kind(ErrorKind::Capacity, "Message does not fit in image"));
    }
    proof {
        bit_buf.lemma_inv();
        assert(prefix_bits.take(32) =~= prefix_bits);
    }
    let written = match bit_buf.write(text) {
        Ok(written) => written,
        Err(e) => {
            return Err(e);
        },
    };
    proof {
        let left = (slot_count(d) - start - 32) as nat;
        let slots = if 8 * len <= left {
            8 * len as nat
        } else {
            left
        };
        lemma_with_slots_concat(d, before, start, prefix_bits, text_bits.take(slots as int));
        assert(prefix_bits + text_bits.take(slots as int) =~= (prefix_bits + text_bits).take(
            (32 + slots) as int,
        ));
        assert(text_bits.take(8 * len as int) =~= text_bits);
    }
    if written < len {
        return Err(Error::with_kind(ErrorKind::Capacity, "Message does not fit in image"));
    }
    Ok(())
}

/// Reads a message from the slots at which the stream stands: the length of the text, and
/// then the text.
///
/// The read fails where the slots end before the length or the text does, and where the
/// bytes of the text are not valid UTF-8.
pub fn read_message(bit_buf: &mut BitmapStream) -> (r: Result<String, Error>)
    requires
        old(bit_buf).inv(),
    ensures
        final(bit_buf).inv(),
        final(bit_buf).descriptor() == old(bit_buf).descriptor(),
        final(bit_buf).contents() == old(bit_buf).contents(),
        match framed_payload(
            old(bit_buf).descriptor(),
            old(bit_buf).contents(),
            old(bit_buf).position(),
        ) {
            None => r matches Err(e) && e.kind() == ErrorKind::IoExhausted,
            Some(payload) => if valid_utf8(payload) {
                (r matches Ok(text) && text@ == decode_utf8(payload)) && final(bit_buf).position()
                    == old(bit_buf).position() + 32 + 8 * payload.len()
            } else {
                r matches Err(e) && e.kind() == ErrorKind::Encoding
            },
        },
{
    let ghost d = bit_buf.descriptor();
    let ghost start = bit_buf.position();
    let ghost bytes = bit_buf.contents();
    proof {
        bit_buf.lemma_inv();
    }
    let mut message_size: Vec<u8> = vec![0u8, 0u8, 0u8, 0u8];
    let read = match bit_buf.read(message_size.as_mut_slice()) {
        Ok(read) => read,
        Err(e) => {
            return Err(e);
        },
    };
    if read < 4 {
        return Err(Error::with_kind(ErrorKind::IoExhausted, "End of file"));
    }
    let size = read_le_u32(message_size.as_slice(), 0);
    assert(size == framed_len(d, bytes, start)) by {
        assert(message_size@[0] == slots_value(d, bytes, (start + 8 * 0) as nat, 8));
        assert(message_size@[1] == slots_value(d, bytes, (start + 8 * 1) as nat, 8));
        assert(message_size@[2] == slots_value(d, bytes, (start + 8 * 2) as nat, 8));
        assert(message_size@[3] == slots_value(d, bytes, (start + 8 * 3) as nat, 8));
    }
    proof {
        bit_buf.lemma_inv();
    }
    if 8 * (size as u64) > bit_buf.remaining() {
        return Err(Error::with_kind(ErrorKind::IoExhausted, "End of file"));
    }
    let mut data_message: Vec<u8> = vec![0u8; size as usize];
    let read = match bit_buf.read(data_message.as_mut_slice()) {
        Ok(read) => read,
        Err(e) => {
            return Err(e);
        },
    };
    if read < size as usize {
        return Err(Error::with_kind(ErrorKind::IoExhausted, "End of file"));
    }
    assert(data_message@ =~= slot_bytes(d, bytes, start + 32, size as nat));
    match string_from_utf8(data_message) {
        Some(text) => Ok(text),
        None => Err(Error::with_kind(ErrorKind::Encoding, "Can't create utf-8 string")),
    }
}

/// The bytes of the image file `data` with `message` hidden in its pixels from the first
/// slot on.
///
/// An empty message is refused, and so are a file that is not an image that the library
/// reads and a message for which the image has too few slots.
pub fn hide_message(data: Vec<u8>, message: &String) -> (r: Result<Vec<u8>, Error>)
    ensures
        message@.len() == 0 ==> (r matches Err(e) && e.kind() == ErrorKind::Other),
        message@.len() > 0 ==> match descriptor_of(data@) {
            None => r matches Err(e) && e.kind() == ErrorKind::Format,
            Some(d) => {
                let text = encode_utf8(message@);
                let bits = payload_bits(frame_of(text));
                if text.len() <= u32::MAX && bits.len() <= slot_count(d) {
                    r matches Ok(hidden) && hidden@ == with_slots(d, data@, 0, bits)
                } else {
                    r matches Err(e) && e.kind() == ErrorKind::Capacity
                }
            },
        },
{
    if message.as_str().is_empty() {
        return Err(Error::new("Empty message"));
    }
    let bitmap = match Bitmap::try_from(data) {
        Ok(bitmap) => bitmap,
        Err(e) => {
            return Err(e);
        },
    };
    let mut buf = BitmapStream::from_bitmap(bitmap);
    match write_message(&mut buf, message) {
        Ok(()) => {},
        Err(e) => {
            return Err(e);
        },
    }
    let _ = buf.flush();
    let bitmap = buf.into_bitmap();
    match Bitmap::try_unwrap_data(bitmap) {
        Ok(hidden) => Ok(hidden),
        Err(_) => Err(Error::new("Can't write output")),
    }
}

/// The message that is hidden in the pixels of the image file `data` from the first slot
/// on.
///
/// A file that is not an image that the library reads is refused, and so is one whose slots
/// end before the message does or carry bytes that are not valid UTF-8.
pub fn show_message(data: Vec<u8>) -> (r: Result<String, Error>)
    ensures
        match descriptor_of(data@) {
            None => r matches Err(e) && e.kind() == ErrorKind::Format,
            Some(d) => match framed_payload(d, data@, 0) {
                None => r matches Err(e) && e.kind() == ErrorKind::IoExhausted,
                Some(payload) => if valid_utf8(payload) {
                    r matches Ok(text) && text@ == decode_utf8(payload)
                } else {
                    r matches Err(e) && e.kind() == ErrorKind::Encoding
                },
            },
        },
{
    let bitmap = match Bitmap::try_from(data) {
        Ok(bitmap) => bitmap,
        Err(e) => {
            return Err(e);
        },
    };
    let mut buf = BitmapStream::from_bitmap(bitmap);
    read_message(&mut buf)
}

} // verus!
