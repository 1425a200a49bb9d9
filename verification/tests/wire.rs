use mpc::message::Message;
use mpc::wire::decode_message;
use mpc::wire::decode_recipient;
use mpc::wire::encode_frame;
use mpc::wire::encode_message;
use mpc::wire::DecodeError;
use mpc::wire::FRAME_BYTES;
use mpc::wire::MESSAGE_BYTES;

fn fields(msg: &Message<u16>) -> (usize, usize, usize, u16) {
    (msg.get_from(), msg.get_to(), msg.get_gate(), msg.get_share())
}

#[test]
fn a_message_is_four_words_most_significant_byte_first() {
    let bytes = encode_message(&Message::new(1, 2, 0x0304, 0x0506u16));
    assert_eq!(bytes.len(), MESSAGE_BYTES);
    assert_eq!(
        bytes,
        vec![
            0, 0, 0, 0, 0, 0, 0, 1, 0, 0, 0, 0, 0, 0, 0, 2, 0, 0, 0, 0, 0, 0, 3, 4, 0, 0, 0, 0, 0, 0,
            5, 6
        ]
    );
    let wide = encode_message(&Message::new(0x0102_0304_0506_0708, 0, 0, u64::MAX));
    assert_eq!(&wide[..8], &[1, 2, 3, 4, 5, 6, 7, 8]);
    assert_eq!(&wide[8..24], &[0u8; 16]);
    assert_eq!(&wide[24..], &[255u8; 8]);
}

#[test]
fn a_message_comes_back_from_its_bytes() {
    for msg in [
        Message::new(0, 0, 0, 0u16),
        Message::new(1, 2, 3, 4),
        Message::new(4, 0, 4117, 250),
        Message::new(usize::MAX, usize::MAX - 1, 77, u16::MAX),
    ] {
        let decoded: Message<u16> = decode_message(&encode_message(&msg)).unwrap();
        assert_eq!(fields(&decoded), fields(&msg));
    }
    let wide = Message::new(9, 8, 7, u64::MAX - 5);
    let decoded: Message<u64> = decode_message(&encode_message(&wide)).unwrap();
    assert_eq!(decoded.get_share(), u64::MAX - 5);
}

#[test]
fn bytes_of_another_length_are_not_a_message() {
    let bytes = encode_message(&Message::new(1, 2, 3, 4u16));
    assert_eq!(decode_message::<u16>(&bytes[..31]).err(), Some(DecodeError::Length));
    assert_eq!(decode_message::<u16>(&[]).err(), Some(DecodeError::Length));
    let mut longer = bytes.clone();
    longer.push(0);
    assert_eq!(decode_message::<u16>(&longer).err(), Some(DecodeError::Length));
}

#[test]
fn a_share_too_large_for_its_type_is_not_taken() {
    let bytes = encode_message(&Message::new(1, 2, 3, 0x1_0000u32));
    assert_eq!(decode_message::<u16>(&bytes).err(), Some(DecodeError::Range));
    assert_eq!(decode_message::<u8>(&bytes).err(), Some(DecodeError::Range));
    assert_eq!(decode_message::<u32>(&bytes).unwrap().get_share(), 0x1_0000);
    let edge = encode_message(&Message::new(1, 2, 3, 255u32));
    assert_eq!(decode_message::<u8>(&edge).unwrap().get_share(), 255);
}

#[test]
fn a_frame_puts_the_recipient_first() {
    let msg = Message::new(1, 2, 3, 4u16);
    let frame = encode_frame(0x0102_0304, &msg).unwrap();
    assert_eq!(frame.len(), FRAME_BYTES);
    assert_eq!(&frame[..4], &[1, 2, 3, 4]);
    assert_eq!(&frame[4..], &encode_message(&msg)[..]);
    assert_eq!(decode_recipient(&frame), Ok(0x0102_0304));
    assert_eq!(decode_recipient(&encode_frame(0, &msg).unwrap()), Ok(0));
    assert_eq!(
        decode_recipient(&encode_frame(u32::MAX as usize, &msg).unwrap()),
        Ok(u32::MAX as usize)
    );
    assert!(encode_frame(u32::MAX as usize + 1, &msg).is_none());
    assert_eq!(decode_recipient(&frame[..35]), Err(DecodeError::Length));
    assert_eq!(decode_recipient(&frame[4..]), Err(DecodeError::Length));
}
