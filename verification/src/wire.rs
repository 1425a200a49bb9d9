//! The layout of messages on the wire: four words of eight bytes each, most
//! significant byte first, for sender, recipient, gate and share; a frame
//! puts the recipient in four bytes before the message.

use crate::field::FieldElement;
use crate::message::Message;
use vstd::arithmetic::div_mod::lemma_div_denominator;
use vstd::prelude::*;

verus! {

/// The number of bytes of a message on the wire.
pub const MESSAGE_BYTES: usize = 32;

/// The number of bytes of a frame: the recipient, then the message.
pub const FRAME_BYTES: usize = 36;

/// Why bytes from the wire were not taken.
#[derive(Clone, Copy, Debug, PartialEq, Eq, Structural)]
pub enum DecodeError {
    /// The bytes are not as many as the layout asks for.
    Length,
    /// A number is too large for the party indices, gate indices or shares
    /// of this machine.
    Range,
}

/// The eight bytes of a word, most significant first.
pub open spec fn word(x: int) -> Seq<u8> {
    seq![
        ((x / 0x0100_0000_0000_0000) % 256) as u8,
        ((x / 0x0001_0000_0000_0000) % 256) as u8,
        ((x / 0x0000_0100_0000_0000) % 256) as u8,
        ((x / 0x0000_0001_0000_0000) % 256) as u8,
        ((x / 0x0000_0000_0100_0000) % 256) as u8,
        ((x / 0x0000_0000_0001_0000) % 256) as u8,
        ((x / 0x0000_0000_0000_0100) % 256) as u8,
        (x % 256) as u8,
    ]
}

/// The number that the eight bytes from `at` on stand for, most significant
/// byte first.
pub open spec fn word_at(bytes: Seq<u8>, at: int) -> int {
    bytes[at] * 0x0100_0000_0000_0000 + bytes[at + 1] * 0x0001_0000_0000_0000 + bytes[at + 2]
        * 0x0000_0100_0000_0000 + bytes[at + 3] * 0x0000_0001_0000_0000 + bytes[at + 4]
        * 0x0000_0000_0100_0000 + bytes[at + 5] * 0x0000_0000_0001_0000 + bytes[at + 6]
        * 0x0000_0000_0000_0100 + bytes[at + 7]
}

/// The number that the four bytes from `at` on stand for, most significant
/// byte first.
pub open spec fn short_at(bytes: Seq<u8>, at: int) -> int {
    bytes[at] * 0x0100_0000 + bytes[at + 1] * 0x0001_0000 + bytes[at + 2] * 0x0000_0100 + bytes[at
        + 3]
}

/// The four bytes of a number below `2^32`, most significant first.
pub open spec fn short(x: int) -> Seq<u8> {
    seq![
        ((x / 0x0100_0000) % 256) as u8,
        ((x / 0x0001_0000) % 256) as u8,
        ((x / 0x0000_0100) % 256) as u8,
        (x % 256) as u8,
    ]
}

/// A message on the wire.
pub open spec fn encoding<DataType: FieldElement>(msg: Message<DataType>) -> Seq<u8> {
    word(msg.sender() as int) + word(msg.recipient() as int) + word(msg.gate_id() as int) + word(
        msg.payload().value(),
    )
}

/// Whether the words of `bytes` fit a message of this machine.
pub open spec fn in_range<DataType: FieldElement>(bytes: Seq<u8>) -> bool {
    &&& word_at(bytes, 0) <= usize::MAX
    &&& word_at(bytes, 8) <= usize::MAX
    &&& word_at(bytes, 16) <= usize::MAX
    &&& word_at(bytes, 24) <= DataType::max_value()
}

/// The bytes of a word stand for the word.
pub proof fn lemma_word_round_trip(x: int)
    requires
        0 <= x <= u64::MAX,
    ensures
        word(x).len() == 8,
        word_at(word(x), 0) == x,
{
    let q1: int = x / 0x100;
    let q2: int = q1 / 0x100;
    let q3: int = q2 / 0x100;
    let q4: int = q3 / 0x100;
    let q5: int = q4 / 0x100;
    let q6: int = q5 / 0x100;
    let q7: int = q6 / 0x100;
    lemma_div_denominator(x, 0x100, 0x100);
    lemma_div_denominator(x, 0x1_0000, 0x100);
    lemma_div_denominator(x, 0x100_0000, 0x100);
    lemma_div_denominator(x, 0x1_0000_0000, 0x100);
    lemma_div_denominator(x, 0x100_0000_0000, 0x100);
    lemma_div_denominator(x, 0x1_0000_0000_0000, 0x100);
    assert(x / 0x1_0000 == q2);
    assert(x / 0x100_0000 == q3);
    assert(x / 0x1_0000_0000 == q4);
    assert(x / 0x100_0000_0000 == q5);
    assert(x / 0x1_0000_0000_0000 == q6);
    assert(x / 0x100_0000_0000_0000 == q7);
    assert(q7 < 0x100);
    let w: Seq<u8> = word(x);
    assert(w[0] == q7 % 256);
    assert(w[1] == q6 % 256);
    assert(w[2] == q5 % 256);
    assert(w[3] == q4 % 256);
    assert(w[4] == q3 % 256);
    assert(w[5] == q2 % 256);
    assert(w[6] == q1 % 256);
    assert(w[7] == x % 256);
}

/// Words in a row are read back one by one.
pub proof fn lemma_words_in_a_row(a: int, b: int, c: int, d: int)
    requires
        0 <= a <= u64::MAX,
        0 <= b <= u64::MAX,
        0 <= c <= u64::MAX,
        0 <= d <= u64::MAX,
    ensures
        (word(a) + word(b) + word(c) + word(d)).len() == 32,
        word_at(word(a) + word(b) + word(c) + word(d), 0) == a,
        word_at(word(a) + word(b) + word(c) + word(d), 8) == b,
        word_at(word(a) + word(b) + word(c) + word(d), 16) == c,
        word_at(word(a) + word(b) + word(c) + word(d), 24) == d,
{
    let all: Seq<u8> = word(a) + word(b) + word(c) + word(d);
    lemma_word_round_trip(a);
    lemma_word_round_trip(b);
    lemma_word_round_trip(c);
    lemma_word_round_trip(d);
    assert forall|k: int| 0 <= k < 8 implies all[k] == word(a)[k] && all[8 + k] == word(b)[k]
        && all[16 + k] == word(c)[k] && all[24 + k] == word(d)[k] by {}
    assert(all[0] == word(a)[0] && all[1] == word(a)[1] && all[2] == word(a)[2] && all[3] == word(
        a,
    )[3] && all[4] == word(a)[4] && all[5] == word(a)[5] && all[6] == word(a)[6] && all[7] == word(
        a,
    )[7]);
    assert(all[8] == word(b)[0] && all[9] == word(b)[1] && all[10] == word(b)[2] && all[11]
        == word(b)[3] && all[12] == word(b)[4] && all[13] == word(b)[5] && all[14] == word(b)[6]
        && all[15] == word(b)[7]);
    assert(all[16] == word(c)[0] && all[17] == word(c)[1] && all[18] == word(c)[2] && all[19]
        == word(c)[3] && all[20] == word(c)[4] && all[21] == word(c)[5] && all[22] == word(c)[6]
        && all[23] == word(c)[7]);
    assert(all[24] == word(d)[0] && all[25] == word(d)[1] && all[26] == word(d)[2] && all[27]
        == word(d)[3] && all[28] == word(d)[4] && all[29] == word(d)[5] && all[30] == word(d)[6]
        && all[31] == word(d)[7]);
}

/// Appends the eight bytes of `x` to `bytes`, most significant first.
fn put_word(bytes: &mut Vec<u8>, x: u64)
    ensures
        final(bytes)@ == old(bytes)@ + word(x as int),
{
    let ghost before: Seq<u8> = bytes@;
    bytes.push(((x / 0x0100_0000_0000_0000) % 256) as u8);
    bytes.push(((x / 0x0001_0000_0000_0000) % 256) as u8);
    bytes.push(((x / 0x0000_0100_0000_0000) % 256) as u8);
    bytes.push(((x / 0x0000_0001_0000_0000) % 256) as u8);
    bytes.push(((x / 0x0000_0000_0100_0000) % 256) as u8);
    bytes.push(((x / 0x0000_0000_0001_0000) % 256) as u8);
    bytes.push(((x / 0x0000_0000_0000_0100) % 256) as u8);
    bytes.push((x % 256) as u8);
    assert(bytes@ =~= before + word(x as int));
}

/// The number that the eight bytes from `at` on stand for.
fn get_word(bytes: &[u8], at: usize) -> (x: u64)
    requires
        at + 8 <= bytes.len(),
    ensures
        x == word_at(bytes@, at as int),
{
    (bytes[at] as u64) * 0x0100_0000_0000_0000 + (bytes[at + 1] as u64) * 0x0001_0000_0000_0000 + (
    bytes[at + 2] as u64) * 0x0000_0100_0000_0000 + (bytes[at + 3] as u64) * 0x0000_0001_0000_0000
        + (bytes[at + 4] as u64) * 0x0000_0000_0100_0000 + (bytes[at + 5] as u64)
        * 0x0000_0000_0001_0000 + (bytes[at + 6] as u64) * 0x0000_0000_0000_0100 + (bytes[at
        + 7] as u64)
}

/// The bytes of a message on the wire.
pub fn encode_message<DataType: FieldElement>(msg: &Message<DataType>) -> (bytes: Vec<u8>)
    ensures
        bytes@ == encoding(*msg),
        bytes.len() == MESSAGE_BYTES,
{
    let mut bytes: Vec<u8> = Vec::new();
    put_word(&mut bytes, msg.get_from() as u64);
    put_word(&mut bytes, msg.get_to() as u64);
    put_word(&mut bytes, msg.get_gate() as u64);
    put_word(&mut bytes, msg.get_share().to_u64());
    proof {
        msg.payload().lemma_range();
        lemma_words_in_a_row(
            msg.sender() as int,
            msg.recipient() as int,
            msg.gate_id() as int,
            msg.payload().value(),
        );
        assert(bytes@ =~= encoding(*msg));
    }
    bytes
}

/// The message that `bytes` stand for: its four words are sender, recipient,
/// gate and share. Bytes of another length than that of a message, and words
/// too large for this machine or for a share, are not taken.
pub fn decode_message<DataType: FieldElement>(bytes: &[u8]) -> (outcome: Result<
    Message<DataType>,
    DecodeError,
>)
    ensures
        outcome is Ok <==> bytes@.len() == MESSAGE_BYTES && in_range::<DataType>(bytes@),
        bytes@.len() != MESSAGE_BYTES <==> outcome == Err::<Message<DataType>, DecodeError>(
            DecodeError::Length,
        ),
        bytes@.len() == MESSAGE_BYTES && !in_range::<DataType>(bytes@) <==> outcome == Err::<
            Message<DataType>,
            DecodeError,
        >(DecodeError::Range),
        outcome matches Ok(msg) ==> {
            &&& msg.sender() == word_at(bytes@, 0)
            &&& msg.recipient() == word_at(bytes@, 8)
            &&& msg.gate_id() == word_at(bytes@, 16)
            &&& msg.payload().value() == word_at(bytes@, 24)
        },
{
    if bytes.len() != MESSAGE_BYTES {
        return Err(DecodeError::Length);
    }
    let from: u64 = get_word(bytes, 0);
    let to: u64 = get_word(bytes, 8);
    let gate: u64 = get_word(bytes, 16);
    let share: u64 = get_word(bytes, 24);
    if from > usize::MAX as u64 || to > usize::MAX as u64 || gate > usize::MAX as u64 || share
        > DataType::limit() {
        return Err(DecodeError::Range);
    }
    Ok(Message::new(from as usize, to as usize, gate as usize, DataType::from_u64(share)))
}

/// The bytes of a message are taken back, and their words are its parts.
pub proof fn lemma_encoding_is_taken<DataType: FieldElement>(msg: Message<DataType>)
    ensures
        encoding(msg).len() == MESSAGE_BYTES,
        in_range::<DataType>(encoding(msg)),
        word_at(encoding(msg), 0) == msg.sender(),
        word_at(encoding(msg), 8) == msg.recipient(),
        word_at(encoding(msg), 16) == msg.gate_id(),
        word_at(encoding(msg), 24) == msg.payload().value(),
{
    msg.payload().lemma_range();
    lemma_words_in_a_row(
        msg.sender() as int,
        msg.recipient() as int,
        msg.gate_id() as int,
        msg.payload().value(),
    );
}

/// A message read back from its bytes is the message.
pub proof fn lemma_message_round_trip<DataType: FieldElement>(
    msg: Message<DataType>,
    decoded: Message<DataType>,
)
    requires
        decoded.sender() == word_at(encoding(msg), 0),
        decoded.recipient() == word_at(encoding(msg), 8),
        decoded.gate_id() == word_at(encoding(msg), 16),
        decoded.payload().value() == word_at(encoding(msg), 24),
    ensures
        decoded == msg,
{
    lemma_encoding_is_taken(msg);
    decoded.payload().lemma_injective(msg.payload());
    decoded.lemma_extensional(msg);
}

/// A frame: the recipient in four bytes, most significant first, then the
/// message. `None` when the recipient does not fit four bytes.
pub fn encode_frame<DataType: FieldElement>(recipient: usize, msg: &Message<DataType>) -> (frame:
    Option<Vec<u8>>)
    ensures
        recipient > u32::MAX <==> frame is None,
        frame matches Some(bytes) ==> bytes@ == short(recipient as int) + encoding(*msg)
            && bytes.len() == FRAME_BYTES,
{
    if recipient > u32::MAX as usize {
        return None;
    }
    let mut frame: Vec<u8> = Vec::new();
    frame.push(((recipient / 0x0100_0000) % 256) as u8);
    frame.push(((recipient / 0x0001_0000) % 256) as u8);
    frame.push(((recipient / 0x0000_0100) % 256) as u8);
    frame.push((recipient % 256) as u8);
    let mut body: Vec<u8> = encode_message(msg);
    assert(frame@ =~= short(recipient as int));
    frame.append(&mut body);
    Some(frame)
}

/// The recipient of a frame and the place where its message begins. Bytes of
/// another length than that of a frame are not taken.
pub fn decode_recipient(frame: &[u8]) -> (outcome: Result<usize, DecodeError>)
    ensures
        outcome is Ok <==> frame@.len() == FRAME_BYTES,
        frame@.len() != FRAME_BYTES <==> outcome == Err::<usize, DecodeError>(DecodeError::Length),
        frame@.len() == FRAME_BYTES ==> outcome == Ok::<usize, DecodeError>(
            short_at(frame@, 0) as usize,
        ),
        outcome is Ok ==> short_at(frame@, 0) <= u32::MAX,
{
    if frame.len() != FRAME_BYTES {
        return Err(DecodeError::Length);
    }
    let recipient: u32 = (frame[0] as u32) * 0x0100_0000 + (frame[1] as u32) * 0x0001_0000 + (
    frame[2] as u32) * 0x0000_0100 + (frame[3] as u32);
    Ok(recipient as usize)
}

/// The recipient of a frame is read back from its first four bytes.
pub proof fn lemma_recipient_round_trip(recipient: int, rest: Seq<u8>)
    requires
        0 <= recipient <= u32::MAX,
    ensures
        short_at(short(recipient) + rest, 0) == recipient,
{
    let frame: Seq<u8> = short(recipient) + rest;
    assert(frame[0] == short(recipient)[0] && frame[1] == short(recipient)[1] && frame[2] == short(
        recipient,
    )[2] && frame[3] == short(recipient)[3]);
}

} // verus!
