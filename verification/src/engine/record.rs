//! The record format of a segment. A record is a command in bincode's fixed
//! width, little-endian form: the variant's index in four bytes, then each
//! text field as its length in eight bytes and its UTF-8 bytes.

use crate::common::{Command, CommandView};
use crate::error::KvsError;
use vstd::bytes::*;
use vstd::prelude::*;
use vstd::slice::*;
use vstd::utf8::*;

verus! {

/// `bincode::ErrorKind`, what bincode reports when it cannot encode or
/// decode. Its inside is not visible to the verifier.
#[verifier::external_type_specification]
#[verifier::external_body]
pub struct ExErrorKind(bincode::ErrorKind);

/// The index of the `Put` variant in a record.
pub const PUT_TAG: u32 = 0;

/// The index of the `Get` variant in a record.
pub const GET_TAG: u32 = 1;

/// The index of the `Rm` variant in a record.
pub const RM_TAG: u32 = 2;

/// The bytes of a text field: the length of its UTF-8 form, then that form.
pub open spec fn encode_text(text: Seq<char>) -> Seq<u8> {
    spec_u64_to_le_bytes(encode_utf8(text).len() as u64) + encode_utf8(text)
}

/// The bytes of a record.
pub open spec fn encode_command(cmd: CommandView) -> Seq<u8> {
    match cmd {
        CommandView::Put { key, value } => spec_u32_to_le_bytes(PUT_TAG) + encode_text(key)
            + encode_text(value),
        CommandView::Get { key } => spec_u32_to_le_bytes(GET_TAG) + encode_text(key),
        CommandView::Rm { key } => spec_u32_to_le_bytes(RM_TAG) + encode_text(key),
    }
}

/// The number that the first four bytes hold, if there are four.
pub open spec fn decode_tag(bytes: Seq<u8>) -> Option<u32> {
    if bytes.len() >= 4 {
        Some(spec_u32_from_le_bytes(bytes.subrange(0, 4)))
    } else {
        None
    }
}

/// The text field that `bytes` start with, if they start with one: eight
/// bytes of length, then that many bytes of valid UTF-8.
pub open spec fn decode_text(bytes: Seq<u8>) -> Option<Seq<char>> {
    if bytes.len() >= 8 {
        let length = spec_u64_from_le_bytes(bytes.subrange(0, 8));
        if 8 + length <= bytes.len() && valid_utf8(bytes.subrange(8, 8 + length)) {
            Some(decode_utf8(bytes.subrange(8, 8 + length)))
        } else {
            None
        }
    } else {
        None
    }
}

/// How many bytes a text field takes in a record.
pub open spec fn text_size(text: Seq<char>) -> int {
    8 + (encode_utf8(text).len() as int)
}

/// How many bytes a record takes.
pub open spec fn command_size(cmd: CommandView) -> int {
    match cmd {
        CommandView::Put { key, value } => 4 + text_size(key) + text_size(value),
        CommandView::Get { key } => 4 + text_size(key),
        CommandView::Rm { key } => 4 + text_size(key),
    }
}

/// The record that `bytes` start with, if they start with one. What follows
/// the record is not looked at.
pub open spec fn decode_command(bytes: Seq<u8>) -> Option<CommandView> {
    match decode_tag(bytes) {
        Some(tag) => {
            let rest = bytes.subrange(4, bytes.len() as int);
            match decode_text(rest) {
                Some(key) => {
                    if tag == PUT_TAG {
                        let tail = rest.subrange(text_size(key), rest.len() as int);
                        match decode_text(tail) {
                            Some(value) => Some(CommandView::Put { key, value }),
                            None => None,
                        }
                    } else if tag == GET_TAG {
                        Some(CommandView::Get { key })
                    } else if tag == RM_TAG {
                        Some(CommandView::Rm { key })
                    } else {
                        None
                    }
                },
                None => None,
            }
        },
        None => None,
    }
}

/// `bincode::serialize` on a `u32`: its four bytes, least significant
/// first. It cannot fail: nothing limits the size and the bytes go to
/// memory.
#[verifier::external_body]
fn bincode_tag(tag: u32) -> (bytes: Result<Vec<u8>, Box<bincode::ErrorKind>>)
    ensures
        bytes is Ok,
        bytes->Ok_0@ == spec_u32_to_le_bytes(tag),
{
    bincode::serialize(&tag)
}

/// `bincode::serialize` on a `str`: the length of the text in bytes as a
/// `u64`, least significant byte first, then the bytes of the text. It
/// cannot fail: nothing limits the size and the bytes go to memory.
#[verifier::external_body]
fn bincode_text(text: &str) -> (bytes: Result<Vec<u8>, Box<bincode::ErrorKind>>)
    ensures
        bytes is Ok,
        bytes->Ok_0@ == encode_text(text@),
{
    bincode::serialize(text)
}

/// `bincode::deserialize` to a `u32`: the number in the first four bytes,
/// least significant first; an error where there are fewer than four.
/// Bytes that follow are ignored.
#[verifier::external_body]
fn bincode_read_tag(bytes: &[u8]) -> (tag: Result<u32, Box<bincode::ErrorKind>>)
    ensures
        tag is Ok == decode_tag(bytes@) is Some,
        tag is Ok ==> tag->Ok_0 == decode_tag(bytes@)->0,
{
    bincode::deserialize::<u32>(bytes)
}

/// `bincode::deserialize` to a `String`: reads a `u64` length from the
/// first eight bytes, then that many bytes, which must be valid UTF-8; an
/// error where the bytes end early or are not UTF-8. Bytes that follow are
/// ignored.
#[verifier::external_body]
fn bincode_read_text(bytes: &[u8]) -> (text: Result<String, Box<bincode::ErrorKind>>)
    ensures
        text is Ok == decode_text(bytes@) is Some,
        text is Ok ==> text->Ok_0@ == decode_text(bytes@)->0,
{
    bincode::deserialize::<String>(bytes)
}

/// Appends the bytes of `text` as a field of a record.
fn push_text(out: &mut Vec<u8>, text: &str) -> (done: Result<(), KvsError>)
    ensures
        done is Ok ==> final(out)@ == old(out)@ + encode_text(text@),
        done is Ok,
        text_fits(text@),
        encode_text(text@).len() == text_size(text@),
{
    match bincode_text(text) {
        Ok(mut bytes) => {
            proof {
                lemma_auto_spec_u64_to_from_le_bytes();
                assert(bytes@.len() == bytes.len());
                assert(bytes@.len() == 8 + encode_utf8(text@).len());
                lemma_decode_encoded_text(text@, Seq::empty());
            }
            out.append(&mut bytes);
            Ok(())
        },
        Err(_) => Err(KvsError::Bincode),
    }
}

/// Encodes a command as a record.
pub fn encode(cmd: &Command) -> (bytes: Result<Vec<u8>, KvsError>)
    ensures
        bytes is Ok,
        bytes->Ok_0@ == encode_command(cmd@),
        bytes->Ok_0@.len() == command_size(cmd@),
        command_fits(cmd@),
{

    let tag = match cmd {
        Command::Put { key: _, value: _ } => PUT_TAG,
        Command::Get { key: _ } => GET_TAG,
        Command::Rm { key: _ } => RM_TAG,
    };
    let mut out = match bincode_tag(tag) {
        Ok(bytes) => bytes,
        Err(_) => {
            return Err(KvsError::Bincode);
        },
    };
    proof {
        lemma_auto_spec_u32_to_from_le_bytes();
    }
    match cmd {
        Command::Put { key, value } => {
            push_text(&mut out, key.as_str())?;
            push_text(&mut out, value.as_str())?;
        },
        Command::Get { key } => {
            push_text(&mut out, key.as_str())?;
        },
        Command::Rm { key } => {
            push_text(&mut out, key.as_str())?;
        },
    }
    Ok(out)
}

/// Whether the UTF-8 form of a text is short enough for its length to be
/// written in eight bytes. Every text that fits in memory is.
pub open spec fn text_fits(text: Seq<char>) -> bool {
    encode_utf8(text).len() <= u64::MAX
}

/// Whether every text of a command is short enough to be encoded.
pub open spec fn command_fits(cmd: CommandView) -> bool {
    match cmd {
        CommandView::Put { key, value } => text_fits(key) && text_fits(value),
        CommandView::Get { key } => text_fits(key),
        CommandView::Rm { key } => text_fits(key),
    }
}

/// A text field decodes to the text it was encoded from, whatever follows.
pub proof fn lemma_decode_encoded_text(text: Seq<char>, rest: Seq<u8>)
    requires
        text_fits(text),
    ensures
        encode_text(text).len() == text_size(text),
        decode_text(encode_text(text) + rest) == Some(text),
{
    lemma_auto_spec_u64_to_from_le_bytes();
    encode_utf8_valid_utf8(text);
    encode_utf8_decode_utf8(text);
    let utf8 = encode_utf8(text);
    let length = utf8.len() as u64;
    let bytes = encode_text(text) + rest;
    assert(bytes.subrange(0, 8) =~= spec_u64_to_le_bytes(length));
    assert(bytes.subrange(8, 8 + length) =~= utf8);
}

/// A text field that decodes is the encoding of what it decodes to.
pub proof fn lemma_encode_decoded_text(bytes: Seq<u8>)
    requires
        decode_text(bytes) is Some,
    ensures
        text_fits(decode_text(bytes)->0),
        text_size(decode_text(bytes)->0) <= bytes.len(),
        bytes.subrange(0, text_size(decode_text(bytes)->0)) == encode_text(decode_text(bytes)->0),
{
    lemma_auto_spec_u64_to_from_le_bytes();
    let length = spec_u64_from_le_bytes(bytes.subrange(0, 8));
    let utf8 = bytes.subrange(8, 8 + length);
    decode_utf8_encode_utf8(utf8);
    let text = decode_text(bytes)->0;
    assert(encode_utf8(text) == utf8);
    assert(spec_u64_to_le_bytes(length) == bytes.subrange(0, 8));
    assert(bytes.subrange(0, 8 + length) =~= bytes.subrange(0, 8) + utf8);
}

/// A record decodes to the command it was encoded from, whatever follows.
pub proof fn lemma_decode_encoded(cmd: CommandView, rest: Seq<u8>)
    requires
        command_fits(cmd),
    ensures
        encode_command(cmd).len() == command_size(cmd),
        decode_command(encode_command(cmd) + rest) == Some(cmd),
{
    lemma_auto_spec_u32_to_from_le_bytes();
    let bytes = encode_command(cmd) + rest;
    match cmd {
        CommandView::Put { key, value } => {
            lemma_decode_encoded_text(key, encode_text(value) + rest);
            lemma_decode_encoded_text(value, rest);
            assert(bytes.subrange(0, 4) =~= spec_u32_to_le_bytes(PUT_TAG));
            let after_tag = bytes.subrange(4, bytes.len() as int);
            assert(after_tag =~= encode_text(key) + (encode_text(value) + rest));
            let tail = after_tag.subrange(text_size(key), after_tag.len() as int);
            assert(tail =~= encode_text(value) + rest);
        },
        CommandView::Get { key } => {
            lemma_decode_encoded_text(key, rest);
            assert(bytes.subrange(0, 4) =~= spec_u32_to_le_bytes(GET_TAG));
            assert(bytes.subrange(4, bytes.len() as int) =~= encode_text(key) + rest);
        },
        CommandView::Rm { key } => {
            lemma_decode_encoded_text(key, rest);
            assert(bytes.subrange(0, 4) =~= spec_u32_to_le_bytes(RM_TAG));
            assert(bytes.subrange(4, bytes.len() as int) =~= encode_text(key) + rest);
        },
    }
}

/// Bytes that decode to a command start with the encoding of that command.
pub proof fn lemma_encode_decoded(bytes: Seq<u8>)
    requires
        decode_command(bytes) is Some,
    ensures
        command_fits(decode_command(bytes)->0),
        command_size(decode_command(bytes)->0) <= bytes.len(),
        bytes.subrange(0, command_size(decode_command(bytes)->0)) == encode_command(
            decode_command(bytes)->0,
        ),
{
    lemma_auto_spec_u32_to_from_le_bytes();
    let cmd = decode_command(bytes)->0;
    let tag = decode_tag(bytes)->0;
    let rest = bytes.subrange(4, bytes.len() as int);
    let key = decode_text(rest)->0;
    lemma_encode_decoded_text(rest);
    assert(spec_u32_to_le_bytes(tag) == bytes.subrange(0, 4));
    assert(rest.subrange(0, text_size(key)) =~= bytes.subrange(4, 4 + text_size(key)));
    if tag == PUT_TAG {
        let tail = rest.subrange(text_size(key), rest.len() as int);
        let value = decode_text(tail)->0;
        lemma_encode_decoded_text(tail);
        assert(tail.subrange(0, text_size(value)) =~= bytes.subrange(
            4 + text_size(key),
            4 + text_size(key) + text_size(value),
        ));
        assert(bytes.subrange(0, command_size(cmd)) =~= bytes.subrange(0, 4) + bytes.subrange(
            4,
            4 + text_size(key),
        ) + bytes.subrange(4 + text_size(key), 4 + text_size(key) + text_size(value)));
    } else {
        assert(bytes.subrange(0, command_size(cmd)) =~= bytes.subrange(0, 4) + bytes.subrange(
            4,
            4 + text_size(key),
        ));
    }
}

/// Reads the text field that `bytes` start with and says how many bytes it
/// takes.
fn read_text(bytes: &[u8]) -> (field: Option<(String, usize)>)
    ensures
        match field {
            Some((text, size)) => decode_text(bytes@) == Some(text@) && size == text_size(text@)
                && size <= bytes@.len(),
            None => decode_text(bytes@) is None,
        },
{
    match bincode_read_text(bytes) {
        Ok(text) => {
            proof {
                lemma_encode_decoded_text(bytes@);
            }
            let utf8 = text.as_str().as_bytes();
            assert(utf8@ == encode_utf8(text@));
            assert(text_size(text@) <= bytes@.len() == bytes.len());
            let size = 8 + utf8.len();
            Some((text, size))
        },
        Err(_) => None,
    }
}

/// Decodes the record that `bytes` start with and says how many bytes it
/// takes. Fails with `Bincode` where they do not start with a record.
pub fn decode_prefix(bytes: &[u8]) -> (record: Result<(Command, usize), KvsError>)
    ensures
        match record {
            Ok((cmd, size)) => {
                &&& decode_command(bytes@) == Some(cmd@)
                &&& size == command_size(cmd@)
                &&& size <= bytes@.len()
            },
            Err(error) => error == KvsError::Bincode && decode_command(bytes@) is None,
        },
{
    let tag = match bincode_read_tag(bytes) {
        Ok(tag) => tag,
        Err(_) => {
            return Err(KvsError::Bincode);
        },
    };
    let rest = slice_subrange(bytes, 4, bytes.len());
    let (key, key_size) = match read_text(rest) {
        Some(field) => field,
        None => {
            return Err(KvsError::Bincode);
        },
    };
    if tag == PUT_TAG {
        let tail = slice_subrange(rest, key_size, rest.len());
        match read_text(tail) {
            Some((value, value_size)) => Ok((Command::Put { key, value }, 4 + key_size + value_size)),
            None => Err(KvsError::Bincode),
        }
    } else if tag == GET_TAG {
        Ok((Command::Get { key }, 4 + key_size))
    } else if tag == RM_TAG {
        Ok((Command::Rm { key }, 4 + key_size))
    } else {
        Err(KvsError::Bincode)
    }
}

/// Decodes the record that `bytes` start with. Fails with `Bincode` where
/// they do not start with a record.
pub fn decode(bytes: &[u8]) -> (cmd: Result<Command, KvsError>)
    ensures
        match cmd {
            Ok(cmd) => decode_command(bytes@) == Some(cmd@),
            Err(error) => error == KvsError::Bincode && decode_command(bytes@) is None,
        },
{
    match decode_prefix(bytes) {
        Ok((cmd, _)) => Ok(cmd),
        Err(error) => Err(error),
    }
}

} // verus!
