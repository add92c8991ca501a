//! The repeating-key additive cipher over token groups.

use vstd::prelude::*;
use vstd::string::*;
use vstd::utf8::encode_utf8;

use crate::automaton::decode;
use crate::codec::{byte_to_konami, konami_to_bytes};
use crate::error::KonamiParseError;
use crate::grammar::groups_text;

verus! {

/// The key byte that meets position `i` of a message: the key repeats without
/// end. Meant for a key that is not empty.
pub open spec fn offset_at(offsets: Seq<u8>, i: int) -> int {
    offsets[i % (offsets.len() as int)] as int
}

/// Each byte with the key byte of its position added, modulo 256.
pub open spec fn shifted(bytes: Seq<u8>, offsets: Seq<u8>) -> Seq<u8> {
    Seq::new(bytes.len(), |i: int| ((bytes[i] as int + offset_at(offsets, i)) % 256) as u8)
}

/// Each byte with the key byte of its position subtracted, modulo 256.
pub open spec fn unshifted(bytes: Seq<u8>, offsets: Seq<u8>) -> Seq<u8> {
    Seq::new(
        bytes.len(),
        |i: int| ((256 + bytes[i] as int - offset_at(offsets, i)) % 256) as u8,
    )
}

/// Each byte read as the character with that code.
pub open spec fn bytes_as_chars(bytes: Seq<u8>) -> Seq<char> {
    Seq::new(bytes.len(), |i: int| bytes[i] as char)
}

/// What encrypting `message` under `key` gives: the key's decoding error, or
/// the token groups of the message's UTF-8 bytes shifted by the key's bytes.
pub open spec fn encrypt_text(message: Seq<char>, key: Seq<char>) -> Result<
    Seq<char>,
    KonamiParseError,
> {
    match decode(key) {
        Err(e) => Err(e),
        Ok(offsets) => Ok(groups_text(shifted(encode_utf8(message), offsets))),
    }
}

/// What decrypting `cipher` under `key` gives: the key's decoding error; else
/// the cipher text's decoding error; else the bytes of the cipher text shifted
/// back by the key's bytes, each as one character.
pub open spec fn decrypt_text(cipher: Seq<char>, key: Seq<char>) -> Result<
    Seq<char>,
    KonamiParseError,
> {
    match decode(key) {
        Err(e) => Err(e),
        Ok(offsets) => match decode(cipher) {
            Err(e) => Err(e),
            Ok(bytes) => Ok(bytes_as_chars(unshifted(bytes, offsets))),
        },
    }
}

/// `String::push` puts the one character at the end of the string and leaves
/// what was there before in place.
pub assume_specification[ String::push ](text: &mut String, ch: char)
    ensures
        final(text)@ == old(text)@.push(ch),
;

/// Encrypts the bytes of `message` with the bytes that `konami_offsets`
/// decodes to, and writes the result as token groups.
pub fn encrypt(message: String, konami_offsets: String) -> (r: Result<String, KonamiParseError>)
    ensures
        match encrypt_text(message@, konami_offsets@) {
            Ok(text) => r is Ok && r.unwrap()@ == text,
            Err(e) => r is Err && r.unwrap_err() == e,
        },
{
    let offsets = match konami_to_bytes(konami_offsets) {
        Ok(offsets) => offsets,
        Err(e) => {
            return Err(e);
        },
    };
    let plain = message.as_str().as_bytes();
    let ghost goal = shifted(plain@, offsets@);
    let mut encrypted = String::new();
    let mut i: usize = 0;
    while i < plain.len()
        invariant
            i <= plain.len(),
            offsets.len() > 0,
            goal == shifted(plain@, offsets@),
            encrypted@ == groups_text(goal.take(i as int)),
        decreases plain.len() - i,
    {
        let offset: u8 = offsets[i % offsets.len()];
        let sum: u16 = (plain[i] as u16 + offset as u16) % 256;
        let group = byte_to_konami(sum as u8);
        encrypted.append(group.as_str());
        proof {
            assert(goal.take(i + 1).drop_last() =~= goal.take(i as int));
        }
        i += 1;
    }
    proof {
        assert(goal.take(i as int) =~= goal);
    }
    Ok(encrypted)
}

/// Decodes `konami_message`, shifts its bytes back by the bytes that
/// `konami_offsets` decodes to, and returns them as characters.
pub fn decrypt(konami_message: String, konami_offsets: String) -> (r: Result<
    String,
    KonamiParseError,
>)
    ensures
        match decrypt_text(konami_message@, konami_offsets@) {
            Ok(text) => r is Ok && r.unwrap()@ == text,
            Err(e) => r is Err && r.unwrap_err() == e,
        },
{
    let offsets = match konami_to_bytes(konami_offsets) {
        Ok(offsets) => offsets,
        Err(e) => {
            return Err(e);
        },
    };
    let bytes = match konami_to_bytes(konami_message) {
        Ok(bytes) => bytes,
        Err(e) => {
            return Err(e);
        },
    };
    let ghost goal = bytes_as_chars(unshifted(bytes@, offsets@));
    let mut decrypted = String::new();
    let mut i: usize = 0;
    while i < bytes.len()
        invariant
            i <= bytes.len(),
            offsets.len() > 0,
            goal == bytes_as_chars(unshifted(bytes@, offsets@)),
            decrypted@ == goal.take(i as int),
        decreases bytes.len() - i,
    {
        let offset: u8 = offsets[i % offsets.len()];
        let difference: u16 = (256 + bytes[i] as u16 - offset as u16) % 256;
        decrypted.push(difference as u8 as char);
        proof {
            assert(goal.take(i + 1) =~= goal.take(i as int).push(goal[i as int]));
        }
        i += 1;
    }
    proof {
        assert(goal.take(i as int) =~= goal);
    }
    Ok(decrypted)
}

} // verus!
