//! What holds of encoding, decoding and the cipher taken together.

use vstd::prelude::*;
use vstd::utf8::{encode_utf8, is_ascii_chars, is_ascii_chars_encode_utf8};

use crate::automaton::{decode, scan, state_wf, step, ParseState, Progress};
use crate::automaton::{lemma_scan_error_stays, lemma_scan_next, lemma_scan_push};
use crate::cipher::{bytes_as_chars, decrypt_text, encrypt_text, shifted, unshifted};
use crate::error::KonamiParseError;
use crate::grammar::{group_text, groups_text};
use crate::pending::{lemma_push_suffix, lemma_scan_pending, lemma_scan_shape, lemma_step_text};
use crate::pending::{pending_text, run_text};

verus! {

/// A token group read from the initial state brings the parser back to the
/// initial state with the group's byte added to the output.
pub proof fn lemma_scan_group(prefix: Seq<char>, out: Seq<u8>, b: u8)
    requires
        scan(prefix) == Ok::<_, KonamiParseError>(
            Progress { state: ParseState::Up(0), bytes: out },
        ),
    ensures
        scan(prefix + group_text(b)) == Ok::<_, KonamiParseError>(
            Progress { state: ParseState::Up(0), bytes: out.push(b) },
        ),
{
    let last = ParseState::Star(b);
    lemma_scan_pending(prefix, out, last);
    lemma_step_text(last, 't');
    lemma_scan_push(prefix + pending_text(last), 't');
    lemma_push_suffix(prefix, pending_text(last), 't');
}

/// The parser reads the token groups of any byte sequence without error, ends
/// in its initial state, and has exactly those bytes as output.
pub proof fn lemma_scan_groups(bytes: Seq<u8>)
    ensures
        scan(groups_text(bytes)) == Ok::<_, KonamiParseError>(
            Progress { state: ParseState::Up(0), bytes },
        ),
    decreases bytes.len(),
{
    if bytes.len() == 0 {
        assert(bytes =~= Seq::empty());
    } else {
        lemma_scan_groups(bytes.drop_last());
        lemma_scan_group(groups_text(bytes.drop_last()), bytes.drop_last(), bytes.last());
        assert(bytes.drop_last().push(bytes.last()) =~= bytes);
    }
}

proof fn lemma_scan_first_group(b: u8)
    ensures
        scan(group_text(b)) == Ok::<_, KonamiParseError>(
            Progress { state: ParseState::Up(0), bytes: seq![b] },
        ),
{
    lemma_scan_group(Seq::empty(), Seq::empty(), b);
    assert(Seq::<char>::empty() + group_text(b) =~= group_text(b));
    assert(Seq::<u8>::empty().push(b) =~= seq![b]);
}

/// Decoding the token group of a byte gives back that one byte, for every byte.
pub proof fn lemma_decode_encode(b: u8)
    ensures
        decode(group_text(b)) == Ok::<_, KonamiParseError>(seq![b]),
{
    lemma_scan_first_group(b);
}

/// Decoding two token groups written one after the other gives back the two
/// bytes in order.
pub proof fn lemma_decode_pair(b1: u8, b2: u8)
    ensures
        decode(group_text(b1) + group_text(b2)) == Ok::<_, KonamiParseError>(seq![b1, b2]),
{
    lemma_scan_first_group(b1);
    lemma_scan_group(group_text(b1), seq![b1], b2);
    assert(seq![b1].push(b2) =~= seq![b1, b2]);
}

/// Decoding the token groups of a byte sequence that is not empty gives back
/// the sequence.
pub proof fn lemma_decode_groups(bytes: Seq<u8>)
    requires
        bytes.len() > 0,
    ensures
        decode(groups_text(bytes)) == Ok::<_, KonamiParseError>(bytes),
{
    lemma_scan_groups(bytes);
}

/// No two bytes have the same token group.
pub proof fn lemma_encode_injective(b1: u8, b2: u8)
    requires
        group_text(b1) == group_text(b2),
    ensures
        b1 == b2,
{
    lemma_decode_encode(b1);
    lemma_decode_encode(b2);
    assert(seq![b1][0] == seq![b2][0]);
}

/// No two byte sequences have the same text.
pub proof fn lemma_groups_injective(a: Seq<u8>, b: Seq<u8>)
    requires
        groups_text(a) == groups_text(b),
    ensures
        a == b,
{
    lemma_scan_groups(a);
    lemma_scan_groups(b);
}

/// Decoding accepts nothing but token groups: a text that decodes begins with
/// the token groups of the bytes it decodes to, and what follows them is the
/// start of a group that the text leaves unfinished.
pub proof fn lemma_decode_shape(text: Seq<char>)
    requires
        decode(text) is Ok,
    ensures
        text == groups_text(decode(text).unwrap()) + pending_text(scan(text).unwrap().state),
        groups_text(decode(text).unwrap()).is_prefix_of(text),
{
    lemma_scan_shape(text);
    let groups = groups_text(decode(text).unwrap());
    let rest = pending_text(scan(text).unwrap().state);
    assert((groups + rest).subrange(0, groups.len() as int) =~= groups);
}

/// A text that decodes and leaves no group unfinished is the encoding of the
/// bytes it decodes to: on such texts encoding undoes decoding.
pub proof fn lemma_encode_decode(text: Seq<char>)
    requires
        decode(text) is Ok,
        scan(text).unwrap().state == ParseState::Up(0),
    ensures
        groups_text(decode(text).unwrap()) == text,
{
    lemma_scan_shape(text);
    assert(pending_text(ParseState::Up(0)) =~= Seq::<char>::empty());
    assert(groups_text(decode(text).unwrap()) + Seq::<char>::empty() =~= groups_text(
        decode(text).unwrap(),
    ));
}

/// The texts that decode and leave no group unfinished are exactly the texts
/// of the byte sequences that are not empty.
pub proof fn lemma_decodes_exactly_groups(text: Seq<char>)
    ensures
        (decode(text) is Ok && scan(text).unwrap().state == ParseState::Up(0)) <==> (exists|
            bytes: Seq<u8>,
        |
            bytes.len() > 0 && text == #[trigger] groups_text(bytes)),
{
    if decode(text) is Ok && scan(text).unwrap().state == ParseState::Up(0) {
        lemma_encode_decode(text);
        let bytes = decode(text).unwrap();
        assert(bytes.len() > 0 && text == groups_text(bytes));
    }
    if exists|bytes: Seq<u8>| bytes.len() > 0 && text == #[trigger] groups_text(bytes) {
        let bytes = choose|bytes: Seq<u8>| bytes.len() > 0 && text == #[trigger] groups_text(bytes);
        lemma_scan_groups(bytes);
    }
}

/// A group that the text leaves unfinished does not change what the text
/// decodes to, as long as a complete group stands before it.
pub proof fn lemma_unfinished_group_ignored(bytes: Seq<u8>, st: ParseState)
    requires
        bytes.len() > 0,
        state_wf(st),
    ensures
        decode(groups_text(bytes) + pending_text(st)) == Ok::<_, KonamiParseError>(bytes),
{
    lemma_scan_groups(bytes);
    lemma_scan_pending(groups_text(bytes), bytes, st);
}

/// The first character that has no transition decides the outcome: decoding
/// fails with that character and its index, whatever follows it.
pub proof fn lemma_unexpected_character(text: Seq<char>, i: int)
    requires
        0 <= i < text.len(),
        scan(text.take(i)) is Ok,
        step(scan(text.take(i)).unwrap().state, text[i]) is Unexpected,
    ensures
        decode(text) == Err::<Seq<u8>, _>(
            KonamiParseError::UexpectedCharacter(i as usize, text[i]),
        ),
{
    lemma_scan_next(text, i);
    lemma_scan_error_stays(text, i + 1);
}

/// A character that follows four up tokens, or four down tokens, decides the
/// outcome: decoding fails with its index, whatever the character is and
/// whatever follows it.
pub proof fn lemma_too_many_repeats(text: Seq<char>, i: int)
    requires
        0 <= i < text.len(),
        scan(text.take(i)) is Ok,
        step(scan(text.take(i)).unwrap().state, text[i]) is TooMany,
    ensures
        decode(text) == Err::<Seq<u8>, _>(KonamiParseError::TooManyUpDown(i as usize)),
        run_text('^', 4).is_suffix_of(text.take(i)) || run_text('v', 4).is_suffix_of(
            text.take(i),
        ),
{
    lemma_scan_next(text, i);
    lemma_scan_error_stays(text, i + 1);
    let read = text.take(i);
    let st = scan(read).unwrap().state;
    lemma_scan_shape(read);
    match st {
        ParseState::Up(_) => {
            assert(read.subrange(read.len() - 4, read.len() as int) =~= run_text('^', 4));
        },
        ParseState::Down(_, _) => {
            assert(read.subrange(read.len() - 4, read.len() as int) =~= run_text('v', 4));
        },
        _ => {},
    }
}

/// Where a decoding error points: the text before the index was read without
/// error, and the character at the index is the one the parser could not take.
/// `Empty` comes only when the whole text was read and no group was complete.
pub proof fn lemma_error_place(text: Seq<char>)
    requires
        decode(text) is Err,
        text.len() <= usize::MAX,
    ensures
        match decode(text)->Err_0 {
            KonamiParseError::Empty => scan(text) is Ok && scan(text).unwrap().bytes.len() == 0,
            KonamiParseError::TooManyUpDown(i) => {
                &&& i < text.len()
                &&& scan(text.take(i as int)) is Ok
                &&& step(scan(text.take(i as int)).unwrap().state, text[i as int]) is TooMany
            },
            KonamiParseError::UexpectedCharacter(i, c) => {
                &&& i < text.len()
                &&& c == text[i as int]
                &&& scan(text.take(i as int)) is Ok
                &&& step(scan(text.take(i as int)).unwrap().state, text[i as int]) is Unexpected
            },
        },
    decreases text.len(),
{
    if scan(text) is Err {
        let head = text.drop_last();
        assert(head =~= text.take(text.len() - 1));
        if scan(head) is Err {
            lemma_error_place(head);
            match scan(head)->Err_0 {
                KonamiParseError::TooManyUpDown(i) => {
                    assert(head.take(i as int) =~= text.take(i as int));
                },
                KonamiParseError::UexpectedCharacter(i, _) => {
                    assert(head.take(i as int) =~= text.take(i as int));
                },
                KonamiParseError::Empty => {},
            }
        }
    }
}

/// Shifting back by a key undoes shifting by the same key.
pub proof fn lemma_unshift_shift(bytes: Seq<u8>, offsets: Seq<u8>)
    requires
        offsets.len() > 0,
    ensures
        unshifted(shifted(bytes, offsets), offsets) == bytes,
{
    assert(unshifted(shifted(bytes, offsets), offsets) =~= bytes);
}

/// Decrypting what was encrypted under the same key gives the UTF-8 bytes of
/// the message, each as one character. The key has to decode, and the message
/// must not be empty: an empty message encrypts to the empty text, which does
/// not decode.
pub proof fn lemma_decrypt_encrypt_bytes(message: Seq<char>, key: Seq<char>)
    requires
        decode(key) is Ok,
        message.len() > 0,
    ensures
        encrypt_text(message, key) is Ok,
        decrypt_text(encrypt_text(message, key).unwrap(), key) == Ok::<_, KonamiParseError>(
            bytes_as_chars(encode_utf8(message)),
        ),
{
    let offsets = decode(key).unwrap();
    let plain = encode_utf8(message);
    assert(plain.len() > 0) by {
        reveal_with_fuel(encode_utf8, 2);
    }
    lemma_unshift_shift(plain, offsets);
    lemma_decode_groups(shifted(plain, offsets));
}

/// Decrypting what was encrypted under the same key gives the message back,
/// for every message of ASCII characters that is not empty and every key that
/// decodes.
pub proof fn lemma_decrypt_encrypt(message: Seq<char>, key: Seq<char>)
    requires
        decode(key) is Ok,
        message.len() > 0,
        is_ascii_chars(message),
    ensures
        encrypt_text(message, key) is Ok,
        decrypt_text(encrypt_text(message, key).unwrap(), key) == Ok::<_, KonamiParseError>(
            message,
        ),
{
    lemma_decrypt_encrypt_bytes(message, key);
    is_ascii_chars_encode_utf8(message);
    assert(bytes_as_chars(encode_utf8(message)) =~= message);
}

} // verus!
