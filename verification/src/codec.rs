//! Encoding bytes as token groups and decoding token groups into bytes.

use vstd::prelude::*;
use vstd::std_specs::iter::IteratorSpec;
use vstd::string::*;

use crate::automaton::{advance, decode, scan, state_wf, ParseState, Progress, Transition};
use crate::automaton::{lemma_scan_error_stays, lemma_scan_next, lemma_step_keeps_wf};
use crate::error::KonamiParseError;
use crate::grammar::{fours_text, group_text, groups_text, ones_text, sixteens_text};
use crate::grammar::{sixty_fours_text, terminator};

verus! {

fn ones_str(d: u8) -> (s: &'static str)
    requires
        d < 4,
    ensures
        s@ == ones_text(d as int),
{
    proof {
        reveal_strlit("^^");
        reveal_strlit("^^^");
        reveal_strlit("^");
        reveal_strlit("");
    }
    let s = match d {
        0 => "^^",
        1 => "^^^",
        2 => "^",
        _ => "",
    };
    assert(s@ =~= ones_text(d as int));
    s
}

fn fours_str(d: u8) -> (s: &'static str)
    requires
        d < 4,
    ensures
        s@ == fours_text(d as int),
{
    proof {
        reveal_strlit("vv");
        reveal_strlit("vvv");
        reveal_strlit("v");
        reveal_strlit("");
    }
    let s = match d {
        0 => "vv",
        1 => "vvv",
        2 => "v",
        _ => "",
    };
    assert(s@ =~= fours_text(d as int));
    s
}

fn sixteens_str(d: u8) -> (s: &'static str)
    requires
        d < 4,
    ensures
        s@ == sixteens_text(d as int),
{
    proof {
        reveal_strlit("<><>");
        reveal_strlit("<>");
        reveal_strlit("<<");
        reveal_strlit(">>");
    }
    let s = match d {
        0 => "<><>",
        1 => "<>",
        2 => "<<",
        _ => ">>",
    };
    assert(s@ =~= sixteens_text(d as int));
    s
}

fn sixty_fours_str(d: u8) -> (s: &'static str)
    requires
        d < 4,
    ensures
        s@ == sixty_fours_text(d as int),
{
    proof {
        reveal_strlit("ba");
        reveal_strlit("bb");
        reveal_strlit("aa");
        reveal_strlit("ab");
    }
    let s = match d {
        0 => "ba",
        1 => "bb",
        2 => "aa",
        _ => "ab",
    };
    assert(s@ =~= sixty_fours_text(d as int));
    s
}

/// Encodes one byte as its token group.
pub fn byte_to_konami(byte: u8) -> (konami: String)
    ensures
        konami@ == group_text(byte),
{
    let count_64: u8 = byte / 64;
    let count_16: u8 = (byte % 64) / 16;
    let count_4: u8 = (byte % 16) / 4;
    let count_1: u8 = byte % 4;
    let mut konami = String::new();
    konami.append(ones_str(count_1));
    konami.append(fours_str(count_4));
    konami.append(sixteens_str(count_16));
    konami.append(sixty_fours_str(count_64));
    konami.append("Start");
    proof {
        reveal_strlit("Start");
        assert("Start"@ =~= terminator());
        assert((byte as int % 64) % 16 == byte as int % 16);
        assert(((byte as int % 64) % 16) % 4 == byte as int % 4);
        assert(konami@ =~= group_text(byte));
    }
    konami
}

/// Encodes each byte in turn and joins the token groups with nothing between.
pub fn bytes_to_konami(bytes: Vec<u8>) -> (konami: String)
    ensures
        konami@ == groups_text(bytes@),
{
    let mut konami = String::new();
    let mut i: usize = 0;
    while i < bytes.len()
        invariant
            i <= bytes.len(),
            konami@ == groups_text(bytes@.take(i as int)),
        decreases bytes.len() - i,
    {
        let group = byte_to_konami(bytes[i]);
        konami.append(group.as_str());
        proof {
            assert(bytes@.take(i + 1).drop_last() =~= bytes@.take(i as int));
        }
        i += 1;
    }
    proof {
        assert(bytes@.take(i as int) =~= bytes@);
    }
    konami
}

/// Decodes a text of token groups into the bytes they stand for.
///
/// The text is read from the left. The first character that the parser
/// cannot take ends the call with an error that carries its index. A group that
/// the text leaves unfinished is dropped; with no complete group at all the
/// result is `Empty`.
pub fn konami_to_bytes(konami: String) -> (r: Result<Vec<u8>, KonamiParseError>)
    ensures
        match decode(konami@) {
            Ok(bytes) => r is Ok && r.unwrap()@ == bytes,
            Err(e) => r is Err && r.unwrap_err() == e,
        },
{
    broadcast use group_string_axioms;

    let text = konami.as_str();
    let total = text.unicode_len();
    let mut chars = text.chars();
    let mut bytes: Vec<u8> = Vec::new();
    let mut state = ParseState::Up(0);
    let mut i: usize = 0;
    loop
        invariant
            i <= total == konami@.len(),
            chars.obeys_prophetic_iter_laws(),
            chars.remaining() == konami@.skip(i as int),
            scan(konami@.take(i as int)) == Ok::<Progress, KonamiParseError>(
                Progress { state, bytes: bytes@ },
            ),
            state_wf(state),
        ensures
            i == total,
        decreases total - i,
    {
        match chars.next() {
            None => {
                break ;
            },
            Some(c) => {
                proof {
                    assert(konami@.skip(i as int).drop_first() =~= konami@.skip(i + 1));
                    lemma_scan_next(konami@, i as int);
                    lemma_step_keeps_wf(state, c);
                }
                match advance(state, c) {
                    Transition::Next(next) => {
                        state = next;
                    },
                    Transition::Emit(byte) => {
                        bytes.push(byte);
                        state = ParseState::Up(0);
                    },
                    Transition::TooMany => {
                        proof {
                            lemma_scan_error_stays(konami@, i + 1);
                        }
                        return Err(KonamiParseError::TooManyUpDown(i));
                    },
                    Transition::Unexpected => {
                        proof {
                            lemma_scan_error_stays(konami@, i + 1);
                        }
                        return Err(KonamiParseError::UexpectedCharacter(i, c));
                    },
                }
                i += 1;
            },
        }
    }
    proof {
        assert(konami@.take(i as int) =~= konami@);
    }
    if bytes.is_empty() {
        Err(KonamiParseError::Empty)
    } else {
        Ok(bytes)
    }
}

} // verus!
