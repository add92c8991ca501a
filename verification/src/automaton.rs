//! The parser as a finite automaton: its states, its transition function, and
//! what running it over a text gives.

use vstd::prelude::*;

use crate::error::KonamiParseError;

verus! {

/// Where the parser stands inside the token group it is reading. Every variant
/// but the first two carries the value accumulated so far.
#[derive(Debug, Clone, Copy, PartialEq, Eq, Structural)]
pub enum ParseState {
    /// Counting up tokens; the field is how many were seen.
    Up(u8),
    /// Counting down tokens; the fields are the value so far and how many down
    /// tokens were seen.
    Down(u8, u8),
    L(u8),
    R(u8),
    LR(u8),
    LL(u8),
    RR(u8),
    LRL(u8),
    LRLR(u8),
    B(u8),
    A(u8),
    BA(u8),
    BB(u8),
    AA(u8),
    AB(u8),
    S(u8),
    St(u8),
    Sta(u8),
    Star(u8),
}

/// What one character does to the parser.
#[derive(Debug, Clone, Copy, PartialEq, Eq, Structural)]
pub enum Transition {
    /// The group goes on in the given state.
    Next(ParseState),
    /// The group is complete and stands for the given byte.
    Emit(u8),
    /// The character follows a run of four up or down tokens.
    TooMany,
    /// The character has no transition from the state.
    Unexpected,
}

/// The digit that a run of `n` up or down tokens stands for, for `n < 4`.
pub open spec fn run_digit(n: int) -> int {
    if n == 0 {
        3
    } else if n == 1 {
        2
    } else if n == 2 {
        0
    } else {
        1
    }
}

/// The bounds that hold of every state the parser can reach: the counters are
/// at most 4, and the accumulated value is below the place value of the digit
/// being read.
pub open spec fn state_wf(st: ParseState) -> bool {
    match st {
        ParseState::Up(n) => n <= 4,
        ParseState::Down(v, m) => v < 4 && 1 <= m <= 4,
        ParseState::L(v) | ParseState::R(v) | ParseState::LR(v) | ParseState::LL(v)
        | ParseState::RR(v) | ParseState::LRL(v) | ParseState::LRLR(v) => v < 16,
        ParseState::B(v) | ParseState::A(v) | ParseState::BA(v) | ParseState::BB(v)
        | ParseState::AA(v) | ParseState::AB(v) => v < 64,
        ParseState::S(_) | ParseState::St(_) | ParseState::Sta(_) | ParseState::Star(_) => true,
    }
}

/// The transition function of the parser.
pub open spec fn step(st: ParseState, c: char) -> Transition {
    match st {
        ParseState::Up(n) => if n >= 4 {
            Transition::TooMany
        } else if c == '^' {
            Transition::Next(ParseState::Up((n + 1) as u8))
        } else if c == 'v' {
            Transition::Next(ParseState::Down(run_digit(n as int) as u8, 1))
        } else if c == '<' {
            Transition::Next(ParseState::L((run_digit(n as int) + 12) as u8))
        } else if c == '>' {
            Transition::Next(ParseState::R((run_digit(n as int) + 12) as u8))
        } else {
            Transition::Unexpected
        },
        ParseState::Down(v, m) => if m >= 4 {
            Transition::TooMany
        } else if c == 'v' {
            Transition::Next(ParseState::Down(v, (m + 1) as u8))
        } else if c == '<' {
            Transition::Next(ParseState::L((v + 4 * run_digit(m as int)) as u8))
        } else if c == '>' {
            Transition::Next(ParseState::R((v + 4 * run_digit(m as int)) as u8))
        } else {
            Transition::Unexpected
        },
        ParseState::L(v) => if c == '>' {
            Transition::Next(ParseState::LR(v))
        } else if c == '<' {
            Transition::Next(ParseState::LL(v))
        } else {
            Transition::Unexpected
        },
        ParseState::R(v) => if c == '>' {
            Transition::Next(ParseState::RR(v))
        } else {
            Transition::Unexpected
        },
        ParseState::LR(v) => if c == '<' {
            Transition::Next(ParseState::LRL(v))
        } else if c == 'b' {
            Transition::Next(ParseState::B((v + 16) as u8))
        } else if c == 'a' {
            Transition::Next(ParseState::A((v + 16) as u8))
        } else {
            Transition::Unexpected
        },
        ParseState::LL(v) => if c == 'b' {
            Transition::Next(ParseState::B((v + 32) as u8))
        } else if c == 'a' {
            Transition::Next(ParseState::A((v + 32) as u8))
        } else {
            Transition::Unexpected
        },
        ParseState::RR(v) => if c == 'b' {
            Transition::Next(ParseState::B((v + 48) as u8))
        } else if c == 'a' {
            Transition::Next(ParseState::A((v + 48) as u8))
        } else {
            Transition::Unexpected
        },
        ParseState::LRL(v) => if c == '>' {
            Transition::Next(ParseState::LRLR(v))
        } else {
            Transition::Unexpected
        },
        ParseState::LRLR(v) => if c == 'b' {
            Transition::Next(ParseState::B(v))
        } else if c == 'a' {
            Transition::Next(ParseState::A(v))
        } else {
            Transition::Unexpected
        },
        ParseState::B(v) => if c == 'a' {
            Transition::Next(ParseState::BA(v))
        } else if c == 'b' {
            Transition::Next(ParseState::BB(v))
        } else {
            Transition::Unexpected
        },
        ParseState::A(v) => if c == 'a' {
            Transition::Next(ParseState::AA(v))
        } else if c == 'b' {
            Transition::Next(ParseState::AB(v))
        } else {
            Transition::Unexpected
        },
        ParseState::BA(v) => if c == 'S' {
            Transition::Next(ParseState::S(v))
        } else {
            Transition::Unexpected
        },
        ParseState::BB(v) => if c == 'S' {
            Transition::Next(ParseState::S((v + 64) as u8))
        } else {
            Transition::Unexpected
        },
        ParseState::AA(v) => if c == 'S' {
            Transition::Next(ParseState::S((v + 128) as u8))
        } else {
            Transition::Unexpected
        },
        ParseState::AB(v) => if c == 'S' {
            Transition::Next(ParseState::S((v + 192) as u8))
        } else {
            Transition::Unexpected
        },
        ParseState::S(v) => if c == 't' {
            Transition::Next(ParseState::St(v))
        } else {
            Transition::Unexpected
        },
        ParseState::St(v) => if c == 'a' {
            Transition::Next(ParseState::Sta(v))
        } else {
            Transition::Unexpected
        },
        ParseState::Sta(v) => if c == 'r' {
            Transition::Next(ParseState::Star(v))
        } else {
            Transition::Unexpected
        },
        ParseState::Star(v) => if c == 't' {
            Transition::Emit(v)
        } else {
            Transition::Unexpected
        },
    }
}

/// A step from a reachable state leads to a reachable state.
pub proof fn lemma_step_keeps_wf(st: ParseState, c: char)
    requires
        state_wf(st),
    ensures
        match step(st, c) {
            Transition::Next(next) => state_wf(next),
            _ => true,
        },
{
}

/// The digit for a run of `n` tokens, or `None` once the run is too long.
fn digit_of_run(n: u8) -> (r: Option<u8>)
    ensures
        n < 4 ==> r == Some(run_digit(n as int) as u8),
        n >= 4 ==> r is None,
{
    match n {
        0 => Some(3),
        1 => Some(2),
        2 => Some(0),
        3 => Some(1),
        _ => None,
    }
}

/// Feeds one character to the parser.
pub fn advance(st: ParseState, c: char) -> (t: Transition)
    requires
        state_wf(st),
    ensures
        t == step(st, c),
{
    match st {
        ParseState::Up(up_count) => {
            match digit_of_run(up_count) {
                None => Transition::TooMany,
                Some(up_value) => match c {
                    '^' => Transition::Next(ParseState::Up(up_count + 1)),
                    'v' => Transition::Next(ParseState::Down(up_value, 1)),
                    '<' => Transition::Next(ParseState::L(up_value + 12)),
                    '>' => Transition::Next(ParseState::R(up_value + 12)),
                    _ => Transition::Unexpected,
                },
            }
        },
        ParseState::Down(value, down_count) => {
            match digit_of_run(down_count) {
                None => Transition::TooMany,
                Some(digit) => {
                    let down_value: u8 = digit * 4;
                    match c {
                        'v' => Transition::Next(ParseState::Down(value, down_count + 1)),
                        '<' => Transition::Next(ParseState::L(value + down_value)),
                        '>' => Transition::Next(ParseState::R(value + down_value)),
                        _ => Transition::Unexpected,
                    }
                },
            }
        },
        ParseState::L(value) => match c {
            '>' => Transition::Next(ParseState::LR(value)),
            '<' => Transition::Next(ParseState::LL(value)),
            _ => Transition::Unexpected,
        },
        ParseState::R(value) => match c {
            '>' => Transition::Next(ParseState::RR(value)),
            _ => Transition::Unexpected,
        },
        ParseState::LR(value) => match c {
            '<' => Transition::Next(ParseState::LRL(value)),
            'b' => Transition::Next(ParseState::B(value + 16)),
            'a' => Transition::Next(ParseState::A(value + 16)),
            _ => Transition::Unexpected,
        },
        ParseState::LL(value) => match c {
            'b' => Transition::Next(ParseState::B(value + 32)),
            'a' => Transition::Next(ParseState::A(value + 32)),
            _ => Transition::Unexpected,
        },
        ParseState::RR(value) => match c {
            'b' => Transition::Next(ParseState::B(value + 48)),
            'a' => Transition::Next(ParseState::A(value + 48)),
            _ => Transition::Unexpected,
        },
        ParseState::LRL(value) => match c {
            '>' => Transition::Next(ParseState::LRLR(value)),
            _ => Transition::Unexpected,
        },
        ParseState::LRLR(value) => match c {
            'b' => Transition::Next(ParseState::B(value)),
            'a' => Transition::Next(ParseState::A(value)),
            _ => Transition::Unexpected,
        },
        ParseState::B(value) => match c {
            'a' => Transition::Next(ParseState::BA(value)),
            'b' => Transition::Next(ParseState::BB(value)),
            _ => Transition::Unexpected,
        },
        ParseState::A(value) => match c {
            'a' => Transition::Next(ParseState::AA(value)),
            'b' => Transition::Next(ParseState::AB(value)),
            _ => Transition::Unexpected,
        },
        ParseState::BA(value) => match c {
            'S' => Transition::Next(ParseState::S(value)),
            _ => Transition::Unexpected,
        },
        ParseState::BB(value) => match c {
            'S' => Transition::Next(ParseState::S(value + 64)),
            _ => Transition::Unexpected,
        },
        ParseState::AA(value) => match c {
            'S' => Transition::Next(ParseState::S(value + 128)),
            _ => Transition::Unexpected,
        },
        ParseState::AB(value) => match c {
            'S' => Transition::Next(ParseState::S(value + 192)),
            _ => Transition::Unexpected,
        },
        ParseState::S(value) => match c {
            't' => Transition::Next(ParseState::St(value)),
            _ => Transition::Unexpected,
        },
        ParseState::St(value) => match c {
            'a' => Transition::Next(ParseState::Sta(value)),
            _ => Transition::Unexpected,
        },
        ParseState::Sta(value) => match c {
            'r' => Transition::Next(ParseState::Star(value)),
            _ => Transition::Unexpected,
        },
        ParseState::Star(value) => match c {
            't' => Transition::Emit(value),
            _ => Transition::Unexpected,
        },
    }
}

/// The parser after reading a text: the state it is in and the bytes of the
/// groups it has completed.
pub struct Progress {
    pub state: ParseState,
    pub bytes: Seq<u8>,
}

/// Runs the parser from its initial state over the whole of `text`. The result
/// is the first error met, or else where the parser stands at the end.
pub open spec fn scan(text: Seq<char>) -> Result<Progress, KonamiParseError>
    decreases text.len(),
{
    if text.len() == 0 {
        Ok(Progress { state: ParseState::Up(0), bytes: Seq::empty() })
    } else {
        match scan(text.drop_last()) {
            Err(e) => Err(e),
            Ok(before) => feed(before, text.len() - 1, text.last()),
        }
    }
}

/// One character, standing at `index`, read after `before`.
pub open spec fn feed(before: Progress, index: int, c: char) -> Result<
    Progress,
    KonamiParseError,
> {
    match step(before.state, c) {
        Transition::Next(next) => Ok(Progress { state: next, bytes: before.bytes }),
        Transition::Emit(b) => Ok(
            Progress { state: ParseState::Up(0), bytes: before.bytes.push(b) },
        ),
        Transition::TooMany => Err(KonamiParseError::TooManyUpDown(index as usize)),
        Transition::Unexpected => Err(KonamiParseError::UexpectedCharacter(index as usize, c)),
    }
}

/// What decoding `text` gives: the first error the parser meets; else the bytes
/// of the complete groups, where there is at least one. A group left unfinished
/// at the end of the text is ignored.
pub open spec fn decode(text: Seq<char>) -> Result<Seq<u8>, KonamiParseError> {
    match scan(text) {
        Err(e) => Err(e),
        Ok(end) => if end.bytes.len() == 0 {
            Err(KonamiParseError::Empty)
        } else {
            Ok(end.bytes)
        },
    }
}

/// Reading a text and then one more character is one step from where the text
/// ended.
pub proof fn lemma_scan_push(text: Seq<char>, c: char)
    ensures
        scan(text.push(c)) == match scan(text) {
            Err(e) => Err(e),
            Ok(before) => feed(before, text.len() as int, c),
        },
{
    assert(text.push(c).drop_last() =~= text);
}

/// Reading one more character continues from where the shorter text ended.
pub proof fn lemma_scan_next(text: Seq<char>, i: int)
    requires
        0 <= i < text.len(),
    ensures
        scan(text.take(i + 1)) == match scan(text.take(i)) {
            Err(e) => Err(e),
            Ok(before) => feed(before, i, text[i]),
        },
{
    assert(text.take(i + 1).drop_last() =~= text.take(i));
}

/// An error met in a prefix of a text is the outcome for the whole text.
pub proof fn lemma_scan_error_stays(text: Seq<char>, k: int)
    requires
        0 <= k <= text.len(),
        scan(text.take(k)) is Err,
    ensures
        scan(text) == scan(text.take(k)),
    decreases text.len(),
{
    if k == text.len() {
        assert(text.take(k) =~= text);
    } else {
        assert(text.drop_last().take(k) =~= text.take(k));
        lemma_scan_error_stays(text.drop_last(), k);
    }
}

} // verus!
