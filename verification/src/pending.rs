//! The text of an unfinished group, state by state, and the two facts that tie
//! it to the parser: every state is reached by reading its text, and whatever
//! the parser has read is complete groups followed by the text of its state.

use vstd::prelude::*;

use crate::automaton::{run_digit, scan, state_wf, step, ParseState, Progress, Transition};
use crate::automaton::{lemma_scan_push, lemma_step_keeps_wf};
use crate::error::KonamiParseError;
use crate::grammar::{digits_text, fours_text, group_text, groups_text, low_text, mid_text};
use crate::grammar::{ones_text, sixteens_text, sixty_fours_text};

verus! {

/// `n` copies of the character `c`.
pub open spec fn run_text(c: char, n: int) -> Seq<char> {
    Seq::new(n as nat, |i: int| c)
}

/// The part of an unfinished group that the parser has read when it stands in
/// `st`.
pub open spec fn pending_text(st: ParseState) -> Seq<char> {
    match st {
        ParseState::Up(n) => run_text('^', n as int),
        ParseState::Down(v, m) => ones_text(v as int) + run_text('v', m as int),
        ParseState::L(v) => low_text(v as int) + seq!['<'],
        ParseState::R(v) => low_text(v as int) + seq!['>'],
        ParseState::LR(v) => low_text(v as int) + seq!['<', '>'],
        ParseState::LL(v) => low_text(v as int) + seq!['<', '<'],
        ParseState::RR(v) => low_text(v as int) + seq!['>', '>'],
        ParseState::LRL(v) => low_text(v as int) + seq!['<', '>', '<'],
        ParseState::LRLR(v) => low_text(v as int) + seq!['<', '>', '<', '>'],
        ParseState::B(v) => mid_text(v as int) + seq!['b'],
        ParseState::A(v) => mid_text(v as int) + seq!['a'],
        ParseState::BA(v) => mid_text(v as int) + seq!['b', 'a'],
        ParseState::BB(v) => mid_text(v as int) + seq!['b', 'b'],
        ParseState::AA(v) => mid_text(v as int) + seq!['a', 'a'],
        ParseState::AB(v) => mid_text(v as int) + seq!['a', 'b'],
        ParseState::S(v) => digits_text(v as int) + seq!['S'],
        ParseState::St(v) => digits_text(v as int) + seq!['S', 't'],
        ParseState::Sta(v) => digits_text(v as int) + seq!['S', 't', 'a'],
        ParseState::Star(v) => digits_text(v as int) + seq!['S', 't', 'a', 'r'],
    }
}

/// Appending a character to a joined text appends it to the second part.
pub proof fn lemma_push_suffix(base: Seq<char>, suffix: Seq<char>, c: char)
    ensures
        (base + suffix).push(c) == base + suffix.push(c),
{
    assert((base + suffix).push(c) =~= base + suffix.push(c));
}

proof fn lemma_push_one(base: Seq<char>, c: char)
    ensures
        base + seq![c] == base.push(c),
{
    assert(base + seq![c] =~= base.push(c));
}

proof fn lemma_run_texts(n: int)
    requires
        0 <= n < 4,
    ensures
        ones_text(run_digit(n)) == run_text('^', n),
        fours_text(run_digit(n)) == run_text('v', n),
{
    assert(ones_text(run_digit(n)) =~= run_text('^', n));
    assert(fours_text(run_digit(n)) =~= run_text('v', n));
}

proof fn lemma_step_text_up(n: u8, c: char)
    requires
        n < 4,
        c == '^' || c == 'v' || c == '<' || c == '>',
    ensures
        step(ParseState::Up(n), c) matches Transition::Next(next) && pending_text(next)
            == pending_text(ParseState::Up(n)).push(c),
{
    let d = run_digit(n as int);
    lemma_run_texts(n as int);
    let run = run_text('^', n as int);
    if c == '^' {
        assert(run_text('^', n + 1) =~= run.push(c));
    } else if c == 'v' {
        assert(run_text('v', 1) =~= seq!['v']);
        assert(run + seq!['v'] =~= run.push(c));
    } else {
        assert((d + 12) % 4 == d && (d + 12) / 4 == 3);
        assert(low_text(d + 12) =~= run);
        assert(run + seq![c] =~= run.push(c));
    }
}

proof fn lemma_step_text_down(v: u8, m: u8, c: char)
    requires
        v < 4,
        1 <= m < 4,
        c == 'v' || c == '<' || c == '>',
    ensures
        step(ParseState::Down(v, m), c) matches Transition::Next(next) && pending_text(next)
            == pending_text(ParseState::Down(v, m)).push(c),
{
    let d = run_digit(m as int);
    lemma_run_texts(m as int);
    let ones = ones_text(v as int);
    let run = run_text('v', m as int);
    lemma_push_suffix(ones, run, c);
    if c == 'v' {
        assert(run_text('v', m + 1) =~= run.push(c));
    } else {
        assert((v + 4 * d) % 4 == v && (v + 4 * d) / 4 == d);
        assert(low_text(v + 4 * d) + seq![c] =~= ones + run.push(c));
    }
}

proof fn lemma_mid_split(v: int, d: int)
    requires
        0 <= v < 16,
        0 <= d < 4,
    ensures
        mid_text(v + 16 * d) == low_text(v) + sixteens_text(d),
{
    assert((v + 16 * d) % 16 == v && (v + 16 * d) / 16 == d);
}

proof fn lemma_digits_split(v: int, d: int)
    requires
        0 <= v < 64,
        0 <= d < 4,
    ensures
        digits_text(v + 64 * d) == mid_text(v) + sixty_fours_text(d),
{
    assert((v + 64 * d) % 64 == v && (v + 64 * d) / 64 == d);
}

proof fn lemma_step_text_arrows(st: ParseState, c: char)
    requires
        state_wf(st),
        st is L || st is R || st is LR || st is LL || st is RR || st is LRL || st is LRLR,
        step(st, c) is Next,
    ensures
        pending_text(step(st, c)->Next_0) == pending_text(st).push(c),
{
    match st {
        ParseState::L(v) => {
            lemma_push_suffix(low_text(v as int), seq!['<'], c);
        },
        ParseState::R(v) => {
            lemma_push_suffix(low_text(v as int), seq!['>'], c);
        },
        ParseState::LRL(v) => {
            lemma_push_suffix(low_text(v as int), seq!['<', '>', '<'], c);
        },
        ParseState::LR(v) => {
            if c == '<' {
                lemma_push_suffix(low_text(v as int), seq!['<', '>'], c);
            } else {
                lemma_mid_split(v as int, 1);
                lemma_push_one(mid_text(v + 16), c);
            }
        },
        ParseState::LL(v) => {
            lemma_mid_split(v as int, 2);
            lemma_push_one(mid_text(v + 32), c);
        },
        ParseState::RR(v) => {
            lemma_mid_split(v as int, 3);
            lemma_push_one(mid_text(v + 48), c);
        },
        ParseState::LRLR(v) => {
            lemma_mid_split(v as int, 0);
            lemma_push_one(mid_text(v as int), c);
        },
        _ => {},
    }
}

proof fn lemma_step_text_buttons(st: ParseState, c: char)
    requires
        state_wf(st),
        st is B || st is A || st is BA || st is BB || st is AA || st is AB,
        step(st, c) is Next,
    ensures
        pending_text(step(st, c)->Next_0) == pending_text(st).push(c),
{
    match st {
        ParseState::B(v) => {
            lemma_push_suffix(mid_text(v as int), seq!['b'], c);
        },
        ParseState::A(v) => {
            lemma_push_suffix(mid_text(v as int), seq!['a'], c);
        },
        ParseState::BA(v) => {
            lemma_digits_split(v as int, 0);
            lemma_push_one(digits_text(v as int), c);
        },
        ParseState::BB(v) => {
            lemma_digits_split(v as int, 1);
            lemma_push_one(digits_text(v + 64), c);
        },
        ParseState::AA(v) => {
            lemma_digits_split(v as int, 2);
            lemma_push_one(digits_text(v + 128), c);
        },
        ParseState::AB(v) => {
            lemma_digits_split(v as int, 3);
            lemma_push_one(digits_text(v + 192), c);
        },
        _ => {},
    }
}

proof fn lemma_step_text_terminator(st: ParseState, c: char)
    requires
        st is S || st is St || st is Sta || st is Star,
    ensures
        match step(st, c) {
            Transition::Next(next) => pending_text(next) == pending_text(st).push(c),
            Transition::Emit(b) => group_text(b) == pending_text(st).push(c),
            _ => true,
        },
{
    match st {
        ParseState::S(v) => {
            lemma_push_suffix(digits_text(v as int), seq!['S'], c);
        },
        ParseState::St(v) => {
            lemma_push_suffix(digits_text(v as int), seq!['S', 't'], c);
        },
        ParseState::Sta(v) => {
            lemma_push_suffix(digits_text(v as int), seq!['S', 't', 'a'], c);
        },
        ParseState::Star(v) => {
            lemma_push_suffix(digits_text(v as int), seq!['S', 't', 'a', 'r'], c);
        },
        _ => {},
    }
}

/// A step that the parser takes adds its character to the pending text, and
/// the step that completes a group has read exactly the group of the byte it
/// gives out.
pub proof fn lemma_step_text(st: ParseState, c: char)
    requires
        state_wf(st),
    ensures
        match step(st, c) {
            Transition::Next(next) => pending_text(next) == pending_text(st).push(c),
            Transition::Emit(b) => group_text(b) == pending_text(st).push(c),
            _ => true,
        },
{
    match st {
        ParseState::Up(n) => {
            if step(st, c) is Next {
                lemma_step_text_up(n, c);
            }
        },
        ParseState::Down(v, m) => {
            if step(st, c) is Next {
                lemma_step_text_down(v, m, c);
            }
        },
        ParseState::L(_) | ParseState::R(_) | ParseState::LR(_) | ParseState::LL(_)
        | ParseState::RR(_) | ParseState::LRL(_) | ParseState::LRLR(_) => {
            if step(st, c) is Next {
                lemma_step_text_arrows(st, c);
            }
        },
        ParseState::B(_) | ParseState::A(_) | ParseState::BA(_) | ParseState::BB(_)
        | ParseState::AA(_) | ParseState::AB(_) => {
            if step(st, c) is Next {
                lemma_step_text_buttons(st, c);
            }
        },
        _ => {
            lemma_step_text_terminator(st, c);
        },
    }
}

/// How many up or down tokens stand for the digit `d`.
pub open spec fn run_length(d: int) -> int {
    if d == 0 {
        2
    } else if d == 1 {
        3
    } else if d == 2 {
        1
    } else {
        0
    }
}

/// How far into a group the parser is when it stands in `st`, as a number that
/// grows with every step inside a group.
pub open spec fn depth(st: ParseState) -> nat {
    match st {
        ParseState::Up(n) => n as nat,
        ParseState::Down(_, m) => 4 + m as nat,
        ParseState::L(_) | ParseState::R(_) => 9,
        ParseState::LR(_) | ParseState::LL(_) | ParseState::RR(_) => 10,
        ParseState::LRL(_) => 11,
        ParseState::LRLR(_) => 12,
        ParseState::B(_) | ParseState::A(_) => 13,
        ParseState::BA(_) | ParseState::BB(_) | ParseState::AA(_) | ParseState::AB(_) => 14,
        ParseState::S(_) => 15,
        ParseState::St(_) => 16,
        ParseState::Sta(_) => 17,
        ParseState::Star(_) => 18,
    }
}

/// The state from which the parser steps into `st`, and the character that
/// takes it there. Meant for a state that satisfies `state_wf` and is not the
/// initial one.
pub open spec fn step_before(st: ParseState) -> (ParseState, char) {
    match st {
        ParseState::Up(n) => (ParseState::Up((n - 1) as u8), '^'),
        ParseState::Down(v, m) => if m == 1 {
            (ParseState::Up(run_length(v as int) as u8), 'v')
        } else {
            (ParseState::Down(v, (m - 1) as u8), 'v')
        },
        ParseState::L(v) => (before_arrows(v as int), '<'),
        ParseState::R(v) => (before_arrows(v as int), '>'),
        ParseState::LR(v) => (ParseState::L(v), '>'),
        ParseState::LL(v) => (ParseState::L(v), '<'),
        ParseState::RR(v) => (ParseState::R(v), '>'),
        ParseState::LRL(v) => (ParseState::LR(v), '<'),
        ParseState::LRLR(v) => (ParseState::LRL(v), '>'),
        ParseState::B(v) => (before_buttons(v as int), 'b'),
        ParseState::A(v) => (before_buttons(v as int), 'a'),
        ParseState::BA(v) => (ParseState::B(v), 'a'),
        ParseState::BB(v) => (ParseState::B(v), 'b'),
        ParseState::AA(v) => (ParseState::A(v), 'a'),
        ParseState::AB(v) => (ParseState::A(v), 'b'),
        ParseState::S(v) => (
            if v / 64 == 0 {
                ParseState::BA(v)
            } else if v / 64 == 1 {
                ParseState::BB((v - 64) as u8)
            } else if v / 64 == 2 {
                ParseState::AA((v - 128) as u8)
            } else {
                ParseState::AB((v - 192) as u8)
            },
            'S',
        ),
        ParseState::St(v) => (ParseState::S(v), 't'),
        ParseState::Sta(v) => (ParseState::St(v), 'a'),
        ParseState::Star(v) => (ParseState::Sta(v), 'r'),
    }
}

/// The state in which the two low digits of `v` have been read.
pub open spec fn before_arrows(v: int) -> ParseState {
    if v / 4 == 3 {
        ParseState::Up(run_length(v % 4) as u8)
    } else {
        ParseState::Down((v % 4) as u8, run_length(v / 4) as u8)
    }
}

/// The state in which the three low digits of `v` have been read.
pub open spec fn before_buttons(v: int) -> ParseState {
    if v / 16 == 0 {
        ParseState::LRLR(v as u8)
    } else if v / 16 == 1 {
        ParseState::LR((v - 16) as u8)
    } else if v / 16 == 2 {
        ParseState::LL((v - 32) as u8)
    } else {
        ParseState::RR((v - 48) as u8)
    }
}

/// Every state within the bounds, but the initial one, is one step after
/// another state within the bounds that lies less deep in the group.
pub proof fn lemma_step_before(st: ParseState)
    requires
        state_wf(st),
        st != ParseState::Up(0),
    ensures
        state_wf(step_before(st).0),
        depth(step_before(st).0) < depth(st),
        step(step_before(st).0, step_before(st).1) == Transition::Next(st),
{
}

/// Every state within the bounds is reached: the parser, standing in its
/// initial state, reads the pending text of the state and then stands in it,
/// with nothing added to the output.
pub proof fn lemma_scan_pending(prefix: Seq<char>, out: Seq<u8>, st: ParseState)
    requires
        scan(prefix) == Ok::<_, KonamiParseError>(
            Progress { state: ParseState::Up(0), bytes: out },
        ),
        state_wf(st),
    ensures
        scan(prefix + pending_text(st)) == Ok::<_, KonamiParseError>(
            Progress { state: st, bytes: out },
        ),
    decreases depth(st),
{
    if st == ParseState::Up(0) {
        assert(prefix + pending_text(st) =~= prefix);
    } else {
        let (before, c) = step_before(st);
        lemma_step_before(st);
        lemma_scan_pending(prefix, out, before);
        lemma_step_text(before, c);
        lemma_scan_push(prefix + pending_text(before), c);
        lemma_push_suffix(prefix, pending_text(before), c);
    }
}

/// Whatever the parser reads without error is the token groups of the bytes it
/// has given out, followed by the pending text of the state it stands in.
pub proof fn lemma_scan_shape(text: Seq<char>)
    requires
        scan(text) is Ok,
    ensures
        state_wf(scan(text).unwrap().state),
        text == groups_text(scan(text).unwrap().bytes) + pending_text(scan(text).unwrap().state),
    decreases text.len(),
{
    let end = scan(text).unwrap();
    if text.len() == 0 {
        assert(text =~= groups_text(end.bytes) + pending_text(end.state));
    } else {
        let head = text.drop_last();
        let c = text.last();
        lemma_scan_shape(head);
        let before = scan(head).unwrap();
        lemma_step_keeps_wf(before.state, c);
        lemma_step_text(before.state, c);
        assert(text =~= head.push(c));
        match step(before.state, c) {
            Transition::Next(next) => {
                assert(text =~= groups_text(before.bytes) + pending_text(before.state).push(c));
            },
            Transition::Emit(b) => {
                assert(end.bytes.drop_last() =~= before.bytes);
                assert(pending_text(ParseState::Up(0)) =~= Seq::<char>::empty());
                assert(text =~= groups_text(before.bytes) + group_text(b) + Seq::<char>::empty());
            },
            _ => {},
        }
    }
}

} // verus!
