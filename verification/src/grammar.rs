//! The token grammar: the text of each base-4 digit, of a byte's token group,
//! and of a sequence of bytes.

use vstd::prelude::*;

verus! {

/// Text of the lowest base-4 digit (place value 1).
pub open spec fn ones_text(d: int) -> Seq<char> {
    if d == 0 {
        seq!['^', '^']
    } else if d == 1 {
        seq!['^', '^', '^']
    } else if d == 2 {
        seq!['^']
    } else {
        Seq::empty()
    }
}

/// Text of the second base-4 digit (place value 4).
pub open spec fn fours_text(d: int) -> Seq<char> {
    if d == 0 {
        seq!['v', 'v']
    } else if d == 1 {
        seq!['v', 'v', 'v']
    } else if d == 2 {
        seq!['v']
    } else {
        Seq::empty()
    }
}

/// Text of the third base-4 digit (place value 16).
pub open spec fn sixteens_text(d: int) -> Seq<char> {
    if d == 0 {
        seq!['<', '>', '<', '>']
    } else if d == 1 {
        seq!['<', '>']
    } else if d == 2 {
        seq!['<', '<']
    } else {
        seq!['>', '>']
    }
}

/// Text of the highest base-4 digit (place value 64).
pub open spec fn sixty_fours_text(d: int) -> Seq<char> {
    if d == 0 {
        seq!['b', 'a']
    } else if d == 1 {
        seq!['b', 'b']
    } else if d == 2 {
        seq!['a', 'a']
    } else {
        seq!['a', 'b']
    }
}

/// The text that closes every token group.
pub open spec fn terminator() -> Seq<char> {
    seq!['S', 't', 'a', 'r', 't']
}

/// The two low digits of `v`, lowest first. Meant for `0 <= v < 16`.
pub open spec fn low_text(v: int) -> Seq<char> {
    ones_text(v % 4) + fours_text(v / 4)
}

/// The three low digits of `v`, lowest first. Meant for `0 <= v < 64`.
pub open spec fn mid_text(v: int) -> Seq<char> {
    low_text(v % 16) + sixteens_text(v / 16)
}

/// All four digits of `v`, lowest first. Meant for `0 <= v < 256`.
pub open spec fn digits_text(v: int) -> Seq<char> {
    mid_text(v % 64) + sixty_fours_text(v / 64)
}

/// The token group of one byte: its four digits, lowest first, then the
/// terminator.
pub open spec fn group_text(b: u8) -> Seq<char> {
    digits_text(b as int) + terminator()
}

/// The token groups of a byte sequence, one after another with nothing between.
pub open spec fn groups_text(bytes: Seq<u8>) -> Seq<char>
    decreases bytes.len(),
{
    if bytes.len() == 0 {
        Seq::empty()
    } else {
        groups_text(bytes.drop_last()) + group_text(bytes.last())
    }
}

} // verus!
