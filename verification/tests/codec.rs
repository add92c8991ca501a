use konami_cipher::automaton::{advance, ParseState, Transition};
use konami_cipher::{byte_to_konami, bytes_to_konami, konami_to_bytes, KonamiParseError};

#[test]
fn konami_to_bytes_1_0() {
    assert!(vec!(0).eq(&konami_to_bytes("^^vv<><>baStart".to_string()).unwrap()));
}

#[test]
fn konami_to_bytes_2_0() {
    assert!(vec!(0, 0).eq(&konami_to_bytes("^^vv<><>baStart^^vv<><>baStart".to_string()).unwrap()));
}

#[test]
fn konami_to_bytes_noup() {
    assert!(vec!(3).eq(&konami_to_bytes("vv<><>baStart".to_string()).unwrap()));
}

#[test]
fn konami_to_bytes_nodown() {
    assert!(vec!(12).eq(&konami_to_bytes("^^<><>baStart".to_string()).unwrap()));
}

#[test]
fn konami_to_bytes_noupdown() {
    assert!(vec!(15).eq(&konami_to_bytes("<><>baStart".to_string()).unwrap()));
}

#[test]
fn konami_to_bytes_255_0() {
    assert!(vec!(255).eq(&konami_to_bytes(">>abStart".to_string()).unwrap()));
}

#[test]
fn bytes_to_konami_0() {
    let konami = bytes_to_konami(vec!(0));
    println!("{}", konami);
    assert!(konami.eq("^^vv<><>baStart"));
}

#[test]
fn bytes_to_konami_255() {
    let konami = bytes_to_konami(vec!(255));
    println!("{}", konami);
    assert!(konami.eq(">>abStart"));
}

#[test]
fn konami_to_bytes_bytes_to_konami() {
    for i in 0..=255 {
        let bytes = vec!(i);
        println!("Offsets: {:?}", bytes);
        let calculated_konami = bytes_to_konami(bytes.clone());
        let calculated_bytes = konami_to_bytes(calculated_konami.clone()).unwrap();
        println!("calculated_konami: {}\ncalculated bytes: {:?}", calculated_konami, calculated_bytes);
        assert!(bytes.eq(&calculated_bytes));
    }
}

#[test]
fn byte_to_konami_exact_groups() {
    assert_eq!(byte_to_konami(0), "^^vv<><>baStart");
    assert_eq!(byte_to_konami(255), ">>abStart");
    assert_eq!(byte_to_konami(1), "^^^vv<><>baStart");
    assert_eq!(byte_to_konami(2), "^vv<><>baStart");
    assert_eq!(byte_to_konami(4), "^^vvv<><>baStart");
    assert_eq!(byte_to_konami(8), "^^v<><>baStart");
    assert_eq!(byte_to_konami(16), "^^vv<>baStart");
    assert_eq!(byte_to_konami(32), "^^vv<<baStart");
    assert_eq!(byte_to_konami(48), "^^vv>>baStart");
    assert_eq!(byte_to_konami(64), "^^vv<><>bbStart");
    assert_eq!(byte_to_konami(128), "^^vv<><>aaStart");
    assert_eq!(byte_to_konami(192), "^^vv<><>abStart");
    assert_eq!(byte_to_konami(27), "v<>baStart");
    assert_eq!(byte_to_konami(65), "^^^vv<><>bbStart");
}

#[test]
fn byte_round_trip_every_byte() {
    for b in 0..=255u8 {
        assert_eq!(konami_to_bytes(byte_to_konami(b)), Ok(vec![b]));
    }
}

#[test]
fn two_groups_decode_in_order() {
    for b1 in [0u8, 1, 3, 12, 15, 27, 64, 127, 128, 200, 255] {
        for b2 in 0..=255u8 {
            let text = format!("{}{}", byte_to_konami(b1), byte_to_konami(b2));
            assert_eq!(konami_to_bytes(text), Ok(vec![b1, b2]));
        }
    }
}

#[test]
fn distinct_bytes_have_distinct_groups() {
    for b1 in 0..=255u8 {
        for b2 in 0..b1 {
            assert_ne!(byte_to_konami(b1), byte_to_konami(b2));
        }
    }
}

#[test]
fn bytes_to_konami_joins_groups() {
    assert_eq!(bytes_to_konami(vec![]), "");
    assert_eq!(bytes_to_konami(vec![0, 255, 27]), "^^vv<><>baStart>>abStartv<>baStart");
    assert_eq!(
        konami_to_bytes("^^vv<><>baStart>>abStartv<>baStart".to_string()),
        Ok(vec![0, 255, 27])
    );
}

#[test]
fn decoded_text_encodes_back() {
    let text = "vv<><>baStart^^<<abStart>>aaStart".to_string();
    let bytes = konami_to_bytes(text.clone()).unwrap();
    assert_eq!(bytes_to_konami(bytes), text);
}

#[test]
fn empty_text_is_empty_error() {
    assert_eq!(konami_to_bytes(String::new()), Err(KonamiParseError::Empty));
}

#[test]
fn unfinished_group_alone_is_empty_error() {
    assert_eq!(konami_to_bytes("^^vv".to_string()), Err(KonamiParseError::Empty));
    assert_eq!(konami_to_bytes("^^vv<><>baStar".to_string()), Err(KonamiParseError::Empty));
    assert_eq!(konami_to_bytes("^^^^".to_string()), Err(KonamiParseError::Empty));
    assert_eq!(konami_to_bytes("vvvv".to_string()), Err(KonamiParseError::Empty));
}

#[test]
fn unfinished_group_after_a_complete_one_is_dropped() {
    assert_eq!(konami_to_bytes("^^vv<><>baStart^^v".to_string()), Ok(vec![0]));
    assert_eq!(konami_to_bytes(">>abStart>>abStar".to_string()), Ok(vec![255]));
    assert_eq!(konami_to_bytes(">>abStart^^^^".to_string()), Ok(vec![255]));
}

#[test]
fn four_up_tokens_fail_at_the_next_character() {
    assert_eq!(
        konami_to_bytes("^^^^<><>baStart".to_string()),
        Err(KonamiParseError::TooManyUpDown(4))
    );
    assert_eq!(konami_to_bytes("^^^^^".to_string()), Err(KonamiParseError::TooManyUpDown(4)));
    assert_eq!(konami_to_bytes("^^^^x".to_string()), Err(KonamiParseError::TooManyUpDown(4)));
}

#[test]
fn four_down_tokens_fail_at_the_next_character() {
    assert_eq!(
        konami_to_bytes("^^vvvv<><>baStart".to_string()),
        Err(KonamiParseError::TooManyUpDown(6))
    );
    assert_eq!(
        konami_to_bytes(">>abStartvvvvv".to_string()),
        Err(KonamiParseError::TooManyUpDown(13))
    );
}

#[test]
fn unexpected_character_carries_index_and_character() {
    assert_eq!(
        konami_to_bytes("x".to_string()),
        Err(KonamiParseError::UexpectedCharacter(0, 'x'))
    );
    assert_eq!(
        konami_to_bytes("^^x".to_string()),
        Err(KonamiParseError::UexpectedCharacter(2, 'x'))
    );
    assert_eq!(
        konami_to_bytes("^^vv^".to_string()),
        Err(KonamiParseError::UexpectedCharacter(4, '^'))
    );
    assert_eq!(
        konami_to_bytes("^^vv><".to_string()),
        Err(KonamiParseError::UexpectedCharacter(5, '<'))
    );
    assert_eq!(
        konami_to_bytes("^^vv<><>baStarT".to_string()),
        Err(KonamiParseError::UexpectedCharacter(14, 'T'))
    );
    assert_eq!(
        konami_to_bytes("^^vv<><>baStart ^^vv<><>baStart".to_string()),
        Err(KonamiParseError::UexpectedCharacter(15, ' '))
    );
    assert_eq!(
        konami_to_bytes("^^vv<><>bastart".to_string()),
        Err(KonamiParseError::UexpectedCharacter(10, 's'))
    );
}

#[test]
fn index_counts_characters_not_bytes() {
    assert_eq!(
        konami_to_bytes("^^vv<><>baStart\u{e9}".to_string()),
        Err(KonamiParseError::UexpectedCharacter(15, '\u{e9}'))
    );
    assert_eq!(
        konami_to_bytes("^\u{4e16}v\u{e9}".to_string()),
        Err(KonamiParseError::UexpectedCharacter(1, '\u{4e16}'))
    );
}

#[test]
fn advance_follows_the_transition_table() {
    assert_eq!(advance(ParseState::Up(0), '^'), Transition::Next(ParseState::Up(1)));
    assert_eq!(advance(ParseState::Up(3), '^'), Transition::Next(ParseState::Up(4)));
    assert_eq!(advance(ParseState::Up(4), '^'), Transition::TooMany);
    assert_eq!(advance(ParseState::Up(4), 'q'), Transition::TooMany);
    assert_eq!(advance(ParseState::Up(0), 'v'), Transition::Next(ParseState::Down(3, 1)));
    assert_eq!(advance(ParseState::Up(1), 'v'), Transition::Next(ParseState::Down(2, 1)));
    assert_eq!(advance(ParseState::Up(2), '<'), Transition::Next(ParseState::L(12)));
    assert_eq!(advance(ParseState::Up(3), '>'), Transition::Next(ParseState::R(13)));
    assert_eq!(advance(ParseState::Down(3, 1), '<'), Transition::Next(ParseState::L(11)));
    assert_eq!(advance(ParseState::Down(3, 2), '<'), Transition::Next(ParseState::L(3)));
    assert_eq!(advance(ParseState::Down(3, 3), '>'), Transition::Next(ParseState::R(7)));
    assert_eq!(advance(ParseState::Down(3, 4), 'v'), Transition::TooMany);
    assert_eq!(advance(ParseState::L(5), '>'), Transition::Next(ParseState::LR(5)));
    assert_eq!(advance(ParseState::L(5), '<'), Transition::Next(ParseState::LL(5)));
    assert_eq!(advance(ParseState::R(5), '>'), Transition::Next(ParseState::RR(5)));
    assert_eq!(advance(ParseState::R(5), '<'), Transition::Unexpected);
    assert_eq!(advance(ParseState::LR(5), '<'), Transition::Next(ParseState::LRL(5)));
    assert_eq!(advance(ParseState::LR(5), 'b'), Transition::Next(ParseState::B(21)));
    assert_eq!(advance(ParseState::LL(5), 'a'), Transition::Next(ParseState::A(37)));
    assert_eq!(advance(ParseState::RR(5), 'b'), Transition::Next(ParseState::B(53)));
    assert_eq!(advance(ParseState::LRL(5), '>'), Transition::Next(ParseState::LRLR(5)));
    assert_eq!(advance(ParseState::LRLR(5), 'a'), Transition::Next(ParseState::A(5)));
    assert_eq!(advance(ParseState::B(5), 'a'), Transition::Next(ParseState::BA(5)));
    assert_eq!(advance(ParseState::B(5), 'b'), Transition::Next(ParseState::BB(5)));
    assert_eq!(advance(ParseState::A(5), 'a'), Transition::Next(ParseState::AA(5)));
    assert_eq!(advance(ParseState::A(5), 'b'), Transition::Next(ParseState::AB(5)));
    assert_eq!(advance(ParseState::BA(5), 'S'), Transition::Next(ParseState::S(5)));
    assert_eq!(advance(ParseState::BB(5), 'S'), Transition::Next(ParseState::S(69)));
    assert_eq!(advance(ParseState::AA(5), 'S'), Transition::Next(ParseState::S(133)));
    assert_eq!(advance(ParseState::AB(63), 'S'), Transition::Next(ParseState::S(255)));
    assert_eq!(advance(ParseState::S(9), 't'), Transition::Next(ParseState::St(9)));
    assert_eq!(advance(ParseState::St(9), 'a'), Transition::Next(ParseState::Sta(9)));
    assert_eq!(advance(ParseState::Sta(9), 'r'), Transition::Next(ParseState::Star(9)));
    assert_eq!(advance(ParseState::Star(9), 't'), Transition::Emit(9));
    assert_eq!(advance(ParseState::Star(9), 'T'), Transition::Unexpected);
}
