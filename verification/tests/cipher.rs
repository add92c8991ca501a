use konami_cipher::{bytes_to_konami, decrypt, encrypt, konami_to_bytes, KonamiParseError};

#[test]
fn the_quick_brown_fox_0_255() {
    let message = "The quick brown fox jumped over the lazy dog.".to_string();
    let konami = "^^vv<><>baStart>>abStart".to_string();
    let encrypted = encrypt(message.clone(), konami.clone()).unwrap();
    let decrypted = decrypt(encrypted.clone(), konami.clone()).unwrap();
    println!("Message: {}\nKonami: {}\nEncrypted: {}\nDecrypted: {}", message, konami, encrypted, decrypted);
    assert_eq!(message, decrypted);
}

#[test]
fn encrypt_adds_the_repeating_key() {
    let key = "^^vv<><>baStart>>abStart".to_string();
    assert_eq!(konami_to_bytes(key.clone()), Ok(vec![0, 255]));
    // 'A' + 0 = 65, 'B' + 255 = 65 modulo 256, 'C' + 0 = 67.
    assert_eq!(
        encrypt("ABC".to_string(), key),
        Ok("^^^vv<><>bbStart^^^vv<><>bbStartvv<><>bbStart".to_string())
    );
}

#[test]
fn encrypt_gives_the_groups_of_the_shifted_bytes() {
    let key = bytes_to_konami(vec![1, 2, 3]);
    let encrypted = encrypt("hello".to_string(), key).unwrap();
    assert_eq!(
        konami_to_bytes(encrypted),
        Ok(vec![b'h' + 1, b'e' + 2, b'l' + 3, b'l' + 1, b'o' + 2])
    );
}

#[test]
fn decrypt_subtracts_the_repeating_key() {
    let key = bytes_to_konami(vec![1, 200]);
    // 66 - 1 = 65, 10 - 200 = 66 modulo 256, 68 - 1 = 67.
    let cipher = bytes_to_konami(vec![66, 10, 68]);
    assert_eq!(decrypt(cipher, key), Ok("ABC".to_string()));
}

#[test]
fn decrypt_gives_one_character_for_each_byte() {
    let key = bytes_to_konami(vec![0]);
    let cipher = bytes_to_konami(vec![0xe9, 0x41, 0xff]);
    assert_eq!(decrypt(cipher, key), Ok("\u{e9}A\u{ff}".to_string()));
}

#[test]
fn round_trip_with_a_long_key() {
    let key = bytes_to_konami(vec![17, 0, 255, 128, 64, 3, 99]);
    let message = "abc XYZ 0123456789 ~!@#".to_string();
    let encrypted = encrypt(message.clone(), key.clone()).unwrap();
    assert_eq!(decrypt(encrypted, key), Ok(message));
}

#[test]
fn message_beyond_ascii_comes_back_byte_by_byte() {
    let key = bytes_to_konami(vec![5]);
    let encrypted = encrypt("\u{e9}".to_string(), key.clone()).unwrap();
    assert_eq!(konami_to_bytes(encrypted.clone()), Ok(vec![0xc3 + 5, 0xa9 + 5]));
    assert_eq!(decrypt(encrypted, key), Ok("\u{c3}\u{a9}".to_string()));
}

#[test]
fn empty_message_encrypts_to_empty_text() {
    let key = bytes_to_konami(vec![5]);
    assert_eq!(encrypt(String::new(), key.clone()), Ok(String::new()));
    assert_eq!(decrypt(String::new(), key), Err(KonamiParseError::Empty));
}

#[test]
fn key_errors_come_first() {
    assert_eq!(encrypt("abc".to_string(), String::new()), Err(KonamiParseError::Empty));
    assert_eq!(decrypt("abc".to_string(), String::new()), Err(KonamiParseError::Empty));
    assert_eq!(
        encrypt("abc".to_string(), "^^vv<><>baStart?".to_string()),
        Err(KonamiParseError::UexpectedCharacter(15, '?'))
    );
    assert_eq!(
        decrypt("q".to_string(), "^^^^^".to_string()),
        Err(KonamiParseError::TooManyUpDown(4))
    );
}

#[test]
fn cipher_text_errors_are_passed_on() {
    let key = bytes_to_konami(vec![5]);
    assert_eq!(
        decrypt("^^vv<><>baStop".to_string(), key.clone()),
        Err(KonamiParseError::UexpectedCharacter(12, 'o'))
    );
    assert_eq!(
        decrypt("vvvvv".to_string(), key),
        Err(KonamiParseError::TooManyUpDown(4))
    );
}
