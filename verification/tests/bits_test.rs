use etcher::error::EtchError;
use etcher::{rip_binary, rip_binary_u32, translate_u32, translate_u8};

fn bits(text: &str) -> Vec<bool> {
    text.chars().filter(|c| *c == '0' || *c == '1').map(|c| c == '1').collect()
}

#[test]
fn byte_bits_come_most_significant_first() {
    assert_eq!(rip_binary(vec![0x80]).unwrap(), bits("10000000"));
    assert_eq!(rip_binary(vec![0x01]).unwrap(), bits("00000001"));
    assert_eq!(rip_binary(vec![0xA5, 0x10]).unwrap(), bits("10100101 00010000"));
}

#[test]
fn word_bits_come_most_significant_first() {
    assert_eq!(
        rip_binary_u32(vec![0x8000_0001]).unwrap(),
        bits("10000000 00000000 00000000 00000001")
    );
    assert_eq!(
        rip_binary_u32(vec![5, u32::MAX]).unwrap(),
        bits("00000000 00000000 00000000 00000101 11111111 11111111 11111111 11111111")
    );
}

#[test]
fn empty_inputs_give_empty_outputs() {
    assert_eq!(rip_binary(Vec::new()).unwrap(), Vec::<bool>::new());
    assert_eq!(rip_binary_u32(Vec::new()).unwrap(), Vec::<bool>::new());
    assert_eq!(translate_u8(Vec::new()).unwrap(), Vec::<u8>::new());
    assert_eq!(translate_u32(Vec::new()).unwrap(), Vec::<u32>::new());
}

#[test]
fn bits_pack_into_bytes() {
    assert_eq!(translate_u8(bits("00000001 10000000 11111111")).unwrap(), vec![1, 128, 255]);
    assert_eq!(translate_u8(bits("01000010")).unwrap(), vec![0x42]);
}

#[test]
fn bits_pack_into_words() {
    assert_eq!(
        translate_u32(bits("00000000 00000000 00000001 00000010")).unwrap(),
        vec![0x0000_0102]
    );
    assert_eq!(
        translate_u32(bits(
            "11111111 11111111 11111111 11111111 10000000 00000000 00000000 00000000"
        ))
        .unwrap(),
        vec![u32::MAX, 0x8000_0000]
    );
}

#[test]
fn bytes_survive_the_round_trip() {
    let all: Vec<u8> = (0..=255u8).collect();
    assert_eq!(translate_u8(rip_binary(all.clone()).unwrap()).unwrap(), all);
    let some = vec![0x00, 0xFF, 0x10, 0x80];
    assert_eq!(translate_u8(rip_binary(some.clone()).unwrap()).unwrap(), some);
}

#[test]
fn words_survive_the_round_trip() {
    let words = vec![0, 1, 2, 0x7FFF_FFFF, 0x8000_0000, 0xDEAD_BEEF, u32::MAX, 1337];
    assert_eq!(translate_u32(rip_binary_u32(words.clone()).unwrap()).unwrap(), words);
}

#[test]
fn whole_groups_of_bits_survive_the_round_trip() {
    let sent = bits("10110011 00001111 01010101");
    assert_eq!(rip_binary(translate_u8(sent.clone()).unwrap()).unwrap(), sent);
}

#[test]
fn a_broken_byte_is_refused() {
    for length in [1usize, 7, 9, 15, 31] {
        assert_eq!(translate_u8(vec![true; length]), Err(EtchError::IncompleteByte));
    }
    assert!(translate_u8(vec![true; 16]).is_ok());
}

#[test]
fn a_broken_word_is_refused() {
    for length in [1usize, 8, 31, 33, 63] {
        assert_eq!(translate_u32(vec![false; length]), Err(EtchError::IncompleteWord));
    }
    assert!(translate_u32(vec![false; 64]).is_ok());
}

#[test]
fn errors_have_messages() {
    assert_eq!(
        EtchError::IncompleteByte.message(),
        "Invalid input: binary data has incomplete byte"
    );
    assert_eq!(
        EtchError::IncompleteWord.message(),
        "Invalid input: binary data has incomplete u32 value"
    );
    assert_ne!(EtchError::OutOfFrame.message(), EtchError::ZeroBlockSize.message());
    assert_ne!(EtchError::TruncatedInstructions.message(), EtchError::ZeroBlockSize.message());
}
