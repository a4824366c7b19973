use fuzzy_phrase::codec::{chop_int, key_to_phrase, phrase_to_key, three_byte_decode, three_byte_encode, word_ids_to_key};

#[test]
fn chop_smallest_int_to_bytes() {
    let n: u64 = u64::min_value();
    let chopped: Vec<u8> = chop_int(n);
    assert_eq!(vec![0u8, 0u8, 0u8, 0u8, 0u8, 0u8, 0u8, 0u8], chopped);
}

#[test]
fn chop_largest_int_to_bytes() {
    let n: u64 = u64::max_value();
    let chopped: Vec<u8> = chop_int(n);
    assert_eq!(vec![255u8, 255u8, 255u8, 255u8, 255u8, 255u8, 255u8, 255u8], chopped);
}

#[test]
fn chop_big_int_to_bytes() {
    // first value larger than u32::max_value(), aka 2**32
    let n: u64 = 4_294_967_296;
    let chopped: Vec<u8> = chop_int(n);
    assert_eq!(vec![0u8, 0u8, 0u8, 1u8, 0u8, 0u8, 0u8, 0u8], chopped);
}

#[test]
fn medium_integer_to_three_bytes() {
    let n: u64 = 61_528;
    let three_bytes: Vec<u8> = three_byte_encode(n);
    assert_eq!(vec![0u8, 240u8, 88u8], three_bytes);
}

#[test]
fn large_integer_to_three_bytes() {
    let n: u64 = 561_528;
    let three_bytes: Vec<u8> = three_byte_encode(n);
    assert_eq!(vec![8u8, 145u8, 120u8], three_bytes);
}

#[test]
fn three_bytes_to_large_integer() {
    let three_bytes: Vec<u8> = vec![8u8, 145u8, 120u8];
    let n: u64 = three_byte_decode(&three_bytes);
    assert_eq!(561_528u64, n);
}

#[test]
fn convert_phrase_to_key() {
    let phrase = [61_528_u64, 561_528u64, 1u64];
    let key = phrase_to_key(&phrase);
    assert_eq!(
        vec![
            0u8, 240u8, 88u8, // 61_528
            8u8, 145u8, 120u8, // 561_528
            0u8, 0u8, 1u8 // 1
        ],
        key
    );
}

#[test]
fn convert_key_to_phrase() {
    let key = vec![
        0u8, 240u8, 88u8, // 61_528
        8u8, 145u8, 120u8, // 561_528
        0u8, 0u8, 1u8, // 1
    ];
    let phrase = key_to_phrase(&key);
    assert_eq!(vec![61_528_u64, 561_528u64, 1u64], phrase);
}

#[test]
fn encode_keeps_only_low_24_bits() {
    assert_eq!(three_byte_encode(0x0123_4567), vec![0x23u8, 0x45u8, 0x67u8]);
    assert_eq!(three_byte_encode(0xff_ffff), vec![255u8, 255u8, 255u8]);
    assert_eq!(three_byte_encode(0), vec![0u8, 0u8, 0u8]);
}

#[test]
fn word_round_trip_on_samples() {
    for id in [0u64, 1, 255, 256, 65_535, 65_536, 61_528, 561_528, 0xff_ffff] {
        let bytes = three_byte_encode(id);
        assert_eq!(three_byte_decode(&bytes), id);
    }
}

#[test]
fn phrase_round_trip_on_sample() {
    let phrase = [0u64, 0xff_ffff, 42, 561_528];
    assert_eq!(key_to_phrase(&phrase_to_key(&phrase)), phrase.to_vec());
}

#[test]
fn encoding_keeps_order() {
    let ids = [0u64, 1, 255, 256, 61_528, 65_536, 561_528, 0xff_fffe, 0xff_ffff];
    for w in ids.windows(2) {
        assert!(three_byte_encode(w[0]) < three_byte_encode(w[1]));
    }
    assert!(phrase_to_key(&[1, 61_528]) < phrase_to_key(&[1, 61_528, 0]));
    assert!(phrase_to_key(&[1, 70_000]) < phrase_to_key(&[2, 0]));
}

#[test]
fn key_to_phrase_ignores_partial_group() {
    assert_eq!(key_to_phrase(&[0u8, 0, 7, 1]), vec![7u64]);
    assert_eq!(key_to_phrase(&[]), Vec::<u64>::new());
}

#[test]
fn word_ids_key_matches_phrase_key() {
    assert_eq!(word_ids_to_key(&[61_528u32, 561_528, 1]), phrase_to_key(&[61_528u64, 561_528, 1]));
}
