use bocu1::packed::pack;
use bocu1::packed::DecodePackedBOCU1;
use bocu1::packed::DecodePackedIter;
use bocu1::packed::DecodePackedResultIter;
use bocu1::packed::PackedScalar;
use bocu1::packed_to_chunk;
use bocu1::write_encoded_chars;
use bocu1::DecodeBOCU1;
use bocu1::DecodeError;
use bocu1::DecodeIter;
use bocu1::DecodeResultIter;
use bocu1::DrainEncodedChunkIter;
use bocu1::EncodeBOCU1;
use bocu1::EncodedChunkIter;

fn encode(s: &str) -> Vec<u8> {
    s.encode_bocu1().collect()
}

fn decode(b: &[u8]) -> String {
    b.decode_bocu1().collect().into_iter().collect()
}

#[test]
fn empty_text_has_empty_encoding() {
    assert_eq!(encode(""), Vec::<u8>::new());
    assert_eq!(decode(&[]), "");
}

#[test]
fn ascii_controls_and_spaces_pass_through() {
    assert_eq!(
        encode("ab cd\tef"),
        vec![0xb1, 0xb2, 0x20, 0xb3, 0xb4, 0x09, 0xb5, 0xb6]
    );
    assert_eq!(encode("\u{0}"), vec![0x00]);
}

#[test]
fn chunk_iterator_yields_one_chunk_for_each_code_point() {
    let mut it = EncodedChunkIter::new("éé".chars().collect());
    assert_eq!(it.next().unwrap().as_slice(), &[0xd0, 0x76]);
    assert_eq!(it.next().unwrap().as_slice(), &[0xb9]);
    assert!(it.next().is_none());
    assert!(it.next().is_none());
}

#[test]
fn drain_iterator_yields_the_bytes_in_order() {
    let inner = EncodedChunkIter::new("éé".chars().collect());
    let mut it = DrainEncodedChunkIter::new(inner);
    assert_eq!(it.next(), Some(0xd0));
    assert_eq!(it.next(), Some(0x76));
    assert_eq!(it.next(), Some(0xb9));
    assert_eq!(it.next(), None);
    assert_eq!(it.next(), None);
}

#[test]
fn slices_of_code_points_encode_like_strings() {
    let text = "hello εφαρμογών";
    let chars: Vec<char> = text.chars().collect();
    let from_slice: Vec<u8> = chars.as_slice().encode_bocu1().collect();
    assert_eq!(from_slice, encode(text));
}

#[test]
fn write_encoded_chars_appends_the_encoding() {
    let mut out: Vec<u8> = vec![0x01, 0x02];
    let n = write_encoded_chars("hello", &mut out);
    assert_eq!(n, 5);
    assert_eq!(out, vec![0x01, 0x02, 0xb8, 0xb5, 0xbc, 0xbc, 0xbf]);
    let n = write_encoded_chars("學", &mut out);
    assert_eq!(n, 3);
    assert_eq!(&out[7..], &[0xfb, 0x41, 0xd8]);
}

#[test]
fn round_trip_over_every_block() {
    let mut text = String::new();
    let mut u: u32 = 0;
    while u <= 0x10FFFF {
        if let Some(c) = char::from_u32(u) {
            text.push(c);
        }
        u += 61;
    }
    let bytes = encode(&text);
    assert_eq!(decode(&bytes), text);
}

#[test]
fn encodings_compare_as_the_texts_do() {
    let texts = [
        "", "\u{0}", " ", "a", "a ", "a\n", "ab", "b", "é", "éa", "εφ", "學", "學而", "마",
        "\u{10FFFF}", "\u{10FFFF}a",
    ];
    for s1 in texts.iter() {
        for s2 in texts.iter() {
            assert_eq!(s1.cmp(s2), encode(s1).cmp(&encode(s2)));
        }
    }
}

#[test]
fn excluded_bytes_come_only_from_their_code_points() {
    let excluded = [
        0x00u8, 0x07, 0x08, 0x09, 0x0A, 0x0B, 0x0C, 0x0D, 0x0E, 0x0F, 0x1A, 0x1B, 0x20,
    ];
    let mut text = String::new();
    let mut u: u32 = 0x21;
    while u <= 0x10FFFF {
        if let Some(c) = char::from_u32(u) {
            text.push(c);
        }
        u += 37;
    }
    let bytes = encode(&text);
    for b in excluded.iter() {
        assert!(!bytes.contains(b));
    }
    for b in excluded.iter() {
        let mut with = text.clone();
        with.push(*b as char);
        with.push('z');
        let bytes = encode(&with);
        assert!(bytes.contains(b));
        for other in excluded.iter() {
            if other != b {
                assert!(!bytes.contains(other));
            }
        }
    }
}

#[test]
fn the_encoder_never_writes_the_reset_byte_in_lead_position() {
    let mut it = EncodedChunkIter::new("a\u{10FFFF}! é學\u{7F}".chars().collect());
    while let Some(chunk) = it.next() {
        assert!(chunk.as_slice()[0] != 0xff);
    }
}

#[test]
fn reset_bytes_in_harmless_places_change_nothing() {
    // In front of everything, behind a control, in front of spaces that
    // lead up to a control, and at the end.
    let text = "ab\nεφ  \n學";
    let plain = encode(text);
    assert_eq!(
        plain,
        vec![0xb1, 0xb2, 0x0a, 0xd3, 0x69, 0x96, 0x20, 0x20, 0x0a, 0xfb, 0x41, 0xd8]
    );
    let with_resets = vec![
        0xff, 0xff, 0xb1, 0xb2, 0x0a, 0xff, 0xd3, 0x69, 0x96, 0xff, 0x20, 0xff, 0x20, 0xff, 0x0a,
        0xff, 0xfb, 0x41, 0xd8, 0xff,
    ];
    assert_eq!(decode(&with_resets), text);
    assert_eq!(decode(&with_resets), decode(&plain));
}

#[test]
fn a_reset_byte_between_dependent_chunks_changes_the_text() {
    assert_eq!(encode("éé"), vec![0xd0, 0x76, 0xb9]);
    assert_eq!(decode(&[0xd0, 0x76, 0xb9]), "éé");
    assert_eq!(decode(&[0xd0, 0x76, 0xff, 0xb9]), "éi");
}

#[test]
fn truncating_decoder_stops_at_the_first_error() {
    let bytes = [0xb8, 0xd0, 0x20, 0xb5];
    let mut it = DecodeIter::new(&bytes);
    assert_eq!(it.next(), Some('h'));
    assert_eq!(it.next(), None);
    assert_eq!(it.next(), None);
    assert_eq!(decode(&bytes), "h");
    assert_eq!(decode(&[0xb8, 0xb5, 0xfb, 0x41]), "he");
}

#[test]
fn result_decoder_reports_errors_and_goes_on() {
    let bytes = [0xb8, 0xd0, 0x20, 0xb5, 0xfb, 0x41];
    let results = DecodeResultIter::new(&bytes).collect();
    assert_eq!(
        results,
        vec![
            Ok('h'),
            Err(DecodeError::TrailByteOutOfRange(0x20)),
            Ok(' '),
            Ok('e'),
            Err(DecodeError::TruncatedInput),
            Err(DecodeError::TruncatedInput),
        ]
    );
    let bytes = [0x4f, 0xff, 0xb8];
    let results = DecodeResultIter::new(&bytes).collect();
    assert_eq!(
        results,
        vec![
            Err(DecodeError::CharDeltaOutOfRange('\u{40}', -0x41)),
            Ok('h'),
        ]
    );
}

#[test]
fn result_decoder_steps_over_reset_bytes() {
    let bytes = [0xff, 0xb8, 0xff, 0xff, 0xb5, 0xff];
    let mut it = DecodeResultIter::new(&bytes);
    assert_eq!(it.next(), Some(Ok('h')));
    assert_eq!(it.next(), Some(Ok('e')));
    assert_eq!(it.next(), None);
}

#[test]
fn pack_into_each_width() {
    assert_eq!(pack::<_, u8>(&"h"), Some(0xb8u8));
    assert_eq!(pack::<_, u16>(&"h"), Some(0xb800u16));
    assert_eq!(pack::<_, u16>(&"hi"), Some(0xb8b9u16));
    assert_eq!(pack::<_, u32>(&"hi"), Some(0xb8b9_0000u32));
    assert_eq!(pack::<_, u32>(&"學"), Some(0xfb41_d800u32));
    assert_eq!(pack::<_, u64>(&""), Some(0u64));
    assert_eq!(pack::<_, u8>(&""), Some(0u8));
    assert_eq!(
        pack::<_, u128>(&"abcdabcdabcdabcd"),
        Some(0xb1b2b3b4_b1b2b3b4_b1b2b3b4_b1b2b3b4u128)
    );
}

#[test]
fn pack_refuses_what_does_not_fit() {
    assert_eq!(pack::<_, u8>(&"hi"), None);
    assert_eq!(pack::<_, u16>(&"學"), None);
    assert_eq!(pack::<_, u32>(&"hello"), None);
    assert_eq!(pack::<_, u64>(&"hello hello"), None);
    assert_eq!(pack::<_, u128>(&"abcdabcdabcdabcde"), None);
}

#[test]
fn unpack_from_each_width() {
    let chars = |v: Vec<char>| -> String { v.into_iter().collect() };
    assert_eq!(chars(0xb8u8.decode_packed_bocu1().collect()), "h");
    assert_eq!(chars(0u8.decode_packed_bocu1().collect()), "");
    assert_eq!(chars(0xb800u16.decode_packed_bocu1().collect()), "h");
    assert_eq!(chars(0xb8b9u16.decode_packed_bocu1().collect()), "hi");
    assert_eq!(chars(0xfb41_d800u32.decode_packed_bocu1().collect()), "學");
    assert_eq!(
        chars(0xb1b2b3b4_b1b2b3b4_b1b2b3b4_b1b2b3b4u128.decode_packed_bocu1().collect()),
        "abcdabcdabcdabcd"
    );
}

#[test]
fn packed_scalar_primitives() {
    assert_eq!(<u32 as PackedScalar>::size(), 4);
    assert_eq!(<u128 as PackedScalar>::size(), 16);
    assert_eq!(<u64 as PackedScalar>::zero(), 0);
    assert_eq!(0x12u16.push_byte(0x34), 0x1234);
    assert_eq!(0x0012_3456u32.push_byte(0x78), 0x1234_5678);
    assert_eq!(0u8.push_byte(0x78), 0x78);
    assert_eq!(0x1234_5678u32.low_byte(), 0x78);
    assert_eq!(0x1234_5678u32.drop_byte(), 0x0012_3456);
    assert_eq!(0xabu8.low_byte(), 0xab);
    assert_eq!(0xabu8.drop_byte(), 0);
    assert_eq!(u64::MAX.low_byte(), 0xff);
    assert_eq!(0xfedc_ba98_7654_3210u64.low_byte(), 0x10);
    assert_eq!(u128::MAX.drop_byte(), u128::MAX >> 8);
    assert_eq!((u128::MAX - 0xfd).low_byte(), 0x02);
    assert_eq!(0xff01u16.low_byte(), 0x01);
}

#[test]
fn unpack_strips_only_the_padding() {
    // A zero byte in front of other bytes is no padding: it decodes to
    // U+0000, which resets the state.
    let v: Vec<char> = 0xb800_b500u32.decode_packed_bocu1().collect();
    assert_eq!(v, vec!['h', '\u{0}', 'e']);
}

#[test]
fn packed_round_trip() {
    for text in ["", "a", "hello", "εφαρμογών", "學而時習之", "a b\nc"] {
        let p: u128 = pack(&text).unwrap();
        let back: String = p.decode_packed_bocu1().collect().into_iter().collect();
        assert_eq!(back, text);
    }
}

#[test]
fn packed_values_compare_as_the_texts_do() {
    let texts = ["", " ", "a", "a ", "ab", "b", "é", "éa", "εφ", "學", "學而", "\u{10FFFF}"];
    for s1 in texts.iter() {
        for s2 in texts.iter() {
            let p1: u64 = pack(s1).unwrap();
            let p2: u64 = pack(s2).unwrap();
            assert_eq!(s1.cmp(s2), p1.cmp(&p2));
        }
    }
}

#[test]
fn packed_result_iterator_reports_errors() {
    let mut it = DecodePackedResultIter::new(0xb8d0_20b5u32);
    assert_eq!(it.next(), Some(Ok('h')));
    assert_eq!(
        it.next(),
        Some(Err(DecodeError::TrailByteOutOfRange(0x20)))
    );
    assert_eq!(it.next(), Some(Ok(' ')));
    assert_eq!(it.next(), Some(Ok('e')));
    assert_eq!(it.next(), None);
    let mut it = DecodePackedIter::new(0xb8d0_20b5u32);
    assert_eq!(it.next(), Some('h'));
    assert_eq!(it.next(), None);
    assert_eq!(it.next(), None);
    let all = DecodePackedResultIter::new(0xb8fbu16).collect();
    assert_eq!(
        all,
        vec![Ok('h'), Err(DecodeError::TruncatedInput)]
    );
}

#[test]
fn packed_positions() {
    assert_eq!(DecodePackedResultIter::pos(0), 16);
    assert_eq!(DecodePackedResultIter::pos(5), 11);
    assert_eq!(DecodePackedResultIter::pos(16), 0);
    assert_eq!(DecodePackedResultIter::range(0), 16..16);
    assert_eq!(DecodePackedResultIter::range(5), 11..16);
    assert_eq!(DecodePackedResultIter::range(16), 0..16);
}

#[test]
fn result_words_of_the_c_encoder() {
    let chunk = packed_to_chunk(0x0100_00b8);
    assert_eq!(chunk.count, 1);
    assert_eq!(chunk.bytes, [0xb8, 0, 0, 0]);
    let chunk = packed_to_chunk(0x0200_d93d);
    assert_eq!(chunk.count, 2);
    assert_eq!(chunk.bytes, [0xd9, 0x3d, 0, 0]);
    let chunk = packed_to_chunk(0x03fb_41d8);
    assert_eq!(chunk.count, 3);
    assert_eq!(chunk.bytes, [0xfb, 0x41, 0xd8, 0]);
    let chunk = packed_to_chunk(0x21f0_58d9);
    assert_eq!(chunk.count, 4);
    assert_eq!(chunk.bytes, [0x21, 0xf0, 0x58, 0xd9]);
    // A four-byte chunk with lead byte 0xFE makes the word negative.
    let chunk = packed_to_chunk(0xfe19_b454u32 as i32);
    assert_eq!(chunk.count, 4);
    assert_eq!(chunk.bytes, [0xfe, 0x19, 0xb4, 0x54]);
    let chunk = packed_to_chunk(0x0012_3456);
    assert_eq!(chunk.count, 4);
    assert_eq!(chunk.bytes, [0x00, 0x12, 0x34, 0x56]);
    let chunk = packed_to_chunk(0x0412_3456);
    assert_eq!(chunk.count, 4);
    assert_eq!(chunk.bytes, [0x04, 0x12, 0x34, 0x56]);
}
