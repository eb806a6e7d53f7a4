use bocu1::packed_to_chunk;
use bocu1::EncodeBOCU1;

// The result words that the C encoder `encodeBocu1` returns for the code
// points of a text, drained into one byte string.
fn drain_words(words: &[i32]) -> Vec<u8> {
    let mut v: Vec<u8> = Vec::new();
    for w in words {
        let chunk = packed_to_chunk(*w);
        v.extend_from_slice(chunk.as_slice());
    }
    v
}

fn check_conforming(s: &str, words: &[i32]) {
    let v: Vec<u8> = drain_words(words);
    let u: Vec<u8> = s.encode_bocu1().collect();
    assert_eq!(v, u);
}

#[test]
fn tests_test_english() {
    check_conforming(
        &"hello",
        &[0x0100_00b8, 0x0100_00b5, 0x0100_00bc, 0x0100_00bc, 0x0100_00bf],
    );
}

#[test]
fn tests_test_chinese() {
    check_conforming(
        &"學而時習之",
        &[0x03fb_41d8, 0x0200_d93d, 0x0200_3e94, 0x0200_d8f6, 0x0200_2558],
    );
}

#[test]
fn tests_test_katakana() {
    check_conforming(
        &"コンニチワ",
        &[0x03fb_11ca, 0x0100_00c3, 0x0100_009b, 0x0100_0091, 0x0100_00bf],
    );
}
