use bocu1::delta_encoding::INITIAL_PREVIOUS_STATE;
use bocu1::normalized_prev;
use bocu1::trailing_byte_selection::byte_to_trail;
use bocu1::trailing_byte_selection::trail_to_byte;
use bocu1::trailing_byte_selection::N_TRAIL_VALUES;
use bocu1::util::Euc;
use bocu1::variable_length_code::decode_delta;
use bocu1::variable_length_code::encode_delta;
use bocu1::variable_length_code::LEAD_BYTE_ASCII_SP;
use bocu1::variable_length_code::LEAD_BYTE_RESET;
use bocu1::DecodeError;
use bocu1::DeltaCoder;
use bocu1::EncodedChunk;

const EXCLUDED: [u8; 13] = [
    0x00, 0x07, 0x08, 0x09, 0x0A, 0x0B, 0x0C, 0x0D, 0x0E, 0x0F, 0x1A, 0x1B, 0x20,
];

fn chunk_of(delta: i32) -> Vec<u8> {
    encode_delta(delta).as_slice().to_vec()
}

#[test]
fn trail_values_number_243() {
    assert_eq!(N_TRAIL_VALUES, 243);
}

#[test]
fn trail_to_byte_follows_the_four_spans() {
    assert_eq!(trail_to_byte(0x00), 0x01);
    assert_eq!(trail_to_byte(0x05), 0x06);
    assert_eq!(trail_to_byte(0x06), 0x10);
    assert_eq!(trail_to_byte(0x0F), 0x19);
    assert_eq!(trail_to_byte(0x10), 0x1C);
    assert_eq!(trail_to_byte(0x13), 0x1F);
    assert_eq!(trail_to_byte(0x14), 0x21);
    assert_eq!(trail_to_byte(0xF2), 0xFF);
}

#[test]
fn trail_to_byte_is_increasing_and_avoids_excluded_bytes() {
    let mut last: u8 = 0;
    for t in 0..243u16 {
        let b = trail_to_byte(t as u8);
        assert!(b > last);
        assert!(!EXCLUDED.contains(&b));
        last = b;
    }
}

#[test]
fn byte_to_trail_inverts_trail_to_byte() {
    for t in 0..243u16 {
        let b = trail_to_byte(t as u8);
        assert_eq!(byte_to_trail(b), Ok(t as u8));
    }
}

#[test]
fn byte_to_trail_rejects_the_excluded_bytes() {
    let mut rejected = 0;
    for b in 0..=255u8 {
        match byte_to_trail(b) {
            Ok(t) => assert_eq!(trail_to_byte(t), b),
            Err(e) => {
                assert!(EXCLUDED.contains(&b));
                assert_eq!(e, DecodeError::TrailByteOutOfRange(b));
                rejected += 1;
            }
        }
    }
    assert_eq!(rejected, 13);
}

#[test]
fn euclidean_division_rounds_down() {
    assert_eq!(Euc::div_euc(7, 2), 3);
    assert_eq!(Euc::mod_euc(7, 2), 1);
    assert_eq!(Euc::div_euc(-7, 2), -4);
    assert_eq!(Euc::mod_euc(-7, 2), 1);
    assert_eq!(Euc::div_euc(7, -2), -3);
    assert_eq!(Euc::mod_euc(7, -2), 1);
    assert_eq!(Euc::div_euc(-7, -2), 4);
    assert_eq!(Euc::mod_euc(-7, -2), 1);
    assert_eq!(Euc::div_euc(-6, 2), -3);
    assert_eq!(Euc::mod_euc(-6, 2), 0);
    assert_eq!(Euc::div_euc(i32::MIN, 243), -8837382);
    assert_eq!(Euc::mod_euc(i32::MIN, 243), 178);
    assert_eq!(Euc::div_euc(0, -5), 0);
    assert_eq!(Euc::mod_euc(0, -5), 0);
}

#[test]
fn euclidean_division_agrees_with_std() {
    for a in -700..700 {
        for b in [-243, -7, -1, 1, 2, 243] {
            assert_eq!(Euc::div_euc(a, b), i32::div_euclid(a, b));
            assert_eq!(Euc::mod_euc(a, b), i32::rem_euclid(a, b));
        }
    }
}

#[test]
fn encode_delta_at_the_window_boundaries() {
    assert_eq!(chunk_of(-0x10FF9F), vec![0x21, 0xf0, 0x58, 0xd9]);
    assert_eq!(chunk_of(-0x2DD0D), vec![0x21, 0xff, 0xff, 0xff]);
    assert_eq!(chunk_of(-0x2DD0C), vec![0x22, 0x01, 0x01]);
    assert_eq!(chunk_of(-0x2912), vec![0x24, 0xff, 0xff]);
    assert_eq!(chunk_of(-0x2911), vec![0x25, 0x01]);
    assert_eq!(chunk_of(-0x41), vec![0x4f, 0xff]);
    assert_eq!(chunk_of(-0x40), vec![0x50]);
    assert_eq!(chunk_of(-1), vec![0x8f]);
    assert_eq!(chunk_of(0), vec![0x90]);
    assert_eq!(chunk_of(1), vec![0x91]);
    assert_eq!(chunk_of(0x3F), vec![0xcf]);
    assert_eq!(chunk_of(0x40), vec![0xd0, 0x01]);
    assert_eq!(chunk_of(0x2910), vec![0xfa, 0xff]);
    assert_eq!(chunk_of(0x2911), vec![0xfb, 0x01, 0x01]);
    assert_eq!(chunk_of(0x2DD0B), vec![0xfd, 0xff, 0xff]);
    assert_eq!(chunk_of(0x2DD0C), vec![0xfe, 0x01, 0x01, 0x01]);
    assert_eq!(chunk_of(0x10FFBF), vec![0xfe, 0x19, 0xb4, 0x54]);
}

#[test]
fn encode_delta_pads_the_buffer_with_zero() {
    let chunk = encode_delta(0x40);
    assert_eq!(chunk.count, 2);
    assert_eq!(chunk.bytes, [0xd0, 0x01, 0, 0]);
}

#[test]
fn decode_delta_inverts_encode_delta() {
    let mut d: i32 = -0x10FF9F;
    while d <= 0x10FFBF {
        let chunk = encode_delta(d);
        let mut bytes = chunk.as_slice().to_vec();
        bytes.push(0x55);
        let (back, rest) = decode_delta(&bytes).unwrap();
        assert_eq!(back, d);
        assert_eq!(rest, &[0x55]);
        d += 997;
    }
    for d in -0x3000..0x3000 {
        let chunk = encode_delta(d);
        let (back, rest) = decode_delta(chunk.as_slice()).unwrap();
        assert_eq!(back, d);
        assert!(rest.is_empty());
    }
}

#[test]
fn encode_delta_keeps_the_order_of_deltas() {
    let mut last = chunk_of(-0x3000);
    for d in -0x2FFF..0x3000 {
        let next = chunk_of(d);
        assert!(last < next);
        last = next;
    }
    assert!(chunk_of(-0x10FF9F) < chunk_of(-0x2DD0D));
    assert!(chunk_of(0x2DD0C) < chunk_of(0x10FFBF));
}

#[test]
fn decode_delta_reports_truncated_input() {
    assert_eq!(decode_delta(&[0xd0]), Err(DecodeError::TruncatedInput));
    assert_eq!(decode_delta(&[0xfb, 0x01]), Err(DecodeError::TruncatedInput));
    assert_eq!(
        decode_delta(&[0xfe, 0x01, 0x01]),
        Err(DecodeError::TruncatedInput)
    );
    assert_eq!(
        decode_delta(&[0x21, 0x20, 0x20]),
        Err(DecodeError::TruncatedInput)
    );
}

#[test]
fn decode_delta_reports_the_first_bad_trail_byte() {
    assert_eq!(
        decode_delta(&[0xd0, 0x20]),
        Err(DecodeError::TrailByteOutOfRange(0x20))
    );
    assert_eq!(
        decode_delta(&[0xfb, 0x01, 0x00]),
        Err(DecodeError::TrailByteOutOfRange(0x00))
    );
    assert_eq!(
        decode_delta(&[0xfe, 0x1a, 0x1b, 0x07]),
        Err(DecodeError::TrailByteOutOfRange(0x1a))
    );
}

#[test]
fn decode_delta_accepts_deltas_beyond_the_encoder() {
    let (d, rest) = decode_delta(&[0xfe, 0xff, 0xff, 0xff]).unwrap();
    assert_eq!(d, 0x2DD0C + 243 * 243 * 243 - 1);
    assert!(rest.is_empty());
}

#[test]
fn lead_byte_constants() {
    assert_eq!(LEAD_BYTE_RESET, 0xff);
    assert_eq!(LEAD_BYTE_ASCII_SP, 0x20);
    assert_eq!(INITIAL_PREVIOUS_STATE, '\u{40}');
}

#[test]
fn normalized_prev_snaps_to_the_script() {
    assert_eq!(normalized_prev('\u{3040}'), '\u{3070}');
    assert_eq!(normalized_prev('\u{309F}'), '\u{3070}');
    assert_eq!(normalized_prev('\u{303F}'), '\u{3040}');
    assert_eq!(normalized_prev('\u{30A0}'), '\u{30C0}');
    assert_eq!(normalized_prev('\u{4E00}'), '\u{7711}');
    assert_eq!(normalized_prev('\u{9FA5}'), '\u{7711}');
    assert_eq!(normalized_prev('\u{4DFF}'), '\u{4DC0}');
    assert_eq!(normalized_prev('\u{9FA6}'), '\u{9FC0}');
    assert_eq!(normalized_prev('\u{AC00}'), '\u{C1D1}');
    assert_eq!(normalized_prev('\u{D7A3}'), '\u{C1D1}');
    assert_eq!(normalized_prev('\u{D7A4}'), '\u{D7C0}');
    assert_eq!(normalized_prev('\u{0}'), '\u{40}');
    assert_eq!(normalized_prev('a'), '\u{40}');
    assert_eq!(normalized_prev('\u{7F}'), '\u{40}');
    assert_eq!(normalized_prev('\u{80}'), '\u{C0}');
    assert_eq!(normalized_prev('\u{3B5}'), '\u{3C0}');
    assert_eq!(normalized_prev('\u{E000}'), '\u{E040}');
    assert_eq!(normalized_prev('\u{10FFFF}'), '\u{10FFC0}');
}

#[test]
fn a_fresh_coder_starts_at_u0040() {
    let coder = DeltaCoder::new();
    assert_eq!(coder.state(), '\u{40}');
}

#[test]
fn encoding_the_normalized_state_gives_0x90() {
    let mut coder = DeltaCoder::new();
    assert_eq!(coder.encode_char('\u{40}').as_slice(), &[0x90]);
    let _ = coder.encode_char('\u{3B5}');
    assert_eq!(coder.state(), '\u{3C0}');
    assert_eq!(coder.encode_char('\u{3C0}').as_slice(), &[0x90]);
    let _ = coder.encode_char('\u{5B78}');
    assert_eq!(coder.encode_char('\u{7711}').as_slice(), &[0x90]);
}

#[test]
fn spaces_leave_the_state_alone() {
    let mut coder = DeltaCoder::new();
    let _ = coder.encode_char('\u{3B5}');
    let before = coder.state();
    for _ in 0..5 {
        assert_eq!(coder.encode_char(' ').as_slice(), &[0x20]);
        assert_eq!(coder.state(), before);
    }
    assert_eq!(coder.encode_char('\u{3C6}').as_slice(), &[0x96]);
}

#[test]
fn controls_stand_for_themselves_and_reset_the_state() {
    for c in 0..0x20u8 {
        let mut coder = DeltaCoder::new();
        let _ = coder.encode_char('\u{5B78}');
        let chunk = coder.encode_char(c as char);
        assert_eq!(chunk.as_slice(), &[c]);
        assert_eq!(coder.state(), '\u{40}');
        let after = coder.encode_char('\u{3B5}');
        let mut fresh = DeltaCoder::new();
        let expected = fresh.encode_char('\u{3B5}');
        assert_eq!(after.as_slice(), expected.as_slice());
        assert_eq!(after.as_slice(), &[0xd3, 0x69]);
    }
}

#[test]
fn encode_char_across_the_whole_range() {
    let mut coder = DeltaCoder::new();
    assert_eq!(
        coder.encode_char('\u{10FFFF}').as_slice(),
        &[0xfe, 0x19, 0xb4, 0x54]
    );
    assert_eq!(coder.state(), '\u{10FFC0}');
    assert_eq!(
        coder.encode_char('!').as_slice(),
        &[0x21, 0xf0, 0x58, 0xd9]
    );
    assert_eq!(coder.state(), '\u{40}');
}

#[test]
fn new_single_holds_one_byte() {
    let chunk = EncodedChunk::new_single(0x41);
    assert_eq!(chunk.count, 1);
    assert_eq!(chunk.bytes, [0x41, 0, 0, 0]);
    assert_eq!(chunk.as_slice(), &[0x41]);
}

#[test]
fn decode_char_takes_one_chunk() {
    let mut coder = DeltaCoder::new();
    let bytes = [0xd3, 0x69, 0x96];
    let (c, rest) = coder.decode_char(&bytes).unwrap();
    assert_eq!(c, Some('\u{3B5}'));
    assert_eq!(rest, &[0x96]);
    assert_eq!(coder.state(), '\u{3C0}');
    let (c, rest) = coder.decode_char(rest).unwrap();
    assert_eq!(c, Some('\u{3C6}'));
    assert!(rest.is_empty());
}

#[test]
fn decode_char_resets_on_0xff() {
    let mut coder = DeltaCoder::new();
    let _ = coder.decode_char(&[0xd3, 0x69]).unwrap();
    assert_eq!(coder.state(), '\u{3C0}');
    let (c, rest) = coder.decode_char(&[0xff, 0xb8]).unwrap();
    assert_eq!(c, None);
    assert_eq!(rest, &[0xb8]);
    assert_eq!(coder.state(), '\u{40}');
    let (c, _) = coder.decode_char(rest).unwrap();
    assert_eq!(c, Some('h'));
}

#[test]
fn decode_char_on_controls_and_space() {
    let mut coder = DeltaCoder::new();
    let _ = coder.decode_char(&[0xd3, 0x69]).unwrap();
    let (c, rest) = coder.decode_char(&[0x20, 0x0a]).unwrap();
    assert_eq!(c, Some(' '));
    assert_eq!(rest, &[0x0a]);
    assert_eq!(coder.state(), '\u{3C0}');
    let (c, rest) = coder.decode_char(rest).unwrap();
    assert_eq!(c, Some('\n'));
    assert!(rest.is_empty());
    assert_eq!(coder.state(), '\u{40}');
    let (c, _) = coder.decode_char(&[0x00]).unwrap();
    assert_eq!(c, Some('\u{0}'));
}

#[test]
fn decode_char_reports_each_error() {
    let mut coder = DeltaCoder::new();
    assert_eq!(
        coder.decode_char(&[0xfb, 0x41]),
        Err(DecodeError::TruncatedInput)
    );
    assert_eq!(
        coder.decode_char(&[0xd0, 0x0a]),
        Err(DecodeError::TrailByteOutOfRange(0x0a))
    );
    // Below zero.
    assert_eq!(
        coder.decode_char(&[0x4f, 0xff]),
        Err(DecodeError::CharDeltaOutOfRange('\u{40}', -0x41))
    );
    // Above U+10FFFF.
    assert_eq!(
        coder.decode_char(&[0xfe, 0x19, 0xb4, 0x55]),
        Err(DecodeError::CharDeltaOutOfRange('\u{40}', 0x10FFC0))
    );
    // A surrogate: U+D800 is 0x40 + 0xD7C0.
    let chunk = encode_delta(0xD7C0);
    assert_eq!(
        coder.decode_char(chunk.as_slice()),
        Err(DecodeError::CharDeltaOutOfRange('\u{40}', 0xD7C0))
    );
    assert_eq!(coder.state(), '\u{40}');
    // The code points next to the surrogates decode.
    let chunk = encode_delta(0xD7BF);
    assert_eq!(
        coder.decode_char(chunk.as_slice()).unwrap().0,
        Some('\u{D7FF}')
    );
    let mut coder = DeltaCoder::new();
    let chunk = encode_delta(0xDFC0);
    assert_eq!(
        coder.decode_char(chunk.as_slice()).unwrap().0,
        Some('\u{E000}')
    );
}
