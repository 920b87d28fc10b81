use ws2811_spi::encoding::{encode_upper, ONE, ZERO};
use ws2811_spi::{Recorder, Ws2811};

/// The four bus bytes of a channel value, put together bit by bit: one
/// symbol for each bit from the top, four symbols to a word, each word low
/// byte first.
fn by_hand(value: u8) -> Vec<u8> {
    let mut bytes = Vec::new();
    for half in 0..2 {
        let mut word: u16 = 0;
        for place in 0..4 {
            let index = half * 4 + place;
            let set = value & (0x80 >> index) != 0;
            let symbol: u16 = if set { 0b1100 } else { 0b1000 };
            word |= symbol << (12 - 4 * place);
        }
        bytes.push((word & 0xff) as u8);
        bytes.push((word >> 8) as u8);
    }
    bytes
}

/// Reads four bus bytes back as a channel value, or nothing if they are not
/// two words of symbols.
fn read_back(bytes: &[u8]) -> Option<u8> {
    if bytes.len() != 4 {
        return None;
    }
    let mut value: u8 = 0;
    for pair in bytes.chunks(2) {
        let word: u16 = (pair[1] as u16) << 8 | pair[0] as u16;
        for shift in [12u16, 8, 4, 0] {
            let bit = match (word >> shift) & 0xf {
                0b1000 => 0,
                0b1100 => 1,
                _ => return None,
            };
            value = value << 1 | bit;
        }
    }
    Some(value)
}

fn sent_for(value: u8) -> Vec<u8> {
    let mut leds = Ws2811::new(Recorder::new());
    assert_eq!(leds.write_byte(value), Ok(()));
    leds.release().sent_bytes()
}

#[test]
fn symbols_are_one_high_and_two_high() {
    assert_eq!(ZERO, 0b1000);
    assert_eq!(ONE, 0b1100);
}

#[test]
fn upper_bits_become_symbols() {
    assert_eq!(encode_upper(0x00), 0x8888);
    assert_eq!(encode_upper(0xf0), 0xcccc);
    assert_eq!(encode_upper(0x80), 0xc888);
    assert_eq!(encode_upper(0x40), 0x8c88);
    assert_eq!(encode_upper(0x20), 0x88c8);
    assert_eq!(encode_upper(0x10), 0x888c);
    assert_eq!(encode_upper(0xa0), 0xc8c8);
}

#[test]
fn lower_bits_do_not_reach_the_word() {
    assert_eq!(encode_upper(0x0f), 0x8888);
    assert_eq!(encode_upper(0xaf), encode_upper(0xa0));
}

#[test]
fn zero_is_eight_zero_symbols() {
    assert_eq!(sent_for(0x00), vec![0x88, 0x88, 0x88, 0x88]);
}

#[test]
fn all_ones_is_eight_one_symbols() {
    assert_eq!(sent_for(0xff), vec![0xcc, 0xcc, 0xcc, 0xcc]);
}

#[test]
fn channel_goes_out_as_two_words_low_byte_first() {
    assert_eq!(sent_for(0x80), vec![0x88, 0xc8, 0x88, 0x88]);
    assert_eq!(sent_for(0x01), vec![0x88, 0x88, 0x8c, 0x88]);
    assert_eq!(sent_for(0x12), vec![0x8c, 0x88, 0xc8, 0x88]);
    assert_eq!(sent_for(0xa5), vec![0xc8, 0xc8, 0x8c, 0x8c]);
}

#[test]
fn every_channel_value_is_four_bytes() {
    for value in 0..=255u8 {
        assert_eq!(sent_for(value).len(), 4);
    }
}

#[test]
fn every_channel_value_is_its_symbols() {
    for value in 0..=255u8 {
        assert_eq!(sent_for(value), by_hand(value));
    }
}

#[test]
fn every_channel_value_reads_back() {
    for value in 0..=255u8 {
        assert_eq!(read_back(&sent_for(value)), Some(value));
    }
}

#[test]
fn different_values_make_different_bytes() {
    for a in 0..=255u8 {
        for b in 0..a {
            assert_ne!(sent_for(a), sent_for(b));
        }
    }
}
