use pdp8asm::codec::Serialiser;

#[test]
fn packing_two_words_share_three_bytes() {
    let mut s = Serialiser::new();
    s.push_u12(0xABC);
    s.push_u12(0xDEF);
    // Even word: byte0 = bits 0..8, low nibble of byte1 = bits 8..12.
    // Odd word: high nibble of byte1 = bits 0..4, byte2 = bits 4..12.
    assert_eq!(s.data, vec![0xBC, 0xFA, 0xDE]);
    assert_eq!(s.head, 2);
}

#[test]
fn packing_length_is_ceil_three_halves() {
    for n in 1usize..20 {
        let mut s = Serialiser::new();
        for k in 0..n {
            s.push_u12((k as u16) & 0xFFF);
        }
        assert_eq!(s.data.len(), (3 * n + 1) / 2);
    }
    let s = Serialiser::new();
    assert_eq!(s.data.len(), 0);
}

#[test]
fn packing_round_trips_all_words() {
    let words: Vec<u16> = vec![0, 1, 0xFFF, 0x123, 0x800, 0x7FF, 42, 4094, 3, 0xABC];
    let mut s = Serialiser::new();
    for &w in &words {
        s.push_u12(w);
    }
    for (i, &w) in words.iter().enumerate() {
        s.set_ip(i);
        assert_eq!(s.decode_u12(), w);
    }
}

#[test]
fn rewriting_a_word_leaves_neighbours_alone() {
    let mut s = Serialiser::new();
    s.push_u12(0x111);
    s.push_u12(0x222);
    s.push_u12(0x333);
    s.set_ip(1);
    s.push_u12(0xABC);
    for (i, w) in [(0usize, 0x111u16), (1, 0xABC), (2, 0x333)] {
        s.set_ip(i);
        assert_eq!(s.decode_u12(), w);
    }
}

#[test]
fn basic_round_trip_recovers_fields() {
    let mut s = Serialiser::new();
    s.encode_basic(5, 1, 7);
    s.set_ip(0);
    let (opcode, mode, addr) = s.decode_basic();
    assert_eq!((opcode, mode, addr), (5, 1, 7));
}

#[test]
fn basic_encode_truncates_large_operand() {
    // An operand above 127 loses its high bit on encode: 200 % 128 == 72.
    let mut s = Serialiser::new();
    s.encode_basic(5, 0, 200);
    s.set_ip(0);
    let (opcode, mode, addr) = s.decode_basic();
    assert_eq!((opcode, mode, addr), (5, 0, 72));
}

#[test]
fn iot_round_trip_recovers_small_fields() {
    let mut s = Serialiser::new();
    s.encode_iot(3, 5);
    s.set_ip(0);
    let w = s.decode_u12();
    assert_eq!(w & 0x7, 0x6);
    assert_eq!((w >> 3) & 0x3F, 3);
    assert_eq!((w >> 9) & 0x7, 5);
}

#[test]
fn set_ip_zero_extends_and_returns_previous() {
    let mut s = Serialiser::new();
    let prev = s.set_ip(4);
    assert_eq!(prev, 0);
    // Seeking covers the seeked word position itself: word 4 starts at byte
    // 6 and needs two bytes.
    assert_eq!(s.data, vec![0, 0, 0, 0, 0, 0, 0, 0]);
    s.push_u12(0xABC);
    s.set_ip(4);
    assert_eq!(s.decode_u12(), 0xABC);
    let prev = s.set_ip(2);
    assert_eq!(prev, 4);
    // Seeking backwards never shrinks the buffer.
    assert_eq!(s.data.len(), 8);
    assert_eq!(s.decode_u12(), 0);
}

#[test]
fn encode_word_stores_verbatim() {
    let mut s = Serialiser::new();
    s.encode_word(0xFFF);
    s.set_ip(0);
    assert_eq!(s.decode_u12(), 0xFFF);
}
