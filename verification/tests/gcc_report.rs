use gstnada::gcctx::{parse_twcc, Feedback};

fn fb(ecn: u8, seq: u16, ts: u64) -> Feedback {
    Feedback { ecn, seq, ts }
}

// RTCP header (version 2), SSRCs, base 500, status count 0, reference 1 (64 after the
// shift), three packet chunks: a 1-bit vector (14 symbols), a 2-bit vector (6 symbols),
// a run of 2 with symbol 2; then the deltas.
fn gcc_packet() -> Vec<u8> {
    let mut bits = String::new();
    let mut put = |v: u64, n: usize| bits.push_str(&format!("{:0width$b}", v, width = n));
    put(2, 2);
    put(0, 1);
    put(15, 5);
    put(205, 8);
    put(0, 16);
    put(0, 32);
    put(0, 32);
    put(500, 16);
    put(0, 16);
    put(1, 24);
    put(3, 8);
    // 1-bit vector: type 1, size 0, symbols 1 then thirteen 0
    put(0b10, 2);
    put(0b1000_0000_0000_00, 14);
    // 2-bit vector: type 1, size 1, symbols 2,0,0,0,0,1
    put(0b11, 2);
    put(0b10_00_00_00_00_01, 12);
    // run: type 0, symbol 2, count 2
    put(0, 1);
    put(2, 2);
    put(2, 13);
    // deltas: symbol 1 (8 bits, 40), symbol 2 (16 bits, 1000), symbol 1 (8, 9),
    // symbol 2 (16, 3), symbol 2 (16, 8)
    put(40, 8);
    put(1000, 16);
    put(9, 8);
    put(3, 16);
    put(8, 16);
    while bits.len() % 8 != 0 {
        bits.push('0');
    }
    (0..bits.len() / 8).map(|i| u8::from_str_radix(&bits[8 * i..8 * i + 8], 2).unwrap()).collect()
}

#[test]
fn gcc_chunks_and_times() {
    let packet = gcc_packet();
    let (data, count) = parse_twcc(&packet);
    let mut expected = vec![fb(1, 500, 74)];
    for _ in 0..13 {
        expected.push(fb(0, 500, 0));
    }
    expected.push(fb(2, 500, 324));
    for _ in 0..4 {
        expected.push(fb(0, 500, 0));
    }
    expected.push(fb(1, 500, 326));
    expected.push(fb(2, 500, 326));
    expected.push(fb(2, 500, 328));
    assert_eq!(data, expected);
    assert_eq!(count, 33);
    assert_eq!(packet.len(), 34);
}
