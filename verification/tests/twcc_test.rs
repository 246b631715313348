use bitreader::BitReader;
use gstnada::gcctx;
use gstnada::nadatx::{parse_twcc, Feedback, TwccError};

const FIRST: u8 = 0b10001111;
const DATA: &[u8] = &[
    FIRST, 205, 0, 0, 0, 0, 0, 0, 0, 0, 0, 0, 0, 32, 0, /* Packet status count */ 10, 0, 0, 32,
    /* Feedback packet count */ 1, 0b00100000, 0b00000001, 0b11111111,
];

const D: &[u8] = &[
    128, 200, 0, 6, 0, 0, 0, 1, 229, 211, 1, 43, 197, 190, 110, 101, 99, 198, 60, 115, 0, 0, 0,
    142, 0, 0, 52, 218, 129, 202, 0, 12, 0, 0, 0, 1, 1, 28, 117, 115, 101, 114, 49, 52, 48, 53,
    54, 57, 51, 51, 48, 48, 64, 104, 111, 115, 116, 45, 101, 54, 56, 52, 53, 53, 50, 51, 6, 9, 71,
    83, 116, 114, 101, 97, 109, 101, 114, 0, 0, 0,
];

fn fb(ecn: u8, seq: u16, ts: u64) -> Feedback {
    Feedback { ecn, seq, ts }
}

#[test]
pub fn twcc_test_test_twcc_packet() {
    let (data, count) = parse_twcc(D, None).unwrap();
    println!("{data:?}");
    assert_eq!(
        data,
        vec![
            fb(0, 32968, 0),
            fb(0, 32969, 0),
            fb(0, 32970, 0),
            fb(1, 32971, 47000),
            fb(0, 32972, 0),
            fb(2, 32973, 104500),
        ]
    );
    assert_eq!(count, 14);
}

#[test]
pub fn test_twcc_packet() {
    let (data, count) = gcctx::parse_twcc(DATA);
    println!("{data:?}");
    assert_eq!(data, vec![fb(1, 32, 2111)]);
    assert_eq!(count, 23);
}

#[test]
pub fn parse_test() {
    let b = [49, 40, 147, 0];
    let mut r = BitReader::new(&b);
    r.read_u8(8).unwrap();
    let x = r.read_u16(16).unwrap();
    let t = u16::from_be_bytes([b[1], b[2]]);
    println!("{x}");
    println!("{t}");
    assert_eq!(x, t);
    assert_eq!(x, 10387);
}

// A report with base 65534 and five statuses: a run of two with symbol 1, then a
// status vector chunk of three 2-bit symbols (2, 3, 0), then the deltas 4, 8 and the
// two-byte 0x0105.
const REPORT: &[u8] = &[255, 254, 0, 5, 0, 0, 1, 0, 32, 2, 192, 0, 176, 16, 32, 4, 20];

#[test]
fn report_with_runs_vectors_and_deltas() {
    let (data, count) = parse_twcc(REPORT, None).unwrap();
    assert_eq!(
        data,
        vec![
            fb(1, 65534, 65000),
            fb(1, 65535, 67000),
            fb(2, 0, 68250),
            fb(3, 1, 68250),
            fb(0, 2, 0),
        ]
    );
    assert_eq!(count, 16);
}

#[test]
fn report_numbering_is_consecutive_and_complete() {
    let (data, _) = parse_twcc(REPORT, Some(7)).unwrap();
    assert_eq!(data.len(), 5);
    for (k, f) in data.iter().enumerate() {
        assert_eq!(f.seq, 65534u16.wrapping_add(k as u16));
    }
}

#[test]
fn report_times_never_go_backwards() {
    let (data, _) = parse_twcc(D, None).unwrap();
    let timed: Vec<u64> = data.iter().filter(|f| f.ecn != 0).map(|f| f.ts).collect();
    for w in timed.windows(2) {
        assert!(w[0] <= w[1]);
    }
}

#[test]
fn report_within_packet() {
    let (_, count) = parse_twcc(D, None).unwrap();
    assert!(count as usize <= D.len());
}

#[test]
fn truncated_report_is_an_error() {
    assert_eq!(parse_twcc(&REPORT[..16], None), Err(TwccError::NotEnoughData));
    assert_eq!(parse_twcc(&[], None), Err(TwccError::NotEnoughData));
    assert_eq!(parse_twcc(&[1], None), Err(TwccError::NotEnoughData));
    assert_eq!(parse_twcc(&REPORT[..7], None), Err(TwccError::NotEnoughData));
}

#[test]
fn report_already_handled_is_empty() {
    assert_eq!(parse_twcc(REPORT, Some(65534)), Ok((vec![], 0)));
    assert_eq!(parse_twcc(DATA, Some(36813)), Ok((vec![], 0)));
    // Only the base sequence number is needed to tell.
    assert_eq!(parse_twcc(&REPORT[..2], Some(65534)), Ok((vec![], 0)));
}

#[test]
fn report_without_statuses() {
    assert_eq!(parse_twcc(DATA, None), Ok((vec![], 8)));
}

#[test]
fn one_bit_status_vector() {
    // base 10, three statuses, reference 0; a 1-bit status vector chunk (0x8000)
    // followed by the symbols 1, 0, 1 and the two one-byte deltas 4 and 4.
    let report: &[u8] = &[0, 10, 0, 3, 0, 0, 0, 0, 0x80, 0x00, 0b1010_0000, 0b1000_0000, 0b1000_0000];
    let (data, count) = parse_twcc(report, None).unwrap();
    assert_eq!(data, vec![fb(1, 10, 1000), fb(0, 11, 0), fb(1, 12, 2000)]);
    assert_eq!(count, 12);
}

#[test]
fn run_longer_than_the_count_is_cut() {
    // base 1, two statuses, a run of 100 statuses with symbol 0.
    let report: &[u8] = &[0, 1, 0, 2, 0, 0, 0, 0, 0x00, 100];
    let (data, count) = parse_twcc(report, None).unwrap();
    assert_eq!(data, vec![fb(0, 1, 0), fb(0, 2, 0)]);
    assert_eq!(count, 10);
}

#[test]
fn empty_runs_until_the_data_ends() {
    // A run of length 0 adds nothing; the next chunk is missing.
    let report: &[u8] = &[0, 1, 0, 2, 0, 0, 0, 0, 0x00, 0];
    assert_eq!(parse_twcc(report, None), Err(TwccError::NotEnoughData));
}

#[test]
fn feedback_new_has_no_time() {
    assert_eq!(Feedback::new(2, 77), fb(2, 77, 0));
}
