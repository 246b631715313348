use gstnada::element::{drain_queue, handle_rtcp, push_action, transport_offset, PushAction, RtcpAction};
use gstnada::nadatx::{Feedback, TwccError};
use gstnada::settings::{Settings, DEFAULT_CURRENT_MAX_BITRATE};
use std::collections::VecDeque;

const REPORT: &[u8] = &[255, 254, 0, 5, 0, 0, 1, 0, 32, 2, 192, 0, 176, 16, 32, 4, 20];

#[test]
fn first_packet_sets_the_start() {
    assert_eq!(transport_offset(0, &[0x90, 0x12, 0x34, 0]), (0x1234, 0));
}

#[test]
fn later_packets_count_from_the_start() {
    assert_eq!(transport_offset(0x1234, &[0, 0x12, 0x40]), (0x1234, 0x0c));
    // Before the start, the number wraps around 2^16.
    assert_eq!(transport_offset(0x1234, &[0, 0x12, 0x30]), (0x1234, 0xfffc));
}

#[test]
fn offset_recovers_the_sequence_number() {
    let start: u16 = 0xfff0;
    for seq in [0u16, 5, 0xfff0, 0xffff] {
        let (_, off) = transport_offset(start, &[0, (seq >> 8) as u8, seq as u8]);
        assert_eq!(start.wrapping_add(off), seq);
    }
}

#[test]
fn feedback_is_applied() {
    match handle_rtcp(REPORT, 0) {
        RtcpAction::Apply { base, feedback, bytes } => {
            assert_eq!(base, 65534);
            assert_eq!(feedback.len(), 5);
            assert_eq!(feedback[2], Feedback { ecn: 2, seq: 0, ts: 68250 });
            assert_eq!(bytes, 16);
        }
        other => panic!("unexpected {:?}", other),
    }
}

#[test]
fn feedback_is_applied_once() {
    let base = match handle_rtcp(REPORT, 0) {
        RtcpAction::Apply { base, .. } => base,
        other => panic!("unexpected {:?}", other),
    };
    assert_eq!(handle_rtcp(REPORT, base), RtcpAction::Skip);
}

#[test]
fn feedback_without_statuses_is_skipped() {
    let report: &[u8] = &[0, 9, 0, 0, 0, 0, 0, 0];
    assert_eq!(handle_rtcp(report, 0), RtcpAction::Skip);
}

#[test]
fn malformed_feedback() {
    assert_eq!(handle_rtcp(&REPORT[..12], 0), RtcpAction::Malformed(TwccError::NotEnoughData));
}

#[test]
fn push_actions() {
    assert_eq!(push_action(1, false, false), PushAction::Push);
    assert_eq!(push_action(1, true, false), PushAction::DropAtEos);
    assert_eq!(push_action(1, true, true), PushAction::DropAtEos);
    assert_eq!(push_action(1, false, true), PushAction::DropFlushing);
    assert_eq!(push_action(0, false, false), PushAction::Discard);
    assert_eq!(push_action(2, false, false), PushAction::Discard);
}

#[test]
fn queue_drains_oldest_first() {
    let mut q: VecDeque<u32> = VecDeque::new();
    q.push_back(3);
    q.push_back(1);
    q.push_back(2);
    assert_eq!(drain_queue(&mut q), vec![3, 1, 2]);
    assert!(q.is_empty());
    assert_eq!(drain_queue(&mut q), Vec::<u32>::new());
}

#[test]
fn settings_default() {
    let s = Settings::default();
    assert_eq!(s.params, None);
    assert_eq!(s.current_max_bitrate, DEFAULT_CURRENT_MAX_BITRATE);
    assert_eq!(DEFAULT_CURRENT_MAX_BITRATE, 0);
}

#[test]
fn estimates_in_kbit() {
    let mut s = Settings::default();
    assert!(!s.apply_estimate(0));
    assert_eq!(s.current_max_bitrate, 0);
    assert!(s.apply_estimate(1_500_999));
    assert_eq!(s.current_max_bitrate, 1500);
    // The same estimate again changes nothing.
    assert!(!s.apply_estimate(1_500_999));
    assert!(!s.apply_estimate(1_500_000));
    assert!(!s.apply_estimate(0));
    assert_eq!(s.current_max_bitrate, 1500);
    // Below 1000 bit/s the maximum becomes 0.
    assert!(s.apply_estimate(999));
    assert_eq!(s.current_max_bitrate, 0);
}

#[test]
fn bitrate_replaced() {
    let mut s = Settings { params: Some("x".to_string()), current_max_bitrate: 300 };
    assert_eq!(s.replace_max_bitrate(700), 300);
    assert_eq!(s.current_max_bitrate, 700);
    assert_eq!(s.params.as_deref(), Some("x"));
}
