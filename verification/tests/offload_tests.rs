use cappy::offload::packet_offsets;
use cappy::offload::recover_pass_vector;
use cappy::offload::OffloadError;
use cappy::offload::PassVector;
use cappy::reader::PacketDescriptor;

#[test]
fn all_pass_sets_every_flag() {
    let pv = PassVector::all_pass(4);
    assert_eq!(pv.len(), 4);
    for i in 0..4 {
        assert!(pv.get(i));
    }
    assert_eq!(pv.pass_count(), 4);
}

#[test]
fn all_pass_empty_capture() {
    let pv = PassVector::all_pass(0);
    assert_eq!(pv.len(), 0);
    assert_eq!(pv.pass_count(), 0);
}

#[test]
fn recover_keeps_one_flag_per_packet() {
    let pv = recover_pass_vector(vec![1, 0, 7], 3).expect("one flag per packet");
    assert_eq!(pv.len(), 3);
    assert!(pv.get(0));
    assert!(!pv.get(1));
    assert!(pv.get(2)); // any nonzero flag means the packet passed
    assert_eq!(pv.pass_count(), 2);
}

#[test]
fn recover_empty_result_for_empty_capture() {
    let pv = recover_pass_vector(Vec::new(), 0).expect("empty capture, empty result");
    assert_eq!(pv.len(), 0);
}

#[test]
fn recover_rejects_wrong_length() {
    assert!(matches!(
        recover_pass_vector(vec![1], 2),
        Err(OffloadError::ResultLengthMismatch)
    ));
    assert!(matches!(
        recover_pass_vector(vec![1, 1, 1], 2),
        Err(OffloadError::ResultLengthMismatch)
    ));
}

#[test]
fn from_flags_keeps_flags() {
    let pv = PassVector::from_flags(vec![true, false, true]);
    assert_eq!(pv.len(), 3);
    assert!(pv.get(0));
    assert!(!pv.get(1));
    assert!(pv.get(2));
    assert_eq!(pv.pass_count(), 2);
}

#[test]
fn packet_offsets_follow_index_order() {
    let index = vec![
        PacketDescriptor { offset: 24, ts_sec: 0, ts_subsec: 0, cap_len: 40, orig_len: 40 },
        PacketDescriptor { offset: 80, ts_sec: 1, ts_subsec: 0, cap_len: 20, orig_len: 20 },
        PacketDescriptor { offset: 116, ts_sec: 2, ts_subsec: 0, cap_len: 0, orig_len: 0 },
    ];
    let offsets = packet_offsets(&index);
    assert_eq!(offsets, vec![24, 80, 116]);
}
