use cappy::aggregate::aggregate;
use cappy::aggregate::aggregate_range;
use cappy::aggregate::TrafficMatrix;
use cappy::offload::PassVector;
use cappy::reader::build_packet_index;
use cappy::reader::read_header;

const IP_A: u32 = 0x0A000001; // 10.0.0.1
const IP_B: u32 = 0x0A000002; // 10.0.0.2
const IP_C: u32 = 0x0A000003; // 10.0.0.3

fn header_bytes() -> Vec<u8> {
    let mut h = Vec::new();
    h.extend_from_slice(&[0xD4, 0xC3, 0xB2, 0xA1]);
    h.extend_from_slice(&[2, 0]);
    h.extend_from_slice(&[4, 0]);
    h.extend_from_slice(&[0; 8]);
    h.extend_from_slice(&[0xFF, 0xFF, 0, 0]);
    h.extend_from_slice(&[0, 0]);
    h.extend_from_slice(&[1, 0]);
    h
}

fn ipv4_frame(src: u32, dst: u32) -> Vec<u8> {
    let mut f = vec![0u8; 14]; // Ethernet II header (addresses unused here)
    f[12] = 0x08; // ethertype IPv4
    f[13] = 0x00;
    let mut ip = vec![0u8; 20];
    ip[0] = 0x45; // version 4, header length 5 words
    ip[12..16].copy_from_slice(&src.to_be_bytes());
    ip[16..20].copy_from_slice(&dst.to_be_bytes());
    f.extend_from_slice(&ip);
    f
}

fn capture(pairs: &[(u32, u32)]) -> Vec<u8> {
    let mut buf = header_bytes();
    for (i, (src, dst)) in pairs.iter().enumerate() {
        let frame = ipv4_frame(*src, *dst);
        buf.extend_from_slice(&(i as u32).to_le_bytes());
        buf.extend_from_slice(&0u32.to_le_bytes());
        buf.extend_from_slice(&(frame.len() as u32).to_le_bytes());
        buf.extend_from_slice(&(frame.len() as u32).to_le_bytes());
        buf.extend_from_slice(&frame);
    }
    buf
}

#[test]
fn matrix_records_and_counts() {
    let mut m = TrafficMatrix::new();
    m.record_flow(IP_A, IP_B);
    m.record_flow(IP_A, IP_B);
    m.record_flow(IP_A, IP_C);
    assert_eq!(m.count_for(IP_A, IP_B), 2);
    assert_eq!(m.count_for(IP_A, IP_C), 1);
    assert_eq!(m.count_for(IP_B, IP_A), 0);
    assert_eq!(m.flow_pair_count(), 2);
}

#[test]
fn merge_sums_counts_pointwise() {
    let mut a = TrafficMatrix::new();
    a.record_flow(IP_A, IP_B);
    a.record_flow(IP_A, IP_B);
    a.record_flow(IP_B, IP_C);
    let mut b = TrafficMatrix::new();
    b.record_flow(IP_A, IP_B);
    b.record_flow(IP_C, IP_A);
    a.merge(&b);
    assert_eq!(a.count_for(IP_A, IP_B), 3);
    assert_eq!(a.count_for(IP_B, IP_C), 1);
    assert_eq!(a.count_for(IP_C, IP_A), 1);
    assert_eq!(a.flow_pair_count(), 3);
}

#[test]
fn merge_with_empty_changes_nothing() {
    let mut a = TrafficMatrix::new();
    a.record_flow(IP_A, IP_C);
    a.merge(&TrafficMatrix::new());
    assert_eq!(a.count_for(IP_A, IP_C), 1);
    assert_eq!(a.flow_pair_count(), 1);
}

#[test]
fn flows_lists_each_pair_once() {
    let mut m = TrafficMatrix::new();
    m.record_flow(IP_A, IP_B);
    m.record_flow(IP_A, IP_B);
    m.record_flow(IP_C, IP_B);
    let mut flows = m.flows();
    flows.sort();
    assert_eq!(flows, vec![(IP_A, IP_B, 2), (IP_C, IP_B, 1)]);
}

#[test]
fn aggregate_is_invariant_to_worker_count() {
    let pairs = [
        (IP_A, IP_B),
        (IP_B, IP_C),
        (IP_A, IP_B),
        (IP_C, IP_A),
        (IP_A, IP_C),
        (IP_B, IP_C),
        (IP_A, IP_B),
    ];
    let buf = capture(&pairs);
    let index = build_packet_index(&buf).expect("well-formed capture");
    for workers in [1, 2, 3, 7, 16] {
        let pass = PassVector::all_pass(index.len());
        let m = aggregate(&buf, &index, &pass, workers);
        assert_eq!(m.count_for(IP_A, IP_B), 3);
        assert_eq!(m.count_for(IP_B, IP_C), 2);
        assert_eq!(m.count_for(IP_C, IP_A), 1);
        assert_eq!(m.count_for(IP_A, IP_C), 1);
        assert_eq!(m.flow_pair_count(), 4);
    }
}

#[test]
fn aggregate_range_covers_only_its_partition() {
    let pairs = [(IP_A, IP_B), (IP_A, IP_B), (IP_A, IP_C)];
    let buf = capture(&pairs);
    let index = build_packet_index(&buf).expect("well-formed capture");
    let pass = PassVector::all_pass(index.len());
    let left = aggregate_range(&buf, &index, &pass, 0, 2);
    let right = aggregate_range(&buf, &index, &pass, 2, 3);
    assert_eq!(left.count_for(IP_A, IP_B), 2);
    assert_eq!(left.count_for(IP_A, IP_C), 0);
    assert_eq!(right.count_for(IP_A, IP_C), 1);
    assert_eq!(right.flow_pair_count(), 1);
}

#[test]
fn end_to_end_unfiltered_capture() {
    let buf = capture(&[(IP_A, IP_B), (IP_A, IP_B), (IP_A, IP_C)]);
    let header = read_header(&buf).expect("valid header");
    assert_eq!((header.version_major, header.version_minor), (2, 4));
    let index = build_packet_index(&buf).expect("well-formed capture");
    assert_eq!(index.len(), 3);
    let pass = PassVector::all_pass(index.len());
    let m = aggregate(&buf, &index, &pass, 16);
    assert_eq!(m.count_for(IP_A, IP_B), 2);
    assert_eq!(m.count_for(IP_A, IP_C), 1);
    assert_eq!(m.flow_pair_count(), 2);
}

#[test]
fn end_to_end_filtered_capture() {
    let buf = capture(&[(IP_A, IP_B), (IP_A, IP_B), (IP_A, IP_C)]);
    let index = build_packet_index(&buf).expect("well-formed capture");
    let pass = PassVector::from_flags(vec![true, false, true]);
    let m = aggregate(&buf, &index, &pass, 16);
    assert_eq!(m.count_for(IP_A, IP_B), 1);
    assert_eq!(m.count_for(IP_A, IP_C), 1);
    assert_eq!(m.flow_pair_count(), 2);
}
