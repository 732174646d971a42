use mebal::ExportError;
use mebal::ReplayBuffer;
use mebal::TimestampedPacket;

fn payloads(packets: &[TimestampedPacket]) -> Vec<(Vec<u8>, u64, bool)> {
    packets
        .iter()
        .map(|p| (p.data.clone(), p.timestamp, p.is_keyframe))
        .collect()
}

#[test]
fn test_export_empty_buffer() {
    let buffer = ReplayBuffer::new(30, 0);
    assert_eq!(buffer.export(15_000, 0).unwrap_err(), ExportError::EmptyBuffer);
}

#[test]
fn test_export_without_any_keyframe() {
    let mut buffer = ReplayBuffer::new(30, 0);
    buffer.add_packet(vec![1, 2], false, 0);
    buffer.add_packet(vec![3, 4], false, 100);
    assert_eq!(buffer.export(15_000, 100).unwrap_err(), ExportError::NoSyncPoint);
}

#[test]
fn test_export_starts_at_keyframe() {
    let mut buffer = ReplayBuffer::new(3600, 0);
    buffer.add_packet(vec![0], true, 0);
    buffer.add_packet(vec![1], false, 1_000);
    buffer.add_packet(vec![2], true, 2_000);
    buffer.add_packet(vec![3], false, 3_000);
    // window covers the last two units; the keyframe at t=2s starts the clip
    let clip = buffer.export(1_500, 3_000).unwrap();
    assert_eq!(payloads(&clip), vec![(vec![2], 2_000, true), (vec![3], 3_000, false)]);
}

#[test]
fn test_window_fallback_returns_whole_gop() {
    // one sync unit at t=0 followed by nine non-sync units: a 2 s window
    // holds no sync point, so the export falls back to the last one
    let mut buffer = ReplayBuffer::new(3600, 0);
    buffer.add_packet(vec![0], true, 0);
    for t in 1..10u64 {
        buffer.add_packet(vec![t as u8], false, t * 1_000);
    }
    let clip = buffer.export(2_000, 9_000).unwrap();
    assert_eq!(clip.len(), 10);
    assert!(clip[0].is_keyframe);
    assert_eq!(clip[0].timestamp, 0);
    assert_eq!(clip[9].timestamp, 9_000);
}

#[test]
fn test_time_eviction_snaps_to_keyframe() {
    // keyframe every 5 units, units every 100 ms, 1 s retention
    let mut buffer = ReplayBuffer::new(1, 0);
    for i in 0..50u64 {
        buffer.add_packet(vec![i as u8; 10], i % 5 == 0, i * 100);
    }
    // the buffer covers at least the retention window but stays bounded by
    // roughly one extra group of pictures
    let count = buffer.packet_count();
    assert!(count >= 11, "only {} packets kept", count);
    assert!(count <= 15, "{} packets kept", count);
    // and it still starts at a keyframe
    let clip = buffer.export(3_600_000, 4_900).unwrap();
    assert_eq!(clip.len(), count);
    assert!(clip[0].is_keyframe);
}

#[test]
fn test_size_accounting_matches_contents() {
    let mut buffer = ReplayBuffer::new(1, 0);
    for i in 0..50u64 {
        buffer.add_packet(vec![0xab; (i as usize % 7) + 1], i % 5 == 0, i * 100);
    }
    let clip = buffer.export(3_600_000, 4_900).unwrap();
    assert_eq!(clip.len(), buffer.packet_count());
    let true_sum: u64 = clip.iter().map(|p| p.data.len() as u64).sum();
    assert_eq!(buffer.current_bytes(), true_sum);
}

#[test]
fn test_budget_eviction_snaps_to_keyframe() {
    // groups of five 100-byte units, budget of 800 bytes: less than two
    // full groups
    let mut buffer = ReplayBuffer::new(3600, 0).with_byte_budget(800);
    for i in 0..15u64 {
        buffer.add_packet(vec![i as u8; 100], i % 5 == 0, i * 100);
        // the buffer always starts at a keyframe and never shrinks below
        // one full group
        let clip = buffer.export(3_600_000, i * 100).unwrap();
        assert!(clip[0].is_keyframe);
        assert_eq!(clip.len(), buffer.packet_count());
    }
    // after fifteen units the first group was evicted in one snap
    assert_eq!(buffer.packet_count(), 10);
    assert_eq!(buffer.current_bytes(), 1_000);
    let clip = buffer.export(3_600_000, 1_400).unwrap();
    assert_eq!(clip[0].timestamp, 500);
    assert!(clip[0].is_keyframe);
}

#[test]
fn test_budget_never_drops_below_one_group() {
    // a budget smaller than a single unit still leaves the last group in
    // place: the cut is always snapped back to a sync point
    let mut buffer = ReplayBuffer::new(3600, 0).with_byte_budget(50);
    for i in 0..12u64 {
        buffer.add_packet(vec![7; 100], i % 4 == 0, i * 100);
        let clip = buffer.export(3_600_000, i * 100).unwrap();
        assert!(clip[0].is_keyframe);
        assert!(clip.len() >= 1);
    }
    assert!(buffer.packet_count() >= 4);
}

#[test]
fn test_export_idempotent() {
    let mut buffer = ReplayBuffer::new(3600, 0);
    buffer.add_packet(vec![1, 2, 3], true, 0);
    buffer.add_packet(vec![4], false, 500);
    buffer.add_packet(vec![5, 6], true, 1_000);
    buffer.add_packet(vec![7], false, 1_500);
    let first = buffer.export(1_200, 1_500).unwrap();
    let second = buffer.export(1_200, 1_500).unwrap();
    assert_eq!(payloads(&first), payloads(&second));
}

#[test]
fn test_eviction_keeps_first_unit_sync() {
    // a session whose very first unit is a keyframe keeps a keyframe in
    // front through arbitrary ingestion
    let mut buffer = ReplayBuffer::new(1, 0).with_byte_budget(5_000);
    for i in 0..200u64 {
        buffer.add_packet(vec![1; 50], i % 7 == 0, i * 50);
        let clip = buffer.export(3_600_000, i * 50).unwrap();
        assert!(clip[0].is_keyframe, "front lost its keyframe at step {}", i);
    }
}

#[test]
fn test_stale_buffer_keeps_last_group() {
    // after a long stall everything predates the cutoff; the last group
    // survives rather than the buffer emptying
    let mut buffer = ReplayBuffer::new(1, 0);
    buffer.add_packet(vec![1], true, 0);
    buffer.add_packet(vec![2], false, 100);
    buffer.add_packet(vec![3], true, 200);
    buffer.add_packet(vec![4], false, 300);
    // a packet arrives after a 100 s stall: everything else is stale
    buffer.add_packet(vec![5], false, 100_300);
    let clip = buffer.export(3_600_000, 100_300).unwrap();
    assert!(clip[0].is_keyframe);
    assert_eq!(clip[0].timestamp, 200);
    assert_eq!(clip.len(), 3);
}

#[test]
fn test_parse_resolution_accepts_valid() {
    assert_eq!(mebal::parse_resolution(b"1920x1080").unwrap(), (1920, 1080));
    assert_eq!(mebal::parse_resolution(b"100x100").unwrap(), (100, 100));
    assert_eq!(mebal::parse_resolution(b"7680x4320").unwrap(), (7680, 4320));
}

#[test]
fn test_parse_resolution_rejects_invalid() {
    assert!(mebal::parse_resolution(b"1920").is_err());
    assert!(mebal::parse_resolution(b"1920x1080x3").is_err());
    assert!(mebal::parse_resolution(b"x1080").is_err());
    assert!(mebal::parse_resolution(b"1920x").is_err());
    assert!(mebal::parse_resolution(b"19a0x1080").is_err());
    assert!(mebal::parse_resolution(b"99x1080").is_err());
    assert!(mebal::parse_resolution(b"7681x1080").is_err());
    assert!(mebal::parse_resolution(b"1920x4321").is_err());
    assert!(mebal::parse_resolution(b"99999999999x1080").is_err());
}
