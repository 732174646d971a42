use mebal::AccessUnitParser;
use mebal::ParsedUnit;

fn collect(parser: &mut AccessUnitParser, chunks: &[&[u8]]) -> Vec<(Vec<u8>, bool)> {
    let mut all: Vec<(Vec<u8>, bool)> = Vec::new();
    for chunk in chunks {
        let units: Vec<ParsedUnit> = parser.feed(chunk);
        for u in units {
            all.push((u.payload, u.is_sync_point));
        }
    }
    all
}

#[test]
fn test_classification_idr_is_sync() {
    // marker 00 00 00 01 followed by 0x65 (type 5 after masking) -> sync
    let mut parser = AccessUnitParser::new();
    let stream: &[u8] = &[0, 0, 0, 1, 0x65, 0xaa, 0xbb, 0, 0, 1, 0x41];
    let units = parser.feed(stream);
    assert_eq!(units.len(), 1);
    assert_eq!(units[0].payload, vec![0, 0, 0, 1, 0x65, 0xaa, 0xbb]);
    assert!(units[0].is_sync_point);
}

#[test]
fn test_classification_parameter_sets_are_sync() {
    // SPS (7) and PPS (8) both count as sync points; a non-IDR slice (1)
    // does not
    let mut parser = AccessUnitParser::new();
    let stream: &[u8] = &[
        0, 0, 1, 0x67, 9, // SPS
        0, 0, 1, 0x68, 8, // PPS
        0, 0, 1, 0x41, 7, // non-IDR slice
        0, 0, 1, 0x99, // terminator so the three units above complete
    ];
    let units = parser.feed(stream);
    assert_eq!(units.len(), 3);
    assert!(units[0].is_sync_point);
    assert!(units[1].is_sync_point);
    assert!(!units[2].is_sync_point);
}

#[test]
fn test_classification_masks_low_bits() {
    // 0xe5 & 0x1f == 5: high bits do not matter
    let mut parser = AccessUnitParser::new();
    let units = parser.feed(&[0, 0, 1, 0xe5, 1, 2, 0, 0, 1, 0x41]);
    assert_eq!(units.len(), 1);
    assert!(units[0].is_sync_point);
}

#[test]
fn test_bare_marker_unit_is_not_sync() {
    // a unit with no byte after its marker cannot be classified
    let mut parser = AccessUnitParser::new();
    let units = parser.feed(&[0, 0, 1, 0, 0, 1, 0x41]);
    assert_eq!(units.len(), 1);
    assert_eq!(units[0].payload, vec![0, 0, 1]);
    assert!(!units[0].is_sync_point);
}

#[test]
fn test_tail_stays_in_carry() {
    let mut parser = AccessUnitParser::new();
    // only one marker: nothing complete yet
    let units = parser.feed(&[0, 0, 0, 1, 0x65, 1, 2, 3]);
    assert!(units.is_empty());
    assert_eq!(parser.carry_len(), 8);
    // the next marker completes the unit
    let units = parser.feed(&[0, 0, 1, 0x41]);
    assert_eq!(units.len(), 1);
    assert_eq!(units[0].payload, vec![0, 0, 0, 1, 0x65, 1, 2, 3]);
}

#[test]
fn test_garbage_before_first_marker_is_dropped() {
    let mut parser = AccessUnitParser::new();
    let units = parser.feed(&[9, 9, 9, 0, 0, 1, 0x41, 5, 0, 0, 1, 0x41]);
    assert_eq!(units.len(), 1);
    assert_eq!(units[0].payload, vec![0, 0, 1, 0x41, 5]);
}

#[test]
fn test_restartability_split_equals_one_shot() {
    let stream: Vec<u8> = vec![
        7, 7, // leading garbage
        0, 0, 0, 1, 0x67, 0x64, 0x00, // SPS
        0, 0, 0, 1, 0x68, 0xee, // PPS
        0, 0, 1, 0x65, 1, 2, 3, 4, // IDR
        0, 0, 1, 0x41, 5, 6, // non-IDR
        0, 0, 0, 1, 0x41, 7, // non-IDR
        0, 0, 1, 0x65, 8, // trailing, stays in carry
    ];

    let mut one = AccessUnitParser::new();
    let expected = collect(&mut one, &[&stream]);
    assert_eq!(expected.len(), 5);

    // split at every position, including mid-marker
    for cut in 0..=stream.len() {
        let mut split = AccessUnitParser::new();
        let got = collect(&mut split, &[&stream[..cut], &stream[cut..]]);
        assert_eq!(got, expected, "split at {} diverged", cut);
    }

    // byte-at-a-time
    let mut trickle = AccessUnitParser::new();
    let chunks: Vec<&[u8]> = stream.chunks(1).collect();
    let got = collect(&mut trickle, &chunks);
    assert_eq!(got, expected);
}

#[test]
fn test_markerless_carry_is_capped() {
    let mut parser = AccessUnitParser::new();
    let garbage = vec![0xffu8; 1048577];
    let units = parser.feed(&garbage);
    assert!(units.is_empty());
    assert_eq!(parser.carry_len(), 3);
    // a marker straddling the cap boundary is still recognised
    let mut parser2 = AccessUnitParser::new();
    let mut long = vec![0xffu8; 1048575];
    long.extend_from_slice(&[0, 0]);
    assert!(parser2.feed(&long).is_empty());
    assert_eq!(parser2.carry_len(), 3);
    let units = parser2.feed(&[1, 0x65, 0, 0, 1, 0x41]);
    assert_eq!(units.len(), 1);
    assert_eq!(units[0].payload, vec![0, 0, 1, 0x65]);
    assert!(units[0].is_sync_point);
}

#[test]
fn test_four_byte_marker_not_split_as_three() {
    // 00 00 00 01 must be one four-byte marker, not garbage plus 00 00 01
    let mut parser = AccessUnitParser::new();
    let units = parser.feed(&[0, 0, 0, 1, 0x41, 9, 0, 0, 0, 1, 0x65, 0, 0, 1, 0x41]);
    assert_eq!(units.len(), 2);
    assert_eq!(units[0].payload, vec![0, 0, 0, 1, 0x41, 9]);
    assert_eq!(units[1].payload, vec![0, 0, 0, 1, 0x65]);
    assert!(units[1].is_sync_point);
}
