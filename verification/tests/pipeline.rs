//! End-to-end: a fragmented encoded stream goes through the parser into
//! the replay buffer, and the export comes back keyframe-aligned.

use mebal::AccessUnitParser;
use mebal::ReplayBuffer;

fn demo_stream() -> Vec<u8> {
    let mut stream: Vec<u8> = Vec::new();
    // opening parameter sets and keyframe
    stream.extend_from_slice(&[0, 0, 0, 1, 0x67, 0x64, 0x00, 0x1f]);
    stream.extend_from_slice(&[0, 0, 0, 1, 0x68, 0xee, 0x3c]);
    stream.extend_from_slice(&[0, 0, 1, 0x65, 0x88, 0x84, 0x00]);
    // a group of delta frames
    for n in 0..4u8 {
        stream.extend_from_slice(&[0, 0, 1, 0x41, 0x9a, n]);
    }
    // second keyframe and more delta frames
    stream.extend_from_slice(&[0, 0, 1, 0x65, 0x88, 0x84, 0x01]);
    for n in 4..8u8 {
        stream.extend_from_slice(&[0, 0, 1, 0x41, 0x9a, n]);
    }
    // a final marker so everything above completes
    stream.extend_from_slice(&[0, 0, 1, 0x0c]);
    stream
}

#[test]
fn test_stream_to_export_pipeline() {
    let stream = demo_stream();
    let mut parser = AccessUnitParser::new();
    let mut buffer = ReplayBuffer::new(3600, 0);

    // deliver the stream in awkward 5-byte fragments, stamping units 100 ms
    // apart
    let mut now_ms: u64 = 0;
    for chunk in stream.chunks(5) {
        for unit in parser.feed(chunk) {
            buffer.add_packet(unit.payload, unit.is_sync_point, now_ms);
            now_ms += 100;
        }
    }
    assert_eq!(buffer.packet_count(), 12);

    // a window covering the last three units holds no keyframe, so the
    // clip is pulled back to the second keyframe
    let clip = buffer.export(250, now_ms).unwrap();
    assert!(clip[0].is_keyframe);
    assert_eq!(clip[0].data, vec![0, 0, 1, 0x65, 0x88, 0x84, 0x01]);
    assert_eq!(clip.len(), 5);

    // the exported payloads concatenate back into a tail of the original
    // stream, so a muxer can consume them as-is
    let joined: Vec<u8> = clip.iter().flat_map(|p| p.data.clone()).collect();
    let tail_start = stream.len() - 4 - joined.len();
    assert_eq!(&stream[tail_start..stream.len() - 4], &joined[..]);
}

#[test]
fn test_pipeline_survives_byte_at_a_time_delivery() {
    let stream = demo_stream();
    let mut parser_bulk = AccessUnitParser::new();
    let bulk: Vec<(Vec<u8>, bool)> = parser_bulk
        .feed(&stream)
        .into_iter()
        .map(|u| (u.payload, u.is_sync_point))
        .collect();

    let mut parser_trickle = AccessUnitParser::new();
    let mut trickle: Vec<(Vec<u8>, bool)> = Vec::new();
    for byte in &stream {
        for u in parser_trickle.feed(std::slice::from_ref(byte)) {
            trickle.push((u.payload, u.is_sync_point));
        }
    }
    assert_eq!(bulk, trickle);
    assert_eq!(bulk.len(), 12);
}
