use mebal::compress_frame;
use mebal::decompress_frame;
use mebal::save_buffer;
use mebal::Capture;
use mebal::CompressedFrame;
use mebal::EncodedFrame;
use mebal::FrameBuffer;
use mebal::GenericCapture;

#[test]
fn test_encoded_frame_new() {
    let f = EncodedFrame::new(vec![1, 2, 3], 640, 480, 250);
    assert_eq!(f.data, vec![1, 2, 3]);
    assert_eq!(f.width, 640);
    assert_eq!(f.height, 480);
    assert_eq!(f.timestamp_ms, 250);
}

#[test]
fn test_capture_pacing() {
    let mut capture = Capture::new(50).unwrap();
    // 50 fps -> one frame every 20 ms, first frame due immediately
    assert!(capture.should_capture(0));
    capture.record_frame(&[1, 2, 3, 4], 1, 1, 0);
    assert!(!capture.should_capture(19));
    assert!(capture.should_capture(20));
    capture.record_frame(&[5, 6, 7, 8], 1, 1, 21);
    assert_eq!(capture.frame_count(), 2);
    let frames = capture.frames();
    assert_eq!(frames[0].timestamp_ms, 0);
    assert_eq!(frames[1].timestamp_ms, 21);
    // stored frames decompress back to the grabbed bytes
    assert_eq!(decompress_frame(&frames[0].compressed_data).unwrap(), vec![1, 2, 3, 4]);
    assert_eq!(decompress_frame(&frames[1].compressed_data).unwrap(), vec![5, 6, 7, 8]);
}

#[test]
fn test_generic_capture_timestamps() {
    let mut capture = GenericCapture::new(10, String::from("out.mp4")).unwrap();
    for _ in 0..3 {
        capture.record_frame(&[9, 9, 9, 9], 1, 1);
    }
    assert_eq!(capture.frame_count(), 3);
    let frames = capture.frames();
    // frame n sits n/fps seconds into the recording
    assert_eq!(frames[0].timestamp_ms, 0);
    assert_eq!(frames[1].timestamp_ms, 100);
    assert_eq!(frames[2].timestamp_ms, 200);
}

#[test]
fn test_save_buffer_empty() {
    let frames: Vec<CompressedFrame> = Vec::new();
    assert!(save_buffer(&frames, 30).unwrap().is_none());
}

#[test]
fn test_save_buffer_flips_frames() {
    // two 1x2 frames: the encoder wants them bottom-up
    let raw_a = vec![1, 2, 3, 4, 5, 6, 7, 8];
    let raw_b = vec![9, 10, 11, 12, 13, 14, 15, 16];
    let frames = vec![
        CompressedFrame {
            compressed_data: compress_frame(&raw_a).unwrap(),
            width: 1,
            height: 2,
            timestamp_ms: 0,
        },
        CompressedFrame {
            compressed_data: compress_frame(&raw_b).unwrap(),
            width: 1,
            height: 2,
            timestamp_ms: 33,
        },
    ];
    let input = save_buffer(&frames, 30).unwrap().unwrap();
    assert_eq!(input.width, 1);
    assert_eq!(input.height, 2);
    assert_eq!(input.fps, 30);
    assert_eq!(input.frames.len(), 2);
    assert_eq!(input.frames[0], vec![5, 6, 7, 8, 1, 2, 3, 4]);
    assert_eq!(input.frames[1], vec![13, 14, 15, 16, 9, 10, 11, 12]);
}

#[test]
fn test_save_buffer_rejects_undecodable_frame() {
    let frames = vec![CompressedFrame {
        compressed_data: vec![0, 1],
        width: 1,
        height: 1,
        timestamp_ms: 0,
    }];
    assert!(save_buffer(&frames, 30).is_err());
}

#[test]
fn test_save_buffer_rejects_short_frame() {
    // four bytes cannot cover a claimed 2x2 image
    let frames = vec![CompressedFrame {
        compressed_data: compress_frame(&[1, 2, 3, 4]).unwrap(),
        width: 2,
        height: 2,
        timestamp_ms: 0,
    }];
    assert!(save_buffer(&frames, 30).is_err());
}

#[test]
fn test_frame_buffer_fifo() {
    let mut fb = FrameBuffer::new(1, 1, 1, 3);
    fb.push(vec![1]);
    fb.push(vec![2]);
    assert_eq!(fb.pop(), Some(vec![1]));
    assert_eq!(fb.pop(), Some(vec![2]));
    assert_eq!(fb.pop(), None);
}

#[test]
fn test_frame_buffer_drops_oldest_when_full() {
    let mut fb = FrameBuffer::new(1, 1, 1, 2);
    fb.push(vec![1]);
    fb.push(vec![2]);
    fb.push(vec![3]);
    assert_eq!(fb.pop(), Some(vec![2]));
    assert_eq!(fb.pop(), Some(vec![3]));
    assert_eq!(fb.pop(), None);
}
