use mebal::compress_frame;
use mebal::convert_to_bottom_up;
use mebal::decompress_frame;

#[test]
fn test_compression_roundtrip() {
    let original = vec![1, 2, 3, 4, 5, 6, 7, 8];
    let compressed = compress_frame(&original).unwrap();
    let decompressed = decompress_frame(&compressed).unwrap();
    assert_eq!(original, decompressed);
}

#[test]
fn test_bottom_up_conversion() {
    // Test with a 2x2 RGBA image (32bpp)
    let mut buffer = vec![
        1, 2, 3, 4, 5, 6, 7, 8, // Top row
        9, 10, 11, 12, 13, 14, 15, 16, // Bottom row
    ];
    let width = 2;
    let height = 2;

    convert_to_bottom_up(&mut buffer, width, height);

    let expected = vec![
        9, 10, 11, 12, 13, 14, 15, 16, // Original bottom row now at top
        1, 2, 3, 4, 5, 6, 7, 8, // Original top row now at bottom
    ];

    assert_eq!(buffer, expected);
}

#[test]
fn test_compression_changes_representation() {
    // a long repetitive frame must come back identical even though its
    // stored form is smaller
    let original = vec![7u8; 4096];
    let compressed = compress_frame(&original).unwrap();
    assert!(compressed.len() < original.len());
    assert_ne!(compressed, original);
    let decompressed = decompress_frame(&compressed).unwrap();
    assert_eq!(original, decompressed);
}

#[test]
fn test_decompress_rejects_garbage() {
    assert!(decompress_frame(&[0, 1]).is_err());
}

#[test]
fn test_bottom_up_conversion_odd_height() {
    // 1x3 image: middle row stays, outer rows swap
    let mut buffer = vec![
        1, 2, 3, 4, // row 0
        5, 6, 7, 8, // row 1
        9, 10, 11, 12, // row 2
    ];
    convert_to_bottom_up(&mut buffer, 1, 3);
    let expected = vec![9, 10, 11, 12, 5, 6, 7, 8, 1, 2, 3, 4];
    assert_eq!(buffer, expected);
}

#[test]
fn test_bottom_up_conversion_involution() {
    let original: Vec<u8> = (0u8..32).collect();
    let mut buffer = original.clone();
    convert_to_bottom_up(&mut buffer, 2, 4);
    assert_ne!(buffer, original);
    convert_to_bottom_up(&mut buffer, 2, 4);
    assert_eq!(buffer, original);
}

#[test]
fn test_bottom_up_conversion_keeps_tail() {
    // two bytes beyond the 1x2 image are untouched
    let mut buffer = vec![1, 2, 3, 4, 5, 6, 7, 8, 9, 10];
    convert_to_bottom_up(&mut buffer, 1, 2);
    assert_eq!(buffer, vec![5, 6, 7, 8, 1, 2, 3, 4, 9, 10]);
}
