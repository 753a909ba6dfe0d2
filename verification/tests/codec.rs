use kyria_oled::compress;
use kyria_oled::uncompress;
use kyria_oled::uncompress2;
use kyria_oled::CodecError;

#[test]
fn test_compress() {
    assert_eq!(compress(&[0, 0, 0, 0, 0]), &[5, 0]);
    assert_eq!(
        compress(&[0, 0, 0, 1, 0]),
        &[3, 0, 0b1000_0010 /* 2 */, 1, 0]
    );
    assert_eq!(compress(&[0, 0, 0, 1, 1, 1, 2, 2, 2]), &[3, 0, 3, 1, 3, 2]);
}

#[test]
fn test_uncompress() {
    assert_eq!(uncompress(&[5, 0]).unwrap(), &[0, 0, 0, 0, 0]);
    assert_eq!(
        uncompress(&[3, 0, 0b1000_0010 /* 2 */, 1, 0]).unwrap(),
        &[0, 0, 0, 1, 0]
    );
    assert_eq!(
        uncompress(&[3, 0, 3, 1, 3, 2]).unwrap(),
        &[0, 0, 0, 1, 1, 1, 2, 2, 2]
    );
}

#[test]
fn test_compress_uncompress() {
    let test_frame: Vec<u8> = vec![
        0, 0, 126, 126, 24, 60, 102, 66, 0, 12, 28, 112, 112, 28, 12, 0, 116, 116, 20, 20, 124,
        104, 0, 124, 124, 0, 112, 120, 44, 36, 124, 124, 0, 0, 0, 0, 0, 0, 0, 0, 0, 0, 0, 0, 0,
        0, 0, 0, 0, 0, 0, 128, 128, 0, 0, 0, 0, 0, 128, 64, 64, 32, 32, 32, 32, 16, 16, 16, 16,
        8, 4, 2, 1, 1, 2, 12, 48, 64, 128, 0, 0, 0, 0, 0, 0, 0, 0, 0, 0, 0, 0, 0, 0, 0, 0, 0, 0,
        0, 0, 0, 0, 0, 0, 0, 0, 0, 0, 0, 0, 0, 0, 0, 0, 0, 0, 0, 0, 0, 0, 0, 0, 0, 0, 0, 0, 128,
        128, 128, 0, 0, 0, 0, 192, 96, 48, 24, 12, 132, 198, 98, 35, 51, 17, 145, 113, 241, 113,
        145, 17, 51, 35, 98, 198, 132, 12, 24, 48, 96, 192, 0, 0, 0, 0, 0, 0, 0, 0, 0, 0, 0, 0,
        0, 0, 0, 0, 0, 0, 30, 225, 0, 0, 1, 1, 2, 2, 1, 0, 0, 0, 0, 128, 128, 0, 0, 0, 0, 0, 0,
        0, 0, 0, 128, 0, 48, 48, 0, 0, 1, 225, 26, 6, 9, 49, 53, 1, 138, 124, 0, 0, 128, 128,
        128, 128, 64, 64, 64, 64, 32, 32, 32, 32, 16, 16, 16, 16, 8, 8, 8, 8, 8, 196, 4, 196, 4,
        196, 2, 194, 2, 194, 1, 1, 1, 1, 0, 0, 0, 0, 0, 252, 15, 1, 0, 248, 14, 31, 109, 140,
        148, 148, 164, 166, 249, 224, 255, 224, 249, 166, 164, 148, 148, 140, 109, 31, 14, 248,
        0, 1, 15, 252, 0, 0, 0, 0, 0, 0, 0, 0, 0, 0, 0, 0, 0, 0, 0, 128, 112, 12, 3, 0, 0, 0, 0,
        0, 0, 0, 0, 0, 0, 1, 1, 0, 64, 160, 33, 34, 18, 17, 17, 17, 9, 8, 8, 8, 8, 4, 4, 4, 4,
        4, 4, 2, 2, 2, 1, 1, 1, 1, 0, 0, 0, 0, 0, 0, 0, 0, 0, 0, 0, 0, 0, 0, 0, 0, 0, 0, 170,
        170, 255, 255, 195, 191, 127, 3, 127, 191, 195, 255, 255, 170, 170, 0, 0, 0, 0, 0, 0,
        31, 120, 192, 0, 15, 56, 124, 219, 152, 20, 20, 18, 50, 207, 3, 255, 3, 207, 50, 18, 20,
        20, 152, 219, 124, 56, 15, 0, 192, 120, 31, 16, 16, 16, 16, 8, 8, 8, 8, 8, 4, 4, 4, 4,
        4, 2, 3, 122, 122, 121, 121, 121, 121, 57, 49, 2, 2, 4, 4, 8, 8, 8, 136, 136, 135, 128,
        0, 0, 0, 0, 0, 0, 0, 0, 0, 0, 0, 0, 0, 0, 0, 0, 0, 0, 0, 0, 0, 0, 0, 0, 0, 0, 0, 0, 0,
        0, 0, 0, 0, 0, 0, 0, 0, 0, 0, 0, 0, 2, 130, 135, 31, 7, 159, 7, 28, 7, 159, 7, 159, 7,
        2, 130, 0, 0, 0, 0, 32, 16, 16, 16, 17, 11, 14, 12, 24, 16, 49, 35, 98, 102, 68, 68, 71,
        71, 71, 68, 68, 102, 98, 35, 49, 16, 24, 12, 6, 3, 1, 0, 0, 0, 0, 0, 0, 0, 0, 0, 0, 0,
        0, 0, 0, 0, 0, 0, 0, 0, 0, 0, 0, 48, 120, 124, 254, 255, 63, 7, 0, 0, 0, 0, 255, 255,
        127, 127, 63, 62, 28, 24, 0, 0, 0, 0, 0, 0, 0, 0, 0, 0, 0, 0, 0, 0, 0, 0, 0, 0, 0, 0, 0,
        0, 0, 0, 0, 0, 0, 0, 0, 0, 0, 0, 0, 0, 0, 0, 0, 7, 8, 8, 23, 0, 15, 1, 2, 1, 15, 0, 15,
        2, 5, 8,
    ];
    assert_eq!(uncompress(&compress(&test_frame)).unwrap(), test_frame);
}

#[test]
fn compress_empty_is_empty() {
    assert_eq!(compress(&[]), Vec::<u8>::new());
    assert_eq!(uncompress(&[]).unwrap(), Vec::<u8>::new());
}

#[test]
fn compress_single_byte_is_repeat_record() {
    assert_eq!(compress(&[9]), &[1, 9]);
}

#[test]
fn compress_run_of_128_splits_into_two_repeat_records() {
    let data = vec![7u8; 128];
    assert_eq!(compress(&data), &[127, 7, 1, 7]);
    assert_eq!(uncompress(&[127, 7, 1, 7]).unwrap(), data);
}

#[test]
fn compress_run_of_127_is_one_record() {
    let data = vec![7u8; 127];
    assert_eq!(compress(&data), &[127, 7]);
}

#[test]
fn compress_long_literal_splits_at_127() {
    // 130 alternating bytes: every run has length 1
    let mut data: Vec<u8> = Vec::new();
    for i in 0..130u32 {
        data.push((i % 2) as u8);
    }
    let mut expected: Vec<u8> = Vec::new();
    expected.push(0b1000_0000 | 127);
    for i in 0..127u32 {
        expected.push((i % 2) as u8);
    }
    expected.push(0b1000_0000 | 3);
    expected.push(1);
    expected.push(0);
    expected.push(1);
    assert_eq!(compress(&data), expected);
    assert_eq!(uncompress(&expected).unwrap(), data);
}

#[test]
fn uncompress_rejects_truncated_repeat_record() {
    assert_eq!(uncompress(&[5]), Err(CodecError::Truncated));
}

#[test]
fn uncompress_rejects_truncated_literal_record() {
    assert_eq!(uncompress(&[0b1000_0011, 1, 2]), Err(CodecError::Truncated));
}

#[test]
fn uncompress2_fills_prefix_and_keeps_rest() {
    let mut out = vec![9u8, 9, 9, 9];
    uncompress2(&[3, 7], &mut out);
    assert_eq!(out, vec![7, 7, 7, 9]);
}

#[test]
fn uncompress2_literal_record() {
    let mut out = vec![0u8, 0];
    uncompress2(&[0b1000_0010, 5, 6], &mut out);
    assert_eq!(out, vec![5, 6]);
}
