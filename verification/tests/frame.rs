use kyria_oled::Frame;
use kyria_oled::FrameError;

#[test]
fn test_output() {
    let frame_bytes: Vec<u8> = vec![
        0, 0, 126, 126, 24, 60, 102, 66, 0, 12, 28, 112, 112, 28, 12, 0, 116, 116, 20, 20, 124,
        104, 0, 124, 124, 0, 112, 120, 44, 36, 124, 124, 0, 0, 0, 0, 0, 0, 0, 0, 0, 0, 0, 0, 0,
        0, 0, 0, 0, 0, 0, 0, 0, 0, 0, 0, 0, 0, 128, 64, 64, 32, 32, 32, 32, 16, 16, 16, 16, 16,
        8, 8, 4, 4, 4, 8, 48, 64, 128, 0, 0, 0, 0, 0, 0, 0, 0, 0, 0, 0, 0, 0, 0, 0, 0, 0, 0, 0,
        0, 0, 0, 0, 0, 0, 0, 0, 0, 0, 0, 0, 0, 0, 0, 0, 0, 0, 0, 0, 0, 0, 0, 0, 0, 0, 0, 128,
        128, 128, 0, 0, 0, 0, 192, 96, 48, 24, 12, 132, 198, 98, 35, 51, 17, 145, 113, 241, 113,
        145, 17, 51, 35, 98, 198, 132, 12, 24, 48, 96, 192, 0, 0, 0, 0, 0, 0, 0, 0, 0, 0, 0, 0,
        0, 0, 0, 0, 0, 0, 24, 100, 130, 2, 2, 2, 2, 2, 1, 0, 0, 0, 0, 128, 128, 0, 0, 0, 0, 0,
        0, 0, 0, 0, 128, 0, 48, 48, 0, 192, 193, 193, 194, 4, 8, 16, 32, 64, 128, 0, 0, 0, 128,
        128, 128, 128, 64, 64, 64, 64, 32, 32, 32, 32, 16, 16, 16, 16, 8, 8, 8, 8, 8, 196, 4,
        196, 4, 196, 2, 194, 2, 194, 1, 1, 1, 1, 0, 0, 0, 0, 0, 252, 15, 1, 0, 248, 14, 31, 109,
        140, 148, 148, 164, 166, 249, 224, 255, 224, 249, 166, 164, 148, 148, 140, 109, 31, 14,
        248, 0, 1, 15, 252, 0, 0, 0, 0, 0, 0, 0, 0, 0, 0, 0, 0, 0, 0, 0, 192, 56, 4, 3, 0, 0, 0,
        0, 0, 0, 0, 12, 12, 12, 13, 1, 0, 64, 160, 33, 34, 18, 17, 17, 17, 9, 8, 8, 8, 8, 4, 4,
        8, 8, 16, 16, 16, 16, 16, 17, 15, 1, 1, 0, 0, 0, 0, 0, 0, 0, 0, 0, 0, 0, 0, 0, 0, 0, 0,
        0, 0, 170, 170, 255, 255, 195, 191, 127, 3, 127, 191, 195, 255, 255, 170, 170, 0, 0, 0,
        0, 0, 0, 31, 120, 192, 0, 15, 56, 124, 219, 152, 20, 20, 18, 50, 207, 3, 255, 3, 207,
        50, 18, 20, 20, 152, 219, 124, 56, 15, 0, 192, 120, 31, 16, 16, 16, 16, 8, 8, 8, 8, 8,
        4, 4, 4, 4, 4, 2, 3, 2, 2, 1, 1, 1, 1, 1, 1, 2, 2, 4, 4, 8, 8, 8, 8, 8, 7, 0, 0, 0, 0,
        0, 0, 0, 0, 0, 0, 0, 0, 0, 0, 0, 0, 0, 0, 0, 0, 0, 0, 0, 0, 0, 0, 0, 0, 0, 0, 0, 0, 0,
        0, 0, 0, 0, 0, 0, 0, 0, 0, 2, 130, 135, 31, 7, 159, 7, 28, 7, 159, 7, 159, 7, 2, 130, 0,
        0, 0, 0, 32, 16, 16, 16, 17, 11, 14, 12, 24, 16, 49, 35, 98, 102, 68, 68, 71, 71, 71,
        68, 68, 102, 98, 35, 49, 16, 24, 12, 6, 3, 1, 0, 0, 0, 0, 0, 0, 0, 0, 0, 0, 0, 0, 0, 0,
        0, 0, 0, 0, 0, 0, 0, 0, 0, 0, 0, 0, 0, 0, 0, 0, 0, 0, 0, 0, 0, 0, 0, 0, 0, 0, 0, 0, 0,
        0, 0, 0, 0, 0, 0, 0, 0, 0, 0, 0, 0, 0, 0, 0, 0, 0, 0, 0, 0, 0, 0, 0, 0, 0, 0, 0, 0, 0,
        0, 0, 0, 0, 0, 0, 7, 8, 8, 23, 0, 15, 1, 2, 1, 15, 0, 15, 2, 5, 8,
    ];
    let frame = Frame::new(128, 40, &frame_bytes).unwrap();
    assert_eq!(&frame.output(), &frame_bytes);
}

#[test]
fn dimensions_of_unpacked_frame() {
    let frame_bytes: Vec<u8> = vec![
        0, 0, 126, 126, 24, 60, 102, 66, 0, 12, 28, 112, 112, 28, 12, 0, 116, 116, 20, 20, 124,
        104, 0, 124, 124, 0, 112, 120, 44, 36, 124, 124, 0, 0, 0, 0, 0, 0, 0, 0, 0, 0, 0, 0, 0,
        0, 0, 0, 0, 0, 0, 0, 0, 0, 0, 0, 0, 0, 128, 64, 64, 32, 32, 32, 32, 16, 16, 16, 16, 16,
        8, 8, 4, 4, 4, 8, 48, 64, 128, 0, 0, 0, 0, 0, 0, 0, 0, 0, 0, 0, 0, 0, 0, 0, 0, 0, 0, 0,
        0, 0, 0, 0, 0, 0, 0, 0, 0, 0, 0, 0, 0, 0, 0, 0, 0, 0, 0, 0, 0, 0, 0, 0, 0, 0, 0, 128,
        128, 128, 0, 0, 0, 0, 192, 96, 48, 24, 12, 132, 198, 98, 35, 51, 17, 145, 113, 241, 113,
        145, 17, 51, 35, 98, 198, 132, 12, 24, 48, 96, 192, 0, 0, 0, 0, 0, 0, 0, 0, 0, 0, 0, 0,
        0, 0, 0, 0, 0, 0, 24, 100, 130, 2, 2, 2, 2, 2, 1, 0, 0, 0, 0, 128, 128, 0, 0, 0, 0, 0,
        0, 0, 0, 0, 128, 0, 48, 48, 0, 192, 193, 193, 194, 4, 8, 16, 32, 64, 128, 0, 0, 0, 128,
        128, 128, 128, 64, 64, 64, 64, 32, 32, 32, 32, 16, 16, 16, 16, 8, 8, 8, 8, 8, 196, 4,
        196, 4, 196, 2, 194, 2, 194, 1, 1, 1, 1, 0, 0, 0, 0, 0, 252, 15, 1, 0, 248, 14, 31, 109,
        140, 148, 148, 164, 166, 249, 224, 255, 224, 249, 166, 164, 148, 148, 140, 109, 31, 14,
        248, 0, 1, 15, 252, 0, 0, 0, 0, 0, 0, 0, 0, 0, 0, 0, 0, 0, 0, 0, 192, 56, 4, 3, 0, 0, 0,
        0, 0, 0, 0, 12, 12, 12, 13, 1, 0, 64, 160, 33, 34, 18, 17, 17, 17, 9, 8, 8, 8, 8, 4, 4,
        8, 8, 16, 16, 16, 16, 16, 17, 15, 1, 1, 0, 0, 0, 0, 0, 0, 0, 0, 0, 0, 0, 0, 0, 0, 0, 0,
        0, 0, 170, 170, 255, 255, 195, 191, 127, 3, 127, 191, 195, 255, 255, 170, 170, 0, 0, 0,
        0, 0, 0, 31, 120, 192, 0, 15, 56, 124, 219, 152, 20, 20, 18, 50, 207, 3, 255, 3, 207,
        50, 18, 20, 20, 152, 219, 124, 56, 15, 0, 192, 120, 31, 16, 16, 16, 16, 8, 8, 8, 8, 8,
        4, 4, 4, 4, 4, 2, 3, 2, 2, 1, 1, 1, 1, 1, 1, 2, 2, 4, 4, 8, 8, 8, 8, 8, 7, 0, 0, 0, 0,
        0, 0, 0, 0, 0, 0, 0, 0, 0, 0, 0, 0, 0, 0, 0, 0, 0, 0, 0, 0, 0, 0, 0, 0, 0, 0, 0, 0, 0,
        0, 0, 0, 0, 0, 0, 0, 0, 0, 2, 130, 135, 31, 7, 159, 7, 28, 7, 159, 7, 159, 7, 2, 130, 0,
        0, 0, 0, 32, 16, 16, 16, 17, 11, 14, 12, 24, 16, 49, 35, 98, 102, 68, 68, 71, 71, 71,
        68, 68, 102, 98, 35, 49, 16, 24, 12, 6, 3, 1, 0, 0, 0, 0, 0, 0, 0, 0, 0, 0, 0, 0, 0, 0,
        0, 0, 0, 0, 0, 0, 0, 0, 0, 0, 0, 0, 0, 0, 0, 0, 0, 0, 0, 0, 0, 0, 0, 0, 0, 0, 0, 0, 0,
        0, 0, 0, 0, 0, 0, 0, 0, 0, 0, 0, 0, 0, 0, 0, 0, 0, 0, 0, 0, 0, 0, 0, 0, 0, 0, 0, 0, 0,
        0, 0, 0, 0, 0, 0, 7, 8, 8, 23, 0, 15, 1, 2, 1, 15, 0, 15, 2, 5, 8,
    ];
    let frame = Frame::new(128, 40, &frame_bytes).unwrap();
    assert_eq!(frame.width(), 128);
    assert_eq!(frame.height(), 40);
    assert_eq!(frame.dimensions(), (128, 40));
}

#[test]
fn pack_unpack_round_trip_odd_height() {
    // height 3 is not a multiple of 8; packing pads with zero rows
    let rows = vec![vec![1u8, 0, 1], vec![0u8, 1, 1], vec![1u8, 1, 0]];
    let f = Frame::from_rows(rows).unwrap();
    let packed = f.output();
    let g = Frame::new(3, 3, &packed).unwrap();
    assert_eq!(g.rows, f.rows);
}

#[test]
fn output_strips_trailing_zero_bytes() {
    let f = Frame::from_rows(vec![vec![1u8, 0]]).unwrap();
    assert_eq!(f.output(), vec![1]);
    let g = Frame::new(2, 1, &[1]).unwrap();
    assert_eq!(g.rows, f.rows);
}

#[test]
fn all_zero_frame_packs_to_nothing() {
    let f = Frame::from_rows(vec![vec![0u8, 0], vec![0u8, 0]]).unwrap();
    assert_eq!(f.output(), Vec::<u8>::new());
}

#[test]
fn new_rejects_oversized_data() {
    assert_eq!(
        Frame::new(1, 8, &[1, 2]).unwrap_err(),
        FrameError::TooManyBytes
    );
}

#[test]
fn from_rows_rejects_ragged_rows() {
    let res = Frame::from_rows(vec![vec![0u8, 1], vec![0u8]]);
    assert_eq!(res.unwrap_err(), FrameError::RaggedRow { row: 1 });
}

#[test]
fn from_rows_rejects_bad_pixel() {
    let res = Frame::from_rows(vec![vec![0u8, 2]]);
    assert_eq!(res.unwrap_err(), FrameError::BadPixel { row: 0, col: 1 });
}

#[test]
fn pixel_reads_zero_outside_grid() {
    let f = Frame::from_rows(vec![vec![1u8]]).unwrap();
    assert_eq!(f.pixel(0, 0), 1);
    assert_eq!(f.pixel(5, 0), 0);
    assert_eq!(f.pixel(0, 5), 0);
}

#[test]
fn average_frame_takes_strict_majority() {
    let a = Frame::from_rows(vec![vec![1u8, 1]]).unwrap();
    let b = Frame::from_rows(vec![vec![1u8, 0]]).unwrap();
    let c = Frame::from_rows(vec![vec![0u8, 0]]).unwrap();
    let avg = Frame::create_from_multiple_frame(&[a, b, c]).unwrap();
    // pixel 0: two of three ones; pixel 1: one of three
    assert_eq!(avg.rows, vec![vec![1u8, 0]]);
}

#[test]
fn average_frame_of_two_needs_both() {
    let a = Frame::from_rows(vec![vec![1u8]]).unwrap();
    let b = Frame::from_rows(vec![vec![0u8]]).unwrap();
    // one of two is not strictly more than half
    let avg = Frame::create_from_multiple_frame(&[a, b]).unwrap();
    assert_eq!(avg.rows, vec![vec![0u8]]);
}

#[test]
fn average_frame_rejects_empty_corpus() {
    assert_eq!(
        Frame::create_from_multiple_frame(&[]).unwrap_err(),
        FrameError::EmptyCorpus
    );
}

#[test]
fn average_frame_rejects_dimension_mismatch() {
    let a = Frame::from_rows(vec![vec![1u8, 0]]).unwrap();
    let b = Frame::from_rows(vec![vec![1u8]]).unwrap();
    assert_eq!(
        Frame::create_from_multiple_frame(&[a, b]).unwrap_err(),
        FrameError::DimensionMismatch
    );
}

#[test]
fn frame_compress_matches_compressed_output() {
    let f = Frame::from_rows(vec![vec![0u8, 0, 0, 0, 0]]).unwrap();
    // five zero bytes pack to nothing, which compresses to nothing
    assert_eq!(f.compress(), Vec::<u8>::new());
    let g = Frame::from_rows(vec![vec![1u8, 1, 1, 1, 1]]).unwrap();
    assert_eq!(g.compress(), kyria_oled::compress(&g.output()));
}
