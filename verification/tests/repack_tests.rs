use heic2png::repack::repack;
use heic2png::repack::stream_all_diff;
use heic2png::repack::RepackError;

#[test]
fn identity_one_pixel() {
    let data = vec![1u8, 2, 3, 4];
    let out = repack(&data, 1, 4).unwrap();
    assert_eq!(out, vec![1, 2, 3, 4]);
}

#[test]
fn no_padding_round_trip() {
    // height 3, logical row size 8, stride 8: no padding, so the output
    // is the input, byte for byte.
    let data: Vec<u8> = (0u8..24).collect();
    let out = repack(&data, 3, 8).unwrap();
    assert_eq!(out, data);
}

#[test]
fn two_rows_with_padding() {
    // height 2, logical row size 8, stride 12: each row is 8 pixel bytes
    // followed by 4 bytes of padding.
    let mut data = Vec::new();
    data.extend_from_slice(&[1, 2, 3, 4, 5, 6, 7, 8]);
    data.extend_from_slice(&[250, 251, 252, 253]);
    data.extend_from_slice(&[9, 10, 11, 12, 13, 14, 15, 16]);
    data.extend_from_slice(&[254, 255, 0, 1]);
    let out = repack(&data, 2, 8).unwrap();
    assert_eq!(out.len(), 16);
    assert_eq!(out, vec![1, 2, 3, 4, 5, 6, 7, 8, 9, 10, 11, 12, 13, 14, 15, 16]);
}

#[test]
fn padding_trimmed_per_row() {
    // height 3, logical row size 4, stride 6: the output is the first 4
    // bytes of each row, concatenated in row order.
    let data = vec![
        1, 2, 3, 4, 99, 99, //
        5, 6, 7, 8, 99, 99, //
        9, 10, 11, 12, 99, 99,
    ];
    let out = repack(&data, 3, 4).unwrap();
    assert_eq!(out, vec![1, 2, 3, 4, 5, 6, 7, 8, 9, 10, 11, 12]);
}

#[test]
fn output_length_is_logical_size() {
    // Padded or not, the output holds logical_row_size * height bytes.
    let padded = vec![0u8; 36];
    assert_eq!(repack(&padded, 3, 8).unwrap().len(), 24);
    let tight = vec![0u8; 24];
    assert_eq!(repack(&tight, 3, 8).unwrap().len(), 24);
}

#[test]
fn length_not_divisible_is_malformed() {
    let data = vec![0u8; 7];
    assert_eq!(repack(&data, 2, 3), Err(RepackError::MalformedBuffer));
}

#[test]
fn stride_below_logical_row_size_is_negative_offset() {
    // height 2 over 4 bytes infers stride 2, short of a logical row of 4.
    let data = vec![0u8; 4];
    assert_eq!(repack(&data, 2, 4), Err(RepackError::NegativeOffset));
}

#[test]
fn stream_all_diff_trims_each_chunk() {
    let data = vec![1u8, 2, 3, 4, 5, 6, 7, 8];
    let out = stream_all_diff(&data, 4, 1);
    assert_eq!(out, vec![1, 2, 3, 5, 6, 7]);
}

#[test]
fn stream_all_diff_short_last_chunk() {
    // Chunks of 4: two full chunks keep 3 bytes each, the final 2-byte
    // chunk is shorter than the kept size and passes through whole.
    let data = vec![1u8, 2, 3, 4, 5, 6, 7, 8, 9, 10];
    let out = stream_all_diff(&data, 4, 1);
    assert_eq!(out, vec![1, 2, 3, 5, 6, 7, 9, 10]);
}

#[test]
fn stream_all_diff_zero_offset_is_identity() {
    let data = vec![1u8, 2, 3, 4, 5];
    assert_eq!(stream_all_diff(&data, 2, 0), data);
}
