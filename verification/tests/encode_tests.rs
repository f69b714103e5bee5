use heic2png::encode::repack_to_png;
use heic2png::encode::ConvertError;
use heic2png::repack::RepackError;

fn decode(png_bytes: &[u8]) -> (u32, u32, png::ColorType, Vec<u8>) {
    let decoder = png::Decoder::new(std::io::Cursor::new(png_bytes));
    let mut reader = decoder.read_info().unwrap();
    let mut buf = vec![0u8; reader.output_buffer_size().unwrap()];
    let info = reader.next_frame(&mut buf).unwrap();
    buf.truncate(info.buffer_size());
    (info.width, info.height, info.color_type, buf)
}

#[test]
fn png_round_trip_single_pixel() {
    let data = vec![1u8, 2, 3, 4];
    let png_bytes = repack_to_png(&data, 1, 1).unwrap();
    let (width, height, color, pixels) = decode(&png_bytes);
    assert_eq!(width, 1);
    assert_eq!(height, 1);
    assert_eq!(color, png::ColorType::Rgba);
    assert_eq!(pixels, vec![1, 2, 3, 4]);
}

#[test]
fn png_round_trip_with_padding() {
    // A 2 by 2 RGBA image laid out with stride 12: 8 pixel bytes per row
    // followed by 4 bytes of padding, which must not reach the PNG.
    let mut data = Vec::new();
    data.extend_from_slice(&[10, 11, 12, 255, 20, 21, 22, 255]);
    data.extend_from_slice(&[7, 7, 7, 7]);
    data.extend_from_slice(&[30, 31, 32, 255, 40, 41, 42, 255]);
    data.extend_from_slice(&[7, 7, 7, 7]);
    let png_bytes = repack_to_png(&data, 2, 2).unwrap();
    let (width, height, color, pixels) = decode(&png_bytes);
    assert_eq!(width, 2);
    assert_eq!(height, 2);
    assert_eq!(color, png::ColorType::Rgba);
    assert_eq!(
        pixels,
        vec![10, 11, 12, 255, 20, 21, 22, 255, 30, 31, 32, 255, 40, 41, 42, 255]
    );
}

#[test]
fn repack_to_png_surfaces_malformed_buffer() {
    // 9 bytes over 2 rows: no whole-number stride.
    let data = vec![0u8; 9];
    let r = repack_to_png(&data, 1, 2);
    assert!(matches!(
        r,
        Err(ConvertError::Repack(RepackError::MalformedBuffer))
    ));
}

#[test]
fn repack_to_png_surfaces_negative_offset() {
    // 4 bytes over 2 rows infers stride 2, short of one RGBA pixel per row.
    let data = vec![0u8; 4];
    let r = repack_to_png(&data, 1, 2);
    assert!(matches!(
        r,
        Err(ConvertError::Repack(RepackError::NegativeOffset))
    ));
}
