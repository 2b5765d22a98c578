use pyxelium::count_overflow_pixels;
use pyxelium::decode_pixels_to_string;
use pyxelium::string_to_pixels;
use pyxelium::Canvas;
use pyxelium::CodecError;

#[test]
fn test_encode_decode() {
    // Test encoding a simple string into an image
    let input = "Hello, World!";
    let pixel_size: u32 = 5;
    let base_color: (u8, u8, u8) = (0, 0, 0);

    let encoded_image = string_to_pixels(input, pixel_size, base_color).unwrap();

    // Verify that the encoded image is not empty
    assert!(!encoded_image.is_empty());

    // Verify that the encoded image has the correct dimensions
    let expected_width: u32 = 15;
    let expected_height: u32 = 15;
    assert_eq!(encoded_image.width(), expected_width);
    assert_eq!(encoded_image.height(), expected_height);

    // Decode the image and verify the result
    let decoded_string = decode_pixels_to_string(&encoded_image, pixel_size, base_color).unwrap();
    assert_eq!(decoded_string, "Hello, World!");

    // Decoding with the wrong base color should fail
    let wrong_base_color: (u8, u8, u8) = (255, 255, 255);
    let result = decode_pixels_to_string(&encoded_image, pixel_size, wrong_base_color).unwrap();
    assert_ne!(result, "Hello, World!")
}

#[test]
fn test_count_overflow_pixels() {
    // Case 1 - no overflow pixels, because the base color is 0,0,0
    let case1_chunks: Vec<Vec<u8>> = vec![vec![0, 0, 0], vec![0, 0, 0], vec![0, 0, 0]];
    let case1_base: (u8, u8, u8) = (0, 0, 0);
    assert_eq!(count_overflow_pixels(&case1_chunks, case1_base), 0);

    // Case 2 - 9 overflow pixels, because the base color is on the limit and all of the pixels will overflow
    let case2_chunks: Vec<Vec<u8>> = vec![
        vec![255, 255, 255],
        vec![255, 255, 255],
        vec![255, 255, 255],
    ];
    let case2_base: (u8, u8, u8) = (255, 255, 255);
    assert_eq!(count_overflow_pixels(&case2_chunks, case2_base), 9);

    // Case 3 - 6 overflow pixels, because the base color is fairly high, so some of them will overflow
    let case3_chunks: Vec<Vec<u8>> = vec![
        vec![100, 200, 200],
        vec![100, 100, 100],
        vec![200, 100, 200],
    ];
    let case3_base: (u8, u8, u8) = (200, 100, 100);
    assert_eq!(count_overflow_pixels(&case3_chunks, case3_base), 6);
}

#[test]
fn test_boundary_input_length() {
    // Exactly 765 bytes must succeed and round-trip
    let base: (u8, u8, u8) = (10, 20, 30);
    let s765: String = "a".repeat(765);
    let img = string_to_pixels(&s765, 1, base).unwrap();
    let decoded = decode_pixels_to_string(&img, 1, base).unwrap();
    assert_eq!(decoded, s765);

    // 766 bytes must fail with InputTooLarge
    let s766: String = "a".repeat(766);
    let r = string_to_pixels(&s766, 1, base);
    assert!(matches!(r, Err(CodecError::InputTooLarge)));
}

#[test]
fn test_invalid_pixel_size() {
    let r = string_to_pixels("hi", 0, (0, 0, 0));
    assert!(matches!(r, Err(CodecError::InvalidPixelSize)));

    let r2 = string_to_pixels("hi", 1024, (0, 0, 0));
    assert!(matches!(r2, Err(CodecError::InvalidPixelSize)));

    let img = string_to_pixels("hi", 1, (0, 0, 0)).unwrap();
    let r3 = decode_pixels_to_string(&img, 0, (0, 0, 0));
    assert!(matches!(r3, Err(CodecError::InvalidPixelSize)));
}

#[test]
fn test_overflow_roundtrip() {
    // Base high enough that every channel of every chunk overflows
    let input = "Hello, World!";
    let base: (u8, u8, u8) = (250, 250, 250);
    let pixel_size: u32 = 2;
    let img = string_to_pixels(input, pixel_size, base).unwrap();
    // 5 chunks + 13 overflow records + 1 separator = 19 blocks, on a 5x5 grid
    assert_eq!(img.width(), 10);
    assert_eq!(img.height(), 10);
    let decoded = decode_pixels_to_string(&img, pixel_size, base).unwrap();
    assert_eq!(decoded, input);
}

#[test]
fn test_empty_input_roundtrip() {
    let base: (u8, u8, u8) = (40, 50, 60);
    let img = string_to_pixels("", 3, base).unwrap();
    // One separator block on a 1x1 grid of 3-pixel blocks
    assert_eq!(img.width(), 3);
    assert_eq!(img.height(), 3);
    let decoded = decode_pixels_to_string(&img, 3, base).unwrap();
    assert_eq!(decoded, "");
}

#[test]
fn test_unicode_roundtrip() {
    let input = "héllo wörld ✓";
    let base: (u8, u8, u8) = (100, 150, 200);
    let img = string_to_pixels(input, 4, base).unwrap();
    let decoded = decode_pixels_to_string(&img, 4, base).unwrap();
    assert_eq!(decoded, input);
}

#[test]
fn test_trailing_zero_overstrip() {
    // An input whose last real byte is zero loses it to the padding strip;
    // this is the documented limitation of the zero-padding scheme.
    let input = "AB\u{0}";
    let base: (u8, u8, u8) = (5, 5, 5);
    let img = string_to_pixels(input, 2, base).unwrap();
    let decoded = decode_pixels_to_string(&img, 2, base).unwrap();
    assert_eq!(decoded, "AB");
}

#[test]
fn test_invalid_encoding_error() {
    // A hand-built canvas whose single data block decodes to bytes that are
    // not valid text
    let raw: Vec<u8> = vec![255, 200, 200, 255];
    let canvas = Canvas::from_raw_parts(1, 1, raw).unwrap();
    let r = decode_pixels_to_string(&canvas, 1, (0, 0, 0));
    assert!(matches!(r, Err(CodecError::InvalidEncoding)));
}

#[test]
fn test_no_separator_pure_data() {
    // A canvas with no separator block is read as pure data: the whole scan
    // stays in the data phase and no overflow correction happens.
    let raw: Vec<u8> = vec![104, 105, 0, 255];
    let canvas = Canvas::from_raw_parts(1, 1, raw).unwrap();
    let decoded = decode_pixels_to_string(&canvas, 1, (0, 0, 0)).unwrap();
    assert_eq!(decoded, "hi");
}

#[test]
fn test_raw_parts_roundtrip() {
    let input = "Rebuild me";
    let base: (u8, u8, u8) = (9, 9, 9);
    let img = string_to_pixels(input, 3, base).unwrap();
    let w = img.width();
    let h = img.height();
    let raw = img.into_raw_parts();
    assert_eq!(raw.len(), (4 * w * h) as usize);

    // A buffer of the wrong length is rejected
    assert!(Canvas::from_raw_parts(w + 1, h, raw.clone()).is_none());

    let rebuilt = Canvas::from_raw_parts(w, h, raw).unwrap();
    let decoded = decode_pixels_to_string(&rebuilt, 3, base).unwrap();
    assert_eq!(decoded, input);
}

#[test]
fn test_wrong_key_differs() {
    let input = "secret message";
    let img = string_to_pixels(input, 1, (17, 34, 51)).unwrap();
    let r = decode_pixels_to_string(&img, 1, (18, 34, 51));
    // A wrong key either fails outright or yields different text
    match r {
        Ok(s) => assert_ne!(s, input),
        Err(e) => assert_eq!(e, CodecError::InvalidEncoding),
    }
}

#[test]
fn test_add_with_overflow() {
    assert_eq!(pyxelium::add_with_overflow(200, 100), (255, 45));
    assert_eq!(pyxelium::add_with_overflow(100, 100), (200, 0));
    assert_eq!(pyxelium::add_with_overflow(255, 255), (255, 255));
    assert_eq!(pyxelium::add_with_overflow(0, 0), (0, 0));
}
