use mandelbrot::export::{encode_image, is_countable, refusal, settle, Refusal};

const SIGNATURE: [u8; 8] = [137, 80, 78, 71, 13, 10, 26, 10];
const END: [u8; 12] = [0, 0, 0, 0, 73, 69, 78, 68, 174, 66, 96, 130];

#[test]
fn encode_image_writes_a_png_file() {
    let pixels: Vec<u8> = (0u8..12).map(|i| i * 20).collect();
    let file = encode_image(&pixels, (4, 3)).unwrap();
    assert_ne!(file, pixels);
    assert_eq!(&file[..8], &SIGNATURE);
    // the header: length 13, IHDR, width 4, height 3, eight bits, grey
    assert_eq!(&file[8..16], &[0, 0, 0, 13, 73, 72, 68, 82]);
    assert_eq!(&file[16..24], &[0, 0, 0, 4, 0, 0, 0, 3]);
    assert_eq!(&file[24..26], &[8, 0]);
    assert_eq!(&file[file.len() - 12..], &END);

    let read = image::load_from_memory(&file).unwrap().to_luma();
    assert_eq!(read.dimensions(), (4, 3));
    assert_eq!(read.into_raw(), pixels);
}

fn reason_of(outcome: Result<Vec<u8>, mandelbrot::export::ImageError>) -> Result<Vec<u8>, Refusal> {
    outcome.map_err(|error| error.reason)
}

#[test]
fn encode_image_gives_the_same_file_for_the_same_image() {
    let pixels = vec![17u8; 6];
    let first = encode_image(&pixels, (3, 2)).unwrap();
    assert_eq!(encode_image(&pixels, (3, 2)).unwrap(), first);
    assert_ne!(encode_image(&pixels, (2, 3)).unwrap(), first);
}

#[test]
fn encode_image_refuses_what_is_no_image() {
    assert_eq!(reason_of(encode_image(&[], (0, 0))), Err(Refusal::ZeroWidth));
    assert_eq!(reason_of(encode_image(&[], (0, 5))), Err(Refusal::ZeroWidth));
    assert_eq!(reason_of(encode_image(&[], (5, 0))), Err(Refusal::ZeroHeight));
    assert_eq!(reason_of(encode_image(&[1, 2, 3], (2, 2))), Err(Refusal::WrongLength));
    assert_eq!(reason_of(encode_image(&[1, 2, 3, 4, 5], (2, 2))), Err(Refusal::WrongLength));
    assert_eq!(reason_of(encode_image(&[], (1, 1))), Err(Refusal::WrongLength));
    assert_eq!(reason_of(encode_image(&[], (65536, 65536))), Err(Refusal::WrongLength));
    assert!(encode_image(&[1, 2, 3, 4], (2, 2)).is_ok());
}

#[test]
fn encode_image_hands_on_the_error_of_the_encoder() {
    let refused = encode_image(&[1, 2, 3], (2, 2)).unwrap_err();
    assert_eq!(refused.reason, Refusal::WrongLength);
    let source = refused.source.unwrap();
    assert_eq!(source.kind(), std::io::ErrorKind::Other);
    assert!(source.to_string().contains("expected 4 got 3"), "{}", source);

    let empty = encode_image(&[], (0, 3)).unwrap_err();
    assert_eq!(empty.reason, Refusal::ZeroWidth);
    assert!(empty.source.unwrap().to_string().contains("Zero width"));
}

#[test]
fn encode_image_looks_at_the_low_bits_of_a_dimension() {
    let pixels = vec![5u8; 6];
    let wide = (1usize << 32) + 3;
    assert_eq!(encode_image(&pixels, (wide, 2)).unwrap(), encode_image(&pixels, (3, 2)).unwrap());
    assert_eq!(reason_of(encode_image(&pixels, (1usize << 32, 2))), Err(Refusal::ZeroWidth));
    assert_eq!(reason_of(encode_image(&pixels, (3, 1usize << 32))), Err(Refusal::ZeroHeight));
}

#[test]
fn every_image_can_be_counted_where_addresses_have_64_bits() {
    assert_eq!(usize::BITS, 64);
    assert!(is_countable(0, 0));
    assert!(is_countable(65536, 65536));
    assert!(is_countable(u32::MAX, u32::MAX));
    assert_eq!(refusal(0, 0), Refusal::ZeroWidth);
    assert_eq!(refusal(0, 9), Refusal::ZeroWidth);
    assert_eq!(refusal(9, 0), Refusal::ZeroHeight);
    assert_eq!(refusal(u32::MAX, 0), Refusal::ZeroHeight);
    assert_eq!(refusal(9, 9), Refusal::WrongLength);
    assert_eq!(refusal(u32::MAX, u32::MAX), Refusal::WrongLength);
}

#[test]
fn settle_keeps_the_file_and_the_error() {
    let refused = || std::io::Error::new(std::io::ErrorKind::InvalidData, "refused");
    assert_eq!(settle(Ok(vec![1, 2, 3]), 4, 5).unwrap(), vec![1, 2, 3]);
    assert_eq!(settle(Ok(vec![]), 0, 0).unwrap(), Vec::<u8>::new());
    for (width, height, reason) in [
        (0, 0, Refusal::ZeroWidth),
        (0, 7, Refusal::ZeroWidth),
        (7, 0, Refusal::ZeroHeight),
        (7, 7, Refusal::WrongLength),
    ] {
        let settled = settle(Err(refused()), width, height).unwrap_err();
        assert_eq!(settled.reason, reason);
        let source = settled.source.unwrap();
        assert_eq!(source.kind(), std::io::ErrorKind::InvalidData);
        assert_eq!(source.to_string(), "refused");
    }
}
