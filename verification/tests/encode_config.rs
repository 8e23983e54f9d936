//! Tests for the byte encodings and the settings record.

use digit_ink::config::TrainerConfig;
use digit_ink::encode::{bmp_encode_gray, pack_sample_u8, to_level};

#[test]
fn intensity_bytes_round_to_nearest() {
    assert_eq!(to_level(0, false), 0);
    assert_eq!(to_level(36100, false), 255);
    // Half of the scale rounds up: 127.5 -> 128.
    assert_eq!(to_level(18050, false), 128);
    // One unit over the scale clamps.
    assert_eq!(to_level(40000, false), 255);
    // Inversion flips within the scale.
    assert_eq!(to_level(0, true), 255);
    assert_eq!(to_level(36100, true), 0);
    // 361/36100 is 1% of full intensity: 2.55 rounds to 3.
    assert_eq!(to_level(361, false), 3);
}

#[test]
fn packed_sample_has_one_byte_per_pixel() {
    let mut img = vec![0u32; 784];
    img[0] = 36100;
    img[1] = 18050;
    img[783] = 361;
    let bytes = pack_sample_u8(&img);
    assert_eq!(bytes.len(), 784);
    assert_eq!(bytes[0], 255);
    assert_eq!(bytes[1], 128);
    assert_eq!(bytes[2], 0);
    assert_eq!(bytes[783], 3);
}

#[test]
fn bitmap_header_and_rows_are_exact() {
    // A 2x2 image: white, black / black, white.
    let img = vec![36100u32, 0, 0, 36100];
    let bytes = bmp_encode_gray(2, 2, &img, false);
    // Row stride: 2 pixels * 3 bytes, padded to 8; two rows of pixel data.
    assert_eq!(bytes.len(), 54 + 16);
    assert_eq!(&bytes[0..2], b"BM");
    assert_eq!(&bytes[2..6], &[70, 0, 0, 0]);
    assert_eq!(&bytes[6..10], &[0, 0, 0, 0]);
    assert_eq!(&bytes[10..14], &[54, 0, 0, 0]);
    assert_eq!(&bytes[14..18], &[40, 0, 0, 0]);
    assert_eq!(&bytes[18..22], &[2, 0, 0, 0]);
    assert_eq!(&bytes[22..26], &[2, 0, 0, 0]);
    assert_eq!(&bytes[26..28], &[1, 0]);
    assert_eq!(&bytes[28..30], &[24, 0]);
    assert_eq!(&bytes[30..34], &[0, 0, 0, 0]);
    assert_eq!(&bytes[34..38], &[16, 0, 0, 0]);
    // 2835 pixels per meter, little-endian, on both axes.
    assert_eq!(&bytes[38..42], &[0x13, 0x0B, 0, 0]);
    assert_eq!(&bytes[42..46], &[0x13, 0x0B, 0, 0]);
    assert_eq!(&bytes[46..54], &[0, 0, 0, 0, 0, 0, 0, 0]);
    // Bottom-up: the first stored row is the image's second row.
    assert_eq!(&bytes[54..62], &[0, 0, 0, 255, 255, 255, 0, 0]);
    assert_eq!(&bytes[62..70], &[255, 255, 255, 0, 0, 0, 0, 0]);
}

#[test]
fn bitmap_invert_flips_intensities() {
    let img = vec![36100u32, 0, 0, 36100];
    let bytes = bmp_encode_gray(2, 2, &img, true);
    assert_eq!(&bytes[54..60], &[255, 255, 255, 0, 0, 0]);
}

#[test]
fn default_settings_match_the_stock_model() {
    let c = TrainerConfig::default();
    assert_eq!(c.epoch, 20);
    assert_eq!(c.data_dir, "data/");
    assert_eq!(c.out_path, "models/mnist.ot");
    assert_eq!(c.image_dim, 784);
    assert_eq!(c.hidden, 128);
    assert_eq!(c.labels, 10);
}
