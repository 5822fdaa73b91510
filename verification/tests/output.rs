use pngstreamdec::metadata::AuxiliaryMetadata;
use pngstreamdec::netpbm::{push_decimal, push_picked, push_text};
use pngstreamdec::pam;
use pngstreamdec::ppm;

fn ppm_8(raw: &[u8], color_type: u8) -> Vec<u8> {
    let mut out = vec![99];
    ppm::write_rgb_8bit(&mut out, raw, color_type);
    assert_eq!(out.remove(0), 99);
    out
}

fn ppm_16(raw: &[u8], color_type: u8) -> Vec<u8> {
    let mut out = Vec::new();
    ppm::write_rgb_16bit(&mut out, raw, color_type);
    out
}

fn pam_8(raw: &[u8], color_type: u8) -> Vec<u8> {
    let mut out = vec![99];
    pam::write_rgb_8bit(&mut out, raw, color_type);
    assert_eq!(out.remove(0), 99);
    out
}

fn pam_16(raw: &[u8], color_type: u8) -> Vec<u8> {
    let mut out = Vec::new();
    pam::write_rgb_16bit(&mut out, raw, color_type);
    out
}

#[test]
fn pixmap_of_one_byte_samples() {
    assert_eq!(ppm_8(&[1, 2], 0), vec![1, 1, 1, 2, 2, 2]);
    assert_eq!(ppm_8(&[1, 2, 3], 2), vec![1, 2, 3]);
    assert_eq!(ppm_8(&[1, 2, 3], 3), vec![1, 2, 3]);
    assert_eq!(ppm_8(&[1, 2, 3, 4], 4), vec![1, 1, 1, 3, 3, 3]);
    assert_eq!(ppm_8(&[1, 2, 3, 4, 5, 6, 7, 8], 6), vec![1, 2, 3, 5, 6, 7]);
    assert_eq!(ppm_8(&[1, 2, 3, 4], 5), Vec::<u8>::new());
}

#[test]
fn pixmap_of_two_byte_samples() {
    assert_eq!(ppm_16(&[1, 2, 3, 4], 0), vec![1, 2, 1, 2, 1, 2, 3, 4, 3, 4, 3, 4]);
    assert_eq!(ppm_16(&[1, 2, 3, 4, 5, 6], 2), vec![1, 2, 3, 4, 5, 6]);
    assert_eq!(ppm_16(&[1, 2, 3], 3), Vec::<u8>::new());
    assert_eq!(ppm_16(&[1, 2, 3, 4], 4), vec![1, 2, 1, 2, 1, 2]);
    assert_eq!(ppm_16(&[1, 2, 3, 4, 5, 6, 7, 8], 6), vec![1, 2, 3, 4, 5, 6]);
    assert_eq!(ppm_16(&[1, 2], 1), Vec::<u8>::new());
}

#[test]
fn arbitrary_map_of_one_byte_samples() {
    assert_eq!(pam_8(&[1, 2], 0), vec![1, 1, 1, 2, 2, 2]);
    assert_eq!(pam_8(&[1, 2, 3], 2), vec![1, 2, 3]);
    assert_eq!(pam_8(&[1, 2, 3], 3), vec![1, 2, 3]);
    assert_eq!(pam_8(&[1, 2, 3, 4], 4), vec![1, 1, 1, 2, 3, 3, 3, 4]);
    assert_eq!(pam_8(&[1, 2, 3, 4], 6), vec![1, 2, 3, 4]);
    assert_eq!(pam_8(&[1, 2], 7), Vec::<u8>::new());
}

#[test]
fn arbitrary_map_of_two_byte_samples() {
    assert_eq!(pam_16(&[1, 2], 0), vec![1, 2, 1, 2, 1, 2]);
    assert_eq!(pam_16(&[1, 2, 3, 4, 5, 6], 2), vec![1, 2, 3, 4, 5, 6]);
    assert_eq!(pam_16(&[1, 2, 3], 3), Vec::<u8>::new());
    assert_eq!(pam_16(&[1, 2, 3, 4], 4), vec![1, 2, 1, 2, 1, 2, 3, 4]);
    assert_eq!(pam_16(&[1, 2, 3, 4, 5, 6, 7, 8], 6), vec![1, 2, 3, 4, 5, 6, 7, 8]);
}

#[test]
fn bytes_short_of_a_pixel_are_dropped() {
    assert_eq!(ppm_8(&[1, 2, 3, 4, 5, 6], 6), vec![1, 2, 3]);
    assert_eq!(ppm_16(&[1, 2, 3], 0), vec![1, 2, 1, 2, 1, 2]);
    assert_eq!(pam_8(&[1, 2, 3], 4), vec![1, 1, 1, 2]);
}

#[test]
fn depth_chooses_the_sample_size() {
    let mut one = Vec::new();
    ppm::write_rgb(&mut one, &[1, 2], 8, 0);
    assert_eq!(one, vec![1, 1, 1, 2, 2, 2]);
    let mut two = Vec::new();
    ppm::write_rgb(&mut two, &[1, 2], 16, 0);
    assert_eq!(two, vec![1, 2, 1, 2, 1, 2]);
    let mut alpha = Vec::new();
    pam::write_rgba(&mut alpha, &[1, 2, 3, 4], 16, 4);
    assert_eq!(alpha, vec![1, 2, 1, 2, 1, 2, 3, 4]);
    let mut bytes = Vec::new();
    pam::write_rgba(&mut bytes, &[1, 2, 3, 4], 8, 4);
    assert_eq!(bytes, vec![1, 1, 1, 2, 3, 3, 3, 4]);
}

#[test]
fn batches_join() {
    let rows: Vec<u8> = (0..48).collect();
    for (bit_depth, color_type) in [(8u8, 0u8), (8, 2), (8, 4), (8, 6), (16, 0), (16, 2), (16, 4), (16, 6)] {
        let mut once = Vec::new();
        ppm::write_rgb(&mut once, &rows, bit_depth, color_type);
        let mut parts = Vec::new();
        ppm::write_rgb(&mut parts, &rows[..24], bit_depth, color_type);
        ppm::write_rgb(&mut parts, &rows[24..], bit_depth, color_type);
        assert_eq!(once, parts);
        let mut once = Vec::new();
        pam::write_rgba(&mut once, &rows, bit_depth, color_type);
        let mut parts = Vec::new();
        pam::write_rgba(&mut parts, &rows[..24], bit_depth, color_type);
        pam::write_rgba(&mut parts, &rows[24..], bit_depth, color_type);
        assert_eq!(once, parts);
    }
}

#[test]
fn samples_of_a_pixel() {
    let row = [0u8; 48];
    for (bit_depth, color_type, pixels) in [(8u8, 0u8, 48usize), (8, 2, 16), (8, 4, 24), (8, 6, 12), (16, 6, 6)] {
        let sample = if bit_depth == 16 { 2 } else { 1 };
        let mut out = Vec::new();
        ppm::write_rgb(&mut out, &row, bit_depth, color_type);
        assert_eq!(out.len(), pixels * 3 * sample);
        let mut out = Vec::new();
        pam::write_rgba(&mut out, &row, bit_depth, color_type);
        let samples = if color_type == 4 || color_type == 6 { 4 } else { 3 };
        assert_eq!(out.len(), pixels * samples * sample);
    }
}

#[test]
fn alpha_is_left_out_of_pixmaps() {
    assert_eq!(ppm_8(&[1, 2, 3, 4], 6), ppm_8(&[1, 2, 3, 200], 6));
    assert_eq!(ppm_16(&[1, 2, 3, 4], 4), ppm_16(&[1, 2, 9, 9], 4));
}

#[test]
fn numbers_in_decimal() {
    for n in [0u64, 1, 9, 10, 99, 100, 12345, u64::MAX] {
        let mut out = Vec::new();
        push_decimal(&mut out, n);
        assert_eq!(out, n.to_string().into_bytes());
    }
}

#[test]
fn texts_and_picked_bytes() {
    let mut out = Vec::new();
    push_text(&mut out, "a b\n");
    push_picked(&mut out, &[1, 2, 3, 4, 5, 6, 7], 3, &[2, 0]);
    assert_eq!(out, vec![97, 32, 98, 10, 3, 1, 6, 4]);
}

#[test]
fn pixmap_header() {
    let mut out = Vec::new();
    ppm::write_header(&mut out, 640, 480, 8);
    assert_eq!(out, b"P6\n640 480\n255\n".to_vec());
    let mut out = Vec::new();
    ppm::write_header(&mut out, 1, 2, 16);
    assert_eq!(out, b"P6\n1 2\n65535\n".to_vec());
}

fn header(color_type: u8, bit_depth: u8, meta: &AuxiliaryMetadata) -> String {
    let mut out = Vec::new();
    pam::write_header(&mut out, 64, 32, bit_depth, color_type, meta, "0.50000");
    String::from_utf8(out).unwrap()
}

#[test]
fn header_without_resolution() {
    let meta = AuxiliaryMetadata::new();
    assert_eq!(header(2, 8, &meta), "P6\n\n64 32\n255\n");
    assert_eq!(
        header(6, 16, &meta),
        "P7\nWIDTH 64\nHEIGHT 32\nDEPTH 4\nMAXVAL 65535\nTUPLTYPE RGB_ALPHA\nENDHDR\n"
    );
}

#[test]
fn header_with_resolution() {
    let mut meta = AuxiliaryMetadata::new();
    meta.has_phys = true;
    meta.phys_x = 100;
    meta.phys_y = 200;
    meta.phys_unit = 1;
    assert_eq!(
        header(0, 8, &meta),
        "P6\n\n# Resolution: 100 x 200 pixels/meter\n\n# AspectRatio: 0.50000\n\n64 32\n255\n"
    );
    assert_eq!(
        header(4, 8, &meta),
        "P7\nWIDTH 64\nHEIGHT 32\nDEPTH 4\nMAXVAL 255\nTUPLTYPE RGB_ALPHA\n\n# Resolution: 100 x 200 pixels/meter\nENDHDR\n"
    );
    meta.phys_unit = 0;
    meta.phys_y = 0;
    assert_eq!(header(0, 8, &meta), "P6\n\n# Resolution: 100 x 0 unknown\n\n64 32\n255\n");
}

#[test]
fn alpha_swaps_the_extension() {
    assert!(pam::swaps_extension(4, b"ppm"));
    assert!(pam::swaps_extension(6, b"PpM"));
    assert!(!pam::swaps_extension(2, b"ppm"));
    assert!(!pam::swaps_extension(6, b"pam"));
    assert!(!pam::swaps_extension(6, b"pp"));
    assert!(!pam::swaps_extension(6, b"ppmx"));
    assert!(!pam::swaps_extension(6, b"pp-"));
}

#[test]
fn colour_types_have_names() {
    assert_eq!(pam::describe_color(0), (1, "Grayscale"));
    assert_eq!(pam::describe_color(2), (3, "RGB"));
    assert_eq!(pam::describe_color(3), (1, "Indexed (Paletted)"));
    assert_eq!(pam::describe_color(4), (2, "Grayscale + Alpha"));
    assert_eq!(pam::describe_color(6), (4, "RGB + Alpha (RGBA)"));
    assert_eq!(pam::describe_color(1), (1, "Unknown"));
    assert!(pam::has_alpha(4) && pam::has_alpha(6) && !pam::has_alpha(3));
}
