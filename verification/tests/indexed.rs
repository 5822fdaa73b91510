use pngstreamdec::palette::expand_indexed_inplace;
use pngstreamdec::scanlines::{deliver_lines, Delivery, Layout};

const PALETTE: [[u8; 3]; 3] = [[10, 11, 12], [20, 21, 22], [30, 31, 32]];

#[test]
fn bytes_expand_to_colours() {
    let mut buffer = vec![0u8; 9];
    buffer[..3].copy_from_slice(&[2, 0, 1]);
    expand_indexed_inplace(&PALETTE, &[], 8, &mut buffer, 1, 3, 9);
    assert_eq!(buffer, vec![30, 31, 32, 10, 11, 12, 20, 21, 22]);
}

#[test]
fn transparency_adds_alpha() {
    let mut buffer = vec![0u8; 12];
    buffer[..3].copy_from_slice(&[0, 1, 2]);
    expand_indexed_inplace(&PALETTE, &[5, 6], 8, &mut buffer, 1, 3, 12);
    assert_eq!(buffer, vec![10, 11, 12, 5, 20, 21, 22, 6, 30, 31, 32, 255]);
}

#[test]
fn missing_entries_are_black_and_opaque() {
    let mut buffer = vec![9u8, 0, 0, 0];
    expand_indexed_inplace(&PALETTE, &[5], 8, &mut buffer, 1, 1, 4);
    assert_eq!(buffer, vec![0, 0, 0, 255]);
}

#[test]
fn packed_indices_start_at_the_low_bits() {
    let mut buffer = vec![0u8; 12];
    buffer[0] = 0b10_01_00_01;
    expand_indexed_inplace(&PALETTE, &[], 2, &mut buffer, 1, 1, 12);
    assert_eq!(buffer, vec![20, 21, 22, 10, 11, 12, 20, 21, 22, 30, 31, 32]);
}

#[test]
fn rows_expand_in_place() {
    let mut buffer = vec![0u8; 12];
    buffer[..4].copy_from_slice(&[0, 1, 2, 0]);
    expand_indexed_inplace(&PALETTE, &[], 8, &mut buffer, 2, 2, 6);
    assert_eq!(buffer, vec![10, 11, 12, 20, 21, 22, 30, 31, 32, 10, 11, 12]);
}

#[test]
fn rows_expand_alike_together_and_alone() {
    let mut together = vec![0u8; 18];
    together[..6].copy_from_slice(&[0, 1, 2, 2, 1, 0]);
    expand_indexed_inplace(&PALETTE, &[], 8, &mut together, 2, 3, 9);
    for (row, indices) in [[0u8, 1, 2], [2, 1, 0]].iter().enumerate() {
        let mut alone = vec![0u8; 9];
        alone[..3].copy_from_slice(indices);
        expand_indexed_inplace(&PALETTE, &[], 8, &mut alone, 1, 3, 9);
        assert_eq!(&together[row * 9..row * 9 + 9], &alone[..]);
    }
}

#[test]
fn deeper_indices_than_a_byte_expand_to_nothing() {
    let mut buffer = vec![1u8, 2, 3, 4, 5, 6];
    expand_indexed_inplace(&PALETTE, &[], 16, &mut buffer, 1, 4, 6);
    assert_eq!(buffer, vec![1, 2, 3, 4, 5, 6]);
}

#[test]
fn indexed_lines_are_delivered_with_what_is_behind_them() {
    let layout = Layout {
        color_type: 3,
        bit_depth: 8,
        bytes_per_pixel: 1,
        bytes_per_scanline: 2,
        output_stride: 6,
    };
    // Two scanlines, the second filtered with "up", and the start of a third.
    let mut buffer = vec![0, 0, 1, 2, 1, 255, 0, 7];
    let mut prev = vec![0u8, 0];
    let delivery = deliver_lines(&layout, &PALETTE, &[], &mut buffer, &mut prev, 2);
    assert_eq!(delivery, Some(Delivery { lines: 2, size: 12, spent: 12 }));
    assert_eq!(buffer, vec![10, 11, 12, 20, 21, 22, 20, 21, 22, 10, 11, 12, 0, 7]);
    assert_eq!(prev, vec![1, 0]);
}

#[test]
fn plain_lines_are_delivered_at_the_front() {
    let layout = Layout {
        color_type: 0,
        bit_depth: 8,
        bytes_per_pixel: 1,
        bytes_per_scanline: 2,
        output_stride: 2,
    };
    let mut buffer = vec![1, 5, 6, 2, 1, 1, 0];
    let mut prev = vec![0u8, 0];
    let delivery = deliver_lines(&layout, &[], &[], &mut buffer, &mut prev, 9);
    assert_eq!(delivery, Some(Delivery { lines: 2, size: 4, spent: 6 }));
    assert_eq!(&buffer[..4], &[5, 11, 6, 12]);
    assert_eq!(&buffer[6..], &[0]);
    assert_eq!(prev, vec![6, 12]);
}

#[test]
fn lines_that_do_not_fit_are_left_alone() {
    // Three pixels of one bit take a whole byte, which stands for eight.
    let layout = Layout {
        color_type: 3,
        bit_depth: 1,
        bytes_per_pixel: 1,
        bytes_per_scanline: 1,
        output_stride: 9,
    };
    let mut buffer = vec![0, 5];
    let mut prev = vec![3u8];
    assert_eq!(deliver_lines(&layout, &PALETTE, &[], &mut buffer, &mut prev, 1), None);
    assert_eq!(buffer, vec![0, 5]);
    assert_eq!(prev, vec![3]);
}

#[test]
fn paeth_window_is_eight_bytes() {
    let layout = Layout {
        color_type: 6,
        bit_depth: 24,
        bytes_per_pixel: 12,
        bytes_per_scanline: 12,
        output_stride: 12,
    };
    let mut buffer = vec![4u8; 13];
    let mut prev = vec![0u8; 12];
    assert_eq!(deliver_lines(&layout, &[], &[], &mut buffer, &mut prev, 1), None);
    buffer[0] = 2;
    assert_eq!(
        deliver_lines(&layout, &[], &[], &mut buffer, &mut prev, 1),
        Some(Delivery { lines: 1, size: 12, spent: 13 })
    );
}
