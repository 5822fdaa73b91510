use pngstreamdec::filter::unfilter_scanline_inplace;

/// Restores one scanline on its own.
fn restore(filter: u8, bpp: usize, above: &[u8], stored: &[u8]) -> (Vec<u8>, Vec<u8>) {
    let mut prev = above.to_vec();
    let mut buffer = stored.to_vec();
    unfilter_scanline_inplace(filter, bpp, stored.len(), &mut prev, &mut buffer, 0, 0);
    (buffer, prev)
}

#[test]
fn filter_none_copies() {
    let (row, prev) = restore(0, 3, &[9, 9, 9, 9], &[1, 2, 3, 4]);
    assert_eq!(row, vec![1, 2, 3, 4]);
    assert_eq!(prev, row);
}

#[test]
fn filter_sub_adds_the_left_pixel() {
    let (row, prev) = restore(1, 2, &[9, 9, 9, 9, 9], &[10, 20, 5, 250, 1]);
    assert_eq!(row, vec![10, 20, 15, 14, 16]);
    assert_eq!(prev, row);
}

#[test]
fn filter_up_adds_the_row_above() {
    let (row, prev) = restore(2, 1, &[1, 2, 255], &[10, 20, 30]);
    assert_eq!(row, vec![11, 22, 29]);
    assert_eq!(prev, row);
}

#[test]
fn filter_average_rounds_down() {
    let (row, prev) = restore(3, 1, &[3, 255, 200], &[10, 1, 200]);
    // 10 + 3 / 2, 1 + (11 + 255) / 2, 200 + (134 + 200) / 2
    assert_eq!(row, vec![11, 134, 111]);
    assert_eq!(prev, row);
}

#[test]
fn filter_paeth_picks_the_nearest() {
    let (row, prev) = restore(4, 1, &[10, 20, 5, 7], &[1, 1, 1, 1]);
    // The first byte is predicted from above; then left 11, up 20, up-left 10
    // gives up (20); left 21, up 5, up-left 20 gives up (5) at a distance of 1
    // against 15; left 6, up 7, up-left 5 gives up (7) at a distance of 1
    // against 2.
    assert_eq!(row, vec![11, 21, 6, 8]);
    assert_eq!(prev, row);
}

#[test]
fn filter_paeth_prefers_left_then_up() {
    // left == up == up-left: left wins the tie.
    let (row, _) = restore(4, 1, &[0, 0], &[0, 7]);
    assert_eq!(row, vec![0, 7]);
    // left 10, up 10, up-left 0: both at the same distance.
    let (row, _) = restore(4, 1, &[0, 10], &[10, 0]);
    assert_eq!(row, vec![10, 10]);
}

#[test]
fn filter_paeth_over_wide_pixels() {
    let above: Vec<u8> = (0..16).map(|i| (i * 13) as u8).collect();
    let wanted: Vec<u8> = (0..16).map(|i| (200 - i * 7) as u8).collect();
    let bpp = 8usize;
    let mut stored = Vec::new();
    for i in 0..16usize {
        let left = if i >= bpp { wanted[i - bpp] as i32 } else { 0 };
        let up = above[i] as i32;
        let corner = if i >= bpp { above[i - bpp] as i32 } else { 0 };
        let p = left + up - corner;
        let (pa, pb, pc) = ((p - left).abs(), (p - up).abs(), (p - corner).abs());
        let pick = if pa <= pb && pa <= pc {
            left
        } else if pb <= pc {
            up
        } else {
            corner
        };
        stored.push(wanted[i].wrapping_sub(pick as u8));
    }
    assert_eq!(restore(4, bpp, &above, &stored).0, wanted);
}

#[test]
fn unknown_filter_changes_nothing() {
    let (row, prev) = restore(5, 1, &[7, 8], &[1, 2]);
    assert_eq!(row, vec![1, 2]);
    assert_eq!(prev, vec![7, 8]);
}

#[test]
fn scanline_moves_to_the_front() {
    let mut prev = vec![100, 100, 100];
    let mut buffer = vec![0xaa, 1, 2, 3, 0xbb];
    unfilter_scanline_inplace(2, 1, 3, &mut prev, &mut buffer, 1, 0);
    assert_eq!(buffer, vec![101, 102, 103, 3, 0xbb]);
    assert_eq!(prev, vec![101, 102, 103]);
}

#[test]
fn short_row_above_is_enough_for_an_empty_scanline() {
    let mut prev: Vec<u8> = Vec::new();
    let mut buffer = vec![1u8];
    unfilter_scanline_inplace(1, 1, 0, &mut prev, &mut buffer, 1, 0);
    assert_eq!(buffer, vec![1]);
}
