use pngstreamdec::budget::{bytes_per_row, rows_for_budget, rows_within, Batch, BASELINE_BYTES};
use pngstreamdec::error::PngError;
use pngstreamdec::last_error::{get_last_error, record_failure, set_last_error, LastError};
use pngstreamdec::metadata::{
    intent_name, unit_name, AuxiliaryMetadata, ReportLine, TextChunk,
};
use pngstreamdec::report::{text_lines, write_modified, Measured};

#[test]
fn nothing_to_report() {
    assert!(AuxiliaryMetadata::new().report(3, 4).is_empty());
}

#[test]
fn everything_to_report() {
    let mut meta = AuxiliaryMetadata::new();
    meta.has_gamma = true;
    meta.gamma = 45455;
    meta.has_srgb = true;
    meta.srgb_intent = 2;
    meta.has_chrm = true;
    meta.chrm_data = [1, 2, 3, 4, 5, 6, 7, 8];
    meta.has_phys = true;
    meta.phys_x = 10;
    meta.phys_y = 20;
    meta.phys_unit = 1;
    meta.histogram = vec![5, 6, 7];
    meta.bkgd_bytes = vec![0, 1];
    meta.has_time = true;
    meta.unix_epoch = -5;
    for keyword in ["Title", "Author"] {
        meta.text_chunks.push(TextChunk { keyword: keyword.to_string(), text: String::new() });
    }
    assert_eq!(
        meta.report(30, 40),
        vec![
            ReportLine::Gamma(45455),
            ReportLine::Intent(2),
            ReportLine::Chromaticities([1, 2, 3, 4, 5, 6, 7, 8]),
            ReportLine::Resolution { x: 10, y: 20, unit: 1 },
            ReportLine::Size { width: 30, height: 40, x: 10, y: 20 },
            ReportLine::AspectRatio { x: 10, y: 20 },
            ReportLine::HistogramLen(3),
            ReportLine::Background,
            ReportLine::Modified(-5),
            ReportLine::TextHeading,
            ReportLine::Text(0),
            ReportLine::Text(1),
        ]
    );
}

#[test]
fn size_needs_unit_and_resolutions() {
    let mut meta = AuxiliaryMetadata::new();
    meta.has_phys = true;
    meta.phys_x = 10;
    assert_eq!(meta.report(1, 1), vec![ReportLine::Resolution { x: 10, y: 0, unit: 0 }]);
    meta.phys_y = 5;
    assert_eq!(
        meta.report(1, 1),
        vec![
            ReportLine::Resolution { x: 10, y: 5, unit: 0 },
            ReportLine::AspectRatio { x: 10, y: 5 }
        ]
    );
    meta.phys_unit = 1;
    meta.phys_x = 0;
    assert_eq!(
        meta.report(1, 1),
        vec![
            ReportLine::Resolution { x: 0, y: 5, unit: 1 },
            ReportLine::AspectRatio { x: 0, y: 5 }
        ]
    );
}

#[test]
fn histogram_contents_do_not_matter() {
    let mut a = AuxiliaryMetadata::new();
    a.histogram = vec![1, 2];
    let mut b = AuxiliaryMetadata::new();
    b.histogram = vec![3, 4];
    assert_eq!(a.report(1, 1), b.report(1, 1));
}

fn measured() -> Measured {
    Measured {
        width_cm: "1.500".to_string(),
        height_cm: "2.250".to_string(),
        aspect_ratio: "0.500000".to_string(),
        modified: Some("Sunday".to_string()),
    }
}

fn line(meta: &AuxiliaryMetadata, line: ReportLine) -> String {
    let mut out = b"> ".to_vec();
    meta.write_line(&mut out, line, &measured());
    String::from_utf8(out).unwrap()[2..].to_string()
}

#[test]
fn texts_are_reported_whole() {
    let mut meta = AuxiliaryMetadata::new();
    let long = "Grüße, \u{1f600} ".repeat(500);
    for text in ["short", long.as_str()] {
        meta.text_chunks.push(TextChunk { keyword: "Comment".to_string(), text: text.to_string() });
    }
    for (i, entry) in meta.report(1, 1)[1..].iter().enumerate() {
        let expected = format!(
            "   [{}] Keyword : \"{}\"\n       Text    : \"{}\"\n",
            i, meta.text_chunks[i].keyword, meta.text_chunks[i].text
        );
        assert_eq!(line(&meta, *entry), expected);
        let mut out = Vec::new();
        text_lines(&mut out, i, &meta.text_chunks[i]);
        assert_eq!(out, expected.into_bytes());
    }
    assert_eq!(line(&meta, ReportLine::Text(2)), "");
}

#[test]
fn lines_of_the_report() {
    let mut meta = AuxiliaryMetadata::new();
    assert_eq!(
        line(&meta, ReportLine::Intent(3)),
        " sRGB Intent          : Absolute Colorimetric (3)\n"
    );
    assert_eq!(
        line(&meta, ReportLine::Resolution { x: 2835, y: 10, unit: 1 }),
        "  Physical pixel dimensions (pHYs):\n   Resolution: 2835 x 10 pixels/meter\n"
    );
    assert_eq!(
        line(&meta, ReportLine::HistogramLen(256)),
        " Histogram (hIST)     : [Large Block - Elements: 256]\n"
    );
    assert_eq!(line(&meta, ReportLine::TextHeading), " Text Content Fields  :\n");
    for bytes in [vec![], vec![7], vec![0, 255, 10]] {
        meta.bkgd_bytes = bytes;
        assert_eq!(
            line(&meta, ReportLine::Background),
            format!(" Background (bKGD)    : Raw Payload Bytes {:?}\n", meta.bkgd_bytes)
        );
    }
    assert_eq!(
        line(&meta, ReportLine::Size { width: 3, height: 9, x: 200, y: 400 }),
        "   Size: 1.500 cm x 2.250 cm\n"
    );
    assert_eq!(
        line(&meta, ReportLine::AspectRatio { x: 200, y: 400 }),
        "   Aspect ratio: 0.500000\n"
    );
    assert_eq!(line(&meta, ReportLine::Modified(5)), " Modification (tIME)  : Sunday\n");
}

#[test]
fn hundred_thousandths_have_five_places() {
    let meta = AuxiliaryMetadata::new();
    for n in [0u32, 1, 9, 45455, 99_999, 100_000, 123_456, 220_000, 4_294_900_001, u32::MAX] {
        assert_eq!(
            line(&meta, ReportLine::Gamma(n)),
            format!(" Gamma (gAMA)         : {:.5}\n", n as f64 / 100_000.0)
        );
    }
    assert_eq!(
        line(
            &meta,
            ReportLine::Chromaticities([31270, 32900, 64000, 33000, 30000, 60000, 15000, 6000])
        ),
        " Chromaticities (cHRM):\n   White Point : X=0.31270, Y=0.32900\n   Red Channel : X=0.64000, Y=0.33000\n   Green Chan. : X=0.30000, Y=0.60000\n   Blue Channel: X=0.15000, Y=0.06000\n"
    );
}

#[test]
fn time_without_one_form_is_told_in_seconds() {
    for epoch in [0i64, 7, -1, -86_400, i64::MIN, i64::MAX] {
        let mut out = Vec::new();
        write_modified(&mut out, epoch, None);
        assert_eq!(
            String::from_utf8(out).unwrap(),
            format!(" Modification (tIME)  : Raw Timestamp Epoch ({} seconds)\n", epoch)
        );
    }
    let mut out = b"> ".to_vec();
    write_modified(&mut out, 9, Some("Friday, May 01, 2026"));
    assert_eq!(out, b">  Modification (tIME)  : Friday, May 01, 2026\n".to_vec());
}

#[test]
fn whole_report() {
    let mut meta = AuxiliaryMetadata::new();
    let mut out = Vec::new();
    meta.write_report(&mut out, 1, 1, &measured());
    assert_eq!(
        String::from_utf8(out).unwrap(),
        "\n================= PNG METADATA REPORT =================\n=======================================================\n\n"
    );
    meta.has_gamma = true;
    meta.gamma = 45455;
    meta.has_time = true;
    let mut out = Vec::new();
    meta.write_report(&mut out, 1, 1, &measured());
    assert_eq!(
        String::from_utf8(out).unwrap(),
        "\n================= PNG METADATA REPORT =================\n Gamma (gAMA)         : 0.45455\n Modification (tIME)  : Sunday\n=======================================================\n\n"
    );
}

#[test]
fn names_of_intents_and_units() {
    assert_eq!(intent_name(0), "Perceptual");
    assert_eq!(intent_name(1), "Relative Colorimetric");
    assert_eq!(intent_name(2), "Saturation");
    assert_eq!(intent_name(3), "Absolute Colorimetric");
    assert_eq!(intent_name(4), "Unknown/Reserved");
    assert_eq!(unit_name(1), "pixels/meter");
    assert_eq!(unit_name(0), "unknown");
    assert_eq!(unit_name(2), "unknown");
}

#[test]
fn rows_hold_more_while_converted() {
    assert_eq!(bytes_per_row(100, 0), Some(400));
    assert_eq!(bytes_per_row(100, 4), Some(300));
    assert_eq!(bytes_per_row(100, 2), Some(100));
    assert_eq!(bytes_per_row(usize::MAX, 6), Some(usize::MAX));
    assert_eq!(bytes_per_row(usize::MAX, 4), None);
    assert_eq!(bytes_per_row(usize::MAX / 3, 0), None);
}

#[test]
fn budget_gives_rows() {
    assert_eq!(BASELINE_BYTES, 2_910_536);
    assert_eq!(rows_for_budget(0, 0), Batch { rows: 1, budget_too_low: true });
    assert_eq!(rows_for_budget(BASELINE_BYTES, 7), Batch { rows: 1, budget_too_low: true });
    assert_eq!(
        rows_for_budget(BASELINE_BYTES + 99, 10),
        Batch { rows: 9, budget_too_low: false }
    );
    assert_eq!(rows_for_budget(BASELINE_BYTES + 9, 10), Batch { rows: 1, budget_too_low: false });
    // Only the low 32 bits of the count are kept.
    assert_eq!(
        rows_for_budget(BASELINE_BYTES + (1usize << 32) + 5, 1),
        Batch { rows: 5, budget_too_low: false }
    );
    assert_eq!(
        rows_for_budget(BASELINE_BYTES + (1usize << 32), 1),
        Batch { rows: 1, budget_too_low: false }
    );
}

#[test]
fn batch_stays_within_budget() {
    for (left, row) in [(1000usize, 7usize), (7, 7), (5_000_000, 4096)] {
        let rows = rows_for_budget(BASELINE_BYTES + left, row).rows as usize;
        assert!(rows >= 1 && rows * row <= left);
    }
}

#[test]
fn bytes_give_rows() {
    assert_eq!(rows_within(4_980_736, 1920), 2594);
    assert_eq!(rows_within(100, 101), 1);
    assert_eq!(rows_within(0, 5), 1);
    assert_eq!(rows_within(100, (1usize << 32) + 10), 10);
}

#[test]
fn last_error_is_kept() {
    let mut last = LastError::new();
    assert_eq!(get_last_error(&last), "");
    set_last_error(&mut last, "first");
    assert_eq!(get_last_error(&last), "first");
    record_failure(&mut last, &PngError::NotPng);
    assert_eq!(get_last_error(&last), "Not a valid PNG file");
}

#[test]
fn messages_of_errors() {
    let expected = [
        (PngError::MagicUnreadable, "Failed to read magic"),
        (PngError::NotPng, "Not a valid PNG file"),
        (PngError::EndOfFile, "EOF reached"),
        (PngError::IhdrMissing, "First chunk must be IHDR"),
        (PngError::IhdrUnreadable, "Failed to read IHDR payload"),
        (PngError::IhdrCrcUnreadable, "Failed to read IHDR CRC"),
        (PngError::IhdrCorrupt, "Corrupt IHDR chunk (CRC mismatch)"),
        (PngError::Interlaced, "Adam7 Interlacing is not supported"),
        (PngError::UnknownColorType, "Unknown color type"),
        (PngError::PlteUnreadable, "Failed to read PLTE"),
        (PngError::PlteCrcUnreadable, "Failed to read PLTE CRC"),
        (PngError::PlteCorrupt, "Corrupt PLTE chunk (CRC mismatch)"),
        (PngError::TrnsUnreadable, "Failed to read tRNS"),
        (PngError::TrnsCrcUnreadable, "Failed to read tRNS CRC"),
    ];
    for (error, text) in expected {
        assert_eq!(error.message(), text);
        assert!(!text.is_empty() && !text.contains('\0'));
    }
}
