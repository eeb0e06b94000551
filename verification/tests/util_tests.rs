//! Tests of the front-end helpers: column-range parsing, range
//! expressions, fixed-width line splitting, masked diffing, and the
//! raster-rendering options.

use punchcard::{
    diff_text, lines_match_with_mask, parse_column_range, parse_range_expression,
    split_lines_fixed, CardImageStyle, ColumnRange, ImageRenderOptions, PageLayout,
};

#[test]
fn parse_column_range_accepts_start_end() {
    let r = parse_column_range("73-80").unwrap();
    assert_eq!((r.start, r.end), (73, 80));
    assert!(parse_column_range("73").is_err());
    assert!(parse_column_range("a-9").is_err());
    assert!(parse_column_range("9-5").is_err());
    assert!(parse_column_range("0-5").is_err());
    assert!(parse_column_range("1-81").is_err());
    assert!(parse_column_range("1-2-3").is_err());
}

#[test]
fn parse_range_expression_expands_and_dedups() {
    let idx = parse_range_expression("1..3,2,5", 6).unwrap();
    assert_eq!(idx, vec![0, 1, 2, 4]);
    let idx = parse_range_expression("2, 4..\u{24}", 5).unwrap();
    assert_eq!(idx, vec![1, 3, 4]);
    assert!(parse_range_expression("", 3).is_err());
    assert!(parse_range_expression("  ", 3).is_err());
    assert!(parse_range_expression("0", 3).is_err());
    assert!(parse_range_expression("4", 3).is_err());
    assert!(parse_range_expression("3..1", 3).is_err());
    assert!(parse_range_expression("$", 0).is_err());
    assert!(parse_range_expression("x", 3).is_err());
}

#[test]
fn split_lines_fixed_pads_and_truncates() {
    let lines = split_lines_fixed("SHORT\nTWO");
    assert_eq!(lines.len(), 2);
    assert_eq!(lines[0].len(), 80);
    assert!(lines[0].starts_with("SHORT"));
    let long: String = "B".repeat(95);
    let lines = split_lines_fixed(&long);
    assert_eq!(lines.len(), 1);
    assert_eq!(lines[0], "B".repeat(80));
    let lines = split_lines_fixed("");
    assert_eq!(lines, vec![" ".repeat(80)]);
}

#[test]
fn lines_match_ignores_masked_columns() {
    let mask = vec![ColumnRange::new(1, 2).unwrap()];
    assert!(lines_match_with_mask("XY REST", "AB REST", &mask));
    assert!(!lines_match_with_mask("XY REST", "XY RUST", &mask));
    assert!(lines_match_with_mask("SAME", "SAME", &[]));
    assert!(!lines_match_with_mask("SAME", "OTHER", &[]));
}

#[test]
fn diff_text_reports_each_differing_line() {
    let (report, changed) = diff_text("A\nB\nC", "A\nX\nC", &[]);
    assert!(changed);
    assert!(report.contains("line    2:"));
    assert!(report.contains("  expected |B|"));
    assert!(report.contains("  actual   |X|"));
    assert!(!report.contains("line    1:"));

    let (report, changed) = diff_text("A\nB", "A\nB", &[]);
    assert!(!changed);
    assert_eq!(report, "verification passed: no differences\n");
}

#[test]
fn render_options_clamp_dpi() {
    let opts = ImageRenderOptions { style: CardImageStyle::Plain, dpi: 10, layout: PageLayout::Card };
    assert_eq!(opts.clamped_dpi(), 72);
    let opts = ImageRenderOptions {
        style: CardImageStyle::Keypunch,
        dpi: 5000,
        layout: PageLayout::A4,
    };
    assert_eq!(opts.clamped_dpi(), 1200);
    let opts = ImageRenderOptions {
        style: CardImageStyle::Interpreter,
        dpi: 300,
        layout: PageLayout::Card,
    };
    assert_eq!(opts.clamped_dpi(), 300);
}
