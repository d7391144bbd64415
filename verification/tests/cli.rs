use reslicer::cli::{OrientMode, SupportMode};
use reslicer::pipeline::orientation_candidates;
use reslicer::printer::PrinterId;

#[test]
fn modes_default_to_auto() {
    assert_eq!(SupportMode::default(), SupportMode::Auto);
    assert_eq!(OrientMode::default(), OrientMode::Auto);
    assert_eq!(PrinterId::default(), PrinterId::Saturn3);
}

#[test]
fn orientation_candidates_cover_the_grid_then_no_tilt() {
    let candidates = orientation_candidates();
    assert_eq!(candidates.len(), 962);
    assert_eq!(candidates[0], (-75, -75));
    assert_eq!(candidates[1], (-75, -70));
    assert_eq!(candidates[31], (-70, -75));
    assert_eq!(candidates[480], (0, 0));
    assert_eq!(candidates[960], (75, 75));
    assert_eq!(candidates[961], (0, 0));
    assert!(candidates.contains(&(-10, 20)));
    assert!(candidates.contains(&(45, -5)));
}

use reslicer::cli::{length_unit, LengthUnit};

#[test]
fn length_units_are_read_from_the_suffix() {
    assert_eq!(length_unit(b"4in"), (1, LengthUnit::Inches));
    assert_eq!(length_unit(b"100mm"), (3, LengthUnit::Millimeters));
    assert_eq!(length_unit(b"2 inch"), (2, LengthUnit::Inches));
    assert_eq!(length_unit(b"3inches"), (1, LengthUnit::Inches));
    assert_eq!(length_unit(b"12.5"), (4, LengthUnit::Millimeters));
    assert_eq!(length_unit(b""), (0, LengthUnit::Millimeters));
    assert_eq!(length_unit(b"mm"), (0, LengthUnit::Millimeters));
}

use reslicer::cli::{ascii_lowercase, normalize_length, trimmed_bounds};

#[test]
fn lengths_are_trimmed_and_lower_cased() {
    assert_eq!(normalize_length(b"  4 IN\t"), b"4 in".to_vec());
    assert_eq!(normalize_length(" 100Mm\u{a0}".as_bytes()), b"100mm".to_vec());
    assert_eq!(normalize_length("\u{3000}2 Inches\u{2009}\n".as_bytes()), b"2 inches".to_vec());
    assert_eq!(normalize_length(b"   "), Vec::<u8>::new());
    assert_eq!(normalize_length("\u{e9}X".as_bytes()), "\u{e9}x".as_bytes().to_vec());
}

#[test]
fn trimmed_bounds_match_str_trim() {
    for text in ["", "  ", "abc", " a b ", "\u{85}x\u{2028}", "\u{1680}\u{205f}y\u{202f}", "z\u{3000}"] {
        let (start, end) = trimmed_bounds(text.as_bytes());
        assert_eq!(&text[start..end], text.trim());
    }
}

#[test]
fn ascii_lowercase_keeps_other_bytes() {
    assert_eq!(ascii_lowercase(b"AbZ-9[@", 0, 7), b"abz-9[@".to_vec());
    assert_eq!(ascii_lowercase(b"XYZ", 1, 2), b"y".to_vec());
}
