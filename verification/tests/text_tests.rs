use muteapp::text::{chars_of, format_i32, parse_i32};

#[test]
fn format_i32_matches_display() {
    for n in [0, 7, 10, 255, 1000, -1, -240, i32::MAX, i32::MIN] {
        assert_eq!(format_i32(n), n.to_string());
    }
}

#[test]
fn parse_reads_back_format() {
    for n in [0, 1, -1, 96, 123456789, i32::MAX, i32::MIN] {
        assert_eq!(parse_i32(&format_i32(n)), Some(n));
    }
}

#[test]
fn parse_i32_matches_std() {
    for s in ["", "+", "-", "0", "+0", "-0", "12", " 12", "12 ", "1_0", "99999999999", "-2147483648", "2147483648", "+-3", "٣"] {
        assert_eq!(parse_i32(s), s.parse::<i32>().ok(), "input {s:?}");
    }
}

#[test]
fn chars_of_keeps_every_character() {
    assert_eq!(chars_of("aé\u{3000}z"), vec!['a', 'é', '\u{3000}', 'z']);
}
