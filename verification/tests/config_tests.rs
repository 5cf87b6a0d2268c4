use getquotes::config::{
    default_authors, default_config, default_log_file, default_max_tries, default_rainbow_mode,
    default_theme_color, parse_hex_color, parse_hex_color_panics, BoxCorners, Layout,
};

#[test]
fn test_parse_hex_color() {
    assert_eq!(parse_hex_color("#1A2B3C"), Some((0x1A, 0x2B, 0x3C)));
    assert_eq!(parse_hex_color("1A2B3C"), None);
    assert_eq!(parse_hex_color("#1A2B3"), None);
    assert_eq!(parse_hex_color("#XYZABC"), None);
}

#[test]
fn test_hex_color_parsing() {
    assert_eq!(parse_hex_color("#FF0000"), Some((255, 0, 0)));
    assert_eq!(parse_hex_color("#00FF00"), Some((0, 255, 0)));
    assert_eq!(parse_hex_color("FF0000"), None); // Missing #
    assert_eq!(parse_hex_color("#GGGGGG"), None); // Invalid hex
}

#[test]
fn hex_colour_edge_cases() {
    assert_eq!(parse_hex_color("#ff00aa"), Some((255, 0, 170)));
    assert_eq!(parse_hex_color("#+F0000"), Some((15, 0, 0)));
    assert_eq!(parse_hex_color("#-F0000"), None);
    assert_eq!(parse_hex_color("#1A2B3C4"), None);
    assert_eq!(parse_hex_color(""), None);
    // "é" takes two bytes, so "#é1234" is six bytes long; its first slice is not hex.
    assert_eq!(parse_hex_color("#é1234"), None);
    assert!(!parse_hex_color_panics("#é1234"));
    // "aé123" is six bytes long and the first slice ends inside "é".
    assert!(parse_hex_color_panics("#aé123"));
    assert!(!parse_hex_color_panics("#FF0000"));
}

#[test]
fn defaults() {
    assert_eq!(default_theme_color(), "#B7FFFA");
    assert_eq!(default_max_tries(), 30);
    assert_eq!(default_log_file(), "getquotes.log");
    assert!(!default_rainbow_mode());
    let authors = default_authors();
    assert_eq!(authors.len(), 10);
    assert_eq!(authors[0], "Mahatma Gandhi");
    assert_eq!(authors[9], "Steve Jobs");
    let cfg = default_config();
    assert_eq!(cfg.authors, authors);
    assert_eq!(cfg.theme_color, "#B7FFFA");
    assert_eq!(cfg.max_tries, 30);
    assert_eq!(cfg.log_file, "getquotes.log");
    assert_eq!(cfg.layout, Layout::Default);
    assert_eq!(cfg.box_corners, BoxCorners::Pointy);
}
