use getquotes::render::paint::style_char;
use getquotes::render::paint::paint_theme;
use getquotes::config::{
    default_api_calls_per_minute, default_author_style, default_authors, default_box_corners,
    default_log_file, default_max_tries, default_nested_quote_style, default_prefer_cache,
    default_quote_style, default_theme_color, BoxCorners, Config, Layout,
};
use getquotes::render::color::parse_hex_color_panics;
use getquotes::render::layout::DEFAULT_INNER_WIDTH;
use getquotes::render::named_color_rgb;
use getquotes::render::{
    box_chars, find_nested_quote_ranges, inner_width_for_columns, is_supported_gradient_function,
    normalize_token, pad_left, pad_right, parse_angle_unit, parse_hex_color, parse_style_spec,
    render_output, split_top_level, style_text, wrap_text_lines, AngleUnit, Decorations, Fill,
    RgbColor, StyleOverride, TextStyle,
};

fn sample_config() -> Config {
    Config {
        authors: default_authors(),
        theme_color: default_theme_color(),
        quote_style: default_quote_style(),
        author_style: default_author_style(),
        nested_quote_style: default_nested_quote_style(),
        max_tries: default_max_tries(),
        log_file: default_log_file(),
        rainbow_mode: false,
        layout: Layout::Default,
        box_corners: default_box_corners(),
        prefer_cache: default_prefer_cache(),
        api_calls_per_minute: default_api_calls_per_minute(),
    }
}

fn strip_ansi(value: &str) -> String {
    let mut output = String::new();
    let mut chars = value.chars().peekable();

    while let Some(ch) = chars.next() {
        if ch == '\u{1b}' && chars.peek() == Some(&'[') {
            chars.next();
            for next in chars.by_ref() {
                if next == 'm' {
                    break;
                }
            }
        } else {
            output.push(ch);
        }
    }

    output
}

/// A fill reader that knows a few colour words and the word `rainbow`.
fn simple_fill(spec: &str) -> Option<Fill> {
    match spec.trim() {
        "green" => Some(Fill::Solid(RgbColor { r: 0, g: 128, b: 0 })),
        "red" => Some(Fill::Solid(RgbColor { r: 255, g: 0, b: 0 })),
        "#B7FFFA" => Some(Fill::Solid(RgbColor { r: 0xB7, g: 0xFF, b: 0xFA })),
        "rainbow" => Some(Fill::Rainbow),
        "two-stops" => Some(Fill::Gradient(vec![
            RgbColor { r: 0, g: 0, b: 0 },
            RgbColor { r: 255, g: 255, b: 255 },
        ])),
        _ => None,
    }
}

/// A shading that writes the step and the number of steps into the colour.
fn step_shade(_fill: &Fill, step: usize, total: usize) -> RgbColor {
    RgbColor { r: step as u8, g: total as u8, b: 7 }
}

#[test]
fn default_layout_adds_space_after_dash() {
    let rendered = render_output(
        &sample_config(),
        "Hello",
        "Author",
        DEFAULT_INNER_WIDTH,
        &simple_fill,
        &step_shade,
    );
    assert!(strip_ansi(&rendered).contains("- Author"));
}

#[test]
fn box_layout_supports_rounded_corners() {
    let mut config = sample_config();
    config.layout = Layout::Box;
    config.box_corners = BoxCorners::Rounded;

    let rendered = render_output(&config, "Hi", "Author", DEFAULT_INNER_WIDTH, &simple_fill, &step_shade);
    assert!(rendered.contains('╭'));
    assert!(rendered.contains('╯'));
    assert!(rendered.contains('│'));
}

#[test]
fn box_layout_wraps_long_quotes() {
    const EXTRA_WIDTH: usize = 10;

    let mut config = sample_config();
    config.layout = Layout::Box;
    let width = inner_width_for_columns(None);
    let quote = "a".repeat((width * 2) + EXTRA_WIDTH);

    let rendered = render_output(&config, &quote, "Author", width, &simple_fill, &step_shade);
    let plain = strip_ansi(&rendered);
    let lines = plain.lines().collect::<Vec<_>>();

    assert!(lines.len() > 4);
    assert!(lines[0].chars().count() <= width + 2);
}

#[test]
fn wraps_long_unbroken_words() {
    let lines = wrap_text_lines("abcdefghij", 4);
    assert_eq!(lines, vec!["abcd", "efgh", "ij"]);
}

#[test]
fn finds_nested_quote_ranges() {
    assert_eq!(find_nested_quote_ranges(r#"He said "hi""#), vec![8..12]);
}

#[test]
fn finds_curly_nested_quotes_and_ignores_unmatched_closers() {
    assert_eq!(find_nested_quote_ranges("a \u{201d}b\u{201c}c\u{201c}d\u{201d}"), vec![6..9]);
    assert_eq!(find_nested_quote_ranges("\"x"), vec![]);
}

#[test]
fn wrap_joins_words_greedily_and_keeps_lines_within_width() {
    let lines = wrap_text_lines("one two  three four", 9);
    assert_eq!(lines, vec!["one two", "three", "four"]);
    for line in &lines {
        assert!(line.chars().count() <= 9);
    }
}

#[test]
fn wrap_edge_cases() {
    assert_eq!(wrap_text_lines("", 5), vec![""]);
    assert_eq!(wrap_text_lines("a b", 0), vec!["a b"]);
    assert_eq!(wrap_text_lines("   ", 5), vec![""]);
    assert_eq!(wrap_text_lines("ab abcdefg", 3), vec!["ab", "abc", "def", "g"]);
}

#[test]
fn splits_at_top_level_only() {
    assert_eq!(
        split_top_level("bold, linear-gradient(red, blue) ,italic,", ','),
        vec!["bold", "linear-gradient(red, blue)", "italic"]
    );
    assert_eq!(split_top_level("a,,b", ','), vec!["a", "", "b"]);
    assert_eq!(split_top_level("x) , y", ','), vec!["x)", "y"]);
}

#[test]
fn normalizes_tokens() {
    assert_eq!(normalize_token("  Strike-Through_ "), "strikethrough");
    assert_eq!(normalize_token("Linear-Gradient"), "lineargradient");
}

#[test]
fn classifies_gradient_functions_and_angle_units() {
    assert!(is_supported_gradient_function("repeating-conic-gradient"));
    assert!(is_supported_gradient_function("Linear-Gradient"));
    assert!(!is_supported_gradient_function("rgb"));
    assert_eq!(parse_angle_unit("DEG"), Some(AngleUnit::Deg));
    assert_eq!(parse_angle_unit("turn"), Some(AngleUnit::Turn));
    assert_eq!(parse_angle_unit("px"), None);
}

#[test]
fn parses_six_digit_hex_values() {
    assert_eq!(parse_hex_color("ff0000"), Some(RgbColor { r: 255, g: 0, b: 0 }));
    assert_eq!(parse_hex_color("1e90FF"), Some(RgbColor { r: 0x1E, g: 0x90, b: 0xFF }));
    assert_eq!(parse_hex_color("fff"), None);
    assert_eq!(parse_hex_color("+f+f+f"), Some(RgbColor { r: 15, g: 15, b: 15 }));
}

#[test]
fn parses_style_tokens() {
    let style = parse_style_spec("bold, Dim, red, nonsense, under_line", &simple_fill);
    assert!(style.decorations.bold);
    assert!(style.decorations.dimmed);
    assert!(style.decorations.underline);
    assert!(!style.decorations.italic);
    match style.fill {
        Some(Fill::Solid(c)) => assert_eq!(c, RgbColor { r: 255, g: 0, b: 0 }),
        other => panic!("unexpected fill {other:?}"),
    }
    let empty = parse_style_spec("", &simple_fill);
    assert!(empty.decorations.is_plain());
    assert!(empty.fill.is_none());
}

#[test]
fn decorations_combine() {
    let mut d = Decorations::plain();
    assert!(d.is_plain());
    d.apply_override(Decorations { bold: false, italic: true, underline: false, strikethrough: false, dimmed: false, reversed: true });
    assert!(d.italic && d.reversed && !d.bold);
    assert!(!d.is_plain());
}

#[test]
fn styles_plain_text_unchanged() {
    let out = style_text("plain", &TextStyle::plain(), &Vec::new(), &step_shade);
    assert_eq!(out, "plain");
}

#[test]
fn gradient_steps_count_characters_of_each_source() {
    let base = TextStyle { decorations: Decorations::plain(), fill: Some(Fill::Gradient(vec![])) };
    let over = StyleOverride {
        range: 1..3,
        style: TextStyle { decorations: Decorations::plain(), fill: Some(Fill::Rainbow) },
    };
    let out = style_text("abcde", &base, &vec![over], &step_shade);
    // Base characters a, d, e are steps 0, 1, 2 of 3; the override's b, c steps 0, 1 of 2.
    assert!(out.contains("\u{1b}[38;2;0;3;7ma"));
    assert!(out.contains("\u{1b}[38;2;0;2;7mb"));
    assert!(out.contains("\u{1b}[38;2;1;2;7mc"));
    assert!(out.contains("\u{1b}[38;2;1;3;7md"));
    assert!(out.contains("\u{1b}[38;2;2;3;7me"));
    assert_eq!(strip_ansi(&out), "abcde");
}

#[test]
fn solid_fill_and_effects_are_written_as_escape_codes() {
    let style = TextStyle {
        decorations: Decorations { bold: true, italic: false, underline: false, strikethrough: false, dimmed: false, reversed: false },
        fill: Some(Fill::Solid(RgbColor { r: 1, g: 2, b: 3 })),
    };
    let out = style_text("x", &style, &Vec::new(), &step_shade);
    assert_eq!(out, "\u{1b}[1m\u{1b}[38;2;1;2;3mx\u{1b}[0m");
}

#[test]
fn rainbow_mode_colours_each_quote_character_in_turn() {
    let mut config = sample_config();
    config.rainbow_mode = true;
    let rendered = render_output(&config, "ab", "Z", DEFAULT_INNER_WIDTH, &simple_fill, &step_shade);
    // The quote is "\"ab\"": four characters, steps 0..3 of 4.
    assert!(rendered.starts_with("\u{1b}[38;2;0;4;7m\""));
    assert!(rendered.contains("\u{1b}[38;2;3;4;7m\""));
}

#[test]
fn unreadable_theme_colour_falls_back() {
    let mut config = sample_config();
    config.theme_color = "not a colour".to_string();
    let rendered = render_output(&config, "q", "a", DEFAULT_INNER_WIDTH, &simple_fill, &step_shade);
    assert!(rendered.starts_with("\u{1b}[38;2;30;144;255m\""));
}

#[test]
fn author_line_is_green_when_unstyled() {
    let rendered = render_output(&sample_config(), "q", "A", DEFAULT_INNER_WIDTH, &simple_fill, &step_shade);
    assert!(rendered.ends_with("\u{1b}[38;2;0;128;0mA\u{1b}[0m"));
}

#[test]
fn nested_quotes_get_the_nested_style() {
    let mut config = sample_config();
    config.nested_quote_style = "red".to_string();
    config.theme_color = "#B7FFFA".to_string();
    let rendered = render_output(&config, "say \"hi\"", "A", DEFAULT_INNER_WIDTH, &simple_fill, &step_shade);
    assert!(rendered.contains("\u{1b}[38;2;255;0;0mh"));
    assert!(rendered.contains("\u{1b}[38;2;183;255;250ms"));
}

#[test]
fn default_layout_exact_plain_text() {
    let rendered = render_output(&sample_config(), "Hello", "Author", DEFAULT_INNER_WIDTH, &simple_fill, &step_shade);
    let expected = format!("\"Hello\"\n\n {:>99}Author", "- ");
    assert_eq!(strip_ansi(&rendered), expected);
}

#[test]
fn box_layout_exact_plain_text() {
    let mut config = sample_config();
    config.layout = Layout::Box;
    let rendered = render_output(&config, "Hi there", "Author", 5, &simple_fill, &step_shade);
    let expected = "+------+\n|\"Hi   |\n|there |\n|\"     |\n|Author|\n+------+";
    assert_eq!(strip_ansi(&rendered), expected);
}

#[test]
fn pads_and_draws_boxes() {
    assert_eq!(pad_right("ab", 4), "ab  ");
    assert_eq!(pad_left("ab", 4), "  ab");
    assert_eq!(pad_left("abcdef", 4), "abcdef");
    let pointy = box_chars(BoxCorners::Pointy);
    assert_eq!((pointy.top_left, pointy.horizontal, pointy.vertical), ('+', '-', '|'));
    let rounded = box_chars(BoxCorners::Rounded);
    assert_eq!((rounded.top_left, rounded.bottom_right), ('╭', '╯'));
}

#[test]
fn inner_width_from_terminal_columns() {
    assert_eq!(inner_width_for_columns(None), 100);
    assert_eq!(inner_width_for_columns(Some(80)), 78);
    assert_eq!(inner_width_for_columns(Some(10)), 20);
    assert_eq!(inner_width_for_columns(Some(0)), 20);
}

#[test]
fn names_colours() {
    assert_eq!(named_color_rgb("green"), Some(RgbColor { r: 0, g: 128, b: 0 }));
    assert_eq!(named_color_rgb("Bright-Green"), Some(RgbColor { r: 0, g: 255, b: 0 }));
    assert_eq!(named_color_rgb("bright_black"), Some(RgbColor { r: 128, g: 128, b: 128 }));
    assert_eq!(named_color_rgb("BLUE"), Some(RgbColor { r: 0, g: 0, b: 255 }));
    assert_eq!(named_color_rgb("transparent"), Some(RgbColor { r: 0, g: 0, b: 0 }));
    assert_eq!(named_color_rgb("currentColor"), None);
    assert_eq!(named_color_rgb("no-such-colour"), None);
}

#[test]
fn reports_hex_values_that_slice_inside_a_character() {
    assert!(parse_hex_color_panics("aé123"));
    assert!(!parse_hex_color_panics("é1234"));
    assert_eq!(parse_hex_color("é1234"), None);
    assert!(!parse_hex_color_panics("ff00ff"));
}

#[test]
fn wrapping_keeps_every_non_space_character() {
    let text = "  The quick\tbrown fox   jumpsoverthelazydog \n ";
    let lines = wrap_text_lines(text, 7);
    let kept: String = lines.concat().chars().filter(|c| !c.is_whitespace()).collect();
    let original: String = text.chars().filter(|c| !c.is_whitespace()).collect();
    assert_eq!(kept, original);
    assert_eq!(lines, vec!["The", "quick", "brown", "fox", "jumpsov", "erthela", "zydog"]);
}

#[test]
fn paints_with_the_theme_colour_or_the_fallback() {
    assert_eq!(
        paint_theme("ab", "red", &simple_fill, &step_shade),
        "\u{1b}[38;2;255;0;0ma\u{1b}[0m\u{1b}[38;2;255;0;0mb\u{1b}[0m"
    );
    assert_eq!(
        paint_theme("a", "unknown", &simple_fill, &step_shade),
        "\u{1b}[38;2;30;144;255ma\u{1b}[0m"
    );
    assert_eq!(
        paint_theme("ab", "two-stops", &simple_fill, &step_shade),
        "\u{1b}[38;2;0;2;7ma\u{1b}[0m\u{1b}[38;2;1;2;7mb\u{1b}[0m"
    );
}

#[test]
fn top_level_split_without_parentheses_is_split_and_trim() {
    for (text, d) in [(" a, b ,,c ", ','), ("x;y;", ';'), ("", ','), ("one", ',')] {
        let pieces: Vec<&str> = text.split(d).collect();
        let mut expected: Vec<String> =
            pieces[..pieces.len() - 1].iter().map(|p| p.trim().to_string()).collect();
        let last = pieces[pieces.len() - 1];
        if !last.is_empty() {
            expected.push(last.trim().to_string());
        }
        assert_eq!(split_top_level(text, d), expected);
    }
}

#[test]
fn keyword_order_does_not_change_a_style() {
    let a = parse_style_spec("bold, red, italic, two-stops", &simple_fill);
    let b = parse_style_spec("italic, red, two-stops, bold", &simple_fill);
    assert_eq!(a.decorations, b.decorations);
    assert!(a.decorations.bold && a.decorations.italic && !a.decorations.underline);
    assert!(matches!(a.fill, Some(Fill::Gradient(_))));
    assert!(matches!(b.fill, Some(Fill::Gradient(_))));
}

#[test]
fn styled_characters_carry_effects_in_a_fixed_order() {
    let d = Decorations {
        bold: true,
        italic: true,
        underline: false,
        strikethrough: true,
        dimmed: true,
        reversed: true,
    };
    assert_eq!(
        style_char('X', Some(RgbColor { r: 1, g: 20, b: 255 }), d),
        "\u{1b}[1m\u{1b}[2m\u{1b}[3m\u{1b}[7m\u{1b}[9m\u{1b}[38;2;1;20;255mX\u{1b}[0m"
    );
    assert_eq!(style_char('y', None, Decorations::plain()), "y");
    let u = Decorations { underline: true, ..Decorations::plain() };
    assert_eq!(style_char('z', None, u), "\u{1b}[4mz\u{1b}[0m");
}

#[test]
fn wrapped_lines_are_full_word_lines() {
    let width = 10;
    let lines = wrap_text_lines("a quick  brown\tfox jumps over lazydogs again", width);
    for line in &lines {
        assert!(!line.is_empty());
        assert!(!line.starts_with(' ') && !line.ends_with(' ') && !line.contains("  "));
    }
    for pair in lines.windows(2) {
        let next_first = pair[1].split(' ').next().unwrap().chars().count();
        assert!(pair[0].chars().count() + 1 + next_first > width);
    }
    assert_eq!(wrap_text_lines("   \t ", width), vec![""]);
}

#[test]
fn nested_quote_ranges_run_from_mark_to_mark_in_closing_order() {
    let text = "\u{201c}a \"b\" c\u{201d} \"\"";
    let chars: Vec<char> = text.chars().collect();
    let ranges = find_nested_quote_ranges(text);
    assert_eq!(ranges, vec![3..6, 0..9, 10..12]);
    for r in &ranges {
        let (open, close) = (chars[r.start], chars[r.end - 1]);
        assert!((open == '"' && close == '"') || (open == '\u{201c}' && close == '\u{201d}'));
    }
    for pair in ranges.windows(2) {
        assert!(pair[0].end < pair[1].end);
    }
}
