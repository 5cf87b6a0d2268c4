pub mod color;
pub mod layout;
pub mod paint;
pub mod style;
pub mod wrap;

pub use layout::{box_chars, inner_width_for_columns, pad_left, pad_right, render_output, BoxChars};
pub use color::{named_color_rgb, parse_hex_color};
pub use paint::style_text;
pub use style::{
    find_nested_quote_ranges, is_supported_gradient_function, normalize_token, parse_angle_unit,
    parse_fill_spec, parse_style_spec, split_top_level, AngleUnit, Decorations, Fill, RgbColor,
    StyleOverride, TextStyle,
};
pub use wrap::wrap_text_lines;
