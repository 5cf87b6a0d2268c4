// A CSS colour reader built on cssparser, handed to the library's fill parser.
use cssparser::{ParseError, Parser, Token};
use getquotes::render::color::parse_hex_color_panics;
use getquotes::render::{
    is_supported_gradient_function, named_color_rgb, normalize_token, parse_angle_unit,
    parse_fill_spec, parse_hex_color, parse_style_spec, AngleUnit, Fill, RgbColor,
};

#[derive(Clone, Copy, Debug)]
enum NumericComponent {
    Number(f32),
    Percentage(f32),
    Angle(f32, AngleUnit),
}

fn fill_of(spec: &str) -> Option<Fill> {
    parse_fill_spec(spec, &parse_gradient_spec, &parse_color_spec)
}

fn parse_gradient_spec(spec: &str) -> Option<Vec<RgbColor>> {
    let mut parser = Parser::new(spec);
    let function_name = match parser.next().ok()? {
        Token::Function(name) if is_supported_gradient_function(name.as_ref()) => {
            name.as_ref().to_string()
        }
        _ => return None,
    };

    let stops = parse_gradient_function(&function_name, &mut parser)?;
    parser.expect_exhausted().ok()?;
    Some(stops)
}

fn parse_gradient_function<'i>(
    function_name: &str,
    parser: &mut Parser<'i>,
) -> Option<Vec<RgbColor>> {
    if !is_supported_gradient_function(function_name) {
        return None;
    }

    parser
        .parse_nested_block(|input| -> Result<Vec<RgbColor>, ParseError<()>> {
            Ok(input.parse_comma_separated_ignoring_errors(
                |stop| -> Result<RgbColor, ParseError<()>> {
                    parse_gradient_stop_value(stop).ok_or_else(|| ParseError::custom(()))
                },
            ))
        })
        .ok()
}

fn parse_color_spec(spec: &str) -> Option<RgbColor> {
    let mut parser = Parser::new(spec);
    let color = parse_single_color(&mut parser)?;
    parser.expect_exhausted().ok()?;
    Some(color)
}

fn parse_gradient_stop_value<'i>(input: &mut Parser<'i>) -> Option<RgbColor> {
    let mut color = None;

    while let Ok(token) = input.next().cloned() {
        if color.is_none() {
            color = parse_color_token(token, input);
        }
    }

    color
}

fn parse_single_color<'i>(input: &mut Parser<'i>) -> Option<RgbColor> {
    let token = input.next().ok()?.clone();
    parse_color_token(token, input)
}

fn hex_color(value: &str) -> Option<RgbColor> {
    if parse_hex_color_panics(value) {
        panic!("byte index is not a char boundary in `{value}`");
    }
    parse_hex_color(value)
}

fn parse_color_token<'i>(token: Token<'i>, parser: &mut Parser<'i>) -> Option<RgbColor> {
    match token {
        Token::Hash(value) | Token::IDHash(value) => hex_color(value.as_ref()),
        Token::Ident(value) => named_color_rgb(value.as_ref()),
        Token::Function(name) => parser
            .parse_nested_block(|input| -> Result<Option<RgbColor>, ParseError<()>> {
                Ok(parse_color_function(name.as_ref(), input))
            })
            .ok()
            .flatten(),
        _ => None,
    }
}

fn parse_color_function<'i>(function_name: &str, input: &mut Parser<'i>) -> Option<RgbColor> {
    match normalize_token(function_name).as_str() {
        "rgb" => parse_rgb_function(input, false),
        "rgba" => parse_rgb_function(input, true),
        "hsl" => parse_hsl_function(input),
        _ => None,
    }
}

fn parse_rgb_function<'i>(input: &mut Parser<'i>, allow_alpha: bool) -> Option<RgbColor> {
    let components = parse_numeric_components(input)?;
    let expected_len = if allow_alpha { 4 } else { 3 };
    if components.len() != expected_len {
        return None;
    }

    let rgb = RgbColor {
        r: parse_rgb_channel(components[0])?,
        g: parse_rgb_channel(components[1])?,
        b: parse_rgb_channel(components[2])?,
    };
    let alpha = if allow_alpha { parse_alpha_channel(components[3])? } else { 1.0 };

    Some(RgbColor {
        r: (rgb.r as f32 * alpha).round().clamp(0.0, 255.0) as u8,
        g: (rgb.g as f32 * alpha).round().clamp(0.0, 255.0) as u8,
        b: (rgb.b as f32 * alpha).round().clamp(0.0, 255.0) as u8,
    })
}

fn parse_hsl_function<'i>(input: &mut Parser<'i>) -> Option<RgbColor> {
    let components = parse_numeric_components(input)?;
    if components.len() != 3 {
        return None;
    }

    let hue = parse_hue_channel(components[0])?;
    let saturation = parse_percentage(components[1])?;
    let lightness = parse_percentage(components[2])?;
    Some(hsl_to_rgb(hue, saturation, lightness))
}

fn parse_numeric_components<'i>(input: &mut Parser<'i>) -> Option<Vec<NumericComponent>> {
    let mut components = Vec::new();

    while let Ok(token) = input.next().cloned() {
        match token {
            Token::Comma => {}
            Token::Number { value, .. } => components.push(NumericComponent::Number(value)),
            Token::Percentage { unit_value, .. } => {
                components.push(NumericComponent::Percentage(unit_value))
            }
            Token::Dimension { value, unit, .. } => {
                components.push(NumericComponent::Angle(value, parse_angle_unit(unit.as_ref())?))
            }
            _ => return None,
        }
    }

    Some(components)
}

fn parse_rgb_channel(value: NumericComponent) -> Option<u8> {
    match value {
        NumericComponent::Number(channel) if (0.0..=255.0).contains(&channel) => {
            Some(channel.round() as u8)
        }
        NumericComponent::Percentage(channel) if (0.0..=1.0).contains(&channel) => {
            Some((channel * 255.0).round() as u8)
        }
        _ => None,
    }
}

fn parse_alpha_channel(value: NumericComponent) -> Option<f32> {
    match value {
        NumericComponent::Number(alpha) if (0.0..=1.0).contains(&alpha) => Some(alpha),
        NumericComponent::Number(alpha) if (0.0..=255.0).contains(&alpha) => {
            Some((alpha / 255.0).clamp(0.0, 1.0))
        }
        NumericComponent::Percentage(alpha) if (0.0..=1.0).contains(&alpha) => Some(alpha),
        _ => None,
    }
}

fn parse_percentage(value: NumericComponent) -> Option<f32> {
    match value {
        NumericComponent::Percentage(percentage) if (0.0..=1.0).contains(&percentage) => {
            Some(percentage)
        }
        _ => None,
    }
}

fn parse_hue_channel(value: NumericComponent) -> Option<f32> {
    match value {
        NumericComponent::Number(hue) => Some(hue),
        NumericComponent::Angle(hue, AngleUnit::Deg) => Some(hue),
        NumericComponent::Angle(hue, AngleUnit::Grad) => Some(hue * 360.0 / 400.0),
        NumericComponent::Angle(hue, AngleUnit::Rad) => Some(hue.to_degrees()),
        NumericComponent::Angle(hue, AngleUnit::Turn) => Some(hue * 360.0),
        _ => None,
    }
}

fn hsl_to_rgb(hue: f32, saturation: f32, lightness: f32) -> RgbColor {
    let hue = hue.rem_euclid(360.0) / 360.0;
    let saturation = saturation.clamp(0.0, 1.0);
    let lightness = lightness.clamp(0.0, 1.0);

    if saturation == 0.0 {
        let value = (lightness * 255.0).round() as u8;
        return RgbColor { r: value, g: value, b: value };
    }

    let q = if lightness < 0.5 {
        lightness * (1.0 + saturation)
    } else {
        lightness + saturation - lightness * saturation
    };
    let p = 2.0 * lightness - q;

    let to_rgb = |mut t: f32| {
        if t < 0.0 {
            t += 1.0;
        }
        if t > 1.0 {
            t -= 1.0;
        }

        let channel = if t < 1.0 / 6.0 {
            p + (q - p) * 6.0 * t
        } else if t < 0.5 {
            q
        } else if t < 2.0 / 3.0 {
            p + (q - p) * (2.0 / 3.0 - t) * 6.0
        } else {
            p
        };

        (channel * 255.0).round() as u8
    };

    RgbColor { r: to_rgb(hue + 1.0 / 3.0), g: to_rgb(hue), b: to_rgb(hue - 1.0 / 3.0) }
}

#[test]
fn parses_gradient_style_token() {
    let fill = fill_of("linear-gradient(#ff0000, rgb(0, 255, 0), hsl(240, 100%, 50%))");
    assert!(matches!(fill, Some(Fill::Gradient(stops)) if stops.len() == 3));
}

#[test]
fn parses_css_inspired_gradient_variants() {
    let radial_fill =
        fill_of("radial-gradient(circle at center, #ff0000 0%, rgb(0, 255, 0) 50%, blue 100%)");
    assert!(matches!(radial_fill, Some(Fill::Gradient(stops)) if stops.len() == 3));

    let conic_fill =
        fill_of("conic-gradient(from 90deg at center, red 0deg, yellow 120deg, blue 240deg)");
    assert!(matches!(conic_fill, Some(Fill::Gradient(stops)) if stops.len() == 3));

    let repeating_fill = fill_of(
        "repeating-radial-gradient(circle, hsl(0, 100%, 50%) 0 10%, hsl(240, 100%, 50%) 10% 20%)",
    );
    assert!(matches!(repeating_fill, Some(Fill::Gradient(stops)) if stops.len() == 2));
}

#[test]
fn rainbow_keyword_in_any_case() {
    assert!(matches!(fill_of("rainbow"), Some(Fill::Rainbow)));
    assert!(matches!(fill_of("  RainBow "), Some(Fill::Rainbow)));
    assert!(matches!(fill_of("rainbows"), None));
}

#[test]
fn one_gradient_stop_is_a_solid_fill() {
    let fill = fill_of("linear-gradient(to right, #00ff00)");
    assert!(matches!(fill, Some(Fill::Solid(RgbColor { r: 0, g: 255, b: 0 }))));
}

#[test]
fn gradient_without_stops_is_no_fill() {
    assert!(fill_of("linear-gradient(to right)").is_none());
}

#[test]
fn single_colours_are_solid_fills() {
    assert!(matches!(fill_of(" #FF0000 "), Some(Fill::Solid(RgbColor { r: 255, g: 0, b: 0 }))));
    assert!(matches!(fill_of("blue"), Some(Fill::Solid(RgbColor { r: 0, g: 0, b: 255 }))));
    assert!(matches!(
        fill_of("rgb(10, 20, 30)"),
        Some(Fill::Solid(RgbColor { r: 10, g: 20, b: 30 }))
    ));
    assert!(fill_of("not-a-colour").is_none());
}

#[test]
fn style_spec_reads_fills_through_the_colour_reader() {
    let style = parse_style_spec("bold, linear-gradient(red, blue)", &fill_of);
    assert!(style.decorations.bold);
    assert!(matches!(style.fill, Some(Fill::Gradient(stops)) if stops.len() == 2));
}
