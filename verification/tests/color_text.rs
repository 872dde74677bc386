use huex::color::{blend_over_white, Rgb8};
use huex::text::{escape_xml, swatch};

#[test]
fn hex_is_upper_case_with_hash() {
    assert_eq!(Rgb8 { r: 255, g: 0, b: 0 }.hex(), "#FF0000");
    assert_eq!(Rgb8 { r: 0, g: 169, b: 219 }.hex(), "#00A9DB");
    assert_eq!(Rgb8 { r: 10, g: 11, b: 12 }.hex(), "#0A0B0C");
    assert_eq!(Rgb8 { r: 255, g: 255, b: 255 }.hex(), "#FFFFFF");
}

#[test]
fn hex_matches_format_for_every_channel_value() {
    for v in 0..=255u8 {
        let c = Rgb8 { r: v, g: 255 - v, b: v / 3 };
        assert_eq!(c.hex(), format!("#{:02X}{:02X}{:02X}", c.r, c.g, c.b));
    }
}

fn float_blend(pixel: [u8; 4]) -> Option<Rgb8> {
    let alpha = pixel[3] as f64 / 255.0;
    if alpha <= f64::EPSILON {
        return None;
    }
    let blend =
        |channel: u8| -> u8 { ((channel as f64 * alpha) + (255.0 * (1.0 - alpha))).round() as u8 };
    Some(Rgb8 { r: blend(pixel[0]), g: blend(pixel[1]), b: blend(pixel[2]) })
}

#[test]
fn blend_matches_float_compositing_everywhere() {
    for alpha in 0..=255u8 {
        for channel in 0..=255u8 {
            let pixel = [channel, 255 - channel, channel / 2, alpha];
            assert_eq!(blend_over_white(pixel), float_blend(pixel));
        }
    }
}

#[test]
fn blend_edge_cases() {
    assert_eq!(blend_over_white([1, 2, 3, 0]), None);
    assert_eq!(blend_over_white([1, 2, 3, 255]), Some(Rgb8 { r: 1, g: 2, b: 3 }));
    // half-transparent black over white: 255 * (1 - 128/255) = 127
    assert_eq!(blend_over_white([0, 0, 0, 128]), Some(Rgb8 { r: 127, g: 127, b: 127 }));
    assert_eq!(blend_over_white([0, 0, 0, 1]), Some(Rgb8 { r: 254, g: 254, b: 254 }));
}

#[test]
fn escape_xml_replaces_markup() {
    assert_eq!(escape_xml("fixtures/example & test.ppm"), "fixtures/example &amp; test.ppm");
    assert_eq!(escape_xml("<a href=\"x\">'y'</a>"), "&lt;a href=&quot;x&quot;&gt;&apos;y&apos;&lt;/a&gt;");
    assert_eq!(escape_xml("plain"), "plain");
    assert_eq!(escape_xml(""), "");
    assert_eq!(escape_xml("caf\u{e9} & \u{1f3a8}"), "caf\u{e9} &amp; \u{1f3a8}");
}

#[test]
fn swatch_is_a_true_colour_block() {
    assert_eq!(swatch(255, 0, 7), "\x1b[48;2;255;0;7m  \x1b[0m");
    assert_eq!(swatch(12, 100, 9), format!("\x1b[48;2;{};{};{}m  \x1b[0m", 12, 100, 9));
}

#[test]
fn distinct_colours_have_distinct_hex_codes() {
    let mut colours: Vec<(u8, u8, u8)> = Vec::new();
    for v in (0..=255u8).step_by(5) {
        for w in (0..=255u8).step_by(51) {
            colours.push((v, w, 0));
            colours.push((0, v, w));
        }
    }
    colours.sort();
    colours.dedup();
    let mut codes: Vec<String> =
        colours.iter().map(|&(r, g, b)| Rgb8 { r, g, b }.hex()).collect();
    for code in &codes {
        assert_eq!(code.len(), 7);
        assert!(code.starts_with('#'));
    }
    codes.sort();
    codes.dedup();
    assert_eq!(codes.len(), colours.len());
}

#[test]
fn compositing_never_darkens() {
    for alpha in 1..=255u8 {
        for channel in 0..=255u8 {
            let blended = blend_over_white([channel, channel, channel, alpha]).unwrap();
            assert!(blended.r >= channel);
        }
    }
}

#[test]
fn escaped_text_has_no_markup_left() {
    let escaped = escape_xml("<&>\"'<&>");
    assert!(!escaped.contains('<'));
    assert!(!escaped.contains('>'));
    assert!(!escaped.contains('"'));
    assert!(!escaped.contains('\''));
}

#[test]
fn hex_digits_read_back_as_the_channels() {
    for (r, g, b) in [(0u8, 0u8, 0u8), (255, 255, 255), (18, 52, 86), (171, 205, 239), (9, 160, 250)] {
        let s = Rgb8 { r, g, b }.hex();
        assert_eq!(s.len(), 7);
        assert!(s.starts_with('#'));
        assert!(s[1..].chars().all(|c| c.is_ascii_digit() || ('A'..='F').contains(&c)));
        assert_eq!(u8::from_str_radix(&s[1..3], 16), Ok(r));
        assert_eq!(u8::from_str_radix(&s[3..5], 16), Ok(g));
        assert_eq!(u8::from_str_radix(&s[5..7], 16), Ok(b));
    }
}

fn unescape(text: &str) -> String {
    text.replace("&lt;", "<")
        .replace("&gt;", ">")
        .replace("&quot;", "\"")
        .replace("&apos;", "'")
        .replace("&amp;", "&")
}

#[test]
fn escaped_text_reads_back() {
    for value in ["", "plain", "a & b", "<tag attr=\"x\">'q'</tag>", "&amp;lt;", "&&<<>>\"\"''"] {
        let escaped = escape_xml(value);
        assert_eq!(unescape(&escaped), value);
        for (index, _) in escaped.match_indices('&') {
            let rest = &escaped[index..];
            assert!(["&amp;", "&lt;", "&gt;", "&quot;", "&apos;"].iter().any(|e| rest.starts_with(e)));
        }
    }
}
