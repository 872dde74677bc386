use huex::color::Rgb8;
use huex::config::OutputMode;
use huex::harmony::HarmonyMode;
use huex::render::{
    render_svg_report, render_text_report, HarmonyBlock, HarmonyLine, OklabText, PaletteLine,
    ReportText,
};

fn oklab(l: f64, a: f64, b: f64) -> OklabText {
    OklabText { l: format!("{:.4}", l), a: format!("{:.4}", a), b: format!("{:.4}", b) }
}

fn line(rgb: Rgb8, percentage: f64, population: usize, harmonies: Option<Vec<HarmonyBlock>>) -> PaletteLine {
    PaletteLine {
        hex: rgb.hex(),
        rgb,
        percent: format!("{:.2}", percentage * 100.0),
        population,
        oklab: oklab(0.62796, 0.22486, 0.12585),
        harmonies,
    }
}

fn report_with_palette() -> ReportText {
    let first = Rgb8 { r: 255, g: 0, b: 0 };
    let second = Rgb8 { r: 0, g: 169, b: 219 };
    ReportText {
        tool: "huex".to_string(),
        version: "0.3.0".to_string(),
        source: "fixtures/example & test.ppm".to_string(),
        width: 2,
        height: 1,
        visible_pixels: 2,
        sampled_pixels: 2,
        requested_colors: 2,
        seed: 42,
        colors: vec![line(first, 0.5, 1, None), line(second, 0.5, 1, None)],
    }
}

#[test]
fn svg_output_renders_a_swatch_strip() {
    let report = report_with_palette();
    let rendered = render_svg_report(&report);
    assert!(rendered.starts_with(
        r#"<svg xmlns="http://www.w3.org/2000/svg" viewBox="0 0 192 64" width="192" height="64" role="img" aria-labelledby="title desc">"#
    ));
    assert!(rendered.contains("<title id=\"title\">fixtures/example &amp; test.ppm palette</title>"));
    assert!(rendered.contains(r##"<rect x="0" y="0" width="96" height="64" fill="#FF0000">"##));
    assert!(rendered.contains(r##"<rect x="96" y="0" width="96" height="64" fill="#00A9DB">"##));
    assert!(rendered.contains(
        r##"<line x1="96" y1="0" x2="96" y2="64" stroke="#000000" stroke-opacity="0.12"/>"##
    ));
}

#[test]
fn svg_output_includes_per_swatch_titles() {
    let report = report_with_palette();
    let rendered = render_svg_report(&report);
    assert!(rendered.contains("<title>#FF0000 50.00%</title>"));
    assert!(rendered.contains("<title>#00A9DB 50.00%</title>"));
}

#[test]
fn svg_output_is_complete() {
    let rendered = render_svg_report(&report_with_palette());
    let expected = [
        "<svg xmlns=\"http://www.w3.org/2000/svg\" viewBox=\"0 0 192 64\" width=\"192\" height=\"64\" role=\"img\" aria-labelledby=\"title desc\">\n",
        "  <title id=\"title\">fixtures/example &amp; test.ppm palette</title>\n",
        "  <desc id=\"desc\">2 dominant colors extracted by huex 0.3.0</desc>\n",
        "  <rect x=\"0\" y=\"0\" width=\"96\" height=\"64\" fill=\"#FF0000\">\n",
        "    <title>#FF0000 50.00%</title>\n",
        "  </rect>\n",
        "  <rect x=\"96\" y=\"0\" width=\"96\" height=\"64\" fill=\"#00A9DB\">\n",
        "    <title>#00A9DB 50.00%</title>\n",
        "  </rect>\n",
        "  <line x1=\"96\" y1=\"0\" x2=\"96\" y2=\"64\" stroke=\"#000000\" stroke-opacity=\"0.12\"/>\n",
        "  <rect x=\"0.5\" y=\"0.5\" width=\"191\" height=\"63\" fill=\"none\" stroke=\"#000000\" stroke-opacity=\"0.08\"/>\n",
        "</svg>\n",
    ]
    .join("");
    assert_eq!(rendered, expected);
}

#[test]
fn svg_of_an_empty_palette_keeps_one_swatch_width() {
    let mut report = report_with_palette();
    report.colors.clear();
    let rendered = render_svg_report(&report);
    assert!(rendered.starts_with(r#"<svg xmlns="http://www.w3.org/2000/svg" viewBox="0 0 96 64" width="96""#));
    assert!(rendered.contains("<desc id=\"desc\">0 dominant colors extracted by huex 0.3.0</desc>"));
    assert!(rendered.contains(r#"<rect x="0.5" y="0.5" width="95" height="63""#));
    assert!(!rendered.contains("<line"));
}

fn swatch(r: u8, g: u8, b: u8) -> String {
    format!("\x1b[48;2;{r};{g};{b}m  \x1b[0m")
}

fn harmony_report() -> ReportText {
    let mut report = report_with_palette();
    let harmony = HarmonyLine {
        hex: "#00B4C8".to_string(),
        rgb: Rgb8 { r: 0, g: 180, b: 200 },
        oklab: oklab(0.7, -0.1, -0.05),
        hue_offset_degrees: 180,
    };
    let minus = HarmonyLine {
        hex: "#C80000".to_string(),
        rgb: Rgb8 { r: 200, g: 0, b: 0 },
        oklab: oklab(0.55, 0.2, 0.1),
        hue_offset_degrees: -30,
    };
    report.colors[0].harmonies = Some(vec![
        HarmonyBlock { harmony: HarmonyMode::Complement, colors: vec![harmony] },
        HarmonyBlock { harmony: HarmonyMode::Analogous, colors: vec![minus] },
    ]);
    report
}

#[test]
fn compact_report_lines() {
    let rendered = render_text_report(&report_with_palette(), OutputMode::Compact);
    let expected = format!(
        "  {}  {:<8} {:>6.2}%\n  {}  {:<8} {:>6.2}%\n",
        swatch(255, 0, 0),
        "#FF0000",
        50.0,
        swatch(0, 169, 219),
        "#00A9DB",
        50.0
    );
    assert_eq!(rendered, expected);
}

#[test]
fn compact_rgb_report_lines() {
    let rendered = render_text_report(&report_with_palette(), OutputMode::CompactWithRgb);
    let expected = format!(
        "  {}  {:<8} rgb({:>3}, {:>3}, {:>3})  {:>6.2}%\n  {}  {:<8} rgb({:>3}, {:>3}, {:>3})  {:>6.2}%\n",
        swatch(255, 0, 0), "#FF0000", 255, 0, 0, 50.0,
        swatch(0, 169, 219), "#00A9DB", 0, 169, 219, 50.0
    );
    assert_eq!(rendered, expected);
}

#[test]
fn hex_report_lists_palette_and_harmonies() {
    let rendered = render_text_report(&harmony_report(), OutputMode::Hex);
    assert_eq!(rendered, "#FF0000\n#00B4C8\n#C80000\n#00A9DB\n");
}

#[test]
fn verbose_report_with_harmonies() {
    let rendered = render_text_report(&harmony_report(), OutputMode::Verbose);
    let mut expected = String::new();
    expected.push_str("huex 0.3.0  fixtures/example & test.ppm  2x1  2 visible pixels\n");
    expected.push_str("Oklab k-means++  requested=2  sampled=2  seed=42\n\n");
    expected.push_str(&format!(
        "  {}  {:<8}  rgb({:>3}, {:>3}, {:>3})  {:>6.2}%  {:>8} px  Oklab({:.4}, {:.4}, {:.4})\n",
        swatch(255, 0, 0), "#FF0000", 255, 0, 0, 50.0, 1, 0.62796, 0.22486, 0.12585
    ));
    expected.push_str("      complement\n");
    expected.push_str(&format!(
        "        {}  {:<8}  Oklab({:.4}, {:.4}, {:.4})  {:+.0}\u{b0}\n",
        swatch(0, 180, 200), "#00B4C8", 0.7, -0.1, -0.05, 180.0
    ));
    expected.push_str("      analogous\n");
    expected.push_str(&format!(
        "        {}  {:<8}  Oklab({:.4}, {:.4}, {:.4})  {:+.0}\u{b0}\n",
        swatch(200, 0, 0), "#C80000", 0.55, 0.2, 0.1, -30.0
    ));
    expected.push_str(&format!(
        "  {}  {:<8}  rgb({:>3}, {:>3}, {:>3})  {:>6.2}%  {:>8} px  Oklab({:.4}, {:.4}, {:.4})\n",
        swatch(0, 169, 219), "#00A9DB", 0, 169, 219, 50.0, 1, 0.62796, 0.22486, 0.12585
    ));
    assert_eq!(rendered, expected);
}

#[test]
fn compact_harmony_lines() {
    let rendered = render_text_report(&harmony_report(), OutputMode::Compact);
    assert!(rendered.contains(&format!("      complement\n        {}  #00B4C8\n", swatch(0, 180, 200))));
    let rgb = render_text_report(&harmony_report(), OutputMode::CompactWithRgb);
    assert!(rgb.contains(&format!("        {}  #C80000  rgb(200,   0,   0)\n", swatch(200, 0, 0))));
}

#[test]
fn wide_percentages_are_not_truncated() {
    let mut report = report_with_palette();
    report.colors[0].percent = "100.00".to_string();
    report.colors[0].population = 123_456_789;
    let rendered = render_text_report(&report, OutputMode::Verbose);
    assert!(rendered.contains("100.00%  123456789 px"));
}
