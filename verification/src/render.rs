use vstd::prelude::*;

use crate::color::Rgb8;
use crate::config::OutputMode;
use crate::harmony::{mode_name_spec, HarmonyMode};
use crate::text::{
    decimal_spec, pad_left_spec, pad_right_spec, push_decimal, push_padded_left,
    push_padded_right, push_signed, push_str, push_swatch, signed_decimal_spec, swatch_spec,
    decimal_string, escape_xml_spec, push_escaped, occurs_at,
};

verus! {

/// Oklab coordinates, each already written with four decimals.
pub struct OklabText {
    pub l: String,
    pub a: String,
    pub b: String,
}

/// One colour of a harmony, ready to be laid out.
pub struct HarmonyLine {
    pub hex: String,
    pub rgb: Rgb8,
    pub oklab: OklabText,
    pub hue_offset_degrees: i32,
}

/// The colours of one harmony.
pub struct HarmonyBlock {
    pub harmony: HarmonyMode,
    pub colors: Vec<HarmonyLine>,
}

/// One palette colour, ready to be laid out. `percent` is the share of visible pixels
/// times 100, already written with two decimals.
pub struct PaletteLine {
    pub hex: String,
    pub rgb: Rgb8,
    pub percent: String,
    pub population: usize,
    pub oklab: OklabText,
    pub harmonies: Option<Vec<HarmonyBlock>>,
}

/// The report's values, ready to be laid out as text or SVG.
pub struct ReportText {
    pub tool: String,
    pub version: String,
    pub source: String,
    pub width: u32,
    pub height: u32,
    pub visible_pixels: usize,
    pub sampled_pixels: usize,
    pub requested_colors: usize,
    pub seed: u64,
    pub colors: Vec<PaletteLine>,
}

/// `Oklab(l, a, b)`.
pub open spec fn oklab_text_spec(o: OklabText) -> Seq<char> {
    "Oklab("@ + o.l@ + ", "@ + o.a@ + ", "@ + o.b@ + ")"@
}

/// `rgb(r, g, b)` with each channel right-aligned in three columns.
pub open spec fn rgb_text_spec(c: Rgb8) -> Seq<char> {
    "rgb("@ + pad_left_spec(decimal_spec(c.r as nat), 3) + ", "@ + pad_left_spec(
        decimal_spec(c.g as nat),
        3,
    ) + ", "@ + pad_left_spec(decimal_spec(c.b as nat), 3) + ")"@
}

/// The line of one harmony colour in each layout.
pub open spec fn harmony_color_line_spec(c: HarmonyLine, mode: OutputMode) -> Seq<char> {
    match mode {
        OutputMode::Compact => "        "@ + swatch_spec(c.rgb.r, c.rgb.g, c.rgb.b) + "  "@ + c.hex@
            + "\n"@,
        OutputMode::CompactWithRgb => "        "@ + swatch_spec(c.rgb.r, c.rgb.g, c.rgb.b) + "  "@
            + pad_right_spec(c.hex@, 8) + " "@ + rgb_text_spec(c.rgb) + "\n"@,
        OutputMode::Hex => c.hex@ + "\n"@,
        OutputMode::Verbose => "        "@ + swatch_spec(c.rgb.r, c.rgb.g, c.rgb.b) + "  "@
            + pad_right_spec(c.hex@, 8) + "  "@ + oklab_text_spec(c.oklab) + "  "@
            + signed_decimal_spec(c.hue_offset_degrees as int) + "\u{b0}\n"@,
    }
}

/// The lines of the colours of one harmony.
pub open spec fn harmony_colors_spec(colors: Seq<HarmonyLine>, mode: OutputMode) -> Seq<char>
    decreases colors.len(),
{
    if colors.len() == 0 {
        Seq::empty()
    } else {
        harmony_colors_spec(colors.drop_last(), mode) + harmony_color_line_spec(
            colors.last(),
            mode,
        )
    }
}

/// One harmony: its name (not in the hex layout), then its colours.
pub open spec fn harmony_block_spec(block: HarmonyBlock, mode: OutputMode) -> Seq<char> {
    if mode == OutputMode::Hex {
        harmony_colors_spec(block.colors@, mode)
    } else {
        "      "@ + mode_name_spec(block.harmony) + "\n"@ + harmony_colors_spec(
            block.colors@,
            mode,
        )
    }
}

/// The harmonies of one palette colour.
pub open spec fn harmony_blocks_spec(blocks: Seq<HarmonyBlock>, mode: OutputMode) -> Seq<char>
    decreases blocks.len(),
{
    if blocks.len() == 0 {
        Seq::empty()
    } else {
        harmony_blocks_spec(blocks.drop_last(), mode) + harmony_block_spec(blocks.last(), mode)
    }
}

/// The line of one palette colour in each layout.
pub open spec fn palette_line_spec(c: PaletteLine, mode: OutputMode) -> Seq<char> {
    match mode {
        OutputMode::Compact => "  "@ + swatch_spec(c.rgb.r, c.rgb.g, c.rgb.b) + "  "@
            + pad_right_spec(c.hex@, 8) + " "@ + pad_left_spec(c.percent@, 6) + "%\n"@,
        OutputMode::CompactWithRgb => "  "@ + swatch_spec(c.rgb.r, c.rgb.g, c.rgb.b) + "  "@
            + pad_right_spec(c.hex@, 8) + " "@ + rgb_text_spec(c.rgb) + "  "@ + pad_left_spec(
            c.percent@,
            6,
        ) + "%\n"@,
        OutputMode::Hex => c.hex@ + "\n"@,
        OutputMode::Verbose => "  "@ + swatch_spec(c.rgb.r, c.rgb.g, c.rgb.b) + "  "@
            + pad_right_spec(c.hex@, 8) + "  "@ + rgb_text_spec(c.rgb) + "  "@ + pad_left_spec(
            c.percent@,
            6,
        ) + "%  "@ + pad_left_spec(decimal_spec(c.population as nat), 8) + " px  "@
            + oklab_text_spec(c.oklab) + "\n"@,
    }
}

/// One palette colour: its line, then its harmonies when it has any.
pub open spec fn palette_entry_spec(c: PaletteLine, mode: OutputMode) -> Seq<char> {
    palette_line_spec(c, mode) + match c.harmonies {
        Some(blocks) => harmony_blocks_spec(blocks@, mode),
        None => Seq::empty(),
    }
}

/// Every palette colour in order.
pub open spec fn palette_spec(colors: Seq<PaletteLine>, mode: OutputMode) -> Seq<char>
    decreases colors.len(),
{
    if colors.len() == 0 {
        Seq::empty()
    } else {
        palette_spec(colors.drop_last(), mode) + palette_entry_spec(colors.last(), mode)
    }
}

/// The verbose layout's heading: image facts, clustering settings, then a blank line.
pub open spec fn header_spec(r: ReportText) -> Seq<char> {
    "huex "@ + r.version@ + "  "@ + r.source@ + "  "@ + decimal_spec(r.width as nat) + "x"@
        + decimal_spec(r.height as nat) + "  "@ + decimal_spec(r.visible_pixels as nat)
        + " visible pixels\n"@ + "Oklab k-means++  requested="@ + decimal_spec(
        r.requested_colors as nat,
    ) + "  sampled="@ + decimal_spec(r.sampled_pixels as nat) + "  seed="@ + decimal_spec(
        r.seed as nat,
    ) + "\n"@ + "\n"@
}

/// The terminal report in a layout: the heading for the verbose layout, then the palette.
pub open spec fn text_report_spec(r: ReportText, mode: OutputMode) -> Seq<char> {
    if mode == OutputMode::Verbose {
        header_spec(r) + palette_spec(r.colors@, mode)
    } else {
        palette_spec(r.colors@, mode)
    }
}

fn push_oklab_text(s: &mut String, o: &OklabText)
    ensures
        final(s)@ == old(s)@ + oklab_text_spec(*o),
{
    let ghost start = s@;
    push_str(s, "Oklab(");
    push_str(s, o.l.as_str());
    push_str(s, ", ");
    push_str(s, o.a.as_str());
    push_str(s, ", ");
    push_str(s, o.b.as_str());
    push_str(s, ")");
    assert(s@ =~= start + oklab_text_spec(*o));
}

fn push_padded_decimal(s: &mut String, n: u64, width: usize)
    ensures
        final(s)@ == old(s)@ + pad_left_spec(decimal_spec(n as nat), width as nat),
{
    let digits = decimal_string(n);
    push_padded_left(s, digits.as_str(), width);
}

fn push_rgb_text(s: &mut String, c: Rgb8)
    ensures
        final(s)@ == old(s)@ + rgb_text_spec(c),
{
    let ghost start = s@;
    push_str(s, "rgb(");
    push_padded_decimal(s, c.r as u64, 3);
    push_str(s, ", ");
    push_padded_decimal(s, c.g as u64, 3);
    push_str(s, ", ");
    push_padded_decimal(s, c.b as u64, 3);
    push_str(s, ")");
    assert(s@ =~= start + rgb_text_spec(c));
}

fn push_harmony_color_line(s: &mut String, c: &HarmonyLine, mode: OutputMode)
    ensures
        final(s)@ == old(s)@ + harmony_color_line_spec(*c, mode),
{
    let ghost start = s@;
    match mode {
        OutputMode::Compact => {
            push_str(s, "        ");
            push_swatch(s, c.rgb.r, c.rgb.g, c.rgb.b);
            push_str(s, "  ");
            push_str(s, c.hex.as_str());
            push_str(s, "\n");
        },
        OutputMode::CompactWithRgb => {
            push_str(s, "        ");
            push_swatch(s, c.rgb.r, c.rgb.g, c.rgb.b);
            push_str(s, "  ");
            push_padded_right(s, c.hex.as_str(), 8);
            push_str(s, " ");
            push_rgb_text(s, c.rgb);
            push_str(s, "\n");
        },
        OutputMode::Hex => {
            push_str(s, c.hex.as_str());
            push_str(s, "\n");
        },
        OutputMode::Verbose => {
            push_str(s, "        ");
            push_swatch(s, c.rgb.r, c.rgb.g, c.rgb.b);
            push_str(s, "  ");
            push_padded_right(s, c.hex.as_str(), 8);
            push_str(s, "  ");
            push_oklab_text(s, &c.oklab);
            push_str(s, "  ");
            push_signed(s, c.hue_offset_degrees as i64);
            push_str(s, "\u{b0}\n");
        },
    }
    assert(s@ =~= start + harmony_color_line_spec(*c, mode));
}

fn push_harmony_block(s: &mut String, block: &HarmonyBlock, mode: OutputMode)
    ensures
        final(s)@ == old(s)@ + harmony_block_spec(*block, mode),
{
    let ghost start = s@;
    if mode != OutputMode::Hex {
        push_str(s, "      ");
        let name = block.harmony.name();
        push_str(s, name.as_str());
        push_str(s, "\n");
    }
    let ghost heading = s@;
    let colors = &block.colors;
    let mut i: usize = 0;
    assert(colors@.take(0) =~= Seq::<HarmonyLine>::empty());
    while i < colors.len()
        invariant
            i <= colors@.len(),
            s@ == heading + harmony_colors_spec(colors@.take(i as int), mode),
        decreases colors@.len() - i,
    {
        push_harmony_color_line(s, &colors[i], mode);
        assert(colors@.take(i + 1).drop_last() =~= colors@.take(i as int));
        i = i + 1;
    }
    assert(colors@.take(colors@.len() as int) =~= colors@);
    assert(s@ =~= start + harmony_block_spec(*block, mode));
}

fn push_palette_line_compact(s: &mut String, c: &PaletteLine)
    ensures
        final(s)@ == old(s)@ + palette_line_spec(*c, OutputMode::Compact),
{
    let ghost start = s@;
    push_str(s, "  ");
    push_swatch(s, c.rgb.r, c.rgb.g, c.rgb.b);
    push_str(s, "  ");
    push_padded_right(s, c.hex.as_str(), 8);
    push_str(s, " ");
    push_padded_left(s, c.percent.as_str(), 6);
    push_str(s, "%\n");
    assert(s@ =~= start + palette_line_spec(*c, OutputMode::Compact));
}

fn push_palette_line_rgb(s: &mut String, c: &PaletteLine)
    ensures
        final(s)@ == old(s)@ + palette_line_spec(*c, OutputMode::CompactWithRgb),
{
    let ghost start = s@;
    push_str(s, "  ");
    push_swatch(s, c.rgb.r, c.rgb.g, c.rgb.b);
    push_str(s, "  ");
    push_padded_right(s, c.hex.as_str(), 8);
    push_str(s, " ");
    push_rgb_text(s, c.rgb);
    push_str(s, "  ");
    push_padded_left(s, c.percent.as_str(), 6);
    push_str(s, "%\n");
    assert(s@ =~= start + palette_line_spec(*c, OutputMode::CompactWithRgb));
}

fn push_palette_line_verbose(s: &mut String, c: &PaletteLine)
    ensures
        final(s)@ == old(s)@ + palette_line_spec(*c, OutputMode::Verbose),
{
    let ghost start = s@;
    push_str(s, "  ");
    push_swatch(s, c.rgb.r, c.rgb.g, c.rgb.b);
    push_str(s, "  ");
    push_padded_right(s, c.hex.as_str(), 8);
    push_str(s, "  ");
    push_rgb_text(s, c.rgb);
    push_str(s, "  ");
    push_padded_left(s, c.percent.as_str(), 6);
    push_str(s, "%  ");
    push_padded_decimal(s, c.population as u64, 8);
    push_str(s, " px  ");
    push_oklab_text(s, &c.oklab);
    push_str(s, "\n");
    assert(s@ =~= start + palette_line_spec(*c, OutputMode::Verbose));
}

fn push_palette_line(s: &mut String, c: &PaletteLine, mode: OutputMode)
    ensures
        final(s)@ == old(s)@ + palette_line_spec(*c, mode),
{
    match mode {
        OutputMode::Compact => push_palette_line_compact(s, c),
        OutputMode::CompactWithRgb => push_palette_line_rgb(s, c),
        OutputMode::Hex => {
            let ghost start = s@;
            push_str(s, c.hex.as_str());
            push_str(s, "\n");
            assert(s@ =~= start + palette_line_spec(*c, mode));
        },
        OutputMode::Verbose => push_palette_line_verbose(s, c),
    }
}

fn push_palette_entry(s: &mut String, c: &PaletteLine, mode: OutputMode)
    ensures
        final(s)@ == old(s)@ + palette_entry_spec(*c, mode),
{
    let ghost start = s@;
    push_palette_line(s, c, mode);
    let ghost line_end = s@;
    match &c.harmonies {
        Some(blocks) => {
            let mut i: usize = 0;
            assert(blocks@.take(0) =~= Seq::<HarmonyBlock>::empty());
            while i < blocks.len()
                invariant
                    i <= blocks@.len(),
                    s@ == line_end + harmony_blocks_spec(blocks@.take(i as int), mode),
                decreases blocks@.len() - i,
            {
                push_harmony_block(s, &blocks[i], mode);
                assert(blocks@.take(i + 1).drop_last() =~= blocks@.take(i as int));
                i = i + 1;
            }
            assert(blocks@.take(blocks@.len() as int) =~= blocks@);
        },
        None => {},
    }
    assert(s@ =~= start + palette_entry_spec(*c, mode));
}

fn push_header(s: &mut String, r: &ReportText)
    ensures
        final(s)@ == old(s)@ + header_spec(*r),
{
    let ghost start = s@;
    push_str(s, "huex ");
    push_str(s, r.version.as_str());
    push_str(s, "  ");
    push_str(s, r.source.as_str());
    push_str(s, "  ");
    push_decimal(s, r.width as u64);
    push_str(s, "x");
    push_decimal(s, r.height as u64);
    push_str(s, "  ");
    push_decimal(s, r.visible_pixels as u64);
    push_str(s, " visible pixels\n");
    push_str(s, "Oklab k-means++  requested=");
    push_decimal(s, r.requested_colors as u64);
    push_str(s, "  sampled=");
    push_decimal(s, r.sampled_pixels as u64);
    push_str(s, "  seed=");
    push_decimal(s, r.seed);
    push_str(s, "\n");
    push_str(s, "\n");
    assert(s@ =~= start + header_spec(*r));
}

/// The verbose report has a line of its own with the clustering settings: the requested
/// number of colours, the number of sampled pixels (not the visible ones) and the seed.
pub proof fn lemma_verbose_report_settings_line(r: ReportText)
    ensures
        exists|p: int|
            #[trigger] occurs_at(
                text_report_spec(r, OutputMode::Verbose),
                "Oklab k-means++  requested="@ + decimal_spec(r.requested_colors as nat)
                    + "  sampled="@
                    + decimal_spec(r.sampled_pixels as nat) + "  seed="@
                    + decimal_spec(r.seed as nat) + "\n"@,
                p,
            ) && p > 0 && text_report_spec(r, OutputMode::Verbose)[p - 1] == '\n',
{
    let text = text_report_spec(r, OutputMode::Verbose);
    let line = "Oklab k-means++  requested="@ + decimal_spec(r.requested_colors as nat)
        + "  sampled="@
        + decimal_spec(r.sampled_pixels as nat) + "  seed="@ + decimal_spec(r.seed as nat) + "\n"@;
    let first = "huex "@ + r.version@ + "  "@ + r.source@ + "  "@ + decimal_spec(r.width as nat)
        + "x"@ + decimal_spec(r.height as nat) + "  "@ + decimal_spec(r.visible_pixels as nat)
        + " visible pixels\n"@;
    let rest = "\n"@ + palette_spec(r.colors@, OutputMode::Verbose);
    assert(text =~= first + line + rest);
    reveal_strlit(" visible pixels\n");
    let p = first.len() as int;
    assert(text[p - 1] == first[p - 1]);
    assert(text.subrange(p, p + line.len()) =~= line);
    assert(occurs_at(text, line, p));
}

/// The SVG strip has a divider at the left edge of every swatch but the first: for `n`
/// colours, one at `x = 96 * k` for each `k` from 1 to `n - 1`.
pub proof fn lemma_svg_divider_at_each_swatch_edge(r: ReportText, k: nat)
    requires
        1 <= k < r.colors@.len(),
    ensures
        exists|p: int|
            #[trigger] occurs_at(
                svg_report_spec(r),
                "  <line x1=\""@ + decimal_spec(96 * k) + "\" y1=\"0\" x2=\""@ + decimal_spec(96 * k)
                    + "\" y2=\"64\" stroke=\"#000000\" stroke-opacity=\"0.12\"/>\n"@,
                p,
            ),
{
    let n = r.colors@.len();
    let width = svg_width_spec(n);
    let svg = svg_report_spec(r);
    let line = "  <line x1=\""@ + decimal_spec(96 * k) + "\" y1=\"0\" x2=\""@ + decimal_spec(96 * k)
        + "\" y2=\"64\" stroke=\"#000000\" stroke-opacity=\"0.12\"/>\n"@;
    let head = "<svg xmlns=\"http://www.w3.org/2000/svg\" viewBox=\"0 0 "@ + decimal_spec(width)
        + " 64\" width=\""@ + decimal_spec(width)
        + "\" height=\"64\" role=\"img\" aria-labelledby=\"title desc\">\n"@
        + "  <title id=\"title\">"@ + escape_xml_spec(r.source@ + " palette"@) + "</title>\n"@
        + "  <desc id=\"desc\">"@ + escape_xml_spec(
        decimal_spec(n) + " dominant colors extracted by "@ + r.tool@ + " "@ + r.version@,
    ) + "</desc>\n"@ + svg_swatches_spec(r.colors@);
    let tail = "  <rect x=\"0.5\" y=\"0.5\" width=\""@ + decimal_spec((width - 1) as nat)
        + "\" height=\"63\" fill=\"none\" stroke=\"#000000\" stroke-opacity=\"0.08\"/>\n"@
        + "</svg>\n"@;
    lemma_dividers_split(n, k);
    let after = choose|after: Seq<char>|
        svg_dividers_spec(n) == svg_dividers_spec(k) + svg_divider_spec(k) + after;
    assert(k * 96 == 96 * k);
    assert(svg_divider_spec(k) == line);
    assert(svg =~= head + svg_dividers_spec(k) + line + after + tail);
    let p = (head + svg_dividers_spec(k)).len() as int;
    assert(svg.subrange(p, p + line.len()) =~= line);
    assert(occurs_at(svg, line, p));
}

proof fn lemma_dividers_split(m: nat, k: nat)
    requires
        1 <= k < m,
    ensures
        exists|after: Seq<char>|
            svg_dividers_spec(m) == svg_dividers_spec(k) + svg_divider_spec(k) + after,
    decreases m,
{
    if m == k + 1 {
        assert(svg_dividers_spec(m) =~= svg_dividers_spec(k) + svg_divider_spec(k) + Seq::<
            char,
        >::empty());
    } else {
        lemma_dividers_split((m - 1) as nat, k);
        let after = choose|after: Seq<char>|
            svg_dividers_spec((m - 1) as nat) == svg_dividers_spec(k) + svg_divider_spec(k) + after;
        assert(svg_dividers_spec(m) =~= svg_dividers_spec(k) + svg_divider_spec(k) + (after
            + svg_divider_spec((m - 1) as nat)));
    }
}

/// The terminal report in the given layout.
pub fn render_text_report(report: &ReportText, mode: OutputMode) -> (out: String)
    ensures
        out@ == text_report_spec(*report, mode),
{
    let mut out = String::new();
    if mode == OutputMode::Verbose {
        push_header(&mut out, report);
    }
    let ghost heading = out@;
    let colors = &report.colors;
    let mut i: usize = 0;
    assert(colors@.take(0) =~= Seq::<PaletteLine>::empty());
    while i < colors.len()
        invariant
            i <= colors@.len(),
            out@ == heading + palette_spec(colors@.take(i as int), mode),
        decreases colors@.len() - i,
    {
        push_palette_entry(&mut out, &colors[i], mode);
        assert(colors@.take(i + 1).drop_last() =~= colors@.take(i as int));
        i = i + 1;
    }
    assert(colors@.take(colors@.len() as int) =~= colors@);
    assert(out@ =~= text_report_spec(*report, mode));
    out
}

/// The width of the swatch strip: 96 pixels per colour, and at least one swatch.
pub open spec fn svg_width_spec(n: nat) -> nat {
    if n == 0 {
        96
    } else {
        n * 96
    }
}

/// The swatch of the colour at `index`, with its hex and share as a tooltip.
pub open spec fn svg_swatch_spec(c: PaletteLine, index: nat) -> Seq<char> {
    "  <rect x=\""@ + decimal_spec(index * 96) + "\" y=\"0\" width=\"96\" height=\"64\" fill=\""@
        + c.hex@ + "\">\n"@ + "    <title>"@ + escape_xml_spec(c.hex@ + " "@ + c.percent@ + "%"@)
        + "</title>\n"@ + "  </rect>\n"@
}

/// The swatches of all colours, left to right.
pub open spec fn svg_swatches_spec(colors: Seq<PaletteLine>) -> Seq<char>
    decreases colors.len(),
{
    if colors.len() == 0 {
        Seq::empty()
    } else {
        svg_swatches_spec(colors.drop_last()) + svg_swatch_spec(
            colors.last(),
            (colors.len() - 1) as nat,
        )
    }
}

/// The divider at the left edge of the swatch at `index`.
pub open spec fn svg_divider_spec(index: nat) -> Seq<char> {
    "  <line x1=\""@ + decimal_spec(index * 96) + "\" y1=\"0\" x2=\""@ + decimal_spec(index * 96)
        + "\" y2=\"64\" stroke=\"#000000\" stroke-opacity=\"0.12\"/>\n"@
}

/// The dividers between `n` swatches.
pub open spec fn svg_dividers_spec(n: nat) -> Seq<char>
    decreases n,
{
    if n <= 1 {
        Seq::empty()
    } else {
        svg_dividers_spec((n - 1) as nat) + svg_divider_spec((n - 1) as nat)
    }
}

/// The palette as an SVG strip of swatches, with a title, a description, dividers and a border.
pub open spec fn svg_report_spec(r: ReportText) -> Seq<char> {
    let n = r.colors@.len();
    let width = svg_width_spec(n);
    "<svg xmlns=\"http://www.w3.org/2000/svg\" viewBox=\"0 0 "@ + decimal_spec(width)
        + " 64\" width=\""@ + decimal_spec(width)
        + "\" height=\"64\" role=\"img\" aria-labelledby=\"title desc\">\n"@
        + "  <title id=\"title\">"@ + escape_xml_spec(r.source@ + " palette"@) + "</title>\n"@
        + "  <desc id=\"desc\">"@ + escape_xml_spec(
        decimal_spec(n) + " dominant colors extracted by "@ + r.tool@ + " "@ + r.version@,
    ) + "</desc>\n"@ + svg_swatches_spec(r.colors@) + svg_dividers_spec(n)
        + "  <rect x=\"0.5\" y=\"0.5\" width=\""@ + decimal_spec((width - 1) as nat)
        + "\" height=\"63\" fill=\"none\" stroke=\"#000000\" stroke-opacity=\"0.08\"/>\n"@
        + "</svg>\n"@
}

fn push_svg_swatch(s: &mut String, c: &PaletteLine, index: u64)
    requires
        index * 96 <= u64::MAX,
    ensures
        final(s)@ == old(s)@ + svg_swatch_spec(*c, index as nat),
{
    let ghost start = s@;
    push_str(s, "  <rect x=\"");
    push_decimal(s, index * 96);
    push_str(s, "\" y=\"0\" width=\"96\" height=\"64\" fill=\"");
    push_str(s, c.hex.as_str());
    push_str(s, "\">\n");
    push_str(s, "    <title>");
    let mut label = String::new();
    push_str(&mut label, c.hex.as_str());
    push_str(&mut label, " ");
    push_str(&mut label, c.percent.as_str());
    push_str(&mut label, "%");
    push_escaped(s, label.as_str());
    push_str(s, "</title>\n");
    push_str(s, "  </rect>\n");
    assert(label@ =~= c.hex@ + " "@ + c.percent@ + "%"@);
    assert(s@ =~= start + svg_swatch_spec(*c, index as nat));
}

fn push_svg_divider(s: &mut String, index: u64)
    requires
        index * 96 <= u64::MAX,
    ensures
        final(s)@ == old(s)@ + svg_divider_spec(index as nat),
{
    let ghost start = s@;
    push_str(s, "  <line x1=\"");
    push_decimal(s, index * 96);
    push_str(s, "\" y1=\"0\" x2=\"");
    push_decimal(s, index * 96);
    push_str(s, "\" y2=\"64\" stroke=\"#000000\" stroke-opacity=\"0.12\"/>\n");
    assert(s@ =~= start + svg_divider_spec(index as nat));
}

fn push_svg_heading(s: &mut String, report: &ReportText, width: u64)
    requires
        width == svg_width_spec(report.colors@.len()),
    ensures
        final(s)@ == old(s)@ + "<svg xmlns=\"http://www.w3.org/2000/svg\" viewBox=\"0 0 "@
            + decimal_spec(width as nat) + " 64\" width=\""@ + decimal_spec(width as nat)
            + "\" height=\"64\" role=\"img\" aria-labelledby=\"title desc\">\n"@
            + "  <title id=\"title\">"@ + escape_xml_spec(report.source@ + " palette"@)
            + "</title>\n"@ + "  <desc id=\"desc\">"@ + escape_xml_spec(
            decimal_spec(report.colors@.len()) + " dominant colors extracted by "@
                + report.tool@ + " "@ + report.version@,
        ) + "</desc>\n"@,
{
    let ghost start = s@;
    push_str(s, "<svg xmlns=\"http://www.w3.org/2000/svg\" viewBox=\"0 0 ");
    push_decimal(s, width);
    push_str(s, " 64\" width=\"");
    push_decimal(s, width);
    push_str(s, "\" height=\"64\" role=\"img\" aria-labelledby=\"title desc\">\n");
    push_str(s, "  <title id=\"title\">");
    let mut title = String::new();
    push_str(&mut title, report.source.as_str());
    push_str(&mut title, " palette");
    push_escaped(s, title.as_str());
    push_str(s, "</title>\n");
    push_str(s, "  <desc id=\"desc\">");
    let mut desc = String::new();
    push_decimal(&mut desc, report.colors.len() as u64);
    push_str(&mut desc, " dominant colors extracted by ");
    push_str(&mut desc, report.tool.as_str());
    push_str(&mut desc, " ");
    push_str(&mut desc, report.version.as_str());
    push_escaped(s, desc.as_str());
    push_str(s, "</desc>\n");
    assert(title@ =~= report.source@ + " palette"@);
    assert(desc@ =~= decimal_spec(report.colors@.len()) + " dominant colors extracted by "@
        + report.tool@ + " "@ + report.version@);
    assert(s@ =~= start + "<svg xmlns=\"http://www.w3.org/2000/svg\" viewBox=\"0 0 "@
        + decimal_spec(width as nat) + " 64\" width=\""@ + decimal_spec(width as nat)
        + "\" height=\"64\" role=\"img\" aria-labelledby=\"title desc\">\n"@
        + "  <title id=\"title\">"@ + escape_xml_spec(report.source@ + " palette"@)
        + "</title>\n"@ + "  <desc id=\"desc\">"@ + escape_xml_spec(
        decimal_spec(report.colors@.len()) + " dominant colors extracted by "@ + report.tool@
            + " "@ + report.version@,
    ) + "</desc>\n"@);
}

/// The palette as an SVG swatch strip (see `svg_report_spec`). The strip's width must fit
/// the 32-bit pixel coordinates of the drawing.
pub fn render_svg_report(report: &ReportText) -> (out: String)
    requires
        report.colors@.len() * 96 <= u32::MAX,
    ensures
        out@ == svg_report_spec(*report),
{
    let n = report.colors.len();
    let width: u64 = if n == 0 {
        96
    } else {
        n as u64 * 96
    };
    let mut out = String::new();
    push_svg_heading(&mut out, report, width);
    let ghost heading = out@;
    let colors = &report.colors;
    let mut i: usize = 0;
    assert(colors@.take(0) =~= Seq::<PaletteLine>::empty());
    while i < n
        invariant
            n == colors@.len(),
            n * 96 <= u32::MAX,
            i <= n,
            out@ == heading + svg_swatches_spec(colors@.take(i as int)),
        decreases n - i,
    {
        push_svg_swatch(&mut out, &colors[i], i as u64);
        assert(colors@.take(i + 1).drop_last() =~= colors@.take(i as int));
        i = i + 1;
    }
    assert(colors@.take(n as int) =~= colors@);
    let ghost swatches_end = out@;
    let mut k: usize = 1;
    while k < n
        invariant
            n == colors@.len(),
            n * 96 <= u32::MAX,
            1 <= k,
            k <= n || k == 1,
            out@ == swatches_end + svg_dividers_spec(k as nat),
        decreases n - k,
    {
        push_svg_divider(&mut out, k as u64);
        k = k + 1;
    }
    assert(svg_dividers_spec(k as nat) == svg_dividers_spec(n as nat));
    let ghost dividers_end = out@;
    push_str(&mut out, "  <rect x=\"0.5\" y=\"0.5\" width=\"");
    push_decimal(&mut out, width - 1);
    push_str(&mut out, "\" height=\"63\" fill=\"none\" stroke=\"#000000\" stroke-opacity=\"0.08\"/>\n");
    push_str(&mut out, "</svg>\n");
    assert(out@ =~= svg_report_spec(*report));
    out
}

} // verus!
