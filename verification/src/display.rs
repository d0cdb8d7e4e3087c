//! Terminal display text: themes, true-color escapes, padding and labels.
//!
//! OneDark for dark terminals, One Light for light ones. Every function here
//! is given whether colors are wanted and which theme is in use; finding
//! those out (environment, TTY) is the caller's business.

use vstd::prelude::*;

use vstd::utf8::{decode_utf8, encode_utf8, is_char_boundary};

use crate::levenshtein::chars_of;

verus! {

/// Width between the box borders.
pub const BOX_WIDTH: usize = 80;

/// Reset all attributes.
pub const RESET: &'static str = "\x1b[0m";
/// Bold.
pub const BOLD: &'static str = "\x1b[1m";
/// Dim.
pub const DIM: &'static str = "\x1b[2m";

/// Terminal color theme
#[derive(Debug, Clone, Copy, PartialEq, Eq, Structural)]
pub enum Theme {
    Dark,
    Light,
}

/// The named colors of the palettes.
#[derive(Debug, Clone, Copy, PartialEq, Eq, Structural)]
pub enum PaletteColor {
    Red,
    Green,
    Yellow,
    Blue,
    Magenta,
    Cyan,
    White,
    Gray,
    BrightRed,
    BrightGreen,
    BrightYellow,
    BrightBlue,
    BrightMagenta,
    BrightCyan,
}

/// The RGB value of a color in a theme: OneDark for dark, One Light for light.
pub open spec fn spec_palette(theme: Theme, color: PaletteColor) -> (u8, u8, u8) {
    match theme {
        Theme::Dark => match color {
            PaletteColor::Red => (224, 108, 117),
            PaletteColor::Green => (152, 195, 121),
            PaletteColor::Yellow => (229, 192, 123),
            PaletteColor::Blue => (97, 175, 239),
            PaletteColor::Magenta => (198, 120, 221),
            PaletteColor::Cyan => (86, 182, 194),
            PaletteColor::White => (171, 178, 191),
            PaletteColor::Gray => (92, 99, 112),
            PaletteColor::BrightRed => (240, 113, 120),
            PaletteColor::BrightGreen => (166, 226, 46),
            PaletteColor::BrightYellow => (255, 215, 0),
            PaletteColor::BrightBlue => (127, 200, 255),
            PaletteColor::BrightMagenta => (224, 145, 237),
            PaletteColor::BrightCyan => (102, 217, 239),
        },
        Theme::Light => match color {
            PaletteColor::Red => (228, 86, 73),
            PaletteColor::Green => (80, 161, 79),
            PaletteColor::Yellow => (193, 132, 1),
            PaletteColor::Blue => (64, 120, 242),
            PaletteColor::Magenta => (166, 38, 164),
            PaletteColor::Cyan => (1, 132, 188),
            PaletteColor::White => (56, 58, 66),
            PaletteColor::Gray => (160, 161, 167),
            PaletteColor::BrightRed => (202, 18, 67),
            PaletteColor::BrightGreen => (68, 140, 39),
            PaletteColor::BrightYellow => (152, 104, 1),
            PaletteColor::BrightBlue => (54, 100, 212),
            PaletteColor::BrightMagenta => (146, 38, 144),
            PaletteColor::BrightCyan => (1, 112, 158),
        },
    }
}

/// The RGB value of `color` in `theme`.
pub fn palette(theme: Theme, color: PaletteColor) -> (r: (u8, u8, u8))
    ensures
        r == spec_palette(theme, color),
{
    match theme {
        Theme::Dark => match color {
            PaletteColor::Red => (224, 108, 117),
            PaletteColor::Green => (152, 195, 121),
            PaletteColor::Yellow => (229, 192, 123),
            PaletteColor::Blue => (97, 175, 239),
            PaletteColor::Magenta => (198, 120, 221),
            PaletteColor::Cyan => (86, 182, 194),
            PaletteColor::White => (171, 178, 191),
            PaletteColor::Gray => (92, 99, 112),
            PaletteColor::BrightRed => (240, 113, 120),
            PaletteColor::BrightGreen => (166, 226, 46),
            PaletteColor::BrightYellow => (255, 215, 0),
            PaletteColor::BrightBlue => (127, 200, 255),
            PaletteColor::BrightMagenta => (224, 145, 237),
            PaletteColor::BrightCyan => (102, 217, 239),
        },
        Theme::Light => match color {
            PaletteColor::Red => (228, 86, 73),
            PaletteColor::Green => (80, 161, 79),
            PaletteColor::Yellow => (193, 132, 1),
            PaletteColor::Blue => (64, 120, 242),
            PaletteColor::Magenta => (166, 38, 164),
            PaletteColor::Cyan => (1, 132, 188),
            PaletteColor::White => (56, 58, 66),
            PaletteColor::Gray => (160, 161, 167),
            PaletteColor::BrightRed => (202, 18, 67),
            PaletteColor::BrightGreen => (68, 140, 39),
            PaletteColor::BrightYellow => (152, 104, 1),
            PaletteColor::BrightBlue => (54, 100, 212),
            PaletteColor::BrightMagenta => (146, 38, 144),
            PaletteColor::BrightCyan => (1, 112, 158),
        },
    }
}

// ============================================================================
// DECIMAL TEXT
// ============================================================================

/// The one-character text of a decimal digit.
pub open spec fn spec_digit(d: nat) -> Seq<char> {
    if d == 0 { "0"@ } else if d == 1 { "1"@ } else if d == 2 { "2"@ } else if d == 3 { "3"@ }
    else if d == 4 { "4"@ } else if d == 5 { "5"@ } else if d == 6 { "6"@ } else if d == 7 { "7"@ }
    else if d == 8 { "8"@ } else { "9"@ }
}

/// The decimal text of `n`, without leading zeros.
pub open spec fn spec_decimal(n: nat) -> Seq<char>
    decreases n,
{
    if n < 10 {
        spec_digit(n)
    } else {
        spec_decimal(n / 10) + spec_digit(n % 10)
    }
}

fn digit_text(d: u8) -> (s: &'static str)
    requires
        d < 10,
    ensures
        s@ == spec_digit(d as nat),
{
    if d == 0 { "0" } else if d == 1 { "1" } else if d == 2 { "2" } else if d == 3 { "3" }
    else if d == 4 { "4" } else if d == 5 { "5" } else if d == 6 { "6" } else if d == 7 { "7" }
    else if d == 8 { "8" } else { "9" }
}

fn push_decimal(out: &mut String, n: u8)
    ensures
        final(out)@ == old(out)@ + spec_decimal(n as nat),
{
    let ghost start = out@;
    if n >= 100 {
        out.append(digit_text(n / 100));
        out.append(digit_text((n / 10) % 10));
        out.append(digit_text(n % 10));
        assert(spec_decimal((n / 100) as nat) == spec_digit((n / 100) as nat));
        assert(spec_decimal((n / 10) as nat) == spec_decimal((n / 100) as nat) + spec_digit(((n / 10) % 10) as nat));
        assert(spec_decimal(n as nat) == spec_decimal((n / 10) as nat) + spec_digit((n % 10) as nat));
        assert(out@ =~= start + spec_decimal(n as nat));
    } else if n >= 10 {
        out.append(digit_text(n / 10));
        out.append(digit_text(n % 10));
        assert(spec_decimal((n / 10) as nat) == spec_digit((n / 10) as nat));
        assert(spec_decimal(n as nat) == spec_decimal((n / 10) as nat) + spec_digit((n % 10) as nat));
        assert(out@ =~= start + spec_decimal(n as nat));
    } else {
        out.append(digit_text(n));
    }
}

/// The true-color foreground escape for an RGB value.
pub open spec fn spec_rgb(r: u8, g: u8, b: u8) -> Seq<char> {
    "\x1b[38;2;"@ + spec_decimal(r as nat) + ";"@ + spec_decimal(g as nat) + ";"@ + spec_decimal(b as nat) + "m"@
}

/// True color escape sequence: `ESC[38;2;R;G;Bm`.
pub fn rgb(r: u8, g: u8, b: u8) -> (s: String)
    ensures
        s@ == spec_rgb(r, g, b),
{
    let mut out = String::from_str("\x1b[38;2;");
    push_decimal(&mut out, r);
    out.append(";");
    push_decimal(&mut out, g);
    out.append(";");
    push_decimal(&mut out, b);
    out.append("m");
    out
}

/// The escape for a palette color in a theme.
pub open spec fn spec_theme_color(theme: Theme, color: PaletteColor) -> Seq<char> {
    let (r, g, b) = spec_palette(theme, color);
    spec_rgb(r, g, b)
}

/// The escape for a palette color in a theme.
pub fn theme_color(theme: Theme, color: PaletteColor) -> (s: String)
    ensures
        s@ == spec_theme_color(theme, color),
{
    let (r, g, b) = palette(theme, color);
    rgb(r, g, b)
}

// ============================================================================
// STYLING
// ============================================================================

/// Several strings one after another.
pub open spec fn spec_join(parts: Seq<&str>) -> Seq<char>
    decreases parts.len(),
{
    if parts.len() == 0 {
        Seq::empty()
    } else {
        spec_join(parts.drop_last()) + parts.last()@
    }
}

fn push_all(out: &mut String, parts: &[&str])
    ensures
        final(out)@ == old(out)@ + spec_join(parts@),
{
    let mut i: usize = 0;
    while i < parts.len()
        invariant
            i <= parts@.len(),
            out@ == old(out)@ + spec_join(parts@.take(i as int)),
        decreases parts@.len() - i,
    {
        out.append(parts[i]);
        assert(parts@.take(i as int + 1).drop_last() =~= parts@.take(i as int));
        assert(out@ =~= old(out)@ + spec_join(parts@.take(i as int + 1)));
        i = i + 1;
    }
    assert(parts@.take(parts@.len() as int) =~= parts@);
}

/// Apply a color when colors are on, otherwise return the plain text.
pub fn color(c: &str, text: &str, use_colors: bool) -> (s: String)
    ensures
        s@ == if use_colors { c@ + text@ + RESET@ } else { text@ },
{
    if use_colors {
        let mut out = String::from_str(c);
        out.append(text);
        out.append(RESET);
        out
    } else {
        String::from_str(text)
    }
}

/// Apply several styles when colors are on.
pub fn styled(styles: &[&str], text: &str, use_colors: bool) -> (s: String)
    ensures
        s@ == if use_colors { spec_join(styles@) + text@ + RESET@ } else { text@ },
{
    if use_colors {
        let mut out = String::new();
        push_all(&mut out, styles);
        out.append(text);
        out.append(RESET);
        assert(out@ =~= spec_join(styles@) + text@ + RESET@);
        out
    } else {
        String::from_str(text)
    }
}

/// Apply a theme color with modifiers when colors are on.
pub fn themed(color: &str, modifiers: &[&str], text: &str, use_colors: bool) -> (s: String)
    ensures
        s@ == if use_colors { spec_join(modifiers@) + color@ + text@ + RESET@ } else { text@ },
{
    if use_colors {
        let mut out = String::new();
        push_all(&mut out, modifiers);
        out.append(color);
        out.append(text);
        out.append(RESET);
        assert(out@ =~= spec_join(modifiers@) + color@ + text@ + RESET@);
        out
    } else {
        String::from_str(text)
    }
}

// ============================================================================
// VISIBLE LENGTH AND PADDING
// ============================================================================

/// Characters shown on screen: everything outside `ESC ... m` sequences.
pub open spec fn spec_visible_len_from(s: Seq<char>, in_escape: bool) -> nat
    decreases s.len(),
{
    if s.len() == 0 {
        0
    } else if s[0] == '\x1b' {
        spec_visible_len_from(s.drop_first(), true)
    } else if in_escape && s[0] == 'm' {
        spec_visible_len_from(s.drop_first(), false)
    } else if !in_escape {
        1 + spec_visible_len_from(s.drop_first(), false)
    } else {
        spec_visible_len_from(s.drop_first(), true)
    }
}

/// The visible length of a string.
pub open spec fn spec_visible_len(s: Seq<char>) -> nat {
    spec_visible_len_from(s, false)
}

proof fn lemma_visible_len_bound(s: Seq<char>, e: bool)
    ensures
        spec_visible_len_from(s, e) <= s.len(),
    decreases s.len(),
{
    if s.len() > 0 {
        lemma_visible_len_bound(s.drop_first(), true);
        lemma_visible_len_bound(s.drop_first(), false);
    }
}

/// Calculate visible length (excluding ANSI escape codes).
pub fn visible_len(s: &str) -> (n: usize)
    ensures
        n == spec_visible_len(s@),
{
    let cs = chars_of(s);
    let mut in_escape = false;
    let mut len: usize = 0;
    let mut i: usize = 0;
    proof {
        lemma_visible_len_bound(s@, false);
        assert(s@.skip(0) =~= s@);
    }
    while i < cs.len()
        invariant
            cs@ == s@,
            i <= cs@.len(),
            len <= i,
            len + spec_visible_len_from(s@.skip(i as int), in_escape) == spec_visible_len(s@),
        decreases cs@.len() - i,
    {
        let c = cs[i];
        proof {
            assert(s@.skip(i as int)[0] == c);
            assert(s@.skip(i as int).drop_first() =~= s@.skip(i as int + 1));
        }
        if c == '\x1b' {
            in_escape = true;
        } else if in_escape && c == 'm' {
            in_escape = false;
        } else if !in_escape {
            len = len + 1;
        }
        i = i + 1;
    }
    len
}

/// `n` spaces.
pub open spec fn spec_spaces(n: nat) -> Seq<char>
    decreases n,
{
    if n == 0 { Seq::empty() } else { spec_spaces((n - 1) as nat) + " "@ }
}

fn push_spaces(out: &mut String, n: usize)
    ensures
        final(out)@ == old(out)@ + spec_spaces(n as nat),
{
    let mut i: usize = 0;
    while i < n
        invariant
            i <= n,
            out@ == old(out)@ + spec_spaces(i as nat),
        decreases n - i,
    {
        out.append(" ");
        assert(out@ =~= old(out)@ + spec_spaces((i + 1) as nat));
        i = i + 1;
    }
}

/// Left-pad a styled string to a fixed visible width.
pub fn pad_left(s: &str, width: usize) -> (r: String)
    ensures
        r@ == if spec_visible_len(s@) >= width { s@ } else { spec_spaces((width - spec_visible_len(s@)) as nat) + s@ },
{
    let visible = visible_len(s);
    if visible >= width {
        String::from_str(s)
    } else {
        let mut out = String::new();
        push_spaces(&mut out, width - visible);
        out.append(s);
        assert(out@ =~= spec_spaces((width - visible) as nat) + s@);
        out
    }
}

/// Right-pad a styled string to a fixed visible width.
pub fn pad_right(s: &str, width: usize) -> (r: String)
    ensures
        r@ == if spec_visible_len(s@) >= width { s@ } else { s@ + spec_spaces((width - spec_visible_len(s@)) as nat) },
{
    let visible = visible_len(s);
    if visible >= width {
        String::from_str(s)
    } else {
        let mut out = String::from_str(s);
        push_spaces(&mut out, width - visible);
        out
    }
}

// ============================================================================
// BOX LINES
// ============================================================================

/// `n` copies of `s`.
pub open spec fn spec_repeat(s: Seq<char>, n: nat) -> Seq<char>
    decreases n,
{
    if n == 0 { Seq::empty() } else { spec_repeat(s, (n - 1) as nat) + s }
}

fn push_repeat(out: &mut String, s: &str, n: usize)
    ensures
        final(out)@ == old(out)@ + spec_repeat(s@, n as nat),
{
    let mut i: usize = 0;
    while i < n
        invariant
            i <= n,
            out@ == old(out)@ + spec_repeat(s@, i as nat),
        decreases n - i,
    {
        out.append(s);
        assert(out@ =~= old(out)@ + spec_repeat(s@, (i + 1) as nat));
        i = i + 1;
    }
}

/// What is left of the box width after `n` visible characters (none when
/// they fill it).
pub open spec fn spec_room(n: nat) -> nat {
    if n >= BOX_WIDTH { 0 } else { (BOX_WIDTH - n) as nat }
}

/// A boxed line: border color, left edge, the content, padding to the box
/// width, border color, right edge.
pub open spec fn spec_box_row(border: Seq<char>, left: Seq<char>, right: Seq<char>, content: Seq<char>) -> Seq<char> {
    border + left + RESET@ + content + spec_spaces(spec_room(spec_visible_len(content))) + border + right + RESET@
}

fn box_row(border: &str, left: &str, right: &str, content: &str) -> (s: String)
    ensures
        s@ == spec_box_row(border@, left@, right@, content@),
{
    let len = visible_len(content);
    let pad = if len >= BOX_WIDTH { 0 } else { BOX_WIDTH - len };
    let mut out = String::from_str(border);
    out.append(left);
    out.append(RESET);
    out.append(content);
    push_spaces(&mut out, pad);
    out.append(border);
    out.append(right);
    out.append(RESET);
    assert(out@ =~= spec_box_row(border@, left@, right@, content@));
    out
}

/// A row of a section box (gray border), padded to the box width.
pub fn row(content: &str, theme: Theme) -> (s: String)
    ensures
        s@ == spec_box_row(spec_theme_color(theme, PaletteColor::Gray), "│"@, "│"@, content@),
{
    let border = theme_color(theme, PaletteColor::Gray);
    box_row(border.as_str(), "│", "│", content)
}

/// A row of the double-lined header box (blue border), padded to the box width.
pub fn row_double(content: &str, theme: Theme) -> (s: String)
    ensures
        s@ == spec_box_row(spec_theme_color(theme, PaletteColor::Blue), "║"@, "║"@, content@),
{
    let border = theme_color(theme, PaletteColor::Blue);
    box_row(border.as_str(), "║", "║", content)
}

/// A horizontal box edge: border color, left corner, the rule repeated to
/// the box width, right corner.
pub open spec fn spec_box_edge(border: Seq<char>, left: Seq<char>, rule: Seq<char>, right: Seq<char>) -> Seq<char> {
    border + left + spec_repeat(rule, BOX_WIDTH as nat) + right + RESET@
}

fn box_edge(border: &str, left: &str, rule: &str, right: &str) -> (s: String)
    ensures
        s@ == spec_box_edge(border@, left@, rule@, right@),
{
    let mut out = String::from_str(border);
    out.append(left);
    push_repeat(&mut out, rule, BOX_WIDTH);
    out.append(right);
    out.append(RESET);
    assert(out@ =~= spec_box_edge(border@, left@, rule@, right@));
    out
}

/// Bottom edge of a section box.
pub fn section_bot(theme: Theme) -> (s: String)
    ensures
        s@ == spec_box_edge(spec_theme_color(theme, PaletteColor::Gray), "└"@, "─"@, "┘"@),
{
    let border = theme_color(theme, PaletteColor::Gray);
    box_edge(border.as_str(), "└", "─", "┘")
}

/// Top edge of the double-lined header box.
pub fn double_header(theme: Theme) -> (s: String)
    ensures
        s@ == spec_box_edge(spec_theme_color(theme, PaletteColor::Blue), "╔"@, "═"@, "╗"@),
{
    let border = theme_color(theme, PaletteColor::Blue);
    box_edge(border.as_str(), "╔", "═", "╗")
}

/// Divider of the double-lined header box.
pub fn double_divider(theme: Theme) -> (s: String)
    ensures
        s@ == spec_box_edge(spec_theme_color(theme, PaletteColor::Blue), "╠"@, "═"@, "╣"@),
{
    let border = theme_color(theme, PaletteColor::Blue);
    box_edge(border.as_str(), "╠", "═", "╣")
}

/// Bottom edge of the double-lined header box.
pub fn double_footer(theme: Theme) -> (s: String)
    ensures
        s@ == spec_box_edge(spec_theme_color(theme, PaletteColor::Blue), "╚"@, "═"@, "╝"@),
{
    let border = theme_color(theme, PaletteColor::Blue);
    box_edge(border.as_str(), "╚", "═", "╝")
}

/// Bold text in a palette color (plain when colors are off).
fn bold_colored(theme: Theme, c: PaletteColor, text: &str, use_colors: bool) -> (s: String)
    ensures
        s@ == if use_colors { BOLD@ + spec_theme_color(theme, c) + text@ + RESET@ } else { text@ },
{
    if use_colors {
        let mut out = String::from_str(BOLD);
        let esc = theme_color(theme, c);
        out.append(esc.as_str());
        out.append(text);
        out.append(RESET);
        out
    } else {
        String::from_str(text)
    }
}

/// The bold bright-cyan title text (plain when colors are off).
pub open spec fn spec_title_text(text: Seq<char>, theme: Theme, use_colors: bool) -> Seq<char> {
    if use_colors { BOLD@ + spec_theme_color(theme, PaletteColor::BrightCyan) + text + RESET@ } else { text }
}

/// The title row: the title centered in the double-lined box (an odd
/// leftover space goes to the right).
pub open spec fn spec_title_row(text: Seq<char>, theme: Theme, use_colors: bool) -> Seq<char> {
    let colored = spec_title_text(text, theme, use_colors);
    let total = spec_room(spec_visible_len(colored));
    let border = spec_theme_color(theme, PaletteColor::Blue);
    border + "║"@ + RESET@ + spec_spaces(total / 2) + colored + spec_spaces((total - total / 2) as nat) + border + "║"@ + RESET@
}

/// The centered title row of the header box.
pub fn title(text: &str, theme: Theme, use_colors: bool) -> (s: String)
    ensures
        s@ == spec_title_row(text@, theme, use_colors),
{
    let colored = bold_colored(theme, PaletteColor::BrightCyan, text, use_colors);
    let len = visible_len(colored.as_str());
    let total = if len >= BOX_WIDTH { 0 } else { BOX_WIDTH - len };
    let left = total / 2;
    let right = total - left;
    let border = theme_color(theme, PaletteColor::Blue);
    let mut out = String::from_str(border.as_str());
    out.append("║");
    out.append(RESET);
    push_spaces(&mut out, left);
    out.append(colored.as_str());
    push_spaces(&mut out, right);
    out.append(border.as_str());
    out.append("║");
    out.append(RESET);
    assert(out@ =~= spec_title_row(text@, theme, use_colors));
    out
}

/// The label part of a section edge: "─ ", the bold cyan label, " ".
pub open spec fn spec_section_label(label: Seq<char>, theme: Theme, use_colors: bool) -> Seq<char> {
    "─ "@ + (if use_colors { BOLD@ + spec_theme_color(theme, PaletteColor::Cyan) + label + RESET@ } else { label }) + " "@
}

fn section_label(label: &str, theme: Theme, use_colors: bool) -> (s: String)
    ensures
        s@ == spec_section_label(label@, theme, use_colors),
{
    let colored = bold_colored(theme, PaletteColor::Cyan, label, use_colors);
    let mut out = String::from_str("─ ");
    out.append(colored.as_str());
    out.append(" ");
    out
}

/// Top edge of a section box with a label: the label part, then the rule
/// to the box width.
pub fn section_top(label: &str, theme: Theme, use_colors: bool) -> (s: String)
    requires
        spec_visible_len(spec_section_label(label@, theme, use_colors)) <= BOX_WIDTH,
    ensures
        ({
            let part = spec_section_label(label@, theme, use_colors);
            let border = spec_theme_color(theme, PaletteColor::Gray);
            s@ == border + "┌"@ + RESET@ + part + border + spec_repeat("─"@, (BOX_WIDTH - spec_visible_len(part)) as nat)
                + "┐"@ + RESET@
        }),
{
    let part = section_label(label, theme, use_colors);
    let remaining = BOX_WIDTH - visible_len(part.as_str());
    let border = theme_color(theme, PaletteColor::Gray);
    let mut out = String::from_str(border.as_str());
    out.append("┌");
    out.append(RESET);
    out.append(part.as_str());
    out.append(border.as_str());
    push_repeat(&mut out, "─", remaining);
    out.append("┐");
    out.append(RESET);
    out
}

/// A section divider with a label: the label part, then the rule to the
/// box width.
pub fn section_mid(label: &str, theme: Theme, use_colors: bool) -> (s: String)
    requires
        spec_visible_len(spec_section_label(label@, theme, use_colors)) < BOX_WIDTH,
    ensures
        ({
            let part = spec_section_label(label@, theme, use_colors);
            let border = spec_theme_color(theme, PaletteColor::Gray);
            s@ == border + "├"@ + RESET@ + part + border + "─"@
                + spec_repeat("─"@, (BOX_WIDTH - spec_visible_len(part) - 1) as nat) + "┤"@ + RESET@
        }),
{
    let part = section_label(label, theme, use_colors);
    let remaining = BOX_WIDTH - visible_len(part.as_str());
    let border = theme_color(theme, PaletteColor::Gray);
    let mut out = String::from_str(border.as_str());
    out.append("├");
    out.append(RESET);
    out.append(part.as_str());
    out.append(border.as_str());
    out.append("─");
    push_repeat(&mut out, "─", remaining - 1);
    out.append("┤");
    out.append(RESET);
    out
}

// ============================================================================
// LABELS
// ============================================================================

/// `[tech]`.
pub open spec fn spec_bracketed(tech: Seq<char>) -> Seq<char> {
    "["@ + tech + "]"@
}

/// The badge color of an encoding technique, if it has one.
pub open spec fn spec_technique_color(tech: Seq<char>) -> Option<PaletteColor> {
    if tech == "FC"@ { Some(PaletteColor::Green) }
    else if tech == "STRM"@ { Some(PaletteColor::Blue) }
    else if tech == "DELTA"@ { Some(PaletteColor::Magenta) }
    else if tech == "SKIP"@ { Some(PaletteColor::Yellow) }
    else if tech == "DEDUP"@ { Some(PaletteColor::Cyan) }
    else if tech == "DFA"@ { Some(PaletteColor::BrightMagenta) }
    else if tech == "BIN"@ { Some(PaletteColor::BrightBlue) }
    else if tech == "RAW"@ { Some(PaletteColor::Gray) }
    else if tech == "DICT"@ { Some(PaletteColor::BrightGreen) }
    else if tech == "CRC"@ { Some(PaletteColor::BrightRed) }
    else { None }
}

pub(crate) fn str_eq(a: &str, b: &str) -> (r: bool)
    ensures
        r == (a@ == b@),
{
    let x = String::from_str(a);
    let y = String::from_str(b);
    x == y
}

fn technique_color(tech: &str) -> (r: Option<PaletteColor>)
    ensures
        r == spec_technique_color(tech@),
{
    if str_eq(tech, "FC") { Some(PaletteColor::Green) }
    else if str_eq(tech, "STRM") { Some(PaletteColor::Blue) }
    else if str_eq(tech, "DELTA") { Some(PaletteColor::Magenta) }
    else if str_eq(tech, "SKIP") { Some(PaletteColor::Yellow) }
    else if str_eq(tech, "DEDUP") { Some(PaletteColor::Cyan) }
    else if str_eq(tech, "DFA") { Some(PaletteColor::BrightMagenta) }
    else if str_eq(tech, "BIN") { Some(PaletteColor::BrightBlue) }
    else if str_eq(tech, "RAW") { Some(PaletteColor::Gray) }
    else if str_eq(tech, "DICT") { Some(PaletteColor::BrightGreen) }
    else if str_eq(tech, "CRC") { Some(PaletteColor::BrightRed) }
    else { None }
}

/// Color-coded encoding technique badge: `[tech]`, in the technique's color
/// when colors are on and it has one.
pub fn technique_badge(tech: &str, use_colors: bool, theme: Theme) -> (s: String)
    ensures
        s@ == match (use_colors, spec_technique_color(tech@)) {
            (true, Some(c)) => spec_theme_color(theme, c) + spec_bracketed(tech@) + RESET@,
            _ => spec_bracketed(tech@),
        },
{
    let mut out = String::new();
    let c = if use_colors { technique_color(tech) } else { None };
    if let Some(pc) = c {
        out = theme_color(theme, pc);
    }
    out.append("[");
    out.append(tech);
    out.append("]");
    if c.is_some() {
        out.append(RESET);
    }
    assert(out@ =~= match (use_colors, spec_technique_color(tech@)) {
        (true, Some(c)) => spec_theme_color(theme, c) + spec_bracketed(tech@) + RESET@,
        _ => spec_bracketed(tech@),
    });
    out
}

/// `T` followed by the tier number.
pub open spec fn spec_tier_text(tier: u8) -> Seq<char> {
    "T"@ + spec_decimal(tier as nat)
}

/// Color-coded tier label: tiers 1, 2 and 3 in green, blue and magenta
/// when colors are on.
pub fn tier_label(tier: u8, use_colors: bool, theme: Theme) -> (s: String)
    ensures
        s@ == if use_colors && tier == 1 { spec_theme_color(theme, PaletteColor::Green) + spec_tier_text(tier) + RESET@ }
            else if use_colors && tier == 2 { spec_theme_color(theme, PaletteColor::Blue) + spec_tier_text(tier) + RESET@ }
            else if use_colors && tier == 3 { spec_theme_color(theme, PaletteColor::Magenta) + spec_tier_text(tier) + RESET@ }
            else { spec_tier_text(tier) },
{
    let c: Option<PaletteColor> = if !use_colors {
        None
    } else if tier == 1 {
        Some(PaletteColor::Green)
    } else if tier == 2 {
        Some(PaletteColor::Blue)
    } else if tier == 3 {
        Some(PaletteColor::Magenta)
    } else {
        None
    };
    let mut out = match c {
        Some(pc) => theme_color(theme, pc),
        None => String::new(),
    };
    out.append("T");
    push_decimal(&mut out, tier);
    if c.is_some() {
        out.append(RESET);
    }
    proof {
        reveal_strlit("T");
    }
    assert(out@ =~= if use_colors && tier == 1 { spec_theme_color(theme, PaletteColor::Green) + spec_tier_text(tier) + RESET@ }
        else if use_colors && tier == 2 { spec_theme_color(theme, PaletteColor::Blue) + spec_tier_text(tier) + RESET@ }
        else if use_colors && tier == 3 { spec_theme_color(theme, PaletteColor::Magenta) + spec_tier_text(tier) + RESET@ }
        else { spec_tier_text(tier) });
    out
}

/// The label color of a match type, if it has one.
pub open spec fn spec_match_type_color(mt: Seq<char>) -> Option<PaletteColor> {
    if mt == "Title"@ { Some(PaletteColor::BrightGreen) }
    else if mt == "Section"@ { Some(PaletteColor::Cyan) }
    else if mt == "Subheading"@ { Some(PaletteColor::Blue) }
    else if mt == "Subheading2"@ { Some(PaletteColor::Blue) }
    else if mt == "Content"@ { Some(PaletteColor::Gray) }
    else { None }
}

/// Color-coded match type label.
pub fn match_type_label(match_type: &str, use_colors: bool, theme: Theme) -> (s: String)
    ensures
        s@ == match (use_colors, spec_match_type_color(match_type@)) {
            (true, Some(c)) => spec_theme_color(theme, c) + match_type@ + RESET@,
            _ => match_type@,
        },
{
    let c: Option<PaletteColor> = if !use_colors {
        None
    } else if str_eq(match_type, "Title") {
        Some(PaletteColor::BrightGreen)
    } else if str_eq(match_type, "Section") {
        Some(PaletteColor::Cyan)
    } else if str_eq(match_type, "Subheading") {
        Some(PaletteColor::Blue)
    } else if str_eq(match_type, "Subheading2") {
        Some(PaletteColor::Blue)
    } else if str_eq(match_type, "Content") {
        Some(PaletteColor::Gray)
    } else {
        None
    };
    match c {
        Some(pc) => {
            let mut out = theme_color(theme, pc);
            out.append(match_type);
            out.append(RESET);
            out
        },
        None => String::from_str(match_type),
    }
}

/// Truncate a path to `max_len` bytes, keeping its end after a `...` prefix.
pub fn truncate_path(path: &str, max_len: usize) -> (s: String)
    requires
        encode_utf8(path@).len() > max_len ==> max_len >= 3 && is_char_boundary(
            encode_utf8(path@), encode_utf8(path@).len() - max_len + 3),
    ensures
        encode_utf8(path@).len() <= max_len ==> s@ == path@,
        encode_utf8(path@).len() > max_len ==> s@ == "..."@ + decode_utf8(encode_utf8(path@).subrange(
            encode_utf8(path@).len() - max_len + 3, encode_utf8(path@).len() as int)),
{
    let n = path.as_bytes().len();
    if n <= max_len {
        String::from_str(path)
    } else {
        let (_, tail) = path.split_at(n - max_len + 3);
        proof {
            vstd::utf8::encode_utf8_decode_utf8(tail@);
        }
        let mut out = String::from_str("...");
        out.append(tail);
        out
    }
}

// ============================================================================
// THEME FROM THE ENVIRONMENT'S SETTINGS
// ============================================================================

/// The lowercase form of a string (Unicode case mapping).
pub uninterp spec fn lowercase_of(s: Seq<char>) -> Seq<char>;

/// Calls `str::to_lowercase`. Trusted: the result is the Unicode lowercase
/// mapping of the characters given, a function of them alone; which
/// characters that gives is not stated.
#[verifier::external_body]
pub(crate) fn to_lowercase(s: &str) -> (r: String)
    ensures
        r@ == lowercase_of(s@),
{
    s.to_lowercase()
}

/// Whether every character is an ASCII digit.
pub open spec fn all_digits(s: Seq<char>) -> bool {
    forall|i: int| 0 <= i < s.len() ==> '0' <= #[trigger] s[i] <= '9'
}

/// The number the decimal digits stand for.
pub open spec fn digits_value(s: Seq<char>) -> nat
    decreases s.len(),
{
    if s.len() == 0 {
        0
    } else {
        digits_value(s.drop_last()) * 10 + ((s.last() as nat) - 48) as nat
    }
}

/// What parsing a `u8` from decimal text gives: an optional `+`, then one
/// or more digits, worth at most 255.
pub open spec fn spec_parse_u8(s: Seq<char>) -> Option<u8> {
    let d = if s.len() > 0 && s[0] == '+' { s.drop_first() } else { s };
    if d.len() > 0 && all_digits(d) && digits_value(d) <= 255 {
        Some(digits_value(d) as u8)
    } else {
        None
    }
}

/// Parse a `u8` from decimal text.
pub fn parse_u8(s: &str) -> (r: Option<u8>)
    ensures
        r == spec_parse_u8(s@),
{
    let cs = chars_of(s);
    parse_u8_chars(&cs)
}

fn parse_u8_chars(cs: &Vec<char>) -> (r: Option<u8>)
    ensures
        r == spec_parse_u8(cs@),
{
    let ghost s = cs@;
    let start: usize = if cs.len() > 0 && cs[0] == '+' { 1 } else { 0 };
    let ghost d = if s.len() > 0 && s[0] == '+' { s.drop_first() } else { s };
    assert(d =~= s.skip(start as int));
    if start >= cs.len() {
        return None;
    }
    let mut value: u32 = 0;
    let mut over = false;
    let mut i: usize = start;
    while i < cs.len()
        invariant
            cs@ == s,
            start <= i <= cs@.len(),
            d == s.skip(start as int),
            d == (if s.len() > 0 && s[0] == '+' { s.drop_first() } else { s }),
            !over ==> value == digits_value(s.subrange(start as int, i as int)) && value <= 255,
            over ==> digits_value(s.subrange(start as int, i as int)) > 255,
            all_digits(s.subrange(start as int, i as int)),
        decreases cs@.len() - i,
    {
        let c = cs[i];
        if c < '0' || c > '9' {
            proof {
                assert(d[i - start] == c);
                assert(!all_digits(d));
            }
            return None;
        }
        let digit = (c as u32) - 48;
        let ghost before = s.subrange(start as int, i as int);
        let ghost after = s.subrange(start as int, i as int + 1);
        assert(after.drop_last() =~= before);
        assert(after.last() == c);
        if !over {
            let next = value * 10 + digit;
            if next > 255 {
                over = true;
            } else {
                value = next;
            }
        } else {
            assert(digits_value(after) >= digits_value(before));
        }
        assert(all_digits(after)) by {
            assert forall|k: int| 0 <= k < after.len() implies '0' <= #[trigger] after[k] <= '9' by {
                if k < before.len() {
                    assert(after[k] == before[k]);
                }
            }
        }
        i = i + 1;
    }
    assert(s.subrange(start as int, cs@.len() as int) =~= d);
    if over {
        None
    } else {
        Some(value as u8)
    }
}

/// The text after the last `;` (all of it when there is none).
pub open spec fn spec_last_segment(s: Seq<char>) -> Seq<char>
    decreases s.len(),
{
    if s.len() == 0 {
        s
    } else if s.last() == ';' {
        Seq::empty()
    } else {
        spec_last_segment(s.drop_last()).push(s.last())
    }
}

fn last_segment(s: &str) -> (r: Vec<char>)
    ensures
        r@ == spec_last_segment(s@),
{
    let cs = chars_of(s);
    let mut out: Vec<char> = Vec::new();
    let mut i: usize = 0;
    while i < cs.len()
        invariant
            cs@ == s@,
            i <= cs@.len(),
            out@ == spec_last_segment(s@.take(i as int)),
        decreases cs@.len() - i,
    {
        let c = cs[i];
        assert(s@.take(i as int + 1).drop_last() =~= s@.take(i as int));
        assert(s@.take(i as int + 1).last() == c);
        if c == ';' {
            out = Vec::new();
            assert(out@ =~= spec_last_segment(s@.take(i as int + 1)));
        } else {
            out.push(c);
        }
        i = i + 1;
    }
    assert(s@.take(cs@.len() as int) =~= s@);
    out
}

/// Whether a `COLORFGBG` value names a light background: its last field
/// is a color number of 7 or more other than 8.
pub open spec fn spec_light_background(colorfgbg: Seq<char>) -> bool {
    match spec_parse_u8(spec_last_segment(colorfgbg)) {
        Some(bg) => bg >= 7 && bg != 8,
        None => false,
    }
}

/// The theme that `SOREX_THEME` and `COLORFGBG` settle, if they do.
pub open spec fn spec_theme_from_env(sorex_theme: Option<Seq<char>>, colorfgbg: Option<Seq<char>>) -> Option<Theme> {
    let explicit = match sorex_theme {
        Some(t) => {
            let l = lowercase_of(t);
            if l == "light"@ || l == "l"@ { Some(Theme::Light) }
            else if l == "dark"@ || l == "d"@ { Some(Theme::Dark) }
            else { None }
        },
        None => None,
    };
    match explicit {
        Some(th) => Some(th),
        None => match colorfgbg {
            Some(c) => if spec_light_background(c) { Some(Theme::Light) } else { None },
            None => None,
        },
    }
}

/// The theme that the `SOREX_THEME` and `COLORFGBG` settings decide:
/// `SOREX_THEME` of "light"/"l" or "dark"/"d" (any case) wins; otherwise
/// a light `COLORFGBG` background gives the light theme; otherwise
/// undecided.
pub fn theme_from_env(sorex_theme: Option<&str>, colorfgbg: Option<&str>) -> (r: Option<Theme>)
    ensures
        r == spec_theme_from_env(
            match sorex_theme { Some(t) => Some(t@), None => None },
            match colorfgbg { Some(c) => Some(c@), None => None },
        ),
{
    if let Some(t) = sorex_theme {
        let l = to_lowercase(t);
        let ls = l.as_str();
        if str_eq(ls, "light") || str_eq(ls, "l") {
            return Some(Theme::Light);
        }
        if str_eq(ls, "dark") || str_eq(ls, "d") {
            return Some(Theme::Dark);
        }
    }
    if let Some(c) = colorfgbg {
        let seg = last_segment(c);
        if let Some(bg) = parse_u8_chars(&seg) {
            if bg >= 7 && bg != 8 {
                return Some(Theme::Light);
            }
        }
    }
    None
}

} // verus!
