use sorex::display::{
    color, match_type_label, pad_left, pad_right, palette, parse_u8, rgb, styled, technique_badge,
    theme_color, theme_from_env, themed, tier_label, truncate_path, visible_len, PaletteColor,
    Theme, BOLD, RESET,
};
use sorex::display::{double_footer, double_header, row, section_bot, section_mid, section_top, title, BOX_WIDTH};

#[test]
fn test_visible_len_no_escapes() {
    assert_eq!(visible_len("hello"), 5);
    assert_eq!(visible_len(""), 0);
}

#[test]
fn test_visible_len_with_escapes() {
    let colored = "\x1b[32mhello\x1b[0m".to_string();
    assert_eq!(visible_len(&colored), 5);
}

#[test]
fn test_rgb_format() {
    let code = rgb(255, 128, 64);
    assert_eq!(code, "\x1b[38;2;255;128;64m");
}

#[test]
fn test_theme_colors_are_different() {
    assert_ne!(palette(Theme::Dark, PaletteColor::Red), palette(Theme::Light, PaletteColor::Red));
    assert_ne!(palette(Theme::Dark, PaletteColor::Green), palette(Theme::Light, PaletteColor::Green));
    assert_ne!(palette(Theme::Dark, PaletteColor::Blue), palette(Theme::Light, PaletteColor::Blue));
}

#[test]
fn rgb_single_and_double_digits() {
    assert_eq!(rgb(0, 7, 42), "\x1b[38;2;0;7;42m");
    assert_eq!(theme_color(Theme::Dark, PaletteColor::Gray), "\x1b[38;2;92;99;112m");
}

#[test]
fn colors_only_when_enabled() {
    assert_eq!(color("\x1b[31m", "x", false), "x");
    assert_eq!(color("\x1b[31m", "x", true), "\x1b[31mx\x1b[0m");
    assert_eq!(styled(&[BOLD, "\x1b[2m"], "t", true), format!("{}\x1b[2mt{}", BOLD, RESET));
    assert_eq!(themed("C", &[BOLD], "t", true), format!("{}Ct{}", BOLD, RESET));
    assert_eq!(themed("C", &[BOLD], "t", false), "t");
}

#[test]
fn padding_counts_visible_characters() {
    assert_eq!(pad_left("ab", 4), "  ab");
    assert_eq!(pad_right("ab", 4), "ab  ");
    assert_eq!(pad_right("\x1b[1mab\x1b[0m", 3), "\x1b[1mab\x1b[0m ");
    assert_eq!(pad_left("abcdef", 3), "abcdef");
}

#[test]
fn badges_and_labels() {
    assert_eq!(technique_badge("FC", false, Theme::Dark), "[FC]");
    assert_eq!(technique_badge("XYZ", true, Theme::Dark), "[XYZ]");
    assert_eq!(
        technique_badge("FC", true, Theme::Dark),
        format!("{}[FC]{}", theme_color(Theme::Dark, PaletteColor::Green), RESET)
    );
    assert_eq!(tier_label(2, false, Theme::Light), "T2");
    assert_eq!(tier_label(7, true, Theme::Light), "T7");
    assert_eq!(
        tier_label(1, true, Theme::Light),
        format!("{}T1{}", theme_color(Theme::Light, PaletteColor::Green), RESET)
    );
    assert_eq!(match_type_label("Title", false, Theme::Dark), "Title");
    assert_eq!(match_type_label("Other", true, Theme::Dark), "Other");
    assert_eq!(
        match_type_label("Content", true, Theme::Dark),
        format!("{}Content{}", theme_color(Theme::Dark, PaletteColor::Gray), RESET)
    );
}

#[test]
fn truncating_paths() {
    assert_eq!(truncate_path("short", 10), "short");
    assert_eq!(truncate_path("/a/very/long/path", 10), "...ng/path");
}

#[test]
fn theme_settings() {
    assert_eq!(theme_from_env(Some("LIGHT"), None), Some(Theme::Light));
    assert_eq!(theme_from_env(Some("d"), Some("0;15")), Some(Theme::Dark));
    assert_eq!(theme_from_env(Some("other"), Some("0;15")), Some(Theme::Light));
    assert_eq!(theme_from_env(None, Some("15;0")), None);
    assert_eq!(theme_from_env(None, Some("0;8")), None);
    assert_eq!(theme_from_env(None, None), None);
    assert_eq!(parse_u8("+12"), Some(12));
    assert_eq!(parse_u8("256"), None);
    assert_eq!(parse_u8(""), None);
    assert_eq!(parse_u8("1a"), None);
}

#[test]
fn box_row_pads_to_width() {
    let line = row("hi", Theme::Dark);
    let gray = "\x1b[38;2;92;99;112m";
    let expected = format!("{}│\x1b[0mhi{}{}│\x1b[0m", gray, " ".repeat(BOX_WIDTH - 2), gray);
    assert_eq!(line, expected);
    assert_eq!(visible_len(&line), BOX_WIDTH + 2);
}

#[test]
fn box_edges_and_title() {
    let blue = "\x1b[38;2;97;175;239m";
    assert_eq!(double_header(Theme::Dark), format!("{}╔{}╗\x1b[0m", blue, "═".repeat(BOX_WIDTH)));
    assert_eq!(double_footer(Theme::Dark), format!("{}╚{}╝\x1b[0m", blue, "═".repeat(BOX_WIDTH)));
    let gray_light = "\x1b[38;2;160;161;167m";
    assert_eq!(section_bot(Theme::Light), format!("{}└{}┘\x1b[0m", gray_light, "─".repeat(BOX_WIDTH)));
    let top = section_top("Docs", Theme::Light, false);
    assert_eq!(top, format!("{}┌\x1b[0m─ Docs {}{}┐\x1b[0m", gray_light, gray_light, "─".repeat(BOX_WIDTH - 7)));
    let mid = section_mid("Docs", Theme::Light, false);
    assert_eq!(mid, format!("{}├\x1b[0m─ Docs {}─{}┤\x1b[0m", gray_light, gray_light, "─".repeat(BOX_WIDTH - 8)));
    let t = title("abc", Theme::Dark, false);
    let left = (BOX_WIDTH - 3) / 2;
    let right = BOX_WIDTH - 3 - left;
    assert_eq!(t, format!("{}║\x1b[0m{}abc{}{}║\x1b[0m", blue, " ".repeat(left), " ".repeat(right), blue));
}
