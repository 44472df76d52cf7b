use forma_dock::config::{parse_ini, parse_rgb, IniSettings, NumericKey};

fn numeric(s: &IniSettings) -> Vec<(NumericKey, String)> {
    s.numeric.iter().map(|n| (n.key, n.text.clone())).collect()
}

#[test]
fn empty_file_gives_defaults() {
    let s = parse_ini("");
    assert!(s.transparent);
    assert!(!s.decorations);
    assert_eq!(s.opacity_percent, 40);
    assert_eq!(s.bg_rgb, [14, 16, 24]);
    assert!(s.numeric.is_empty());
}

#[test]
fn defaults_match_empty_file() {
    let d = IniSettings::defaults();
    let s = parse_ini("");
    assert_eq!(d.transparent, s.transparent);
    assert_eq!(d.decorations, s.decorations);
    assert_eq!(d.opacity_percent, s.opacity_percent);
    assert_eq!(d.bg_rgb, s.bg_rgb);
}

#[test]
fn documented_example_file() {
    let text = "[window]\nwidth=440\nheight=560\nmin_width=320\nmin_height=280\ntransparent=true\ndecorations=false\nopacity=40\nbg_color=#0E1018\ncorner_radius=10\n\n[icons]\nsize_px=118\n";
    let s = parse_ini(text);
    assert!(s.transparent);
    assert!(!s.decorations);
    assert_eq!(s.opacity_percent, 40);
    assert_eq!(s.bg_rgb, [0x0E, 0x10, 0x18]);
    assert_eq!(
        numeric(&s),
        vec![
            (NumericKey::Width, "440".to_string()),
            (NumericKey::Height, "560".to_string()),
            (NumericKey::MinWidth, "320".to_string()),
            (NumericKey::MinHeight, "280".to_string()),
            (NumericKey::CornerRadius, "10".to_string()),
            (NumericKey::IconSize, "118".to_string()),
        ]
    );
}

#[test]
fn opacity_is_clamped_and_bad_values_ignored() {
    assert_eq!(parse_ini("[window]\nopacity=150").opacity_percent, 100);
    assert_eq!(parse_ini("[window]\nopacity=-5").opacity_percent, 0);
    assert_eq!(parse_ini("[window]\nopacity=+7").opacity_percent, 7);
    assert_eq!(parse_ini("[window]\nopacity=0").opacity_percent, 0);
    assert_eq!(parse_ini("[window]\nopacity=55\nopacity=abc").opacity_percent, 55);
    assert_eq!(parse_ini("[window]\nopacity=2147483648").opacity_percent, 40);
    assert_eq!(parse_ini("[window]\nopacity=-2147483648").opacity_percent, 0);
    assert_eq!(parse_ini("[window]\nopacity=12.5").opacity_percent, 40);
    assert_eq!(parse_ini("[window]\nopacity=-").opacity_percent, 40);
}

#[test]
fn yes_no_values() {
    assert!(!parse_ini("[window]\ntransparent=nope").transparent);
    assert!(parse_ini("[window]\ntransparent=0\ntransparent=YES").transparent);
    assert!(parse_ini("[window]\ndecorations=Vrai").decorations);
    assert!(parse_ini("[window]\ndecorations=on").decorations);
    assert!(parse_ini("[window]\ndecorations=1").decorations);
    assert!(!parse_ini("[window]\ndecorations=2").decorations);
}

#[test]
fn colours() {
    assert_eq!(parse_ini("[window]\nbg_color= 10, 20 ,30 ").bg_rgb, [10, 20, 30]);
    assert_eq!(parse_ini("[theme]\nbg_color=#FFa001").bg_rgb, [255, 160, 1]);
    assert_eq!(parse_ini("[icons]\nbg_color=#FFa001").bg_rgb, [14, 16, 24]);
    assert_eq!(parse_ini("[window]\nbg_color=#zz0000").bg_rgb, [14, 16, 24]);
    assert_eq!(parse_ini("[window]\nbg_color=1,2").bg_rgb, [14, 16, 24]);
    assert_eq!(parse_ini("[window]\nbg_color=1,2,256").bg_rgb, [14, 16, 24]);
}

#[test]
fn parse_rgb_forms() {
    assert_eq!(parse_rgb("#0E1018"), Some([14, 16, 24]));
    assert_eq!(parse_rgb("  #ffffff  "), Some([255, 255, 255]));
    assert_eq!(parse_rgb("#+f+f+f"), Some([15, 15, 15]));
    assert_eq!(parse_rgb("#12345"), None);
    assert_eq!(parse_rgb("#12,34,56"), None);
    assert_eq!(parse_rgb("1, 2, 3"), Some([1, 2, 3]));
    assert_eq!(parse_rgb("+1,2,3"), Some([1, 2, 3]));
    assert_eq!(parse_rgb("-1,2,3"), None);
    assert_eq!(parse_rgb("1,2,3,4"), None);
    assert_eq!(parse_rgb(""), None);
    assert_eq!(parse_rgb("#é1234"), None);
}

#[test]
fn colour_cut_inside_a_character_is_ignored() {
    let d = parse_ini("").bg_rgb;
    assert_eq!(parse_ini("[window]\nbg_color=#aé123").bg_rgb, d);
    assert_eq!(parse_ini("[window]\nbg_color=#12aé3").bg_rgb, d);
    assert_eq!(parse_ini("[window]\nbg_color=#1€23").bg_rgb, d);
    assert_eq!(parse_ini("[window]\nbg_color=#zé1234").bg_rgb, d);
    assert_eq!(parse_ini("[window]\nbg_color=1,2,3\nbg_color=#aé123").bg_rgb, [1, 2, 3]);
    assert_eq!(parse_ini("[icons]\nbg_color=#aé123").bg_rgb, d);
    assert_eq!(parse_rgb("#aé12b"), None);
    assert_eq!(parse_rgb("#0E10"), None);
    assert_eq!(parse_rgb("#0E1018FF"), None);
    assert_eq!(parse_rgb("#GG0000"), None);
    assert_eq!(parse_rgb("256,0,0"), None);
    assert_eq!(parse_rgb("1,2"), None);
}

#[test]
fn sections_comments_and_odd_lines() {
    let text = "; comment\n# another\n[ window ]\n  width = 500 \nno equals sign\n[]\nheight=1\n[other]\nwidth=9\nWidth=8\n[window]\nx=3\npos_y=4\npos_x=5\ny=6\n";
    let s = parse_ini(text);
    assert_eq!(
        numeric(&s),
        vec![
            (NumericKey::Width, "500".to_string()),
            (NumericKey::Height, "1".to_string()),
            (NumericKey::PosX, "3".to_string()),
            (NumericKey::PosY, "4".to_string()),
            (NumericKey::PosX, "5".to_string()),
            (NumericKey::PosY, "6".to_string()),
        ]
    );
}

#[test]
fn crlf_and_values_with_equals() {
    let s = parse_ini("[window]\r\nwidth=abc=def\r\n[theme]\r\ncorner_radius = 12\r\n");
    assert_eq!(
        numeric(&s),
        vec![
            (NumericKey::Width, "abc=def".to_string()),
            (NumericKey::CornerRadius, "12".to_string()),
        ]
    );
}

#[test]
fn keys_before_any_section_are_ignored() {
    let s = parse_ini("width=100\nopacity=3\n");
    assert!(s.numeric.is_empty());
    assert_eq!(s.opacity_percent, 40);
}

#[test]
fn second_part_continues_the_first() {
    let first = "[window]\nopacity=10\nbg_color=1,2,3";
    let whole = format!("{}\n{}", first, "opacity=20\n[theme]\nbg_color=4,5,6");
    assert_eq!(parse_ini(first).opacity_percent, 10);
    let s = parse_ini(&whole);
    assert_eq!(s.opacity_percent, 20);
    assert_eq!(s.bg_rgb, [4, 5, 6]);
}

#[test]
fn opacity_never_exceeds_100() {
    for text in ["[window]\nopacity=100", "[window]\nopacity=101", "[window]\nopacity=99999", "[window]\nopacity=+100"] {
        assert!(parse_ini(text).opacity_percent <= 100);
    }
}

#[test]
fn colours_read_back_as_written() {
    for &(r, g, b) in &[(0u8, 0u8, 0u8), (14, 16, 24), (255, 255, 255), (9, 160, 171), (128, 7, 99)] {
        assert_eq!(parse_rgb(&format!("#{:02X}{:02x}{:02X}", r, g, b)), Some([r, g, b]));
        assert_eq!(parse_rgb(&format!("#{:02x}{:02x}{:02x}", r, g, b)), Some([r, g, b]));
        assert_eq!(parse_rgb(&format!("{}, {},{}", r, g, b)), Some([r, g, b]));
        assert_eq!(parse_rgb(&format!("{},\t {},{}", r, g, b)), Some([r, g, b]));
    }
}

#[test]
fn unset_fields_keep_their_defaults() {
    let d = parse_ini("");
    let s = parse_ini("[window]\ntransparent=no\n[icons]\nicon_size=90\nopacity=abc\n[other]\ndecorations=yes\n");
    assert!(!s.transparent);
    assert_eq!(s.decorations, d.decorations);
    assert_eq!(s.opacity_percent, d.opacity_percent);
    assert_eq!(s.bg_rgb, d.bg_rgb);
}
