//! The settings file: `[section]` headers, `key = value` lines, and the
//! settings that they give.  Values that are decimal (floating point) numbers
//! are handed on as text, in file order.

use vstd::prelude::*;
use crate::text::{
    ascii_lower_code, byte_len, byte_len_capped, char_width, chars_for_bytes, digit_value, digits_value, chars_for_two_bytes, chars_of, find_in_range,
    first_index, is_white_space, lemma_split_on_concat, lemma_split_on_without,
    lemma_trim_after_white_space, lower_ascii_eq, parse_i32, parse_i32_range, parse_unsigned, parse_unsigned_range,
    range_eq, range_eq_lower_ascii, split_on, split_ranges, string_from_range, trim, trim_end,
    trim_range, trim_start,
};

verus! {

/// A setting whose value is a decimal number.
#[derive(Clone, Copy, Debug, PartialEq, Eq, Structural)]
pub enum NumericKey {
    /// `[window] width`
    Width,
    /// `[window] height`
    Height,
    /// `[window] min_width`
    MinWidth,
    /// `[window] min_height`
    MinHeight,
    /// `[icons] size_px`
    IconSize,
    /// `[window] corner_radius` or `[theme] corner_radius`
    CornerRadius,
    /// `[window] x` or `[window] pos_x`
    PosX,
    /// `[window] y` or `[window] pos_y`
    PosY,
}

/// One numeric setting line: its key and its value text, trimmed.
pub struct NumericSetting {
    pub key: NumericKey,
    pub text: String,
}

/// The settings read from the settings file.
pub struct IniSettings {
    /// Whether the window background is transparent.
    pub transparent: bool,
    /// Whether the window has native decorations.
    pub decorations: bool,
    /// Global opacity of the interface, 0 to 100.
    pub opacity_percent: u8,
    /// Background colour.
    pub bg_rgb: [u8; 3],
    /// Every numeric setting line, in file order.
    pub numeric: Vec<NumericSetting>,
}

/// The mathematical value of [`IniSettings`].
#[verifier::ext_equal]
pub struct IniModel {
    pub transparent: bool,
    pub decorations: bool,
    pub opacity_percent: u8,
    pub bg_rgb: Seq<u8>,
    pub numeric: Seq<(NumericKey, Seq<char>)>,
}

impl View for IniSettings {
    type V = IniModel;

    open spec fn view(&self) -> IniModel {
        IniModel {
            transparent: self.transparent,
            decorations: self.decorations,
            opacity_percent: self.opacity_percent,
            bg_rgb: self.bg_rgb@,
            numeric: self.numeric@.map_values(|n: NumericSetting| (n.key, n.text@)),
        }
    }
}

/// The settings in force before any line is read.
pub open spec fn initial_settings() -> IniModel {
    IniModel {
        transparent: true,
        decorations: false,
        opacity_percent: 40,
        bg_rgb: seq![14u8, 16u8, 24u8],
        numeric: Seq::empty(),
    }
}

impl IniSettings {
    /// The settings in force when the file is missing.
    pub fn defaults() -> (r: Self)
        ensures
            r@ == initial_settings(),
    {
        let r = IniSettings {
            transparent: true,
            decorations: false,
            opacity_percent: 40,
            bg_rgb: [14, 16, 24],
            numeric: Vec::new(),
        };
        assert(r@.bg_rgb =~= seq![14u8, 16u8, 24u8]);
        assert(r@.numeric =~= Seq::<(NumericKey, Seq<char>)>::empty());
        r
    }
}

/// The section that a `[name]` header opens.
#[derive(Clone, Copy, Debug, PartialEq, Eq, Structural)]
pub enum Section {
    Window,
    Icons,
    Theme,
    Other,
}

/// What a `key = value` line sets.
#[derive(Clone, Copy, Debug, PartialEq, Eq, Structural)]
pub enum Setting {
    Numeric(NumericKey),
    Transparent,
    Decorations,
    Opacity,
    BgColor,
    Ignored,
}

pub open spec fn section_of(name: Seq<char>) -> Section {
    if name == seq!['w', 'i', 'n', 'd', 'o', 'w'] {
        Section::Window
    } else if name == seq!['i', 'c', 'o', 'n', 's'] {
        Section::Icons
    } else if name == seq!['t', 'h', 'e', 'm', 'e'] {
        Section::Theme
    } else {
        Section::Other
    }
}

pub open spec fn window_setting(key: Seq<char>) -> Setting {
    if key == seq!['w', 'i', 'd', 't', 'h'] {
        Setting::Numeric(NumericKey::Width)
    } else if key == seq!['h', 'e', 'i', 'g', 'h', 't'] {
        Setting::Numeric(NumericKey::Height)
    } else if key == seq!['m', 'i', 'n', '_', 'w', 'i', 'd', 't', 'h'] {
        Setting::Numeric(NumericKey::MinWidth)
    } else if key == seq!['m', 'i', 'n', '_', 'h', 'e', 'i', 'g', 'h', 't'] {
        Setting::Numeric(NumericKey::MinHeight)
    } else if key == seq!['t', 'r', 'a', 'n', 's', 'p', 'a', 'r', 'e', 'n', 't'] {
        Setting::Transparent
    } else if key == seq!['d', 'e', 'c', 'o', 'r', 'a', 't', 'i', 'o', 'n', 's'] {
        Setting::Decorations
    } else if key == seq!['o', 'p', 'a', 'c', 'i', 't', 'y'] {
        Setting::Opacity
    } else if key == seq!['b', 'g', '_', 'c', 'o', 'l', 'o', 'r'] {
        Setting::BgColor
    } else if key == seq!['c', 'o', 'r', 'n', 'e', 'r', '_', 'r', 'a', 'd', 'i', 'u', 's'] {
        Setting::Numeric(NumericKey::CornerRadius)
    } else if key == seq!['x'] || key == seq!['p', 'o', 's', '_', 'x'] {
        Setting::Numeric(NumericKey::PosX)
    } else if key == seq!['y'] || key == seq!['p', 'o', 's', '_', 'y'] {
        Setting::Numeric(NumericKey::PosY)
    } else {
        Setting::Ignored
    }
}

/// What the line `key = value` sets inside `section`.
pub open spec fn setting_for(section: Section, key: Seq<char>) -> Setting {
    match section {
        Section::Window => window_setting(key),
        Section::Icons => if key == seq!['s', 'i', 'z', 'e', '_', 'p', 'x'] {
            Setting::Numeric(NumericKey::IconSize)
        } else {
            Setting::Ignored
        },
        Section::Theme => if key == seq!['b', 'g', '_', 'c', 'o', 'l', 'o', 'r'] {
            Setting::BgColor
        } else if key == seq!['c', 'o', 'r', 'n', 'e', 'r', '_', 'r', 'a', 'd', 'i', 'u', 's'] {
            Setting::Numeric(NumericKey::CornerRadius)
        } else {
            Setting::Ignored
        },
        Section::Other => Setting::Ignored,
    }
}

fn section_at(v: &Vec<char>, lo: usize, hi: usize) -> (s: Section)
    requires
        lo <= hi <= v.len(),
    ensures
        s == section_of(v@.subrange(lo as int, hi as int)),
{
    if range_eq(v, lo, hi, &['w', 'i', 'n', 'd', 'o', 'w']) {
        Section::Window
    } else if range_eq(v, lo, hi, &['i', 'c', 'o', 'n', 's']) {
        Section::Icons
    } else if range_eq(v, lo, hi, &['t', 'h', 'e', 'm', 'e']) {
        Section::Theme
    } else {
        Section::Other
    }
}


fn range_is_char(v: &Vec<char>, lo: usize, hi: usize, c: char) -> (b: bool)
    requires
        lo <= hi <= v.len(),
    ensures
        b == (v@.subrange(lo as int, hi as int) == seq![c]),
{
    if hi - lo == 1 && v[lo] == c {
        assert(v@.subrange(lo as int, hi as int) =~= seq![c]);
        true
    } else {
        assert(hi - lo != 1 ==> v@.subrange(lo as int, hi as int).len() != seq![c].len());
        assert(hi - lo == 1 ==> v@.subrange(lo as int, hi as int)[0] != seq![c][0]);
        false
    }
}

fn window_setting_at(v: &Vec<char>, lo: usize, hi: usize) -> (s: Setting)
    requires
        lo <= hi <= v.len(),
    ensures
        s == window_setting(v@.subrange(lo as int, hi as int)),
{
    if range_eq(v, lo, hi, &['w', 'i', 'd', 't', 'h']) {
        Setting::Numeric(NumericKey::Width)
    } else if range_eq(v, lo, hi, &['h', 'e', 'i', 'g', 'h', 't']) {
        Setting::Numeric(NumericKey::Height)
    } else if range_eq(v, lo, hi, &['m', 'i', 'n', '_', 'w', 'i', 'd', 't', 'h']) {
        Setting::Numeric(NumericKey::MinWidth)
    } else if range_eq(v, lo, hi, &['m', 'i', 'n', '_', 'h', 'e', 'i', 'g', 'h', 't']) {
        Setting::Numeric(NumericKey::MinHeight)
    } else if range_eq(v, lo, hi, &['t', 'r', 'a', 'n', 's', 'p', 'a', 'r', 'e', 'n', 't']) {
        Setting::Transparent
    } else if range_eq(v, lo, hi, &['d', 'e', 'c', 'o', 'r', 'a', 't', 'i', 'o', 'n', 's']) {
        Setting::Decorations
    } else if range_eq(v, lo, hi, &['o', 'p', 'a', 'c', 'i', 't', 'y']) {
        Setting::Opacity
    } else if range_eq(v, lo, hi, &['b', 'g', '_', 'c', 'o', 'l', 'o', 'r']) {
        Setting::BgColor
    } else if range_eq(v, lo, hi, &['c', 'o', 'r', 'n', 'e', 'r', '_', 'r', 'a', 'd', 'i', 'u', 's']) {
        Setting::Numeric(NumericKey::CornerRadius)
    } else if range_is_char(v, lo, hi, 'x') {
        Setting::Numeric(NumericKey::PosX)
    } else if range_eq(v, lo, hi, &['p', 'o', 's', '_', 'x']) {
        Setting::Numeric(NumericKey::PosX)
    } else if range_is_char(v, lo, hi, 'y') {
        Setting::Numeric(NumericKey::PosY)
    } else if range_eq(v, lo, hi, &['p', 'o', 's', '_', 'y']) {
        Setting::Numeric(NumericKey::PosY)
    } else {
        Setting::Ignored
    }
}

fn setting_at(section: Section, v: &Vec<char>, lo: usize, hi: usize) -> (s: Setting)
    requires
        lo <= hi <= v.len(),
    ensures
        s == setting_for(section, v@.subrange(lo as int, hi as int)),
{
    match section {
        Section::Window => window_setting_at(v, lo, hi),
        Section::Icons => if range_eq(v, lo, hi, &['s', 'i', 'z', 'e', '_', 'p', 'x']) {
            Setting::Numeric(NumericKey::IconSize)
        } else {
            Setting::Ignored
        },
        Section::Theme => if range_eq(v, lo, hi, &['b', 'g', '_', 'c', 'o', 'l', 'o', 'r']) {
            Setting::BgColor
        } else if range_eq(v, lo, hi, &['c', 'o', 'r', 'n', 'e', 'r', '_', 'r', 'a', 'd', 'i', 'u', 's']) {
            Setting::Numeric(NumericKey::CornerRadius)
        } else {
            Setting::Ignored
        },
        Section::Other => Setting::Ignored,
    }
}

/// A yes/no value reads as yes when, in ASCII lower case, it is one of
/// `1`, `true`, `yes`, `on` or `vrai`; as no otherwise.
pub open spec fn is_true_word(val: Seq<char>) -> bool {
    ||| lower_ascii_eq(val, seq!['1'])
    ||| lower_ascii_eq(val, seq!['t', 'r', 'u', 'e'])
    ||| lower_ascii_eq(val, seq!['y', 'e', 's'])
    ||| lower_ascii_eq(val, seq!['o', 'n'])
    ||| lower_ascii_eq(val, seq!['v', 'r', 'a', 'i'])
}

fn true_word_at(v: &Vec<char>, lo: usize, hi: usize) -> (b: bool)
    requires
        lo <= hi <= v.len(),
    ensures
        b == is_true_word(v@.subrange(lo as int, hi as int)),
{
    range_eq_lower_ascii(v, lo, hi, &['1']) || range_eq_lower_ascii(v, lo, hi, &['t', 'r', 'u', 'e'])
        || range_eq_lower_ascii(v, lo, hi, &['y', 'e', 's']) || range_eq_lower_ascii(
        v,
        lo,
        hi,
        &['o', 'n'],
    ) || range_eq_lower_ascii(v, lo, hi, &['v', 'r', 'a', 'i'])
}

/// The outcome of reading a colour value.
#[derive(Clone, Copy, Debug, PartialEq, Eq, Structural)]
pub enum RgbParse {
    /// The colour it denotes.
    Rgb(u8, u8, u8),
    /// Not a colour.
    Invalid,
}

/// A `#RRGGBB` colour, `h` being what follows `#` (6 bytes of UTF-8): each
/// 2-byte slice is read as a hexadecimal `u8`, in order; a value whose
/// 2-byte slices do not fall on character boundaries is not a colour.
pub open spec fn hex_rgb(h: Seq<char>) -> RgbParse {
    match chars_for_bytes(h, 2) {
        None => RgbParse::Invalid,
        Some(n1) => match parse_unsigned(h.take(n1), 16, 255) {
            None => RgbParse::Invalid,
            Some(r) => {
                let rest = h.skip(n1);
                match chars_for_bytes(rest, 2) {
                    None => RgbParse::Invalid,
                    Some(n2) => match (
                        parse_unsigned(rest.take(n2), 16, 255),
                        parse_unsigned(rest.skip(n2), 16, 255),
                    ) {
                        (Some(g), Some(b)) => RgbParse::Rgb(r as u8, g as u8, b as u8),
                        _ => RgbParse::Invalid,
                    },
                }
            },
        },
    }
}

/// An `R,G,B` colour: exactly three comma-separated decimal `u8` values.
pub open spec fn comma_rgb(t: Seq<char>) -> RgbParse {
    let parts = split_on(t, ',');
    if parts.len() == 3 {
        match (
            parse_unsigned(trim(parts[0]), 10, 255),
            parse_unsigned(trim(parts[1]), 10, 255),
            parse_unsigned(trim(parts[2]), 10, 255),
        ) {
            (Some(r), Some(g), Some(b)) => RgbParse::Rgb(r as u8, g as u8, b as u8),
            _ => RgbParse::Invalid,
        }
    } else {
        RgbParse::Invalid
    }
}

/// How a colour value reads: `#RRGGBB` when it starts with `#` followed by
/// 6 bytes, `R,G,B` otherwise.
pub open spec fn rgb_parse(s: Seq<char>) -> RgbParse {
    let t = trim(s);
    if t.len() > 0 && t[0] == '#' && byte_len(t.drop_first()) == 6 {
        hex_rgb(t.drop_first())
    } else {
        comma_rgb(t)
    }
}

fn hex_rgb_at(v: &Vec<char>, lo: usize, hi: usize) -> (r: RgbParse)
    requires
        lo <= hi <= v.len(),
    ensures
        r == hex_rgb(v@.subrange(lo as int, hi as int)),
{
    let ghost h = v@.subrange(lo as int, hi as int);
    match chars_for_two_bytes(v, lo, hi) {
        None => RgbParse::Invalid,
        Some(n1) => {
            proof {
                assert(h.take(n1 as int) =~= v@.subrange(lo as int, lo + n1));
                assert(h.skip(n1 as int) =~= v@.subrange(lo + n1, hi as int));
            }
            match parse_unsigned_range(v, lo, lo + n1, 16, 255) {
                None => RgbParse::Invalid,
                Some(r) => {
                    let mid = lo + n1;
                    match chars_for_two_bytes(v, mid, hi) {
                        None => RgbParse::Invalid,
                        Some(n2) => {
                            let ghost rest = h.skip(n1 as int);
                            proof {
                                assert(rest.take(n2 as int) =~= v@.subrange(
                                    mid as int,
                                    mid + n2,
                                ));
                                assert(rest.skip(n2 as int) =~= v@.subrange(
                                    mid + n2,
                                    hi as int,
                                ));
                            }
                            let g = parse_unsigned_range(v, mid, mid + n2, 16, 255);
                            let b = parse_unsigned_range(v, mid + n2, hi, 16, 255);
                            match (g, b) {
                                (Some(g), Some(b)) => RgbParse::Rgb(r as u8, g as u8, b as u8),
                                _ => RgbParse::Invalid,
                            }
                        },
                    }
                },
            }
        },
    }
}

fn comma_rgb_at(v: &Vec<char>, lo: usize, hi: usize) -> (r: RgbParse)
    requires
        lo <= hi <= v.len(),
    ensures
        r == comma_rgb(v@.subrange(lo as int, hi as int)),
{
    let parts = split_ranges(v, lo, hi, ',');
    if parts.len() != 3 {
        return RgbParse::Invalid;
    }
    let (a0, b0) = trim_range(v, parts[0].0, parts[0].1);
    let (a1, b1) = trim_range(v, parts[1].0, parts[1].1);
    let (a2, b2) = trim_range(v, parts[2].0, parts[2].1);
    let r = parse_unsigned_range(v, a0, b0, 10, 255);
    let g = parse_unsigned_range(v, a1, b1, 10, 255);
    let b = parse_unsigned_range(v, a2, b2, 10, 255);
    match (r, g, b) {
        (Some(r), Some(g), Some(b)) => RgbParse::Rgb(r as u8, g as u8, b as u8),
        _ => RgbParse::Invalid,
    }
}

fn rgb_at(v: &Vec<char>, lo: usize, hi: usize) -> (r: RgbParse)
    requires
        lo <= hi <= v.len(),
    ensures
        r == rgb_parse(v@.subrange(lo as int, hi as int)),
{
    let (a, b) = trim_range(v, lo, hi);
    if a < b && v[a] == '#' {
        proof {
            assert(v@.subrange(a as int, b as int).drop_first() =~= v@.subrange(a + 1, b as int));
        }
        if byte_len_capped(v, a + 1, b, 7) == 6 {
            return hex_rgb_at(v, a + 1, b);
        }
    }
    comma_rgb_at(v, a, b)
}

/// Reads a colour value, `#RRGGBB` or `R,G,B`.
pub fn parse_rgb(s: &str) -> (r: Option<[u8; 3]>)
    ensures
        match rgb_parse(s@) {
            RgbParse::Rgb(x, y, z) => r is Some && r.unwrap()@ == seq![x, y, z],
            _ => r is None,
        },
{
    let v = chars_of(s);
    proof {
        assert(v@.subrange(0, v@.len() as int) =~= s@);
    }
    match rgb_at(&v, 0, v.len()) {
        RgbParse::Rgb(x, y, z) => {
            let a = [x, y, z];
            assert(a@ =~= seq![x, y, z]);
            Some(a)
        },
        _ => None,
    }
}


/// The percentage that an opacity value gives: the value clamped to 0..=100.
pub open spec fn clamp_percent(x: int) -> u8 {
    if x < 0 {
        0
    } else if x > 100 {
        100
    } else {
        x as u8
    }
}

/// The settings after `setting` is given the value `val`; a value that
/// does not read leaves the setting as it was.
pub open spec fn apply_setting(m: IniModel, setting: Setting, val: Seq<char>) -> IniModel {
    match setting {
        Setting::Numeric(k) => IniModel { numeric: m.numeric.push((k, val)), ..m },
        Setting::Transparent => IniModel { transparent: is_true_word(val), ..m },
        Setting::Decorations => IniModel { decorations: is_true_word(val), ..m },
        Setting::Opacity => match parse_i32(val) {
            Some(x) => IniModel { opacity_percent: clamp_percent(x), ..m },
            None => m,
        },
        Setting::BgColor => match rgb_parse(val) {
            RgbParse::Rgb(r, g, b) => IniModel { bg_rgb: seq![r, g, b], ..m },
            RgbParse::Invalid => m,
        },
        Setting::Ignored => m,
    }
}

/// Where reading stands between two lines: the current section and the settings so far.
#[verifier::ext_equal]
pub struct IniState {
    pub section: Section,
    pub settings: IniModel,
}

/// The state after one line: blank lines and `;` or `#` comments change
/// nothing, `[name]` opens a section, `key = value` (split at the first `=`)
/// sets what the key names in the current section, and anything else is
/// ignored.
pub open spec fn apply_line(st: IniState, raw: Seq<char>) -> IniState {
    let line = trim(raw);
    if line.len() == 0 || line[0] == ';' || line[0] == '#' {
        st
    } else if line[0] == '[' && line.last() == ']' && byte_len(line) > 2 {
        IniState {
            section: section_of(trim(line.subrange(1, line.len() - 1))),
            settings: st.settings,
        }
    } else {
        match first_index(line, '=') {
            None => st,
            Some(eq) => IniState {
                section: st.section,
                settings: apply_setting(
                    st.settings,
                    setting_for(st.section, trim(line.take(eq))),
                    trim(line.skip(eq + 1)),
                ),
            },
        }
    }
}

/// The state after the given lines, read in order.
pub open spec fn apply_lines(st: IniState, lines: Seq<Seq<char>>) -> IniState
    decreases lines.len(),
{
    if lines.len() == 0 {
        st
    } else {
        apply_line(apply_lines(st, lines.drop_last()), lines.last())
    }
}

/// The settings that the text of a settings file gives, reading it line by
/// line from the defaults with no section open.
pub open spec fn ini_settings(text: Seq<char>) -> IniModel {
    read_text(IniState { section: Section::Other, settings: initial_settings() }, text).settings
}

/// The state after reading `text` line by line from `st`.
pub open spec fn read_text(st: IniState, text: Seq<char>) -> IniState {
    apply_lines(st, split_on(text, '\n'))
}

fn apply_setting_at(st: &mut IniSettings, setting: Setting, v: &Vec<char>, lo: usize, hi: usize)
    requires
        lo <= hi <= v.len(),
    ensures
        apply_setting(old(st)@, setting, v@.subrange(lo as int, hi as int)) == final(st)@,
{
    match setting {
        Setting::Numeric(k) => {
            let text = string_from_range(v, lo, hi);
            let ghost before = st.numeric@;
            st.numeric.push(NumericSetting { key: k, text });
            proof {
                assert(st.numeric@.map_values(|n: NumericSetting| (n.key, n.text@)) =~= before.map_values(
                    |n: NumericSetting| (n.key, n.text@),
                ).push((k, v@.subrange(lo as int, hi as int))));
            }
        },
        Setting::Transparent => {
            st.transparent = true_word_at(v, lo, hi);
        },
        Setting::Decorations => {
            st.decorations = true_word_at(v, lo, hi);
        },
        Setting::Opacity => {
            match parse_i32_range(v, lo, hi) {
                Some(x) => {
                    st.opacity_percent = if x < 0 {
                        0
                    } else if x > 100 {
                        100
                    } else {
                        x as u8
                    };
                },
                None => {},
            }
        },
        Setting::BgColor => {
            match rgb_at(v, lo, hi) {
                RgbParse::Rgb(r, g, b) => {
                    st.bg_rgb = [r, g, b];
                    assert(st.bg_rgb@ =~= seq![r, g, b]);
                },
                RgbParse::Invalid => {},
            }
        },
        Setting::Ignored => {},
    }
}

fn apply_line_at(st: &mut IniSettings, section: &mut Section, v: &Vec<char>, lo: usize, hi: usize)
    requires
        lo <= hi <= v.len(),
    ensures
        apply_line(
            IniState { section: *old(section), settings: old(st)@ },
            v@.subrange(lo as int, hi as int),
        ) == (IniState { section: *final(section), settings: final(st)@ }),
{
    let (a, b) = trim_range(v, lo, hi);
    let ghost line = v@.subrange(a as int, b as int);
    if a == b || v[a] == ';' || v[a] == '#' {
        return;
    }
    proof {
        assert(line[0] == v@[a as int]);
        assert(line.last() == v@[b - 1]);
    }
    if v[a] == '[' && v[b - 1] == ']' && byte_len_capped(v, a, b, 3) > 2 {
        let (x, y) = trim_range(v, a + 1, b - 1);
        proof {
            assert(line.subrange(1, line.len() - 1) =~= v@.subrange(a + 1, b - 1));
        }
        *section = section_at(v, x, y);
        return;
    }
    match find_in_range(v, a, b, '=') {
        None => {},
        Some(eq) => {
            let (ka, kb) = trim_range(v, a, eq);
            let (va, vb) = trim_range(v, eq + 1, b);
            proof {
                assert(line.take(eq - a) =~= v@.subrange(a as int, eq as int));
                assert(line.skip(eq - a + 1) =~= v@.subrange(eq + 1, b as int));
            }
            let setting = setting_at(*section, v, ka, kb);
            apply_setting_at(st, setting, v, va, vb);
        },
    }
}

/// Reads the text of a settings file into the settings it gives.
pub fn parse_ini(text: &str) -> (r: IniSettings)
    ensures
        ini_settings(text@) == r@,
{
    let v = chars_of(text);
    let lines = split_ranges(&v, 0, v.len(), '\n');
    let ghost pieces = split_on(v@.subrange(0, v.len() as int), '\n');
    let ghost init = IniState { section: Section::Other, settings: initial_settings() };
    proof {
        assert(v@.subrange(0, v.len() as int) =~= text@);
        assert(pieces.take(0) =~= Seq::<Seq<char>>::empty());
    }
    let mut st = IniSettings::defaults();
    let mut section = Section::Other;
    let mut k: usize = 0;
    while k < lines.len()
        invariant
            lines.len() == pieces.len(),
            pieces == split_on(text@, '\n'),
            init == (IniState { section: Section::Other, settings: initial_settings() }),
            forall|j: int|
                0 <= j < lines.len() ==> {
                    &&& 0 <= (#[trigger] lines[j]).0 <= lines[j].1 <= v.len()
                    &&& v@.subrange(lines[j].0 as int, lines[j].1 as int) == pieces[j]
                },
            0 <= k <= lines.len(),
            apply_lines(init, pieces.take(k as int)) == (IniState { section: section, settings: st@ }),
        decreases lines.len() - k,
    {
        let (a, b) = lines[k];
        proof {
            assert(pieces.take(k + 1).drop_last() =~= pieces.take(k as int));
            assert(pieces.take(k + 1).last() == pieces[k as int]);
        }
        apply_line_at(&mut st, &mut section, &v, a, b);
        k = k + 1;
    }
    proof {
        assert(pieces.take(k as int) =~= pieces);
    }
    st
}


proof fn lemma_apply_lines_opacity(st: IniState, lines: Seq<Seq<char>>)
    requires
        st.settings.opacity_percent <= 100,
    ensures
        apply_lines(st, lines).settings.opacity_percent <= 100,
    decreases lines.len(),
{
    if lines.len() > 0 {
        lemma_apply_lines_opacity(st, lines.drop_last());
    }
}

/// Whatever a settings file holds, the opacity read from it is at most 100.
pub proof fn lemma_opacity_at_most_100(text: Seq<char>)
    ensures
        ini_settings(text).opacity_percent <= 100,
{
    lemma_apply_lines_opacity(
        IniState { section: Section::Other, settings: initial_settings() },
        split_on(text, '\n'),
    );
}

/// An empty settings file gives the defaults.
pub proof fn lemma_empty_file_gives_defaults()
    ensures
        ini_settings(Seq::<char>::empty()) == initial_settings(),
{
    let e = Seq::<char>::empty();
    let lines = split_on(e, '\n');
    assert(lines == seq![e]);
    assert(lines.drop_last() =~= Seq::<Seq<char>>::empty());
    assert(trim_start(e) == e);
    assert(trim_end(e) == e);
    let init = IniState { section: Section::Other, settings: initial_settings() };
    assert(apply_lines(init, lines.drop_last()) == init);
    assert(apply_line(init, lines.last()) == init);
    assert(apply_lines(init, lines) == init);
}


proof fn lemma_apply_lines_concat(st: IniState, x: Seq<Seq<char>>, y: Seq<Seq<char>>)
    ensures
        apply_lines(st, x + y) == apply_lines(apply_lines(st, x), y),
    decreases y.len(),
{
    if y.len() == 0 {
        assert(x + y =~= x);
    } else {
        lemma_apply_lines_concat(st, x, y.drop_last());
        assert((x + y).drop_last() =~= x + y.drop_last());
        assert((x + y).last() == y.last());
    }
}

/// A settings file is read line by line: reading `a`, a line break and then
/// `b` reads `b` from where `a` left off — the section open at the end of
/// `a` still applies, and settings in `b` override those of `a`.
pub proof fn lemma_read_in_two_parts(st: IniState, a: Seq<char>, b: Seq<char>)
    ensures
        read_text(st, a + seq!['\n'] + b) == read_text(read_text(st, a), b),
{
    lemma_split_on_concat(a, b, '\n');
    lemma_apply_lines_concat(st, split_on(a, '\n'), split_on(b, '\n'));
}


/// A trimmed line that opens a section: `[name]`, at least 3 bytes long.
pub open spec fn is_header(line: Seq<char>) -> bool {
    line.len() > 0 && line[0] == '[' && line.last() == ']' && byte_len(line) > 2
}

/// The section in force after one line, `sec` being in force before it.
pub open spec fn line_section(sec: Section, raw: Seq<char>) -> Section {
    let line = trim(raw);
    if is_header(line) {
        section_of(trim(line.subrange(1, line.len() - 1)))
    } else {
        sec
    }
}

/// The section in force after the given lines, `sec` being in force before them.
pub open spec fn section_after(sec: Section, lines: Seq<Seq<char>>) -> Section
    decreases lines.len(),
{
    if lines.len() == 0 {
        sec
    } else {
        line_section(section_after(sec, lines.drop_last()), lines.last())
    }
}

/// What a `key = value` line assigns in section `sec`: the setting its key
/// names there, and its value; nothing for blank, comment and header lines
/// and lines without `=`.
pub open spec fn line_assignment(sec: Section, raw: Seq<char>) -> Option<(Setting, Seq<char>)> {
    let line = trim(raw);
    if line.len() == 0 || line[0] == ';' || line[0] == '#' || is_header(line) {
        None
    } else {
        match first_index(line, '=') {
            None => None,
            Some(eq) => Some((setting_for(sec, trim(line.take(eq))), trim(line.skip(eq + 1)))),
        }
    }
}

/// The assignments made by the given lines, in order, `sec` being in force before them.
pub open spec fn assignments(sec: Section, lines: Seq<Seq<char>>) -> Seq<(Setting, Seq<char>)>
    decreases lines.len(),
{
    if lines.len() == 0 {
        Seq::empty()
    } else {
        let before = assignments(sec, lines.drop_last());
        match line_assignment(section_after(sec, lines.drop_last()), lines.last()) {
            Some(a) => before.push(a),
            None => before,
        }
    }
}

/// The numeric settings among some assignments, in order.
pub open spec fn numeric_assignments(asg: Seq<(Setting, Seq<char>)>) -> Seq<(NumericKey, Seq<char>)>
    decreases asg.len(),
{
    if asg.len() == 0 {
        Seq::empty()
    } else {
        let before = numeric_assignments(asg.drop_last());
        match asg.last().0 {
            Setting::Numeric(k) => before.push((k, asg.last().1)),
            _ => before,
        }
    }
}

/// The assignments made by a settings file's text.
pub open spec fn ini_assignments(text: Seq<char>) -> Seq<(Setting, Seq<char>)> {
    assignments(Section::Other, split_on(text, '\n'))
}

/// No assignment sets `setting`.
pub open spec fn never_assigned(asg: Seq<(Setting, Seq<char>)>, setting: Setting) -> bool {
    forall|k: int| 0 <= k < asg.len() ==> (#[trigger] asg[k]).0 != setting
}

/// No assignment of the opacity has a value that reads as an `i32`.
pub open spec fn opacity_never_read(asg: Seq<(Setting, Seq<char>)>) -> bool {
    forall|k: int|
        0 <= k < asg.len() && (#[trigger] asg[k]).0 == Setting::Opacity ==> parse_i32(asg[k].1) is None
}

/// No assignment of the colour has a value that reads as a colour.
pub open spec fn colour_never_read(asg: Seq<(Setting, Seq<char>)>) -> bool {
    forall|k: int|
        0 <= k < asg.len() && (#[trigger] asg[k]).0 == Setting::BgColor ==> !(rgb_parse(
            asg[k].1,
        ) is Rgb)
}

/// Reading lines from `st`, each field keeps its value unless an assignment
/// sets it: the yes/no fields unless they are assigned at all, the opacity
/// and colour unless a value assigned to them reads as one; and the numeric
/// settings gained are exactly the numeric assignments, in order.
pub proof fn lemma_fields_kept_unless_set(st: IniState, lines: Seq<Seq<char>>)
    ensures
        ({
            let fin = apply_lines(st, lines);
            let asg = assignments(st.section, lines);
            &&& fin.section == section_after(st.section, lines)
            &&& never_assigned(asg, Setting::Transparent) ==> fin.settings.transparent
                == st.settings.transparent
            &&& never_assigned(asg, Setting::Decorations) ==> fin.settings.decorations
                == st.settings.decorations
            &&& opacity_never_read(asg) ==> fin.settings.opacity_percent
                == st.settings.opacity_percent
            &&& colour_never_read(asg) ==> fin.settings.bg_rgb == st.settings.bg_rgb
            &&& fin.settings.numeric == st.settings.numeric + numeric_assignments(asg)
        }),
    decreases lines.len(),
{
    if lines.len() == 0 {
        assert(st.settings.numeric + Seq::<(NumericKey, Seq<char>)>::empty() =~= st.settings.numeric);
    } else {
        let shorter = lines.drop_last();
        lemma_fields_kept_unless_set(st, shorter);
        {
            let mid = apply_lines(st, shorter);
            let raw = lines.last();
            let before = assignments(st.section, shorter);
            let asg = assignments(st.section, lines);
            assert forall|k: int| 0 <= k < before.len() implies #[trigger] asg[k] == before[k] by {}
            {
                let line = trim(raw);
                if line.len() == 0 || line[0] == ';' || line[0] == '#' || is_header(line) {
                    assert(asg == before);
                } else {
                    match first_index(line, '=') {
                        None => {
                            assert(asg == before);
                        },
                        Some(eq) => {
                            let a = (setting_for(mid.section, trim(line.take(eq))), trim(
                                line.skip(eq + 1),
                            ));
                            assert(asg == before.push(a));
                            assert(asg[before.len() as int] == a);
                            assert(asg.drop_last() =~= before);
                            match a.0 {
                                Setting::Numeric(key) => {
                                    assert(st.settings.numeric + numeric_assignments(asg)
                                        =~= (st.settings.numeric + numeric_assignments(before)).push(
                                        (key, a.1),
                                    ));
                                },
                                _ => {},
                            }
                        },
                    }
                }
            }
        }
    }
}

/// A settings file leaves each field at its default unless a line sets it
/// (see [`lemma_fields_kept_unless_set`]); the numeric settings read are
/// exactly the numeric assignments of the file, in order.
pub proof fn lemma_defaults_kept_unless_set(text: Seq<char>)
    ensures
        ({
            let m = ini_settings(text);
            let asg = ini_assignments(text);
            &&& never_assigned(asg, Setting::Transparent) ==> m.transparent
            &&& never_assigned(asg, Setting::Decorations) ==> !m.decorations
            &&& opacity_never_read(asg) ==> m.opacity_percent == 40
            &&& colour_never_read(asg) ==> m.bg_rgb == seq![14u8, 16u8, 24u8]
            &&& m.numeric == numeric_assignments(asg)
        }),
{
    let init = IniState { section: Section::Other, settings: initial_settings() };
    lemma_fields_kept_unless_set(init, split_on(text, '\n'));
    assert(Seq::<(NumericKey, Seq<char>)>::empty() + numeric_assignments(ini_assignments(text))
        =~= numeric_assignments(ini_assignments(text)));
}


/// The hexadecimal digit for `d` (below 16), in upper or lower case.
pub open spec fn hex_digit(d: int, upper: bool) -> char {
    if d < 10 {
        (0x30 + d) as char
    } else if upper {
        (0x37 + d) as char
    } else {
        (0x57 + d) as char
    }
}

/// `x` as two hexadecimal digits (what `{:02X}` or `{:02x}` writes).
pub open spec fn hex_byte(x: u8, upper: bool) -> Seq<char> {
    seq![hex_digit((x / 16) as int, upper), hex_digit((x % 16) as int, upper)]
}

/// `x` in decimal, without leading zeros (what `{}` writes).
pub open spec fn decimal(x: nat) -> Seq<char>
    decreases x,
{
    if x < 10 {
        seq![(0x30 + x) as char]
    } else {
        decimal(x / 10).push((0x30 + x % 10) as char)
    }
}

proof fn lemma_hex_byte_value(x: u8, upper: bool)
    ensures
        parse_unsigned(hex_byte(x, upper), 16, 255) == Some(x as nat),
        byte_len(hex_byte(x, upper)) == 2,
        hex_byte(x, upper).len() == 2,
        hex_byte(x, upper)[0] != '+',
        !is_white_space(hex_byte(x, upper)[1]),
        char_width(hex_byte(x, upper)[0]) == 1,
        char_width(hex_byte(x, upper)[1]) == 1,
{
    let h = hex_byte(x, upper);
    let hi = x / 16;
    let lo = x % 16;
    assert(h[0] as u32 == (if hi < 10 { 0x30 + hi } else if upper { 0x37 + hi } else { 0x57 + hi }));
    assert(h[1] as u32 == (if lo < 10 { 0x30 + lo } else if upper { 0x37 + lo } else { 0x57 + lo }));
    assert(digit_value(h[0], 16) == Some(hi as nat));
    assert(digit_value(h[1], 16) == Some(lo as nat));
    let e = Seq::<char>::empty();
    let h0 = seq![h[0]];
    assert(h.drop_last() =~= h0);
    assert(h0.drop_last() =~= e);
    assert(digits_value(e, 16) == Some(0nat));
    assert(h0.last() == h[0]);
    assert(digits_value(h0, 16) == Some(hi as nat));
    assert(h.last() == h[1]);
    assert(digits_value(h, 16) == Some((hi * 16 + lo) as nat));
    assert(byte_len(e) == 0);
    assert(char_width(h[0]) == 1);
    assert(char_width(h[1]) == 1);
    assert(byte_len(h0) == 1);
}

proof fn lemma_decimal_value(x: nat)
    ensures
        digits_value(decimal(x), 10) == Some(x),
        decimal(x).len() > 0,
        forall|i: int| 0 <= i < decimal(x).len() ==> 0x30 <= #[trigger] decimal(x)[i] as u32 <= 0x39,
    decreases x,
{
    let d = decimal(x);
    if x < 10 {
        let e = Seq::<char>::empty();
        assert(d.drop_last() =~= e);
        assert(digits_value(e, 10) == Some(0nat));
        assert(d[0] as u32 == 0x30 + x);
        assert(digit_value(d.last(), 10) == Some(x));
    } else {
        lemma_decimal_value(x / 10);
        assert(d.drop_last() =~= decimal(x / 10));
        assert(d.last() as u32 == 0x30 + x % 10);
        assert(digit_value(d.last(), 10) == Some(x % 10));
        assert(digits_value(d, 10) == Some((x / 10) * 10 + x % 10));
        assert((x / 10) * 10 + x % 10 == x);
        assert forall|i: int| 0 <= i < d.len() implies 0x30 <= #[trigger] d[i] as u32 <= 0x39 by {
            if i < d.len() - 1 {
                assert(d[i] == decimal(x / 10)[i]);
            }
        }
    }
}

proof fn lemma_decimal_u8(x: u8)
    ensures
        parse_unsigned(decimal(x as nat), 10, 255) == Some(x as nat),
        decimal(x as nat).len() > 0,
        decimal(x as nat)[0] != '#',
        !is_white_space(decimal(x as nat)[0]),
        !is_white_space(decimal(x as nat).last()),
        forall|i: int| 0 <= i < decimal(x as nat).len() ==> #[trigger] decimal(x as nat)[i] != ',',
{
    lemma_decimal_value(x as nat);
    let d = decimal(x as nat);
    assert(0x30 <= d[0] as u32 <= 0x39);
    assert(0x30 <= d[d.len() - 1] as u32 <= 0x39);
    assert forall|i: int| 0 <= i < d.len() implies #[trigger] d[i] != ',' by {
        assert(0x30 <= d[i] as u32 <= 0x39);
    }
}

/// A colour written as `#` and three 2-digit hexadecimal bytes, in either
/// case, reads back as that colour.
pub proof fn lemma_hex_colour_round_trip(r: u8, g: u8, b: u8, ur: bool, ug: bool, ub: bool)
    ensures
        rgb_parse(seq!['#'] + hex_byte(r, ur) + hex_byte(g, ug) + hex_byte(b, ub))
            == RgbParse::Rgb(r, g, b),
{
    lemma_hex_byte_value(r, ur);
    lemma_hex_byte_value(g, ug);
    lemma_hex_byte_value(b, ub);
    let hr = hex_byte(r, ur);
    let hg = hex_byte(g, ug);
    let hb = hex_byte(b, ub);
    let h = hr + hg + hb;
    let t = seq!['#'] + h;
    assert(t.drop_first() =~= h);
    assert(t[0] == '#');
    assert(t.last() == hb[1]);
    assert(trim_start(t) == t);
    assert(trim_end(t) == t);
    lemma_byte_len_concat(hr, hg);
    lemma_byte_len_concat(hr + hg, hb);
    assert(h.take(2) =~= hr);
    let rest = h.skip(2);
    assert(rest =~= hg + hb);
    assert(rest.take(2) =~= hg);
    assert(rest.skip(2) =~= hb);
    lemma_chars_for_two_ascii(h);
    lemma_chars_for_two_ascii(rest);
    assert(trim(t) == t);
    assert(byte_len(t.drop_first()) == 6);
    assert(chars_for_bytes(h, 2) == Some(2int));
    assert(parse_unsigned(h.take(2), 16, 255) == Some(r as nat));
    assert(chars_for_bytes(rest, 2) == Some(2int));
    assert(parse_unsigned(rest.take(2), 16, 255) == Some(g as nat));
    assert(parse_unsigned(rest.skip(2), 16, 255) == Some(b as nat));
    assert(hex_rgb(h) == RgbParse::Rgb(r, g, b));
    assert(seq!['#'] + hr + hg + hb =~= t);
}

proof fn lemma_chars_for_two_ascii(h: Seq<char>)
    requires
        h.len() >= 2,
        char_width(h[0]) == 1,
        char_width(h[1]) == 1,
    ensures
        chars_for_bytes(h, 2) == Some(2int),
{
    assert(h.drop_first()[0] == h[1]);
    assert(chars_for_bytes(h.drop_first().drop_first(), 0) == Some(0int));
    assert(chars_for_bytes(h.drop_first(), 1) == Some(1int));
}

proof fn lemma_byte_len_concat(a: Seq<char>, b: Seq<char>)
    ensures
        byte_len(a + b) == byte_len(a) + byte_len(b),
    decreases b.len(),
{
    if b.len() == 0 {
        assert(a + b =~= a);
    } else {
        lemma_byte_len_concat(a, b.drop_last());
        assert((a + b).drop_last() =~= a + b.drop_last());
    }
}

/// A colour written as three decimal values separated by commas, each comma
/// followed by any white space, reads back as that colour.
pub proof fn lemma_decimal_colour_round_trip(r: u8, g: u8, b: u8, w1: Seq<char>, w2: Seq<char>)
    requires
        forall|i: int| 0 <= i < w1.len() ==> is_white_space(#[trigger] w1[i]),
        forall|i: int| 0 <= i < w2.len() ==> is_white_space(#[trigger] w2[i]),
    ensures
        rgb_parse(
            decimal(r as nat) + seq![','] + w1 + decimal(g as nat) + seq![','] + w2 + decimal(
                b as nat,
            ),
        ) == RgbParse::Rgb(r, g, b),
{
    lemma_decimal_u8(r);
    lemma_decimal_u8(g);
    lemma_decimal_u8(b);
    let dr = decimal(r as nat);
    let dg = decimal(g as nat);
    let db = decimal(b as nat);
    let comma = seq![','];
    let pg = w1 + dg;
    let pb = w2 + db;
    let t = dr + comma + w1 + dg + comma + w2 + db;
    assert(t =~= dr + comma + (pg + comma + pb));
    assert(t[0] == dr[0]);
    assert(t.last() == db.last());
    assert(trim_start(t) == t);
    assert(trim_end(t) == t);
    assert(t[0] != '#');
    assert forall|i: int| 0 <= i < pg.len() implies #[trigger] pg[i] != ',' by {
        if i < w1.len() {
            assert(is_white_space(w1[i]));
        } else {
            assert(pg[i] == dg[i - w1.len()]);
        }
    }
    assert forall|i: int| 0 <= i < pb.len() implies #[trigger] pb[i] != ',' by {
        if i < w2.len() {
            assert(is_white_space(w2[i]));
        } else {
            assert(pb[i] == db[i - w2.len()]);
        }
    }
    lemma_split_on_concat(dr, pg + comma + pb, ',');
    lemma_split_on_concat(pg, pb, ',');
    lemma_split_on_without(dr, ',');
    lemma_split_on_without(pg, ',');
    lemma_split_on_without(pb, ',');
    let parts = split_on(t, ',');
    assert(parts =~= seq![dr, pg, pb]);
    lemma_trim_after_white_space(Seq::<char>::empty(), dr);
    assert(Seq::<char>::empty() + dr =~= dr);
    lemma_trim_after_white_space(w1, dg);
    lemma_trim_after_white_space(w2, db);
}


/// The code points of `val` in ASCII lower case.
pub open spec fn ascii_lowered(val: Seq<char>) -> Seq<u32> {
    Seq::new(val.len(), |i: int| ascii_lower_code(val[i]))
}

/// A yes/no value reads as yes exactly when its ASCII lower case is one of
/// the five words `1`, `true`, `yes`, `on`, `vrai` (given here by their
/// code points); any other value, such as `off`, `0`, `no` or `false`,
/// reads as no.
pub proof fn lemma_yes_words(val: Seq<char>)
    ensures
        is_true_word(val) <==> {
            let l = ascii_lowered(val);
            ||| l == seq![0x31u32]
            ||| l == seq![0x74u32, 0x72u32, 0x75u32, 0x65u32]
            ||| l == seq![0x79u32, 0x65u32, 0x73u32]
            ||| l == seq![0x6Fu32, 0x6Eu32]
            ||| l == seq![0x76u32, 0x72u32, 0x61u32, 0x69u32]
        },
{
    let l = ascii_lowered(val);
    lemma_lower_eq_codes(val, seq!['1'], seq![0x31u32]);
    lemma_lower_eq_codes(val, seq!['t', 'r', 'u', 'e'], seq![0x74u32, 0x72u32, 0x75u32, 0x65u32]);
    lemma_lower_eq_codes(val, seq!['y', 'e', 's'], seq![0x79u32, 0x65u32, 0x73u32]);
    lemma_lower_eq_codes(val, seq!['o', 'n'], seq![0x6Fu32, 0x6Eu32]);
    lemma_lower_eq_codes(val, seq!['v', 'r', 'a', 'i'], seq![0x76u32, 0x72u32, 0x61u32, 0x69u32]);
}

proof fn lemma_lower_eq_codes(val: Seq<char>, w: Seq<char>, codes: Seq<u32>)
    requires
        w.len() == codes.len(),
        forall|i: int| 0 <= i < w.len() ==> #[trigger] w[i] as u32 == codes[i],
    ensures
        lower_ascii_eq(val, w) <==> ascii_lowered(val) == codes,
{
    let l = ascii_lowered(val);
    if lower_ascii_eq(val, w) {
        assert(l =~= codes);
    }
    if l == codes {
        assert forall|i: int| 0 <= i < val.len() implies ascii_lower_code(#[trigger] val[i])
            == w[i] as u32 by {
            assert(l[i] == codes[i]);
        }
    }
}

} // verus!
