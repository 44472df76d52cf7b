//! File names and shortcut files: which entries are shortcuts, the name
//! shown for them, the icon files that an Internet shortcut names, and the
//! wide (UTF-16) form of a path handed to the system.

use vstd::prelude::*;
use crate::text::{
    chars_of, lower_ascii_eq, lowercase_range, range_eq, range_eq_lower_ascii, spec_to_lowercase,
    spec_utf8_lossy, split_on, split_ranges, string_from_range, trim, trim_range,
    utf8_lossy_chars,
};

verus! {

/// `s` without leading and trailing `"` characters (what `trim_matches('"')` gives).
pub open spec fn strip_quotes(s: Seq<char>) -> Seq<char>
    decreases s.len(),
{
    if s.len() > 0 && s[0] == '"' {
        strip_quotes(s.drop_first())
    } else if s.len() > 0 && s.last() == '"' {
        strip_quotes(s.drop_last())
    } else {
        s
    }
}

fn strip_quotes_range(v: &Vec<char>, lo: usize, hi: usize) -> (r: (usize, usize))
    requires
        lo <= hi <= v.len(),
    ensures
        lo <= r.0 <= r.1 <= hi,
        v@.subrange(r.0 as int, r.1 as int) == strip_quotes(v@.subrange(lo as int, hi as int)),
{
    let mut a = lo;
    let mut b = hi;
    while a < b && (v[a] == '"' || v[b - 1] == '"')
        invariant
            lo <= a <= b <= hi <= v.len(),
            strip_quotes(v@.subrange(lo as int, hi as int)) == strip_quotes(
                v@.subrange(a as int, b as int),
            ),
        decreases b - a,
    {
        if v[a] == '"' {
            assert(v@.subrange(a as int, b as int).drop_first() =~= v@.subrange(a + 1, b as int));
            a = a + 1;
        } else {
            assert(v@.subrange(a as int, b as int).drop_last() =~= v@.subrange(a as int, b - 1));
            b = b - 1;
        }
    }
    (a, b)
}

/// The key that names the icon file in an Internet shortcut.
pub open spec fn icon_file_key() -> Seq<char> {
    seq!['I', 'c', 'o', 'n', 'F', 'i', 'l', 'e', '=']
}

/// The icon file that one line of an Internet shortcut names: a trimmed line
/// `IconFile=value` names `value` with surrounding quotes and then white space removed.
pub open spec fn icon_file_of_line(raw: Seq<char>) -> Option<Seq<char>> {
    let line = trim(raw);
    let key = icon_file_key();
    if line.len() >= key.len() && line.take(key.len() as int) == key {
        Some(trim(strip_quotes(line.skip(key.len() as int))))
    } else {
        None
    }
}

/// The icon files named by the given lines, in order.
pub open spec fn icon_files_of_lines(lines: Seq<Seq<char>>) -> Seq<Seq<char>>
    decreases lines.len(),
{
    if lines.len() == 0 {
        Seq::empty()
    } else {
        let before = icon_files_of_lines(lines.drop_last());
        match icon_file_of_line(lines.last()) {
            Some(f) => before.push(f),
            None => before,
        }
    }
}

/// The icon files, in order, that an Internet shortcut (`.url` file) with
/// the given contents names; the contents are read as UTF-8, invalid
/// sequences replaced.
pub open spec fn url_icon_files(content: Seq<u8>) -> Seq<Seq<char>> {
    icon_files_of_lines(split_on(spec_utf8_lossy(content), '\n'))
}

/// The icon files named by an Internet shortcut whose contents are `content`.
pub fn icon_files_in_url(content: &[u8]) -> (r: Vec<String>)
    ensures
        r@.map_values(|s: String| s@) == url_icon_files(content@),
{
    let v = utf8_lossy_chars(content);
    let lines = split_ranges(&v, 0, v.len(), '\n');
    let ghost pieces = split_on(v@.subrange(0, v.len() as int), '\n');
    proof {
        assert(v@.subrange(0, v.len() as int) =~= v@);
        assert(pieces.take(0) =~= Seq::<Seq<char>>::empty());
        assert(Seq::<String>::empty().map_values(|s: String| s@) =~= Seq::<Seq<char>>::empty());
    }
    let mut out: Vec<String> = Vec::new();
    let mut k: usize = 0;
    while k < lines.len()
        invariant
            lines.len() == pieces.len(),
            pieces == split_on(v@, '\n'),
            v@ == spec_utf8_lossy(content@),
            forall|j: int|
                0 <= j < lines.len() ==> {
                    &&& 0 <= (#[trigger] lines[j]).0 <= lines[j].1 <= v.len()
                    &&& v@.subrange(lines[j].0 as int, lines[j].1 as int) == pieces[j]
                },
            0 <= k <= lines.len(),
            out@.map_values(|s: String| s@) == icon_files_of_lines(pieces.take(k as int)),
        decreases lines.len() - k,
    {
        let (a, b) = lines[k];
        let ghost line = trim(pieces[k as int]);
        proof {
            assert(pieces.take(k + 1).drop_last() =~= pieces.take(k as int));
            assert(pieces.take(k + 1).last() == pieces[k as int]);
        }
        let (x, y) = trim_range(&v, a, b);
        if y - x >= 9 && range_eq(&v, x, x + 9, &['I', 'c', 'o', 'n', 'F', 'i', 'l', 'e', '=']) {
            proof {
                assert(line.take(9) =~= v@.subrange(x as int, x + 9));
                assert(line.skip(9) =~= v@.subrange(x + 9, y as int));
            }
            let (qa, qb) = strip_quotes_range(&v, x + 9, y);
            let (ta, tb) = trim_range(&v, qa, qb);
            let ghost before = out@;
            out.push(string_from_range(&v, ta, tb));
            proof {
                assert(out@.map_values(|s: String| s@) =~= before.map_values(|s: String| s@).push(
                    v@.subrange(ta as int, tb as int),
                ));
            }
        } else {
            proof {
                if y - x >= 9 {
                    assert(line.take(9) =~= v@.subrange(x as int, x + 9));
                }
            }
        }
        k = k + 1;
    }
    proof {
        assert(pieces.take(k as int) =~= pieces);
    }
    out
}


/// `i` is the position of the last `c` in `s`.
pub open spec fn is_last_index(s: Seq<char>, c: char, i: int) -> bool {
    &&& 0 <= i < s.len()
    &&& s[i] == c
    &&& forall|j: int| i < j < s.len() ==> s[j] != c
}

/// What `str::rfind(c)` gives: the position of the last `c` in `s`.
pub open spec fn last_index(s: Seq<char>, c: char) -> Option<int> {
    if exists|i: int| is_last_index(s, c, i) {
        Some(choose|i: int| is_last_index(s, c, i))
    } else {
        None
    }
}

fn rfind(v: &Vec<char>, c: char) -> (r: Option<usize>)
    ensures
        match r {
            Some(i) => i < v.len() && last_index(v@, c) == Some(i as int),
            None => last_index(v@, c) is None,
        },
{
    let mut i = v.len();
    while i > 0
        invariant
            0 <= i <= v.len(),
            forall|j: int| i <= j < v.len() ==> v@[j] != c,
        decreases i,
    {
        if v[i - 1] == c {
            proof {
                assert(is_last_index(v@, c, i - 1));
                let k = choose|k: int| is_last_index(v@, c, k);
                assert(k == i - 1);
            }
            return Some(i - 1);
        }
        i = i - 1;
    }
    None
}

/// The extension of a file name (what `Path::extension` gives): what
/// follows its last `.`, unless there is none, it is the first character,
/// or the name is `..`.
pub open spec fn file_extension(name: Seq<char>) -> Option<Seq<char>> {
    if name == seq!['.', '.'] {
        None
    } else {
        match last_index(name, '.') {
            Some(i) => if i == 0 {
                None
            } else {
                Some(name.skip(i + 1))
            },
            None => None,
        }
    }
}

/// The bounds of a file name's extension within it.
fn extension_range(v: &Vec<char>) -> (r: Option<(usize, usize)>)
    ensures
        match r {
            Some((a, b)) => a <= b == v.len() && file_extension(v@) == Some(
                v@.subrange(a as int, b as int),
            ),
            None => file_extension(v@) is None,
        },
{
    if v.len() == 2 && v[0] == '.' && v[1] == '.' {
        assert(v@ =~= seq!['.', '.']);
        return None;
    }
    proof {
        if v@ == seq!['.', '.'] {
            assert(v@[0] == '.' && v@[1] == '.');
        }
    }
    match rfind(v, '.') {
        Some(i) => {
            if i == 0 {
                None
            } else {
                assert(v@.skip(i + 1) =~= v@.subrange(i + 1, v.len() as int));
                Some((i + 1, v.len()))
            }
        },
        None => None,
    }
}

/// The kind of shortcut a file is, by the extension of its name.
#[derive(Clone, Copy, Debug, PartialEq, Eq, Structural)]
pub enum ShortcutKind {
    /// An Internet shortcut (`.url`).
    Url,
    /// A shell link (`.lnk`).
    Link,
    /// Anything else.
    Plain,
}

/// The kind of shortcut a file is: `.url` or `.lnk`, ignoring ASCII case.
pub open spec fn shortcut_kind_of(name: Seq<char>) -> ShortcutKind {
    match file_extension(name) {
        Some(e) => if lower_ascii_eq(e, seq!['u', 'r', 'l']) {
            ShortcutKind::Url
        } else if lower_ascii_eq(e, seq!['l', 'n', 'k']) {
            ShortcutKind::Link
        } else {
            ShortcutKind::Plain
        },
        None => ShortcutKind::Plain,
    }
}

/// The kind of shortcut that a file with name `name` is.
pub fn shortcut_kind(name: &str) -> (k: ShortcutKind)
    ensures
        k == shortcut_kind_of(name@),
{
    let v = chars_of(name);
    match extension_range(&v) {
        Some((a, b)) => {
            if range_eq_lower_ascii(&v, a, b, &['u', 'r', 'l']) {
                ShortcutKind::Url
            } else if range_eq_lower_ascii(&v, a, b, &['l', 'n', 'k']) {
                ShortcutKind::Link
            } else {
                ShortcutKind::Plain
            }
        },
        None => ShortcutKind::Plain,
    }
}

/// The files whose icons are tried for an entry, in order: for a `.url`
/// the icon files it names, for a `.lnk` the icon file it resolves to,
/// and last the entry itself.
pub open spec fn icon_candidate_order<P>(
    kind: ShortcutKind,
    url_files: Seq<P>,
    link_icon: Option<P>,
    own: P,
) -> Seq<P> {
    match kind {
        ShortcutKind::Url => url_files.push(own),
        ShortcutKind::Link => match link_icon {
            Some(p) => seq![p, own],
            None => seq![own],
        },
        ShortcutKind::Plain => seq![own],
    }
}

/// The files whose icons are tried, in order, for an entry of kind `kind`
/// named by `own`; `url_files` (what a `.url` names) counts only for a
/// `.url`, `link_icon` (what a `.lnk` resolves to) only for a `.lnk`.
pub fn icon_candidates<P>(
    kind: ShortcutKind,
    url_files: Vec<P>,
    link_icon: Option<P>,
    own: P,
) -> (r: Vec<P>)
    ensures
        r@ == icon_candidate_order(kind, url_files@, link_icon, own),
{
    let ghost li = link_icon;
    let ghost o = own;
    let mut out: Vec<P> = Vec::new();
    match kind {
        ShortcutKind::Url => {
            out = url_files;
        },
        ShortcutKind::Link => {
            if let Some(p) = link_icon {
                out.push(p);
            }
        },
        ShortcutKind::Plain => {},
    }
    out.push(own);
    proof {
        if kind == ShortcutKind::Link && li is Some {
            assert(out@ =~= seq![li->0, o]);
        } else if kind != ShortcutKind::Url {
            assert(out@ =~= seq![o]);
        }
    }
    out
}

/// An entry gets the shortcut badge when it is a file whose extension, in
/// lower case, is `url` or `lnk` (a missing extension counting as empty).
pub open spec fn shows_badge(is_dir: bool, name: Seq<char>) -> bool {
    let ext = match file_extension(name) {
        Some(e) => e,
        None => Seq::<char>::empty(),
    };
    let lower = spec_to_lowercase(ext);
    !is_dir && (lower == seq!['u', 'r', 'l'] || lower == seq!['l', 'n', 'k'])
}

/// Whether an entry named `name` is shown with the shortcut badge.
pub fn has_shortcut_badge(is_dir: bool, name: &str) -> (b: bool)
    ensures
        b == shows_badge(is_dir, name@),
{
    if is_dir {
        return false;
    }
    let v = chars_of(name);
    let (a, b) = match extension_range(&v) {
        Some(r) => r,
        None => (0, 0),
    };
    proof {
        assert(v@.subrange(0, 0) =~= Seq::<char>::empty());
    }
    let lower = lowercase_range(&v, a, b);
    let n = lower.len();
    assert(lower@.subrange(0, n as int) =~= lower@);
    range_eq(&lower, 0, n, &['u', 'r', 'l']) || range_eq(&lower, 0, n, &['l', 'n', 'k'])
}


/// `s` ends with `suffix`.
pub open spec fn ends_with(s: Seq<char>, suffix: Seq<char>) -> bool {
    s.len() >= suffix.len() && s.skip(s.len() - suffix.len()) == suffix
}

/// The name shown for an entry: a name that, in lower case, ends with
/// `.url` or `.lnk` is shown without its last `.` and what follows it.
pub open spec fn shown_name(name: Seq<char>) -> Seq<char> {
    let lower = spec_to_lowercase(name);
    if ends_with(lower, seq!['.', 'u', 'r', 'l']) || ends_with(lower, seq!['.', 'l', 'n', 'k']) {
        match last_index(name, '.') {
            Some(i) => name.take(i),
            None => name,
        }
    } else {
        name
    }
}

fn ends_with_range(v: &Vec<char>, w: &[char]) -> (b: bool)
    ensures
        b == ends_with(v@, w@),
{
    if v.len() < w.len() {
        return false;
    }
    let start = v.len() - w.len();
    assert(v@.skip(start as int) =~= v@.subrange(start as int, v.len() as int));
    range_eq(v, start, v.len(), w)
}

/// The name shown for an entry named `name`.
pub fn display_name(name: &str) -> (r: String)
    ensures
        r@ == shown_name(name@),
{
    let v = chars_of(name);
    let lower = lowercase_range(&v, 0, v.len());
    assert(v@.subrange(0, v.len() as int) =~= v@);
    if ends_with_range(&lower, &['.', 'u', 'r', 'l']) || ends_with_range(&lower, &['.', 'l', 'n', 'k']) {
        match rfind(&v, '.') {
            Some(i) => {
                assert(v@.take(i as int) =~= v@.subrange(0, i as int));
                return string_from_range(&v, 0, i);
            },
            None => {},
        }
    }
    string_from_range(&v, 0, v.len())
}

/// The UTF-16 code units of `c`.
pub open spec fn utf16_units(c: char) -> Seq<u16> {
    let u = c as u32;
    if u < 0x10000 {
        seq![u as u16]
    } else {
        let v = u - 0x10000;
        seq![(0xD800 + v / 0x400) as u16, (0xDC00 + v % 0x400) as u16]
    }
}

/// The UTF-16 encoding of `s`.
pub open spec fn utf16(s: Seq<char>) -> Seq<u16>
    decreases s.len(),
{
    if s.len() == 0 {
        Seq::empty()
    } else {
        utf16(s.drop_last()) + utf16_units(s.last())
    }
}

/// A path as the system calls take it: a `\\?\UNC\` prefix becomes `\\`,
/// and a `\\?\` prefix is removed.
pub open spec fn plain_path(p: Seq<char>) -> Seq<char> {
    let unc = seq!['\\', '\\', '?', '\\', 'U', 'N', 'C', '\\'];
    let verbatim = seq!['\\', '\\', '?', '\\'];
    if p.len() >= 8 && p.take(8) == unc {
        seq!['\\', '\\'] + p.skip(8)
    } else if p.len() >= 4 && p.take(4) == verbatim {
        p.skip(4)
    } else {
        p
    }
}

/// The UTF-16 form of the path `path`, prefix plain, ending in a NUL unit.
pub fn wide_null_path(path: &str) -> (r: Vec<u16>)
    ensures
        r@ == utf16(plain_path(path@)).push(0u16),
{
    let v = chars_of(path);
    let ghost p = v@;
    let start: usize;
    let mut out: Vec<u16> = Vec::new();
    if v.len() >= 8 && range_eq(&v, 0, 8, &['\\', '\\', '?', '\\', 'U', 'N', 'C', '\\']) {
        out.push(0x5C);
        out.push(0x5C);
        start = 8;
        proof {
            assert(p.take(8) =~= p.subrange(0, 8));
            assert(seq!['\\', '\\'].drop_last() =~= seq!['\\']);
            assert(seq!['\\'].drop_last() =~= Seq::<char>::empty());
            assert(('\\' as u32) == 0x5C);
            assert(utf16_units('\\') =~= seq![0x5Cu16]);
            assert(seq!['\\'].last() == '\\');
            assert(utf16(Seq::<char>::empty()) =~= Seq::<u16>::empty());
            assert(utf16(seq!['\\']) =~= seq![0x5Cu16]);
            assert(seq!['\\', '\\'].last() == '\\');
            assert(utf16(seq!['\\', '\\']) =~= seq![0x5Cu16, 0x5Cu16]);
        }
    } else if v.len() >= 4 && range_eq(&v, 0, 4, &['\\', '\\', '?', '\\']) {
        start = 4;
        proof {
            assert(p.take(4) =~= p.subrange(0, 4));
            if p.len() >= 8 {
                assert(p.take(8) =~= p.subrange(0, 8));
            }
        }
    } else {
        start = 0;
        proof {
            if p.len() >= 8 {
                assert(p.take(8) =~= p.subrange(0, 8));
            }
            if p.len() >= 4 {
                assert(p.take(4) =~= p.subrange(0, 4));
            }
        }
    }
    let ghost head = out@;
    let ghost prefix: Seq<char> = if start == 8 {
        seq!['\\', '\\']
    } else {
        Seq::empty()
    };
    proof {
        assert(plain_path(p) =~= prefix + p.skip(start as int));
        assert(head == utf16(prefix));
        assert(p.skip(start as int).take(0) =~= Seq::<char>::empty());
    }
    let mut i = start;
    while i < v.len()
        invariant
            start <= i <= v.len(),
            p == v@,
            out@ == head + utf16(p.skip(start as int).take(i - start)),
        decreases v.len() - i,
    {
        let ghost before = out@;
        let u = v[i] as u32;
        if u < 0x10000 {
            out.push(u as u16);
        } else {
            let w = u - 0x10000;
            out.push((0xD800 + w / 0x400) as u16);
            out.push((0xDC00 + w % 0x400) as u16);
        }
        proof {
            let t = p.skip(start as int);
            assert(t.take(i + 1 - start).drop_last() =~= t.take(i - start));
            assert(t.take(i + 1 - start).last() == p[i as int]);
            assert(out@ =~= before + utf16_units(p[i as int]));
        }
        i = i + 1;
    }
    proof {
        assert(p.skip(start as int).take(i - start) =~= p.skip(start as int));
        lemma_utf16_add(prefix, p.skip(start as int));
    }
    out.push(0);
    out
}

/// The encoding of a concatenation is the concatenation of the encodings.
pub proof fn lemma_utf16_add(a: Seq<char>, b: Seq<char>)
    ensures
        utf16(a + b) == utf16(a) + utf16(b),
    decreases b.len(),
{
    if b.len() == 0 {
        assert(a + b =~= a);
        assert(utf16(a) + utf16(b) =~= utf16(a));
    } else {
        lemma_utf16_add(a, b.drop_last());
        assert((a + b).drop_last() =~= a + b.drop_last());
        assert(utf16(a) + utf16(b) =~= utf16(a) + utf16(b.drop_last()) + utf16_units(b.last()));
    }
}


/// Only shortcut names lose their extension: a name whose lower-case form
/// ends with neither `.url` nor `.lnk` is shown unchanged, and one that
/// ends with either is shown up to, and without, its last `.` (at `i`).
pub proof fn lemma_only_shortcuts_lose_extension(name: Seq<char>, i: int)
    ensures
        ({
            let l = spec_to_lowercase(name);
            !(l.len() >= 4 && (l.subrange(l.len() - 4, l.len() as int) == seq!['.', 'u', 'r', 'l']
                || l.subrange(l.len() - 4, l.len() as int) == seq!['.', 'l', 'n', 'k']))
        }) ==> shown_name(name) == name,
        ({
            let l = spec_to_lowercase(name);
            l.len() >= 4 && (l.subrange(l.len() - 4, l.len() as int) == seq!['.', 'u', 'r', 'l']
                || l.subrange(l.len() - 4, l.len() as int) == seq!['.', 'l', 'n', 'k'])
        }) && 0 <= i < name.len() && name[i] == '.' && (forall|j: int|
            i < j < name.len() ==> #[trigger] name[j] != '.') ==> shown_name(name) == name.take(i),
{
    let l = spec_to_lowercase(name);
    if l.len() >= 4 {
        assert(l.skip(l.len() - 4) =~= l.subrange(l.len() - 4, l.len() as int));
    }
    if 0 <= i < name.len() && name[i] == '.' && (forall|j: int|
        i < j < name.len() ==> #[trigger] name[j] != '.') {
        assert(is_last_index(name, '.', i));
        let k = choose|k: int| is_last_index(name, '.', k);
        if k < i {
            assert(name[i] != '.');
        } else if k > i {
            assert(name[k] != '.');
        }
    }
}

} // verus!
