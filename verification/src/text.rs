//! Character-level text handling shared by the parsers: Unicode white space,
//! trimming, splitting, UTF-8 widths and integer parsing.

use vstd::prelude::*;

verus! {

/// The Unicode `White_Space` property, which is what `char::is_whitespace` tests.
pub open spec fn is_white_space(c: char) -> bool {
    let u = c as u32;
    ||| 0x09 <= u <= 0x0D
    ||| u == 0x20
    ||| u == 0x85
    ||| u == 0xA0
    ||| u == 0x1680
    ||| 0x2000 <= u <= 0x200A
    ||| u == 0x2028
    ||| u == 0x2029
    ||| u == 0x202F
    ||| u == 0x205F
    ||| u == 0x3000
}

pub fn white_space(c: char) -> (b: bool)
    ensures
        b == is_white_space(c),
{
    let u = c as u32;
    (0x09 <= u && u <= 0x0D) || u == 0x20 || u == 0x85 || u == 0xA0 || u == 0x1680 || (0x2000
        <= u && u <= 0x200A) || u == 0x2028 || u == 0x2029 || u == 0x202F || u == 0x205F || u
        == 0x3000
}

/// `s` without its leading white space.
pub open spec fn trim_start(s: Seq<char>) -> Seq<char>
    decreases s.len(),
{
    if s.len() > 0 && is_white_space(s[0]) {
        trim_start(s.drop_first())
    } else {
        s
    }
}

/// `s` without its trailing white space.
pub open spec fn trim_end(s: Seq<char>) -> Seq<char>
    decreases s.len(),
{
    if s.len() > 0 && is_white_space(s.last()) {
        trim_end(s.drop_last())
    } else {
        s
    }
}

/// What `str::trim` returns.
pub open spec fn trim(s: Seq<char>) -> Seq<char> {
    trim_end(trim_start(s))
}

/// The bounds of the trimmed part of `v[lo..hi]`.
pub fn trim_range(v: &Vec<char>, lo: usize, hi: usize) -> (r: (usize, usize))
    requires
        lo <= hi <= v.len(),
    ensures
        lo <= r.0 <= r.1 <= hi,
        v@.subrange(r.0 as int, r.1 as int) == trim(v@.subrange(lo as int, hi as int)),
{
    let mut a = lo;
    while a < hi && white_space(v[a])
        invariant
            lo <= a <= hi <= v.len(),
            trim_start(v@.subrange(lo as int, hi as int)) == trim_start(
                v@.subrange(a as int, hi as int),
            ),
        decreases hi - a,
    {
        assert(v@.subrange(a as int, hi as int).drop_first() =~= v@.subrange(a + 1, hi as int));
        a = a + 1;
    }
    assert(trim_start(v@.subrange(a as int, hi as int)) == v@.subrange(a as int, hi as int));
    let mut b = hi;
    while b > a && white_space(v[b - 1])
        invariant
            lo <= a <= b <= hi <= v.len(),
            trim_end(v@.subrange(a as int, hi as int)) == trim_end(v@.subrange(a as int, b as int)),
        decreases b - a,
    {
        assert(v@.subrange(a as int, b as int).drop_last() =~= v@.subrange(a as int, b - 1));
        b = b - 1;
    }
    assert(trim_end(v@.subrange(a as int, b as int)) == v@.subrange(a as int, b as int));
    (a, b)
}

/// The pieces of `s` between occurrences of `sep` (what `str::split` yields):
/// always at least one piece, and one more than there are separators.
pub open spec fn split_on(s: Seq<char>, sep: char) -> Seq<Seq<char>>
    decreases s.len(),
{
    if s.len() == 0 {
        seq![Seq::<char>::empty()]
    } else {
        let prev = split_on(s.drop_last(), sep);
        if s.last() == sep {
            prev.push(Seq::<char>::empty())
        } else {
            prev.update(prev.len() - 1, prev.last().push(s.last()))
        }
    }
}

pub proof fn lemma_split_on_nonempty(s: Seq<char>, sep: char)
    ensures
        split_on(s, sep).len() >= 1,
    decreases s.len(),
{
    if s.len() > 0 {
        lemma_split_on_nonempty(s.drop_last(), sep);
    }
}

/// Splitting `a`, a separator, then `b` gives the pieces of `a` followed by those of `b`.
pub proof fn lemma_split_on_concat(a: Seq<char>, b: Seq<char>, sep: char)
    ensures
        split_on(a + seq![sep] + b, sep) == split_on(a, sep) + split_on(b, sep),
    decreases b.len(),
{
    let mid = seq![sep];
    if b.len() == 0 {
        assert(a + mid + b =~= a + mid);
        assert((a + mid).drop_last() =~= a);
        assert(split_on(a, sep) + split_on(b, sep) =~= split_on(a, sep).push(Seq::<char>::empty()));
    } else {
        lemma_split_on_concat(a, b.drop_last(), sep);
        lemma_split_on_nonempty(b.drop_last(), sep);
        assert((a + mid + b).drop_last() =~= a + mid + b.drop_last());
        assert((a + mid + b).last() == b.last());
        let left = split_on(a, sep);
        let prev = split_on(b.drop_last(), sep);
        if b.last() == sep {
            assert(split_on(a + mid + b, sep) =~= left + prev.push(Seq::<char>::empty()));
        } else {
            let whole_prev = left + prev;
            assert(whole_prev.last() == prev.last());
            assert(whole_prev.update(whole_prev.len() - 1, whole_prev.last().push(b.last())) =~= left
                + prev.update(prev.len() - 1, prev.last().push(b.last())));
        }
    }
}

/// Text without the separator is a single piece.
pub proof fn lemma_split_on_without(a: Seq<char>, sep: char)
    requires
        forall|i: int| 0 <= i < a.len() ==> a[i] != sep,
    ensures
        split_on(a, sep) == seq![a],
    decreases a.len(),
{
    if a.len() == 0 {
        assert(a =~= Seq::<char>::empty());
    } else {
        lemma_split_on_without(a.drop_last(), sep);
        assert(a.drop_last().push(a.last()) =~= a);
        assert(a.last() != sep);
        assert(seq![a.drop_last()].last() == a.drop_last());
        assert(seq![a.drop_last()].update(0, a) =~= seq![a]);
    }
}

/// Trimming white space followed by text that neither starts nor ends with
/// white space gives that text.
pub proof fn lemma_trim_after_white_space(ws: Seq<char>, t: Seq<char>)
    requires
        forall|i: int| 0 <= i < ws.len() ==> is_white_space(#[trigger] ws[i]),
        t.len() > 0,
        !is_white_space(t[0]),
        !is_white_space(t.last()),
    ensures
        trim(ws + t) == t,
    decreases ws.len(),
{
    if ws.len() == 0 {
        assert(ws + t =~= t);
    } else {
        assert((ws + t).drop_first() =~= ws.drop_first() + t);
        assert((ws + t)[0] == ws[0]);
        lemma_trim_after_white_space(ws.drop_first(), t);
    }
}

/// The bounds, within `v`, of the pieces of `v[lo..hi]` between occurrences of `sep`.
pub fn split_ranges(v: &Vec<char>, lo: usize, hi: usize, sep: char) -> (r: Vec<(usize, usize)>)
    requires
        lo <= hi <= v.len(),
    ensures
        r.len() == split_on(v@.subrange(lo as int, hi as int), sep).len(),
        forall|k: int|
            0 <= k < r.len() ==> {
                &&& lo <= (#[trigger] r[k]).0 <= r[k].1 <= hi
                &&& v@.subrange(r[k].0 as int, r[k].1 as int) == split_on(
                    v@.subrange(lo as int, hi as int),
                    sep,
                )[k]
            },
{
    let mut out: Vec<(usize, usize)> = Vec::new();
    let mut start = lo;
    let mut i = lo;
    proof {
        assert(v@.subrange(lo as int, lo as int) =~= Seq::<char>::empty());
    }
    while i < hi
        invariant
            lo <= start <= i <= hi <= v.len(),
            out.len() + 1 == split_on(v@.subrange(lo as int, i as int), sep).len(),
            forall|k: int|
                0 <= k < out.len() ==> {
                    &&& lo <= (#[trigger] out[k]).0 <= out[k].1 <= hi
                    &&& v@.subrange(out[k].0 as int, out[k].1 as int) == split_on(
                        v@.subrange(lo as int, i as int),
                        sep,
                    )[k]
                },
            v@.subrange(start as int, i as int) == split_on(
                v@.subrange(lo as int, i as int),
                sep,
            ).last(),
        decreases hi - i,
    {
        let ghost prev = split_on(v@.subrange(lo as int, i as int), sep);
        proof {
            assert(v@.subrange(lo as int, i + 1).drop_last() =~= v@.subrange(lo as int, i as int));
            lemma_split_on_nonempty(v@.subrange(lo as int, i as int), sep);
        }
        if v[i] == sep {
            out.push((start, i));
            start = i + 1;
            proof {
                assert(v@.subrange(start as int, i + 1) =~= Seq::<char>::empty());
            }
        } else {
            proof {
                assert(v@.subrange(start as int, i + 1) =~= v@.subrange(start as int, i as int).push(
                    v@[i as int],
                ));
            }
        }
        i = i + 1;
    }
    out.push((start, hi));
    out
}


/// Number of bytes in the UTF-8 encoding of `c`.
pub open spec fn char_width(c: char) -> int {
    let u = c as u32;
    if u <= 0x7F {
        1
    } else if u <= 0x7FF {
        2
    } else if u <= 0xFFFF {
        3
    } else {
        4
    }
}

pub fn width_of(c: char) -> (w: usize)
    ensures
        w == char_width(c),
{
    let u = c as u32;
    if u <= 0x7F {
        1
    } else if u <= 0x7FF {
        2
    } else if u <= 0xFFFF {
        3
    } else {
        4
    }
}

/// Number of bytes in the UTF-8 encoding of `s` (what `str::len` counts).
pub open spec fn byte_len(s: Seq<char>) -> int
    decreases s.len(),
{
    if s.len() == 0 {
        0
    } else {
        byte_len(s.drop_last()) + char_width(s.last())
    }
}

/// The UTF-8 length of `v[lo..hi]`, or `cap` when it is at least `cap`.
pub fn byte_len_capped(v: &Vec<char>, lo: usize, hi: usize, cap: usize) -> (n: usize)
    requires
        lo <= hi <= v.len(),
    ensures
        n == if byte_len(v@.subrange(lo as int, hi as int)) < cap {
            byte_len(v@.subrange(lo as int, hi as int))
        } else {
            cap as int
        },
{
    let mut n: usize = 0;
    let mut i = lo;
    proof {
        assert(v@.subrange(lo as int, lo as int) =~= Seq::<char>::empty());
    }
    while i < hi
        invariant
            lo <= i <= hi <= v.len(),
            n == if byte_len(v@.subrange(lo as int, i as int)) < cap {
                byte_len(v@.subrange(lo as int, i as int))
            } else {
                cap as int
            },
        decreases hi - i,
    {
        proof {
            assert(v@.subrange(lo as int, i + 1).drop_last() =~= v@.subrange(lo as int, i as int));
        }
        let w = width_of(v[i]);
        if n < cap {
            if w < cap - n {
                n = n + w;
            } else {
                n = cap;
            }
        }
        i = i + 1;
    }
    n
}

/// When byte offset `k` of `s` falls on a character boundary, the number of
/// leading characters that the first `k` bytes encode.
pub open spec fn chars_for_bytes(s: Seq<char>, k: int) -> Option<int>
    decreases s.len(),
{
    if k <= 0 {
        if k == 0 {
            Some(0)
        } else {
            None
        }
    } else if s.len() == 0 {
        None
    } else {
        match chars_for_bytes(s.drop_first(), k - char_width(s[0])) {
            Some(n) => Some(n + 1),
            None => None,
        }
    }
}

/// `chars_for_bytes(v[lo..hi], 2)`.
pub fn chars_for_two_bytes(v: &Vec<char>, lo: usize, hi: usize) -> (r: Option<usize>)
    requires
        lo <= hi <= v.len(),
    ensures
        match r {
            Some(n) => n <= hi - lo && chars_for_bytes(v@.subrange(lo as int, hi as int), 2)
                == Some(n as int),
            None => chars_for_bytes(v@.subrange(lo as int, hi as int), 2) is None,
        },
{
    let ghost s = v@.subrange(lo as int, hi as int);
    if lo == hi {
        return None;
    }
    proof {
        assert(s.drop_first() =~= v@.subrange(lo + 1, hi as int));
    }
    let w0 = width_of(v[lo]);
    proof {
        assert(s[0] == v@[lo as int]);
        assert(chars_for_bytes(s, 2) == match chars_for_bytes(s.drop_first(), 2 - w0) {
            Some(n) => Some(n + 1),
            None => None::<int>,
        });
    }
    if w0 == 2 {
        proof {
            assert(chars_for_bytes(s.drop_first(), 0) == Some(0int));
        }
        return Some(1);
    }
    if w0 > 2 {
        proof {
            assert(chars_for_bytes(s.drop_first(), 2 - w0) is None);
        }
        return None;
    }
    if lo + 1 == hi {
        return None;
    }
    proof {
        let t = s.drop_first();
        assert(t.drop_first() =~= v@.subrange(lo + 2, hi as int));
    }
    let w1 = width_of(v[lo + 1]);
    proof {
        let t = s.drop_first();
        assert(t[0] == v@[lo + 1]);
        assert(chars_for_bytes(t, 1) == match chars_for_bytes(t.drop_first(), 1 - w1) {
            Some(n) => Some(n + 1),
            None => None::<int>,
        });
    }
    if w1 == 1 {
        proof {
            let t = s.drop_first();
            assert(chars_for_bytes(t.drop_first(), 0) == Some(0int));
        }
        Some(2)
    } else {
        proof {
            let t = s.drop_first();
            assert(chars_for_bytes(t.drop_first(), 1 - char_width(t[0])) is None);
        }
        None
    }
}

/// The value of `c` as a digit in `radix` (what `char::to_digit` gives).
pub open spec fn digit_value(c: char, radix: nat) -> Option<nat> {
    let u = c as u32;
    let d: int = if 0x30 <= u <= 0x39 {
        u - 0x30
    } else if 0x61 <= u <= 0x7A {
        u - 0x61 + 10
    } else if 0x41 <= u <= 0x5A {
        u - 0x41 + 10
    } else {
        radix as int
    };
    if d < radix {
        Some(d as nat)
    } else {
        None
    }
}

pub fn digit_of(c: char, radix: u32) -> (r: Option<u32>)
    requires
        2 <= radix <= 36,
    ensures
        match r {
            Some(d) => digit_value(c, radix as nat) == Some(d as nat),
            None => digit_value(c, radix as nat) is None,
        },
{
    let u = c as u32;
    let d: u32 = if 0x30 <= u && u <= 0x39 {
        u - 0x30
    } else if 0x61 <= u && u <= 0x7A {
        u - 0x61 + 10
    } else if 0x41 <= u && u <= 0x5A {
        u - 0x41 + 10
    } else {
        radix
    };
    if d < radix {
        Some(d)
    } else {
        None
    }
}

/// The number that the digit string `s` denotes in `radix`, if every character is a digit.
pub open spec fn digits_value(s: Seq<char>, radix: nat) -> Option<nat>
    decreases s.len(),
{
    if s.len() == 0 {
        Some(0)
    } else {
        match (digits_value(s.drop_last(), radix), digit_value(s.last(), radix)) {
            (Some(v), Some(d)) => Some(v * radix + d),
            _ => None,
        }
    }
}

/// A prefix of a digit string is a digit string of no greater value.
pub proof fn lemma_digits_prefix(s: Seq<char>, k: int, radix: nat)
    requires
        0 <= k <= s.len(),
        radix >= 1,
    ensures
        digits_value(s.take(k), radix) is None ==> digits_value(s, radix) is None,
        digits_value(s, radix) is Some ==> digits_value(s.take(k), radix) is Some
            && digits_value(s.take(k), radix).unwrap() <= digits_value(s, radix).unwrap(),
    decreases s.len(),
{
    if k == s.len() {
        assert(s.take(k) =~= s);
    } else {
        assert(s.drop_last().take(k) =~= s.take(k));
        lemma_digits_prefix(s.drop_last(), k, radix);
        if digits_value(s, radix) is Some {
            let v = digits_value(s.drop_last(), radix).unwrap();
            let d = digit_value(s.last(), radix).unwrap();
            assert(v * radix + d >= v) by (nonlinear_arith)
                requires
                    radix >= 1,
                    d >= 0,
                    v >= 0,
            ;
        }
    }
}

/// What `from_str_radix` gives for an unsigned integer type whose largest value is `max`:
/// an optional `+` sign, then at least one digit, denoting a value no larger than `max`.
pub open spec fn parse_unsigned(s: Seq<char>, radix: nat, max: nat) -> Option<nat> {
    let digits = if s.len() > 0 && s[0] == '+' {
        s.drop_first()
    } else {
        s
    };
    if digits.len() == 0 {
        None
    } else {
        match digits_value(digits, radix) {
            Some(v) => if v <= max {
                Some(v)
            } else {
                None
            },
            None => None,
        }
    }
}

/// What `str::parse::<i32>` gives: an optional `+` or `-` sign, then at least one
/// decimal digit, denoting a value in the range of `i32`.
pub open spec fn parse_i32(s: Seq<char>) -> Option<int> {
    if s.len() > 0 && s[0] == '-' {
        let digits = s.drop_first();
        if digits.len() == 0 {
            None
        } else {
            match digits_value(digits, 10) {
                Some(v) => if v <= 0x8000_0000 {
                    Some(-v)
                } else {
                    None
                },
                None => None,
            }
        }
    } else {
        match parse_unsigned(s, 10, 0x7fff_ffff) {
            Some(v) => Some(v as int),
            None => None,
        }
    }
}

/// `digits_value(v[lo..hi], radix)` when it is at most `max`.
fn digits_upto(v: &Vec<char>, lo: usize, hi: usize, radix: u32, max: u64) -> (r: Option<u64>)
    requires
        lo <= hi <= v.len(),
        2 <= radix <= 36,
        max <= 0xFFFF_FFFF,
    ensures
        match r {
            Some(x) => digits_value(v@.subrange(lo as int, hi as int), radix as nat) == Some(
                x as nat,
            ) && x <= max,
            None => match digits_value(v@.subrange(lo as int, hi as int), radix as nat) {
                Some(x) => x > max,
                None => true,
            },
        },
{
    let ghost s = v@.subrange(lo as int, hi as int);
    let mut acc: u64 = 0;
    let mut over = false;
    let mut i = lo;
    proof {
        assert(v@.subrange(lo as int, lo as int) =~= Seq::<char>::empty());
    }
    while i < hi
        invariant
            lo <= i <= hi <= v.len(),
            2 <= radix <= 36,
            max <= 0xFFFF_FFFF,
            s == v@.subrange(lo as int, hi as int),
            digits_value(v@.subrange(lo as int, i as int), radix as nat) is Some,
            over ==> digits_value(v@.subrange(lo as int, i as int), radix as nat).unwrap() > max,
            !over ==> digits_value(v@.subrange(lo as int, i as int), radix as nat).unwrap() == acc
                && acc <= max,
        decreases hi - i,
    {
        let ghost p = digits_value(v@.subrange(lo as int, i as int), radix as nat).unwrap();
        proof {
            assert(v@.subrange(lo as int, i + 1).drop_last() =~= v@.subrange(lo as int, i as int));
            assert(s.take(i + 1 - lo) =~= v@.subrange(lo as int, i + 1));
            lemma_digits_prefix(s, i + 1 - lo, radix as nat);
        }
        match digit_of(v[i], radix) {
            None => {
                return None;
            },
            Some(d) => {
                proof {
                    assert(p * radix + d >= p) by (nonlinear_arith)
                        requires
                            radix >= 1,
                            d >= 0,
                            p >= 0,
                    ;
                }
                if !over {
                    assert(acc * (radix as u64) <= 0xFFFF_FFFF * 36) by (nonlinear_arith)
                        requires
                            acc <= 0xFFFF_FFFF,
                            radix <= 36,
                    ;
                    let next = acc * (radix as u64) + (d as u64);
                    if next <= max {
                        acc = next;
                    } else {
                        over = true;
                    }
                }
            },
        }
        i = i + 1;
    }
    proof {
        assert(v@.subrange(lo as int, i as int) =~= s);
    }
    if over {
        None
    } else {
        Some(acc)
    }
}

/// `parse_unsigned(v[lo..hi], radix, max)`.
pub fn parse_unsigned_range(v: &Vec<char>, lo: usize, hi: usize, radix: u32, max: u64) -> (r: Option<
    u64,
>)
    requires
        lo <= hi <= v.len(),
        2 <= radix <= 36,
        max <= 0xFFFF_FFFF,
    ensures
        match r {
            Some(x) => parse_unsigned(v@.subrange(lo as int, hi as int), radix as nat, max as nat)
                == Some(x as nat),
            None => parse_unsigned(
                v@.subrange(lo as int, hi as int),
                radix as nat,
                max as nat,
            ) is None,
        },
{
    let ghost s = v@.subrange(lo as int, hi as int);
    let start = if lo < hi && v[lo] == '+' {
        lo + 1
    } else {
        lo
    };
    proof {
        if lo < hi && v@[lo as int] == '+' {
            assert(s.drop_first() =~= v@.subrange(start as int, hi as int));
        }
    }
    if start == hi {
        return None;
    }
    digits_upto(v, start, hi, radix, max)
}

/// `parse_i32(v[lo..hi])`.
pub fn parse_i32_range(v: &Vec<char>, lo: usize, hi: usize) -> (r: Option<i32>)
    requires
        lo <= hi <= v.len(),
    ensures
        match r {
            Some(x) => parse_i32(v@.subrange(lo as int, hi as int)) == Some(x as int),
            None => parse_i32(v@.subrange(lo as int, hi as int)) is None,
        },
{
    let ghost s = v@.subrange(lo as int, hi as int);
    if lo < hi && v[lo] == '-' {
        proof {
            assert(s.drop_first() =~= v@.subrange(lo + 1, hi as int));
        }
        if lo + 1 == hi {
            return None;
        }
        match digits_upto(v, lo + 1, hi, 10, 0x8000_0000) {
            Some(x) => {
                if x == 0x8000_0000 {
                    Some(i32::MIN)
                } else {
                    Some(-(x as i32))
                }
            },
            None => None,
        }
    } else {
        match parse_unsigned_range(v, lo, hi, 10, 0x7fff_ffff) {
            Some(x) => Some(x as i32),
            None => None,
        }
    }
}


/// The characters of `s`.
pub fn chars_of(s: &str) -> (r: Vec<char>)
    ensures
        r@ == s@,
{
    let mut v: Vec<char> = Vec::new();
    for c in it: s.chars()
        invariant
            v@ == it.seq().take(it.index() as int),
    {
        v.push(c);
    }
    v
}

/// A `String` holding `v[lo..hi]` (`FromIterator<&char>` for `String`).
#[verifier::external_body]
pub(crate) fn string_from_range(v: &Vec<char>, lo: usize, hi: usize) -> (r: String)
    requires
        lo <= hi <= v.len(),
    ensures
        r@ == v@.subrange(lo as int, hi as int),
{
    v[lo..hi].iter().collect()
}

/// The Unicode lower case mapping of a whole string, as `str::to_lowercase` computes it.
pub uninterp spec fn spec_to_lowercase(s: Seq<char>) -> Seq<char>;

/// `str::to_lowercase` on the text `v[lo..hi]`; each character maps to one
/// or more characters, so the result is empty exactly when the text is.
#[verifier::external_body]
pub(crate) fn lowercase_range(v: &Vec<char>, lo: usize, hi: usize) -> (r: Vec<char>)
    requires
        lo <= hi <= v.len(),
    ensures
        r@ == spec_to_lowercase(v@.subrange(lo as int, hi as int)),
        (r@.len() == 0) == (hi == lo),
{
    let text: String = v[lo..hi].iter().collect();
    text.to_lowercase().chars().collect()
}

/// The text that `String::from_utf8_lossy` makes of a byte string.
pub uninterp spec fn spec_utf8_lossy(b: Seq<u8>) -> Seq<char>;

/// `String::from_utf8_lossy` on `b`; valid UTF-8 is decoded unchanged.
#[verifier::external_body]
pub(crate) fn utf8_lossy_chars(b: &[u8]) -> (r: Vec<char>)
    ensures
        r@ == spec_utf8_lossy(b@),
        vstd::utf8::valid_utf8(b@) ==> r@ == vstd::utf8::decode_utf8(b@),
{
    String::from_utf8_lossy(b).chars().collect()
}

/// The ASCII lower case of `c` (what `to_ascii_lowercase` maps it to), as a code point.
pub open spec fn ascii_lower_code(c: char) -> u32 {
    let u = c as u32;
    if 0x41 <= u <= 0x5A {
        (u + 32) as u32
    } else {
        u
    }
}

/// `s.to_ascii_lowercase() == w`.
pub open spec fn lower_ascii_eq(s: Seq<char>, w: Seq<char>) -> bool {
    &&& s.len() == w.len()
    &&& forall|i: int| 0 <= i < s.len() ==> ascii_lower_code(#[trigger] s[i]) == w[i] as u32
}

/// Whether `v[lo..hi]`, in ASCII lower case, is `w`.
pub fn range_eq_lower_ascii(v: &Vec<char>, lo: usize, hi: usize, w: &[char]) -> (b: bool)
    requires
        lo <= hi <= v.len(),
    ensures
        b == lower_ascii_eq(v@.subrange(lo as int, hi as int), w@),
{
    if hi - lo != w.len() {
        return false;
    }
    let mut i: usize = 0;
    while i < w.len()
        invariant
            lo <= hi <= v.len(),
            hi - lo == w.len(),
            0 <= i <= w.len(),
            forall|j: int| 0 <= j < i ==> ascii_lower_code(v@[lo + j]) == w@[j] as u32,
        decreases w.len() - i,
    {
        let u = v[lo + i] as u32;
        let l = if 0x41 <= u && u <= 0x5A {
            u + 32
        } else {
            u
        };
        if l != w[i] as u32 {
            assert(v@.subrange(lo as int, hi as int)[i as int] == v@[lo + i]);
            return false;
        }
        i = i + 1;
    }
    assert forall|j: int| 0 <= j < w@.len() implies ascii_lower_code(
        #[trigger] v@.subrange(lo as int, hi as int)[j],
    ) == w@[j] as u32 by {
        assert(v@.subrange(lo as int, hi as int)[j] == v@[lo + j]);
    }
    true
}

/// Whether `v[lo..hi]` is exactly `w`.
pub fn range_eq(v: &Vec<char>, lo: usize, hi: usize, w: &[char]) -> (b: bool)
    requires
        lo <= hi <= v.len(),
    ensures
        b == (v@.subrange(lo as int, hi as int) == w@),
{
    if hi - lo != w.len() {
        return false;
    }
    let mut i: usize = 0;
    while i < w.len()
        invariant
            lo <= hi <= v.len(),
            hi - lo == w.len(),
            0 <= i <= w.len(),
            forall|j: int| 0 <= j < i ==> v@[lo + j] == w@[j],
        decreases w.len() - i,
    {
        if v[lo + i] != w[i] {
            assert(v@.subrange(lo as int, hi as int)[i as int] == v@[lo + i]);
            return false;
        }
        i = i + 1;
    }
    assert(v@.subrange(lo as int, hi as int) =~= w@);
    true
}

/// `i` is the position of the first `c` in `s`.
pub open spec fn is_first_index(s: Seq<char>, c: char, i: int) -> bool {
    &&& 0 <= i < s.len()
    &&& s[i] == c
    &&& forall|j: int| 0 <= j < i ==> s[j] != c
}

/// What `str::find(c)` gives: the position of the first `c` in `s`.
pub open spec fn first_index(s: Seq<char>, c: char) -> Option<int> {
    if exists|i: int| is_first_index(s, c, i) {
        Some(choose|i: int| is_first_index(s, c, i))
    } else {
        None
    }
}

/// The position in `v` of the first `c` within `v[lo..hi]`.
pub fn find_in_range(v: &Vec<char>, lo: usize, hi: usize, c: char) -> (r: Option<usize>)
    requires
        lo <= hi <= v.len(),
    ensures
        match r {
            Some(i) => lo <= i < hi && first_index(v@.subrange(lo as int, hi as int), c) == Some(
                i - lo,
            ),
            None => first_index(v@.subrange(lo as int, hi as int), c) is None,
        },
{
    let ghost s = v@.subrange(lo as int, hi as int);
    let mut i = lo;
    while i < hi
        invariant
            lo <= i <= hi <= v.len(),
            s == v@.subrange(lo as int, hi as int),
            forall|j: int| 0 <= j < i - lo ==> s[j] != c,
        decreases hi - i,
    {
        if v[i] == c {
            proof {
                assert(is_first_index(s, c, i - lo));
                let k = choose|k: int| is_first_index(s, c, k);
                assert(k == i - lo);
            }
            return Some(i);
        }
        i = i + 1;
    }
    None
}

/// `s` has `q` as a contiguous part (what `str::contains` tests).
pub open spec fn contains_seq(s: Seq<char>, q: Seq<char>) -> bool {
    exists|i: int| 0 <= i <= s.len() - q.len() && #[trigger] s.subrange(i, i + q.len()) == q
}

/// Whether `q` occurs in `s`.
pub fn contains_chars(s: &Vec<char>, q: &Vec<char>) -> (b: bool)
    ensures
        b == contains_seq(s@, q@),
{
    if q.len() > s.len() {
        return false;
    }
    let last = s.len() - q.len();
    let mut i: usize = 0;
    while i <= last
        invariant
            last == s.len() - q.len(),
            q.len() <= s.len(),
            0 <= i <= last + 1,
            forall|j: int| 0 <= j < i ==> #[trigger] s@.subrange(j, j + q.len()) != q@,
        decreases last + 1 - i,
    {
        let mut k: usize = 0;
        let mut same = true;
        while k < q.len()
            invariant
                i <= last,
                last == s.len() - q.len(),
                0 <= k <= q.len(),
                same == forall|j: int| 0 <= j < k ==> s@[i + j] == q@[j],
            decreases q.len() - k,
        {
            if s[i + k] != q[k] {
                same = false;
            }
            k = k + 1;
        }
        if same {
            assert(s@.subrange(i as int, i + q.len()) =~= q@);
            return true;
        }
        assert(s@.subrange(i as int, i + q.len()) != q@) by {
            let j = choose|j: int| 0 <= j < q.len() && s@[i + j] != q@[j];
            assert(s@.subrange(i as int, i + q.len())[j] == s@[i + j]);
        }
        i = i + 1;
    }
    false
}

} // verus!
