use std::hash::{DefaultHasher, Hasher};

use vstd::prelude::*;
use vstd::std_specs::hash::DefaultHasherAdditionalSpecFns;
use vstd::string::StringSliceAdditionalSpecFns;

use crate::color::Color;
use crate::options::{method_tag_spec, Method, OutputFormat};
use crate::palette::{all_wf, Colorscheme};
use crate::text::{chars_of, decimal_text, hex_digit, push_decimal, push_hex_byte, push_str_chars, string_from_chars};

verus! {

/// `#rrggbb` in lowercase hexadecimal.
pub open spec fn hex_text(c: Color) -> Seq<char> {
    seq!['#'] + seq![hex_digit((c.r / 16) as int), hex_digit((c.r % 16) as int)]
        + seq![hex_digit((c.g / 16) as int), hex_digit((c.g % 16) as int)]
        + seq![hex_digit((c.b / 16) as int), hex_digit((c.b % 16) as int)]
}

/// `rgb(r, g, b)` in decimal.
pub open spec fn rgb_text(c: Color) -> Seq<char> {
    "rgb("@ + decimal_text(c.r) + ", "@ + decimal_text(c.g) + ", "@ + decimal_text(c.b) + ")"@
}

pub open spec fn color_text(c: Color, format: OutputFormat) -> Seq<char> {
    match format {
        OutputFormat::HEX => hex_text(c),
        OutputFormat::RGB => rgb_text(c),
    }
}

pub(crate) fn push_hex_color(out: &mut Vec<char>, c: &Color)
    ensures
        final(out)@ == old(out)@ + hex_text(*c),
{
    out.push('#');
    push_hex_byte(out, c.r);
    push_hex_byte(out, c.g);
    push_hex_byte(out, c.b);
    proof {
        assert(final(out)@ == old(out)@ + hex_text(*c));
    }
}

pub(crate) fn push_color_text(out: &mut Vec<char>, c: &Color, format: OutputFormat)
    ensures
        final(out)@ == old(out)@ + color_text(*c, format),
{
    match format {
        OutputFormat::HEX => push_hex_color(out, c),
        OutputFormat::RGB => {
            push_str_chars(out, "rgb(");
            push_decimal(out, c.r);
            push_str_chars(out, ", ");
            push_decimal(out, c.g);
            push_str_chars(out, ", ");
            push_decimal(out, c.b);
            push_str_chars(out, ")");
            proof {
                assert(final(out)@ == old(out)@ + rgb_text(*c));
            }
        },
    }
}

/// Writes a color as `#rrggbb` or as `rgb(r, g, b)`.
pub fn format_color(c: &Color, format: OutputFormat) -> (s: String)
    ensures
        s@ == color_text(*c, format),
{
    let mut out: Vec<char> = Vec::new();
    push_color_text(&mut out, c, format);
    proof {
        assert(out@ == color_text(*c, format));
    }
    string_from_chars(&out)
}

pub open spec fn color_line(c: Color) -> Seq<char> {
    hex_text(c).push('\n')
}

pub open spec fn palette_text(p: Seq<Color>) -> Seq<char>
    decreases p.len(),
{
    if p.len() == 0 {
        Seq::empty()
    } else {
        palette_text(p.drop_last()) + color_line(p.last())
    }
}

/// The cache record: background, foreground, then the palette, one
/// `#rrggbb` line each.
pub open spec fn scheme_text(background: Color, foreground: Color, palette: Seq<Color>) -> Seq<char> {
    color_line(background) + color_line(foreground) + palette_text(palette)
}

/// Writes a colorscheme as its cache record.
pub fn serialize_colorscheme(cs: &Colorscheme) -> (s: String)
    ensures
        s@ == scheme_text(cs.background, cs.foreground, cs.palette@),
{
    let mut out: Vec<char> = Vec::new();
    push_hex_color(&mut out, &cs.background);
    out.push('\n');
    push_hex_color(&mut out, &cs.foreground);
    out.push('\n');
    let ghost head = out@;
    let mut i: usize = 0;
    while i < cs.palette.len()
        invariant
            i <= cs.palette@.len(),
            out@ == head + palette_text(cs.palette@.subrange(0, i as int)),
        decreases cs.palette@.len() - i,
    {
        proof {
            let p = cs.palette@.subrange(0, i as int + 1);
            assert(p.drop_last() == cs.palette@.subrange(0, i as int));
        }
        push_hex_color(&mut out, &cs.palette[i]);
        out.push('\n');
        i = i + 1;
        proof {
            assert(out@ == head + palette_text(cs.palette@.subrange(0, i as int)));
        }
    }
    proof {
        assert(cs.palette@.subrange(0, cs.palette@.len() as int) == cs.palette@);
        assert(out@ == scheme_text(cs.background, cs.foreground, cs.palette@));
    }
    string_from_chars(&out)
}

/// The lowercase hexadecimal digits of `n`, without leading zeros.
pub open spec fn hex_u64(n: u64) -> Seq<char>
    decreases n,
{
    if n < 16 {
        seq![hex_digit(n as int)]
    } else {
        hex_u64(n / 16).push(hex_digit((n % 16) as int))
    }
}

/// The `count` low bytes of `n`, least significant first.
pub open spec fn le_bytes(n: nat, count: nat) -> Seq<u8>
    decreases count,
{
    if count == 0 {
        Seq::empty()
    } else {
        seq![(n % 256) as u8] + le_bytes(n / 256, (count - 1) as nat)
    }
}

/// What the cache key hashes, write by write: the image identity and an end
/// marker, the modification time in seconds when there is one, the bits of
/// the saturation value, and the method's tag.
pub open spec fn key_writes(uri: Seq<u8>, mtime: Option<u64>, saturation_bits: u32, tag: u8) -> Seq<Seq<u8>> {
    let head = seq![uri, seq![0xffu8]];
    let timed = match mtime {
        Some(t) => head.push(le_bytes(t as nat, 8)),
        None => head,
    };
    timed.push(le_bytes(saturation_bits as nat, 4)).push(seq![tag])
}

fn le_bytes_of(n: u64, count: usize) -> (r: Vec<u8>)
    ensures
        r@ == le_bytes(n as nat, count as nat),
{
    let mut v: Vec<u8> = Vec::new();
    let mut cur = n;
    let mut i: usize = 0;
    while i < count
        invariant
            i <= count,
            le_bytes(n as nat, count as nat) == v@ + le_bytes(cur as nat, (count - i) as nat),
        decreases count - i,
    {
        let b = (cur % 256) as u8;
        proof {
            let rest = le_bytes((cur / 256) as nat, (count - i - 1) as nat);
            assert(le_bytes(cur as nat, (count - i) as nat) == seq![b] + rest);
            assert(v@ + (seq![b] + rest) == v@.push(b) + rest);
        }
        v.push(b);
        cur = cur / 256;
        i = i + 1;
    }
    proof {
        assert(v@ + Seq::<u8>::empty() == v@);
    }
    v
}

/// The cache key of an image: std's `DefaultHasher` over `key_writes`.
pub fn cache_key(uri: &str, mtime: Option<u64>, saturation_bits: u32, method: Method) -> (k: u64)
    ensures
        k == DefaultHasher::spec_finish(
            key_writes(uri.spec_bytes(), mtime, saturation_bits, method_tag_spec(method)),
        ),
{
    let mut state = DefaultHasher::new();
    state.write(uri.as_bytes());
    let end_marker: Vec<u8> = vec![0xffu8];
    state.write(end_marker.as_slice());
    if let Some(t) = mtime {
        let time_bytes = le_bytes_of(t, 8);
        state.write(time_bytes.as_slice());
    }
    let bits_bytes = le_bytes_of(saturation_bits as u64, 4);
    state.write(bits_bytes.as_slice());
    let tag: Vec<u8> = vec![method.tag()];
    state.write(tag.as_slice());
    proof {
        assert(end_marker@ == seq![0xffu8]);
        assert(tag@ == seq![method_tag_spec(method)]);
        assert(state@ == key_writes(uri.spec_bytes(), mtime, saturation_bits, method_tag_spec(method)));
    }
    state.finish()
}

/// The file name of the cache record whose key is `key`.
pub fn cache_file_name(key: u64) -> (s: String)
    ensures
        s@ == hex_u64(key) + ".pal"@,
{
    let mut digits: Vec<char> = Vec::new();
    let mut n = key;
    let ghost mut rest: Seq<char> = Seq::empty();
    while n >= 16
        invariant
            hex_u64(key) == hex_u64(n) + rest,
            digits@ == rest.reverse(),
        decreases n,
    {
        let d = (n % 16) as u8;
        let c = if d < 10 { (48 + d) as char } else { (87 + d) as char };
        proof {
            assert(hex_u64(n) == hex_u64(n / 16).push(c));
            assert((seq![c] + rest).reverse() == rest.reverse().push(c)) by {
                assert forall|k: int| 0 <= k < rest.len() + 1 implies #[trigger] (seq![c] + rest).reverse()[k] == rest.reverse().push(c)[k] by {}
                assert((seq![c] + rest).reverse() =~= rest.reverse().push(c));
            }
            assert(hex_u64(n / 16).push(c) + rest == hex_u64(n / 16) + (seq![c] + rest));
            rest = seq![c] + rest;
        }
        digits.push(c);
        n = n / 16;
    }
    let d = n as u8;
    let last = if d < 10 { (48 + d) as char } else { (87 + d) as char };
    digits.push(last);
    proof {
        rest = seq![last] + rest;
        assert(rest.reverse() == digits@) by {
            assert(rest.reverse() =~= digits@);
        }
        assert(hex_u64(key) == rest);
    }
    let mut out: Vec<char> = Vec::new();
    let mut k: usize = digits.len();
    while k > 0
        invariant
            k <= digits@.len(),
            digits@ == rest.reverse(),
            out@ == rest.subrange(0, (digits@.len() - k) as int),
        decreases k,
    {
        k = k - 1;
        proof {
            assert(rest.subrange(0, (digits@.len() - k) as int) =~= rest.subrange(0, (digits@.len() - k - 1) as int).push(digits@[k as int]));
        }
        out.push(digits[k]);
    }
    push_str_chars(&mut out, ".pal");
    proof {
        assert(rest.subrange(0, rest.len() as int) == rest);
    }
    string_from_chars(&out)
}

/// Why a cache record was refused.
#[derive(Debug, Clone, Copy, PartialEq, Eq, Structural)]
pub enum CacheError {
    /// A non-blank line is not one color.
    Malformed,
    MissingBackground,
    MissingForeground,
}

/// What one line of a cache record holds.
#[derive(Debug, Clone, Copy, PartialEq, Eq, Structural)]
pub enum LineParse {
    Blank,
    Bad,
    Rgb(u8, u8, u8),
}

/// Unicode white space, as `char::is_whitespace` has it.
pub open spec fn is_ws(c: char) -> bool {
    c == ' ' || c == '\t' || c == '\n' || c == '\x0B' || c == '\x0C' || c == '\r' || c == '\u{85}'
        || c == '\u{A0}' || c == '\u{1680}' || ('\u{2000}' <= c && c <= '\u{200A}') || c == '\u{2028}'
        || c == '\u{2029}' || c == '\u{202F}' || c == '\u{205F}' || c == '\u{3000}'
}

pub open spec fn is_hex(c: char) -> bool {
    ('0' <= c && c <= '9') || ('a' <= c && c <= 'f') || ('A' <= c && c <= 'F')
}

pub open spec fn hex_value(c: char) -> int {
    if '0' <= c && c <= '9' {
        c as int - '0' as int
    } else if 'a' <= c && c <= 'f' {
        c as int - 'a' as int + 10
    } else {
        c as int - 'A' as int + 10
    }
}

/// The number of white-space characters at the start of `l`.
pub open spec fn leading_ws(l: Seq<char>) -> nat
    decreases l.len(),
{
    if l.len() == 0 || !is_ws(l[0]) {
        0
    } else {
        1 + leading_ws(l.drop_first())
    }
}

/// The number of white-space characters at the end of `l`.
pub open spec fn trailing_ws(l: Seq<char>) -> nat
    decreases l.len(),
{
    if l.len() == 0 || !is_ws(l.last()) {
        0
    } else {
        1 + trailing_ws(l.drop_last())
    }
}

/// `l` without white space at either end.
pub open spec fn trim(l: Seq<char>) -> Seq<char> {
    if leading_ws(l) >= l.len() {
        Seq::empty()
    } else {
        l.subrange(leading_ws(l) as int, l.len() - trailing_ws(l))
    }
}

pub open spec fn hex_byte(hi: char, lo: char) -> u8 {
    (hex_value(hi) * 16 + hex_value(lo)) as u8
}

/// Six hexadecimal digits, two per channel.
pub open spec fn parse_rgb(body: Seq<char>) -> LineParse {
    if body.len() == 6 && forall|i: int| 0 <= i < 6 ==> is_hex(#[trigger] body[i]) {
        LineParse::Rgb(hex_byte(body[0], body[1]), hex_byte(body[2], body[3]), hex_byte(body[4], body[5]))
    } else {
        LineParse::Bad
    }
}

/// A line is blank, or is six hexadecimal digits with an optional `#` in
/// front, white space at either end allowed.
pub open spec fn parse_line(l: Seq<char>) -> LineParse {
    let t = trim(l);
    if t.len() == 0 {
        LineParse::Blank
    } else if t[0] == '#' {
        parse_rgb(t.drop_first())
    } else {
        parse_rgb(t)
    }
}

/// The finished lines and the line in progress after reading `t`.
pub open spec fn split_lines(t: Seq<char>) -> (Seq<Seq<char>>, Seq<char>)
    decreases t.len(),
{
    if t.len() == 0 {
        (Seq::empty(), Seq::empty())
    } else {
        let (done, cur) = split_lines(t.drop_last());
        if t.last() == '\n' {
            (done.push(cur), Seq::empty())
        } else {
            (done, cur.push(t.last()))
        }
    }
}

/// The lines of `t`, split at each line feed.
pub open spec fn lines(t: Seq<char>) -> Seq<Seq<char>> {
    split_lines(t).0.push(split_lines(t).1)
}

/// The colors of the non-blank lines, or `None` if one of them is bad.
pub open spec fn line_colors(ls: Seq<Seq<char>>) -> Option<Seq<Color>>
    decreases ls.len(),
{
    if ls.len() == 0 {
        Some(Seq::empty())
    } else {
        match line_colors(ls.drop_last()) {
            None => None,
            Some(v) => match parse_line(ls.last()) {
                LineParse::Blank => Some(v),
                LineParse::Bad => None,
                LineParse::Rgb(r, g, b) => Some(v.push(Color::of_rgb(r, g, b))),
            },
        }
    }
}

/// The colors that a cache record holds, background and foreground first,
/// or the error that refuses it.
pub open spec fn record_outcome(t: Seq<char>) -> Result<Seq<Color>, CacheError> {
    match line_colors(lines(t)) {
        None => Err(CacheError::Malformed),
        Some(v) => if v.len() == 0 {
            Err(CacheError::MissingBackground)
        } else if v.len() == 1 {
            Err(CacheError::MissingForeground)
        } else {
            Ok(v)
        },
    }
}

proof fn lemma_leading_ws(l: Seq<char>, j: int)
    requires
        0 <= j <= l.len(),
        forall|i: int| 0 <= i < j ==> is_ws(#[trigger] l[i]),
        j == l.len() || !is_ws(l[j]),
    ensures
        leading_ws(l) == j,
    decreases j,
{
    if j > 0 {
        lemma_leading_ws(l.drop_first(), j - 1);
    }
}

proof fn lemma_trailing_ws(l: Seq<char>, j: int)
    requires
        0 <= j <= l.len(),
        forall|i: int| l.len() - j <= i < l.len() ==> is_ws(#[trigger] l[i]),
        j == l.len() || !is_ws(l[l.len() - 1 - j]),
    ensures
        trailing_ws(l) == j,
    decreases j,
{
    if j > 0 {
        lemma_trailing_ws(l.drop_last(), j - 1);
    }
}

fn ws(c: char) -> (r: bool)
    ensures
        r == is_ws(c),
{
    c == ' ' || c == '\t' || c == '\n' || c == '\x0B' || c == '\x0C' || c == '\r' || c == '\u{85}'
        || c == '\u{A0}' || c == '\u{1680}' || ('\u{2000}' <= c && c <= '\u{200A}') || c == '\u{2028}'
        || c == '\u{2029}' || c == '\u{202F}' || c == '\u{205F}' || c == '\u{3000}'
}

fn hex_digit_value(c: char) -> (r: Option<u8>)
    ensures
        r is Some <==> is_hex(c),
        r matches Some(v) ==> v as int == hex_value(c) && v < 16,
{
    if '0' <= c && c <= '9' {
        Some((c as u32 - '0' as u32) as u8)
    } else if 'a' <= c && c <= 'f' {
        Some((c as u32 - 'a' as u32 + 10) as u8)
    } else if 'A' <= c && c <= 'F' {
        Some((c as u32 - 'A' as u32 + 10) as u8)
    } else {
        None
    }
}

fn byte_at(l: &Vec<char>, at: usize) -> (r: Option<u8>)
    requires
        at + 1 < l@.len(),
    ensures
        r is Some <==> is_hex(l@[at as int]) && is_hex(l@[at + 1]),
        r matches Some(v) ==> v == hex_byte(l@[at as int], l@[at + 1]),
{
    let n = l.len();
    proof {
        assert(at + 1 < n);
    }
    let hi = hex_digit_value(l[at]);
    let lo = hex_digit_value(l[at + 1]);
    match (hi, lo) {
        (Some(hi), Some(lo)) => Some(hi * 16 + lo),
        _ => None,
    }
}

fn line_result(l: &Vec<char>) -> (r: LineParse)
    ensures
        r == parse_line(l@),
{
    let n = l.len();
    let mut start: usize = 0;
    while start < n && ws(l[start])
        invariant
            start <= n == l@.len(),
            forall|i: int| 0 <= i < start ==> is_ws(#[trigger] l@[i]),
        decreases n - start,
    {
        start = start + 1;
    }
    proof {
        lemma_leading_ws(l@, start as int);
    }
    if start == n {
        return LineParse::Blank;
    }
    let mut end: usize = n;
    while end > start && ws(l[end - 1])
        invariant
            start < end <= n == l@.len() || start == end,
            start < n,
            !is_ws(l@[start as int]),
            forall|i: int| end <= i < n ==> is_ws(#[trigger] l@[i]),
        decreases end,
    {
        end = end - 1;
    }
    proof {
        lemma_trailing_ws(l@, n - end);
    }
    let ghost t = trim(l@);
    let body_start = if l[start] == '#' { start + 1 } else { start };
    if end - body_start != 6 {
        proof {
            assert(t.len() == end - start);
        }
        return LineParse::Bad;
    }
    let r = byte_at(l, body_start);
    let g = byte_at(l, body_start + 2);
    let b = byte_at(l, body_start + 4);
    proof {
        let body = if t[0] == '#' { t.drop_first() } else { t };
        assert(body.len() == 6);
        assert forall|i: int| 0 <= i < 6 implies body[i] == l@[body_start + i] by {}
    }
    match (r, g, b) {
        (Some(r), Some(g), Some(b)) => LineParse::Rgb(r, g, b),
        _ => LineParse::Bad,
    }
}

proof fn lemma_hex_digit(n: int)
    requires
        0 <= n < 16,
    ensures
        hex_digit(n) != '\n',
        hex_digit(n) != '#',
        !is_ws(hex_digit(n)),
        is_hex(hex_digit(n)),
        hex_value(hex_digit(n)) == n,
{
}

proof fn lemma_hex_byte(b: u8)
    ensures
        hex_byte(hex_digit((b / 16) as int), hex_digit((b % 16) as int)) == b,
{
    lemma_hex_digit((b / 16) as int);
    lemma_hex_digit((b % 16) as int);
}

/// A line of six lowercase hexadecimal digits, with or without `#` in front,
/// reads back as the color it was written from.
pub proof fn lemma_line_round_trip(c: Color)
    requires
        c.wf(),
    ensures
        parse_line(hex_text(c)) == LineParse::Rgb(c.r, c.g, c.b),
        parse_line(hex_text(c).drop_first()) == LineParse::Rgb(c.r, c.g, c.b),
        Color::of_rgb(c.r, c.g, c.b) == c,
{
    lemma_hex_text(c);
    let t = hex_text(c).drop_first();
    lemma_hex_digit((c.r / 16) as int);
    lemma_hex_digit((c.b % 16) as int);
    lemma_hex_byte(c.r);
    lemma_hex_byte(c.g);
    lemma_hex_byte(c.b);
    assert(t[0] == hex_digit((c.r / 16) as int));
    assert(t[5] == hex_digit((c.b % 16) as int));
    lemma_leading_ws(t, 0);
    lemma_trailing_ws(t, 0);
    assert(trim(t) == t);
    assert(forall|i: int| 0 <= i < 6 ==> is_hex(#[trigger] t[i])) by {
        lemma_hex_digit((c.r % 16) as int);
        lemma_hex_digit((c.g / 16) as int);
        lemma_hex_digit((c.g % 16) as int);
        lemma_hex_digit((c.b / 16) as int);
    }
}

proof fn lemma_split_append(a: Seq<char>, w: Seq<char>)
    requires
        forall|i: int| 0 <= i < w.len() ==> #[trigger] w[i] != '\n',
    ensures
        split_lines(a + w) == (split_lines(a).0, split_lines(a).1 + w),
    decreases w.len(),
{
    if w.len() == 0 {
        assert(a + w == a);
        assert(split_lines(a).1 + w == split_lines(a).1);
    } else {
        let w0 = w.drop_last();
        lemma_split_append(a, w0);
        assert((a + w).drop_last() == a + w0);
        assert((a + w).last() == w.last());
        assert(split_lines(a).1 + w0 + seq![w.last()] == split_lines(a).1 + w);
    }
}

proof fn lemma_hex_text(c: Color)
    ensures
        hex_text(c).len() == 7,
        forall|i: int| 0 <= i < 7 ==> #[trigger] hex_text(c)[i] != '\n',
        parse_line(hex_text(c)) == LineParse::Rgb(c.r, c.g, c.b),
{
    let t = hex_text(c);
    lemma_hex_digit((c.r / 16) as int);
    lemma_hex_digit((c.r % 16) as int);
    lemma_hex_digit((c.g / 16) as int);
    lemma_hex_digit((c.g % 16) as int);
    lemma_hex_digit((c.b / 16) as int);
    lemma_hex_digit((c.b % 16) as int);
    lemma_hex_byte(c.r);
    lemma_hex_byte(c.g);
    lemma_hex_byte(c.b);
    lemma_leading_ws(t, 0);
    lemma_trailing_ws(t, 0);
    assert(trim(t) == t);
    let body = t.drop_first();
    assert(body[0] == t[1] && body[1] == t[2] && body[2] == t[3] && body[3] == t[4] && body[4] == t[5] && body[5] == t[6]);
    assert(forall|i: int| 0 <= i < 6 ==> is_hex(#[trigger] body[i]));
}

proof fn lemma_split_color_line(a: Seq<char>, c: Color)
    requires
        split_lines(a).1 == Seq::<char>::empty(),
    ensures
        split_lines(a + color_line(c)) == (split_lines(a).0.push(hex_text(c)), Seq::<char>::empty()),
{
    lemma_hex_text(c);
    lemma_split_append(a, hex_text(c));
    assert(a + color_line(c) == (a + hex_text(c)).push('\n'));
    assert((a + hex_text(c)).push('\n').drop_last() == a + hex_text(c));
    assert(Seq::<char>::empty() + hex_text(c) == hex_text(c));
}

proof fn lemma_colors_push_line(ls: Seq<Seq<char>>, c: Color)
    requires
        c.wf(),
    ensures
        line_colors(ls.push(hex_text(c))) == (match line_colors(ls) {
            Some(v) => Some(v.push(c)),
            None => None,
        }),
{
    lemma_hex_text(c);
    assert(ls.push(hex_text(c)).drop_last() == ls);
    assert(Color::of_rgb(c.r, c.g, c.b) == c);
}

proof fn lemma_record_prefix(background: Color, foreground: Color, palette: Seq<Color>)
    requires
        background.wf(),
        foreground.wf(),
        all_wf(palette),
    ensures
        split_lines(scheme_text(background, foreground, palette)).1 == Seq::<char>::empty(),
        line_colors(split_lines(scheme_text(background, foreground, palette)).0) == Some(
            seq![background, foreground] + palette,
        ),
    decreases palette.len(),
{
    if palette.len() == 0 {
        let e = Seq::<char>::empty();
        assert(split_lines(e) == (Seq::<Seq<char>>::empty(), e));
        lemma_split_color_line(e, background);
        assert(e + color_line(background) == color_line(background));
        lemma_split_color_line(color_line(background), foreground);
        assert(scheme_text(background, foreground, palette) == color_line(background) + color_line(foreground));
        let ls0 = Seq::<Seq<char>>::empty();
        lemma_colors_push_line(ls0, background);
        lemma_colors_push_line(ls0.push(hex_text(background)), foreground);
        assert(seq![background, foreground] + palette == seq![background, foreground]);
        assert(Seq::<Color>::empty().push(background).push(foreground) == seq![background, foreground]);
    } else {
        let p0 = palette.drop_last();
        assert forall|i: int| 0 <= i < p0.len() implies (#[trigger] p0[i]).wf() by {
            assert(p0[i] == palette[i]);
        }
        lemma_record_prefix(background, foreground, p0);
        let a = scheme_text(background, foreground, p0);
        assert(scheme_text(background, foreground, palette) == a + color_line(palette.last()));
        lemma_split_color_line(a, palette.last());
        lemma_colors_push_line(split_lines(a).0, palette.last());
        assert((seq![background, foreground] + p0).push(palette.last()) == seq![background, foreground] + palette);
    }
}

/// Reading back the record that a colorscheme is written as gives its
/// background, foreground and palette again.
pub proof fn lemma_record_round_trip(background: Color, foreground: Color, palette: Seq<Color>)
    requires
        background.wf(),
        foreground.wf(),
        all_wf(palette),
    ensures
        record_outcome(scheme_text(background, foreground, palette)) == Ok::<Seq<Color>, CacheError>(
            seq![background, foreground] + palette,
        ),
{
    let t = scheme_text(background, foreground, palette);
    lemma_record_prefix(background, foreground, palette);
    let ls = split_lines(t).0;
    let e = Seq::<char>::empty();
    assert(lines(t) == ls.push(e));
    assert(ls.push(e).drop_last() == ls);
    assert(leading_ws(e) == 0);
    assert(trim(e).len() == 0);
    assert(parse_line(e) == LineParse::Blank);
}

fn take_line(
    cur: &Vec<char>,
    found: &mut Vec<Color>,
    bad: &mut bool,
    Ghost(done): Ghost<Seq<Seq<char>>>,
)
    requires
        *old(bad) <==> line_colors(done) is None,
        !*old(bad) ==> line_colors(done) == Some(old(found)@),
        all_wf(old(found)@),
    ensures
        *final(bad) <==> line_colors(done.push(cur@)) is None,
        !*final(bad) ==> line_colors(done.push(cur@)) == Some(final(found)@),
        all_wf(final(found)@),
{
    proof {
        assert(done.push(cur@).drop_last() == done);
    }
    if !*bad {
        match line_result(cur) {
            LineParse::Blank => {},
            LineParse::Bad => {
                *bad = true;
            },
            LineParse::Rgb(r, g, b) => {
                found.push(Color::from_channels(r, g, b));
            },
        }
    }
}

/// Reads a cache record: background, foreground, then the palette, one
/// color per line, blank lines skipped. Any other line that is not a color
/// refuses the whole record, and so does a record without background or
/// foreground.
pub fn parse_colorscheme(text: &str) -> (r: Result<Colorscheme, CacheError>)
    ensures
        match r {
            Ok(cs) => {
                &&& cs.wf()
                &&& record_outcome(text@) == Ok::<Seq<Color>, CacheError>(
                    seq![cs.background, cs.foreground] + cs.palette@,
                )
            },
            Err(e) => record_outcome(text@) == Err::<Seq<Color>, CacheError>(e),
        },
{
    let chars = chars_of(text);
    let mut cur: Vec<char> = Vec::new();
    let mut found: Vec<Color> = Vec::new();
    let mut bad = false;
    let mut i: usize = 0;
    while i < chars.len()
        invariant
            i <= chars@.len(),
            chars@ == text@,
            split_lines(chars@.subrange(0, i as int)).1 == cur@,
            bad <==> line_colors(split_lines(chars@.subrange(0, i as int)).0) is None,
            !bad ==> line_colors(split_lines(chars@.subrange(0, i as int)).0) == Some(found@),
            all_wf(found@),
        decreases chars@.len() - i,
    {
        let ghost prefix = chars@.subrange(0, i as int);
        proof {
            assert(chars@.subrange(0, i as int + 1).drop_last() == prefix);
        }
        let c = chars[i];
        if c == '\n' {
            take_line(&cur, &mut found, &mut bad, Ghost(split_lines(prefix).0));
            cur = Vec::new();
        } else {
            cur.push(c);
        }
        i = i + 1;
    }
    proof {
        assert(chars@.subrange(0, chars@.len() as int) == chars@);
    }
    take_line(&cur, &mut found, &mut bad, Ghost(split_lines(chars@).0));
    if bad {
        return Err(CacheError::Malformed);
    }
    if found.len() == 0 {
        return Err(CacheError::MissingBackground);
    }
    if found.len() == 1 {
        return Err(CacheError::MissingForeground);
    }
    let background = found[0];
    let foreground = found[1];
    let mut palette: Vec<Color> = Vec::new();
    let mut k: usize = 2;
    while k < found.len()
        invariant
            2 <= k <= found@.len(),
            palette@ == found@.subrange(2, k as int),
            all_wf(found@),
        decreases found@.len() - k,
    {
        palette.push(found[k]);
        k = k + 1;
    }
    proof {
        assert(seq![background, foreground] + palette@ == found@);
    }
    Ok(Colorscheme { palette, background, foreground })
}

} // verus!
