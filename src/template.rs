use vstd::prelude::*;

use crate::codec::{color_text, push_color_text};
use crate::color::Color;
use crate::options::OutputFormat;
use crate::palette::Colorscheme;
use crate::text::{chars_of, string_from_chars};

verus! {

pub open spec fn starts_with(s: Seq<char>, p: Seq<char>) -> bool {
    p.len() <= s.len() && s.subrange(0, p.len() as int) == p
}

pub open spec fn is_digit(c: char) -> bool {
    '0' <= c && c <= '9'
}

pub open spec fn decimal_value(d: Seq<char>) -> nat
    decreases d.len(),
{
    if d.len() == 0 {
        0
    } else {
        10 * decimal_value(d.drop_last()) + (d.last() as int - '0' as int) as nat
    }
}

pub open spec fn all_digits(s: Seq<char>) -> bool {
    forall|i: int| 0 <= i < s.len() ==> is_digit(#[trigger] s[i])
}

pub open spec fn without_plus(d: Seq<char>) -> Seq<char> {
    if d.len() > 0 && d[0] == '+' { d.drop_first() } else { d }
}

/// The index that `d` writes in decimal, with an optional `+` in front.
pub open spec fn parse_index(d: Seq<char>) -> Option<nat> {
    let digits = without_plus(d);
    if digits.len() > 0 && all_digits(digits) {
        Some(decimal_value(digits))
    } else {
        None
    }
}

/// What a placeholder stands for: the background, the foreground, or the
/// palette entry that `@color<index>` names; `None` for anything else.
pub open spec fn resolve(
    ph: Seq<char>,
    background: Color,
    foreground: Color,
    palette: Seq<Color>,
    format: OutputFormat,
) -> Option<Seq<char>> {
    if starts_with(ph, "@background"@) {
        Some(color_text(background, format))
    } else if starts_with(ph, "@foreground"@) {
        Some(color_text(foreground, format))
    } else if starts_with(ph, "@color"@) {
        match parse_index(ph.subrange(6, ph.len() as int)) {
            Some(i) => if i < palette.len() {
                Some(color_text(palette[i as int], format))
            } else {
                None
            },
            None => None,
        }
    } else {
        None
    }
}

/// The output so far, whether a placeholder is open, and the placeholder text.
pub open spec fn render_state(
    t: Seq<char>,
    background: Color,
    foreground: Color,
    palette: Seq<Color>,
    format: OutputFormat,
) -> (Seq<char>, bool, Seq<char>)
    decreases t.len(),
{
    if t.len() == 0 {
        (Seq::empty(), false, Seq::empty())
    } else {
        let (out, inside, ph) = render_state(t.drop_last(), background, foreground, palette, format);
        let c = t.last();
        if !inside {
            if c == '`' {
                (out, true, Seq::empty())
            } else {
                (out.push(c), false, ph)
            }
        } else if c == '`' {
            match resolve(ph, background, foreground, palette, format) {
                Some(rep) => (out + rep, false, ph),
                None => (out + seq!['`'] + ph + seq!['`'], false, ph),
            }
        } else {
            (out, true, ph.push(c))
        }
    }
}

/// The template with each placeholder between backquotes replaced; one that
/// names nothing is kept as written, and an unclosed one is kept as well.
pub open spec fn rendered(
    t: Seq<char>,
    background: Color,
    foreground: Color,
    palette: Seq<Color>,
    format: OutputFormat,
) -> Seq<char> {
    let (out, inside, ph) = render_state(t, background, foreground, palette, format);
    if inside {
        out + seq!['`'] + ph
    } else {
        out
    }
}

fn has_prefix(s: &Vec<char>, p: &str) -> (r: bool)
    ensures
        r == starts_with(s@, p@),
{
    let pc = chars_of(p);
    if pc.len() > s.len() {
        return false;
    }
    let mut i: usize = 0;
    while i < pc.len()
        invariant
            i <= pc@.len() <= s@.len(),
            pc@ == p@,
            forall|k: int| 0 <= k < i ==> s@[k] == pc@[k],
        decreases pc@.len() - i,
    {
        if s[i] != pc[i] {
            proof {
                assert(s@.subrange(0, pc@.len() as int)[i as int] != p@[i as int]);
            }
            return false;
        }
        i = i + 1;
    }
    proof {
        assert(s@.subrange(0, pc@.len() as int) == p@);
    }
    true
}

proof fn lemma_decimal_grows(d: Seq<char>, c: char)
    requires
        is_digit(c),
    ensures
        decimal_value(d.push(c)) >= decimal_value(d),
        decimal_value(d.push(c)) == 10 * decimal_value(d) + (c as int - '0' as int),
{
    assert(d.push(c).drop_last() == d);
}

/// The palette index that `ph[from..]` names, if it names one below `len`.
fn index_below(ph: &Vec<char>, from: usize, len: usize) -> (r: Option<usize>)
    requires
        from <= ph@.len(),
    ensures
        r == (match parse_index(ph@.subrange(from as int, ph@.len() as int)) {
            Some(i) => if i < len { Some(i as usize) } else { None },
            None => None,
        }),
{
    let ghost d = ph@.subrange(from as int, ph@.len() as int);
    let n = ph.len();
    let start = if from < n && ph[from] == '+' { from + 1 } else { from };
    let ghost digits = ph@.subrange(start as int, n as int);
    proof {
        assert(digits == without_plus(d));
    }
    if start == n {
        return None;
    }
    let mut value: usize = 0;
    let mut over = false;
    let mut i: usize = start;
    while i < n
        invariant
            start <= i <= n == ph@.len(),
            start < n,
            digits == ph@.subrange(start as int, n as int),
            d == ph@.subrange(from as int, n as int),
            digits == without_plus(d),
            forall|k: int| start <= k < i ==> is_digit(#[trigger] ph@[k]),
            !over ==> value as int == decimal_value(ph@.subrange(start as int, i as int)) && value <= len,
            over ==> decimal_value(ph@.subrange(start as int, i as int)) > len,
        decreases n - i,
    {
        let c = ph[i];
        if !('0' <= c && c <= '9') {
            proof {
                assert(digits[i - start] == c);
                assert(!is_digit(digits[i - start]));
                assert(parse_index(d) is None);
            }
            return None;
        }
        proof {
            assert(ph@.subrange(start as int, i as int + 1) == ph@.subrange(start as int, i as int).push(c));
            lemma_decimal_grows(ph@.subrange(start as int, i as int), c);
        }
        let dgt = (c as u32 - '0' as u32) as usize;
        if !over {
            if dgt > len || value > len / 10 || value * 10 > len - dgt {
                over = true;
            } else {
                value = value * 10 + dgt;
            }
        }
        i = i + 1;
    }
    proof {
        assert forall|k: int| 0 <= k < digits.len() implies is_digit(#[trigger] digits[k]) by {
            assert(digits[k] == ph@[start + k]);
        }
    }
    if over || value >= len {
        None
    } else {
        Some(value)
    }
}

fn resolve_placeholder(ph: &Vec<char>, cs: &Colorscheme, format: OutputFormat, out: &mut Vec<char>) -> (found: bool)
    ensures
        found == resolve(ph@, cs.background, cs.foreground, cs.palette@, format) is Some,
        found ==> final(out)@ == old(out)@ + resolve(ph@, cs.background, cs.foreground, cs.palette@, format)->0,
        !found ==> final(out)@ == old(out)@,
{
    if has_prefix(ph, "@background") {
        push_color_text(out, &cs.background, format);
        true
    } else if has_prefix(ph, "@foreground") {
        push_color_text(out, &cs.foreground, format);
        true
    } else if has_prefix(ph, "@color") {
        proof {
            reveal_strlit("@color");
        }
        match index_below(ph, 6, cs.palette.len()) {
            Some(i) => {
                push_color_text(out, &cs.palette[i], format);
                true
            },
            None => false,
        }
    } else {
        false
    }
}

/// Replaces each placeholder between backquotes of a template: `@background`,
/// `@foreground` and `@color<index>` become the color in `format`.
pub fn render_template(template: &str, cs: &Colorscheme, format: OutputFormat) -> (s: String)
    ensures
        s@ == rendered(template@, cs.background, cs.foreground, cs.palette@, format),
{
    let chars = chars_of(template);
    let ghost (bg, fg, pal) = (cs.background, cs.foreground, cs.palette@);
    let mut out: Vec<char> = Vec::new();
    let mut ph: Vec<char> = Vec::new();
    let mut inside = false;
    let mut i: usize = 0;
    while i < chars.len()
        invariant
            i <= chars@.len(),
            chars@ == template@,
            bg == cs.background,
            fg == cs.foreground,
            pal == cs.palette@,
            render_state(chars@.subrange(0, i as int), bg, fg, pal, format) == (out@, inside, ph@),
        decreases chars@.len() - i,
    {
        proof {
            assert(chars@.subrange(0, i as int + 1).drop_last() == chars@.subrange(0, i as int));
        }
        let c = chars[i];
        if !inside {
            if c == '`' {
                inside = true;
                ph = Vec::new();
            } else {
                out.push(c);
            }
        } else if c == '`' {
            if !resolve_placeholder(&ph, cs, format, &mut out) {
                out.push('`');
                let mut k: usize = 0;
                let ghost base = out@;
                while k < ph.len()
                    invariant
                        k <= ph@.len(),
                        out@ == base + ph@.subrange(0, k as int),
                    decreases ph@.len() - k,
                {
                    out.push(ph[k]);
                    k = k + 1;
                    proof {
                        assert(ph@.subrange(0, k as int) == ph@.subrange(0, k - 1).push(ph@[k - 1]));
                    }
                }
                proof {
                    assert(ph@.subrange(0, ph@.len() as int) == ph@);
                }
                out.push('`');
            }
            inside = false;
        } else {
            ph.push(c);
        }
        i = i + 1;
    }
    proof {
        assert(chars@.subrange(0, chars@.len() as int) == chars@);
    }
    if inside {
        out.push('`');
        let mut k: usize = 0;
        let ghost base = out@;
        while k < ph.len()
            invariant
                k <= ph@.len(),
                out@ == base + ph@.subrange(0, k as int),
            decreases ph@.len() - k,
        {
            out.push(ph[k]);
            k = k + 1;
            proof {
                assert(ph@.subrange(0, k as int) == ph@.subrange(0, k - 1).push(ph@[k - 1]));
            }
        }
        proof {
            assert(ph@.subrange(0, ph@.len() as int) == ph@);
        }
    }
    string_from_chars(&out)
}

} // verus!
