use vstd::prelude::*;
use vstd::std_specs::iter::IteratorSpec;

verus! {

/// The characters of `s` in order.
pub(crate) fn chars_of(s: &str) -> (r: Vec<char>)
    ensures
        r@ == s@,
{
    broadcast use vstd::string::axiom_spec_iter, vstd::string::next_postcondition;

    let mut it = s.chars();
    let mut v: Vec<char> = Vec::new();
    loop
        invariant
            v@ + it.remaining() == s@,
            it.decrease() is Some,
        decreases it.decrease()->0,
    {
        let ghost before = it.remaining();
        match it.next() {
            Some(c) => {
                proof {
                    assert(before == seq![c] + it.remaining());
                }
                v.push(c);
                proof {
                    assert(v@ + it.remaining() == s@);
                }
            },
            None => {
                proof {
                    assert(v@ == s@);
                }
                return v;
            },
        }
    }
}

/// Relies on `String`'s `FromIterator<&char>`: the string of those characters in order.
#[verifier::external_body]
pub(crate) fn string_from_chars(v: &Vec<char>) -> (r: String)
    ensures
        r@ == v@,
{
    v.iter().collect()
}

/// The lowercase hexadecimal digit of `n` (below 16).
pub open spec fn hex_digit(n: int) -> char {
    if n < 10 {
        ((48 + n) as u8) as char
    } else {
        ((87 + n) as u8) as char
    }
}

pub open spec fn decimal_digit(n: int) -> char {
    ((48 + n) as u8) as char
}

/// The decimal digits of `n`, without leading zeros.
pub open spec fn decimal_text(n: u8) -> Seq<char> {
    if n < 10 {
        seq![decimal_digit(n as int)]
    } else if n < 100 {
        seq![decimal_digit((n / 10) as int), decimal_digit((n % 10) as int)]
    } else {
        seq![decimal_digit((n / 100) as int), decimal_digit(((n / 10) % 10) as int), decimal_digit((n % 10) as int)]
    }
}

pub(crate) fn push_hex_byte(out: &mut Vec<char>, n: u8)
    ensures
        final(out)@ == old(out)@ + seq![hex_digit((n / 16) as int), hex_digit((n % 16) as int)],
{
    let hi = n / 16;
    let lo = n % 16;
    let hc = if hi < 10 { (48 + hi) as char } else { (87 + hi) as char };
    let lc = if lo < 10 { (48 + lo) as char } else { (87 + lo) as char };
    out.push(hc);
    out.push(lc);
}

pub(crate) fn push_decimal(out: &mut Vec<char>, n: u8)
    ensures
        final(out)@ == old(out)@ + decimal_text(n),
{
    if n < 10 {
        out.push((48 + n) as char);
    } else if n < 100 {
        out.push((48 + n / 10) as char);
        out.push((48 + n % 10) as char);
    } else {
        out.push((48 + n / 100) as char);
        out.push((48 + (n / 10) % 10) as char);
        out.push((48 + n % 10) as char);
    }
}

pub(crate) fn push_str_chars(out: &mut Vec<char>, s: &str)
    ensures
        final(out)@ == old(out)@ + s@,
{
    let cs = chars_of(s);
    let mut i: usize = 0;
    while i < cs.len()
        invariant
            i <= cs@.len(),
            cs@ == s@,
            out@ == old(out)@ + s@.subrange(0, i as int),
        decreases cs@.len() - i,
    {
        proof {
            assert(s@.subrange(0, i as int + 1) == s@.subrange(0, i as int).push(s@[i as int]));
        }
        out.push(cs[i]);
        i = i + 1;
    }
    proof {
        assert(s@.subrange(0, s@.len() as int) == s@);
    }
}

} // verus!
