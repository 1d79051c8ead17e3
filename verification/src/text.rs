//! Small helpers on characters and strings.

use vstd::prelude::*;

verus! {

/// What `char::is_alphabetic` answers for `c`: whether Unicode gives `c` the
/// property `Alphabetic`.
pub uninterp spec fn alphabetic(c: char) -> bool;

/// What `char::is_alphanumeric` answers for `c`: whether `c` is alphabetic or
/// in one of Unicode's number categories.
pub uninterp spec fn alphanumeric(c: char) -> bool;

/// `char::is_alphabetic` depends on the character alone; its answer is named
/// [`alphabetic`].
pub assume_specification[ char::is_alphabetic ](c: char) -> (r: bool)
    ensures
        r == alphabetic(c),
;

/// `char::is_alphanumeric` depends on the character alone; its answer is
/// named [`alphanumeric`].
pub assume_specification[ char::is_alphanumeric ](c: char) -> (r: bool)
    ensures
        r == alphanumeric(c),
;

/// `String::push` appends one character.
pub assume_specification[ std::string::String::push ](s: &mut std::string::String, c: char)
    ensures
        final(s)@ == old(s)@.push(c),
;

pub open spec fn is_digit(c: char) -> bool {
    '0' <= c && c <= '9'
}

pub fn is_ascii_digit(c: char) -> (r: bool)
    ensures
        r == is_digit(c),
{
    '0' <= c && c <= '9'
}

/// The characters of a string slice, one by one.
pub fn chars_of(s: &str) -> (r: Vec<char>)
    ensures
        r@ == s@,
{
    let mut out: Vec<char> = Vec::new();
    for c in it: s.chars()
        invariant
            it.seq() == s@,
            out@ == s@.take(it.index() as int),
    {
        out.push(c);
    }
    out
}

/// The string made of `chars[from..to]`.
pub fn string_of(chars: &Vec<char>, from: usize, to: usize) -> (r: String)
    requires
        from <= to <= chars.len(),
    ensures
        r@ == chars@.subrange(from as int, to as int),
{
    let mut s = String::new();
    let mut i: usize = from;
    while i < to
        invariant
            from <= i <= to <= chars.len(),
            s@ == chars@.subrange(from as int, i as int),
        decreases to - i,
    {
        s.push(chars[i]);
        i += 1;
        assert(chars@.subrange(from as int, i as int) == chars@.subrange(
            from as int,
            i - 1,
        ).push(chars@[i - 1]));
    }
    s
}

/// Whether `chars[from..to]` spells `word`.
pub fn spells(chars: &Vec<char>, from: usize, to: usize, word: &str) -> (r: bool)
    requires
        from <= to <= chars.len(),
    ensures
        r == (chars@.subrange(from as int, to as int) == word@),
{
    let ghost part = chars@.subrange(from as int, to as int);
    let mut i: usize = from;
    for c in it: word.chars()
        invariant
            it.seq() == word@,
            from <= to <= chars.len(),
            i == from + it.index(),
            i <= to,
            part == chars@.subrange(from as int, to as int),
            part.take(it.index() as int) == word@.take(it.index() as int),
    {
        if i >= to || chars[i] != c {
            assert(part != word@) by {
                if part == word@ {
                    assert(part.len() == word@.len());
                    assert(part[it.index() as int] == word@[it.index() as int]);
                }
            }
            return false;
        }
        i += 1;
        assert(part.take(it.index() + 1) == part.take(it.index() as int).push(
            part[it.index() as int],
        ));
        assert(word@.take(it.index() + 1) == word@.take(it.index() as int).push(
            word@[it.index() as int],
        ));
    }
    assert(word@.take(word@.len() as int) == word@);
    if i == to {
        assert(part.take(part.len() as int) == part);
        true
    } else {
        false
    }
}

pub open spec fn digit_char(d: nat) -> char {
    if d == 0 {
        '0'
    } else if d == 1 {
        '1'
    } else if d == 2 {
        '2'
    } else if d == 3 {
        '3'
    } else if d == 4 {
        '4'
    } else if d == 5 {
        '5'
    } else if d == 6 {
        '6'
    } else if d == 7 {
        '7'
    } else if d == 8 {
        '8'
    } else {
        '9'
    }
}

/// The decimal numeral of `n`, without leading zeros.
pub open spec fn decimal_text(n: nat) -> Seq<char>
    decreases n,
{
    if n < 10 {
        seq![digit_char(n)]
    } else {
        decimal_text(n / 10).push(digit_char(n % 10))
    }
}

fn digit(d: usize) -> (r: char)
    requires
        d < 10,
    ensures
        r == digit_char(d as nat),
{
    if d == 0 {
        '0'
    } else if d == 1 {
        '1'
    } else if d == 2 {
        '2'
    } else if d == 3 {
        '3'
    } else if d == 4 {
        '4'
    } else if d == 5 {
        '5'
    } else if d == 6 {
        '6'
    } else if d == 7 {
        '7'
    } else if d == 8 {
        '8'
    } else {
        '9'
    }
}

/// Appends the decimal numeral of `n` to `out`.
pub fn push_decimal(out: &mut String, n: usize)
    ensures
        final(out)@ == old(out)@ + decimal_text(n as nat),
    decreases n,
{
    if n < 10 {
        out.push(digit(n));
        assert(old(out)@.push(digit_char(n as nat)) == old(out)@ + seq![digit_char(n as nat)]);
    } else {
        push_decimal(out, n / 10);
        out.push(digit(n % 10));
        assert((old(out)@ + decimal_text((n / 10) as nat)).push(digit_char((n % 10) as nat))
            == old(out)@ + decimal_text(n as nat));
    }
}

/// Appends `tail` to `out`.
pub fn push_text(out: &mut String, tail: &str)
    ensures
        final(out)@ == old(out)@ + tail@,
{
    for c in it: tail.chars()
        invariant
            it.seq() == tail@,
            out@ == old(out)@ + tail@.take(it.index() as int),
    {
        out.push(c);
        assert(tail@.take(it.index() + 1) == tail@.take(it.index() as int).push(c));
    }
    assert(tail@.take(tail@.len() as int) == tail@);
}

} // verus!
