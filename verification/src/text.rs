//! Text building blocks shared by the reader and the printer.

use vstd::prelude::*;

verus! {

/// `String::push` of the standard library appends the given character to the
/// end of the string and changes nothing else.
pub assume_specification[ String::push ](s: &mut String, ch: char)
    ensures
        final(s)@ == old(s)@.push(ch),
;

/// The characters of `source`, in order.
pub fn chars_of(source: &str) -> (out: Vec<char>)
    ensures
        out@ == source@,
{
    let mut out: Vec<char> = Vec::new();
    for ch in it: source.chars()
        invariant
            out@ == it.seq().take(it.index() as int),
    {
        out.push(ch);
    }
    out
}

/// The characters of `chars` from `from` up to `to`, as a string.
pub fn string_of_range(chars: &Vec<char>, from: usize, to: usize) -> (out: String)
    requires
        from <= to <= chars.len(),
    ensures
        out@ == chars@.subrange(from as int, to as int),
{
    let mut out = String::new();
    let mut index = from;
    while index < to
        invariant
            from <= index <= to <= chars.len(),
            out@ == chars@.subrange(from as int, index as int),
        decreases to - index,
    {
        out.push(chars[index]);
        index += 1;
        assert(out@ =~= chars@.subrange(from as int, index as int));
    }
    out
}

/// The character for a decimal digit.
pub open spec fn digit_char(d: nat) -> char {
    ((48 + d) as u8) as char
}

/// The decimal numeral of `n`, without leading zeros.
pub open spec fn decimal_text(n: nat) -> Seq<char>
    decreases n,
{
    if n < 10 {
        seq![digit_char(n)]
    } else {
        decimal_text(n / 10).push(digit_char(n % 10))
    }
}

/// Appends the decimal numeral of `n` to `out`.
pub fn push_decimal(out: &mut String, n: u128)
    ensures
        final(out)@ == old(out)@ + decimal_text(n as nat),
    decreases n,
{
    if n >= 10 {
        push_decimal(out, n / 10);
    }
    out.push((48u8 + (n % 10) as u8) as char);
    assert(out@ =~= old(out)@ + decimal_text(n as nat));
}

/// `n` blanks.
pub open spec fn blanks(n: nat) -> Seq<char> {
    Seq::new(n, |i: int| ' ')
}

/// Appends `n` blanks to `out`.
pub fn push_blanks(out: &mut String, n: usize)
    ensures
        final(out)@ == old(out)@ + blanks(n as nat),
{
    let mut count: usize = 0;
    while count < n
        invariant
            count <= n,
            out@ == old(out)@ + blanks(count as nat),
        decreases n - count,
    {
        out.push(' ');
        count += 1;
        assert(out@ =~= old(out)@ + blanks(count as nat));
    }
}

/// What `str::trim` returns for a text: the text without the whitespace, in
/// the sense of Unicode, at its start and at its end.
pub uninterp spec fn trimmed(s: Seq<char>) -> Seq<char>;

/// `str::trim` of the standard library returns the slice of the text that is
/// left when leading and trailing whitespace is removed; which slice that is
/// depends on the text alone.
pub assume_specification[ str::trim ](s: &str) -> (r: &str)
    ensures
        r@ == trimmed(s@),
;

} // verus!
