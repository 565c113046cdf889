use vstd::prelude::*;

verus! {

/// A value that can be written as text and read back from it.
///
/// `text` is how a value is written. `read` says whether a piece of text
/// reads as a value and, if so, gives the text of the value it reads as.
pub trait TextValue: Sized {
    spec fn text(&self) -> Seq<char>;

    spec fn read(s: Seq<char>) -> Option<Seq<char>>;

    fn to_text(&self) -> (r: Vec<char>)
        ensures
            r@ == self.text(),
    ;

    fn from_text(s: &Vec<char>) -> (r: Option<Self>)
        ensures
            r is Some <==> Self::read(s@) is Some,
            r matches Some(v) ==> Self::read(s@) == Some(v.text()),
    ;
}

/// The character of a decimal digit.
pub open spec fn digit_char(d: nat) -> char {
    ((d + 48) as u8) as char
}

/// Whether `c` is one of `0` to `9`.
pub open spec fn is_digit(c: char) -> bool {
    '0' <= c && c <= '9'
}

/// The value of a decimal digit.
pub open spec fn digit_value(c: char) -> nat {
    ((c as u32) - 48) as nat
}

/// `n` in decimal, without leading zeros.
pub open spec fn decimal(n: nat) -> Seq<char>
    decreases n,
{
    if n < 10 {
        seq![digit_char(n)]
    } else {
        decimal(n / 10).push(digit_char(n % 10))
    }
}

/// The number that a run of digits stands for.
pub open spec fn digits_value(s: Seq<char>) -> nat
    decreases s.len(),
{
    if s.len() == 0 {
        0
    } else {
        digits_value(s.drop_last()) * 10 + digit_value(s.last())
    }
}

/// Whether every character of `s` is a digit.
pub open spec fn all_digits(s: Seq<char>) -> bool {
    forall|i: int| 0 <= i < s.len() ==> is_digit(#[trigger] s[i])
}

/// `s` without one leading `+`.
pub open spec fn unsigned_part(s: Seq<char>) -> Seq<char> {
    if s.len() > 0 && s[0] == '+' {
        s.drop_first()
    } else {
        s
    }
}

/// The `u32` that `s` reads as: an optional `+`, then one or more digits,
/// for a number that fits.
pub open spec fn parse_u32(s: Seq<char>) -> Option<u32> {
    let d = unsigned_part(s);
    if d.len() > 0 && all_digits(d) && digits_value(d) <= u32::MAX {
        Some(digits_value(d) as u32)
    } else {
        None
    }
}

/// Appends `n` in decimal to `out`.
pub fn push_decimal(n: u32, out: &mut Vec<char>)
    ensures
        final(out)@ == old(out)@ + decimal(n as nat),
    decreases n,
{
    if n >= 10 {
        push_decimal(n / 10, out);
    }
    let d: u8 = (n % 10) as u8;
    out.push((d + 48) as char);
    assert(final(out)@ =~= old(out)@ + decimal(n as nat));
}

/// Reads a `u32` the way `parse_u32` says.
pub fn read_u32(s: &Vec<char>) -> (r: Option<u32>)
    ensures
        r == parse_u32(s@),
{
    let mut start: usize = 0;
    if s.len() > 0 && s[0] == '+' {
        start = 1;
    }
    let ghost d = unsigned_part(s@);
    if start == s.len() {
        return None;
    }
    let mut capped: u64 = 0;
    let mut i: usize = start;
    while i < s.len()
        invariant
            start <= i <= s.len(),
            start == s@.len() - d.len(),
            d == s@.skip(start as int),
            d == unsigned_part(s@),
            forall|j: int| 0 <= j < i - start ==> is_digit(#[trigger] d[j]),
            capped == if digits_value(d.take(i - start)) <= u32::MAX {
                digits_value(d.take(i - start))
            } else {
                u32::MAX as nat + 1
            },
        decreases s.len() - i,
    {
        let c = s[i];
        if c < '0' || c > '9' {
            assert(d[i - start] == c);
            assert(!is_digit(d[i - start]));
            assert(!all_digits(d));
            return None;
        }
        let ghost p = d.take(i - start);
        assert(d.take(i - start + 1).drop_last() =~= p);
        assert(d.take(i - start + 1).last() == c);
        let v = (c as u32 - 48) as u64;
        if capped <= u32::MAX as u64 {
            capped = capped * 10 + v;
            if capped > u32::MAX as u64 {
                capped = u32::MAX as u64 + 1;
            }
        } else {
            assert(digits_value(p) * 10 + v >= digits_value(p)) by (nonlinear_arith);
        }
        i = i + 1;
    }
    assert(d.take(s@.len() - start) =~= d);
    if capped <= u32::MAX as u64 {
        Some(capped as u32)
    } else {
        None
    }
}

/// Relies on `String`'s `FromIterator<char>`: the string holds the
/// characters in order.
#[verifier::external_body]
pub(crate) fn string_of_chars(v: &Vec<char>) -> (r: String)
    ensures
        r@ == v@,
{
    v.iter().collect()
}

/// The characters of `s`, in order.
pub fn chars_of(s: &str) -> (r: Vec<char>)
    ensures
        r@ == s@,
{
    let mut r: Vec<char> = Vec::new();
    for c in it: s.chars()
        invariant
            it.seq() == s@,
            r@ == it.seq().take(it.index()),
            it.index() == it.seq().len() ==> r@ =~= it.seq(),
    {
        r.push(c);
    }
    r
}

impl TextValue for String {
    open spec fn text(&self) -> Seq<char> {
        self@
    }

    open spec fn read(s: Seq<char>) -> Option<Seq<char>> {
        Some(s)
    }

    fn to_text(&self) -> (r: Vec<char>) {
        chars_of(self.as_str())
    }

    fn from_text(s: &Vec<char>) -> (r: Option<String>) {
        Some(string_of_chars(s))
    }
}

impl TextValue for u32 {
    open spec fn text(&self) -> Seq<char> {
        decimal(*self as nat)
    }

    open spec fn read(s: Seq<char>) -> Option<Seq<char>> {
        match parse_u32(s) {
            Some(n) => Some(decimal(n as nat)),
            None => None,
        }
    }

    fn to_text(&self) -> (r: Vec<char>) {
        let mut r: Vec<char> = Vec::new();
        push_decimal(*self, &mut r);
        assert(r@ =~= decimal(*self as nat));
        r
    }

    fn from_text(s: &Vec<char>) -> (r: Option<u32>) {
        read_u32(s)
    }
}

} // verus!
