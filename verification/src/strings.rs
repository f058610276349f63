//! Decimal and hexadecimal formatting of integers, conversions between strings and
//! sequences of characters, and changing the case of the first letter of a string.
use vstd::prelude::*;

verus! {

/// The character of a decimal or hexadecimal digit (`0`-`9`, then `a`-`f`).
pub open spec fn digit_char(d: nat) -> char {
    if d < 10 {
        (d + 48) as char
    } else {
        (d - 10 + 97) as char
    }
}

/// The decimal representation of a natural number, without leading zeros.
pub open spec fn decimal(n: nat) -> Seq<char>
    decreases n,
{
    if n < 10 {
        seq![digit_char(n)]
    } else {
        decimal(n / 10).push(digit_char(n % 10))
    }
}

/// The lowercase hexadecimal representation of a natural number, without leading zeros.
pub open spec fn hexadecimal(n: nat) -> Seq<char>
    decreases n,
{
    if n < 16 {
        seq![digit_char(n)]
    } else {
        hexadecimal(n / 16).push(digit_char(n % 16))
    }
}

/// `digits` preceded by as many `0` as needed to reach `width` characters.
pub open spec fn zero_padded(digits: Seq<char>, width: nat) -> Seq<char> {
    if digits.len() >= width {
        digits
    } else {
        Seq::new((width - digits.len()) as nat, |i: int| '0') + digits
    }
}

/// A signed integer written in decimal and padded with zeros to `width` characters,
/// the sign counting in the width (as `{:0width}` does).
pub open spec fn signed_zero_padded(v: int, width: nat) -> Seq<char> {
    if v < 0 {
        seq!['-'] + zero_padded(decimal((-v) as nat), if width > 0 { (width - 1) as nat } else { 0 })
    } else {
        zero_padded(decimal(v as nat), width)
    }
}

/// Distinct decimal digits have distinct characters.
pub proof fn lemma_digit_char_injective(d1: nat, d2: nat)
    requires
        d1 < 10,
        d2 < 10,
        digit_char(d1) == digit_char(d2),
    ensures
        d1 == d2,
{
    assert(digit_char(d1) as u32 == d1 + 48);
    assert(digit_char(d2) as u32 == d2 + 48);
}

/// The decimal representation has at least one character, and one exactly below ten.
pub proof fn lemma_decimal_len(n: nat)
    ensures
        decimal(n).len() >= 1,
        decimal(n).len() == 1 <==> n < 10,
    decreases n,
{
    if n >= 10 {
        lemma_decimal_len(n / 10);
    }
}

/// Distinct numbers have distinct decimal representations.
pub proof fn lemma_decimal_injective(a: nat, b: nat)
    requires
        decimal(a) == decimal(b),
    ensures
        a == b,
    decreases a + b,
{
    lemma_decimal_len(a);
    lemma_decimal_len(b);
    if a < 10 && b < 10 {
        assert(decimal(a) == seq![digit_char(a)]);
        assert(decimal(b) == seq![digit_char(b)]);
        assert(decimal(a)[0] == decimal(b)[0]);
        assert(seq![digit_char(a)][0] == digit_char(a));
        assert(seq![digit_char(b)][0] == digit_char(b));
        assert(digit_char(a) == digit_char(b));
        lemma_digit_char_injective(a, b);
    } else if a >= 10 && b >= 10 {
        let pa = decimal(a / 10);
        let pb = decimal(b / 10);
        assert(decimal(a) == pa.push(digit_char(a % 10)));
        assert(decimal(b) == pb.push(digit_char(b % 10)));
        assert(decimal(a).last() == decimal(b).last());
        assert(pa.push(digit_char(a % 10)).last() == digit_char(a % 10));
        assert(pb.push(digit_char(b % 10)).last() == digit_char(b % 10));
        assert(digit_char(a % 10) == digit_char(b % 10));
        lemma_digit_char_injective(a % 10, b % 10);
        assert(decimal(a).drop_last() =~= pa);
        assert(decimal(b).drop_last() =~= pb);
        lemma_decimal_injective(a / 10, b / 10);
    }
}

/// The character of a digit below sixteen.
pub fn digit_to_char(d: u64) -> (c: char)
    requires
        d < 16,
    ensures
        c == digit_char(d as nat),
{
    match d {
        0 => '0',
        1 => '1',
        2 => '2',
        3 => '3',
        4 => '4',
        5 => '5',
        6 => '6',
        7 => '7',
        8 => '8',
        9 => '9',
        10 => 'a',
        11 => 'b',
        12 => 'c',
        13 => 'd',
        14 => 'e',
        _ => 'f',
    }
}

/// The decimal digits of `n`.
pub fn decimal_chars(n: u64) -> (v: Vec<char>)
    ensures
        v@ == decimal(n as nat),
    decreases n,
{
    if n < 10 {
        let mut v = Vec::new();
        v.push(digit_to_char(n));
        v
    } else {
        let mut v = decimal_chars(n / 10);
        v.push(digit_to_char(n % 10));
        v
    }
}

/// The lowercase hexadecimal digits of `n`.
pub fn hexadecimal_chars(n: u64) -> (v: Vec<char>)
    ensures
        v@ == hexadecimal(n as nat),
    decreases n,
{
    if n < 16 {
        let mut v = Vec::new();
        v.push(digit_to_char(n));
        v
    } else {
        let mut v = hexadecimal_chars(n / 16);
        v.push(digit_to_char(n % 16));
        v
    }
}

/// `digits` padded on the left with `0` up to `width` characters.
pub fn pad_with_zeros(digits: Vec<char>, width: usize) -> (v: Vec<char>)
    ensures
        v@ == zero_padded(digits@, width as nat),
{
    if digits.len() >= width {
        digits
    } else {
        let missing = width - digits.len();
        let mut v: Vec<char> = Vec::new();
        let mut i: usize = 0;
        while i < missing
            invariant
                i <= missing,
                v@ == Seq::new(i as nat, |j: int| '0'),
            decreases missing - i,
        {
            v.push('0');
            i = i + 1;
            assert(v@ =~= Seq::new(i as nat, |j: int| '0'));
        }
        let mut rest = digits;
        v.append(&mut rest);
        assert(v@ =~= zero_padded(digits@, width as nat));
        v
    }
}

/// A signed integer written in decimal, zero-padded to `width` characters including the sign.
pub fn signed_padded_chars(value: i64, width: usize) -> (v: Vec<char>)
    requires
        value > i64::MIN,
    ensures
        v@ == signed_zero_padded(value as int, width as nat),
{
    if value < 0 {
        let magnitude = (-value) as u64;
        let digits = decimal_chars(magnitude);
        let inner_width: usize = if width > 0 { width - 1 } else { 0 };
        let padded = pad_with_zeros(digits, inner_width);
        let mut v: Vec<char> = Vec::new();
        v.push('-');
        let mut rest = padded;
        v.append(&mut rest);
        assert(v@ =~= signed_zero_padded(value as int, width as nat));
        v
    } else {
        pad_with_zeros(decimal_chars(value as u64), width)
    }
}

/// The characters of a string slice.
pub fn str_chars(s: &str) -> (v: Vec<char>)
    ensures
        v@ == s@,
{
    let mut v: Vec<char> = Vec::new();
    for c in it: s.chars()
        invariant
            v@ == it.seq().take(it.index() as int),
    {
        v.push(c);
        assert(v@ =~= it.seq().take(it.index() as int + 1));
    }
    v
}

/// Collects characters into a `String` (std's `FromIterator<&char>` for `String`).
#[verifier::external_body]
pub(crate) fn chars_to_string(v: &Vec<char>) -> (s: String)
    ensures
        s@ == v@,
{
    v.iter().collect()
}

/// What std's `char::to_lowercase` yields for a character (Unicode lowercase mapping).
pub uninterp spec fn lowercase_mapping(c: char) -> Seq<char>;

/// What std's `char::to_uppercase` yields for a character (Unicode uppercase mapping).
pub uninterp spec fn uppercase_mapping(c: char) -> Seq<char>;

/// Calls std's `char::to_lowercase` and collects the characters it yields. The contract
/// names the result, and states the ASCII cases that std documents: an uppercase ASCII
/// letter becomes the matching lowercase letter, any other ASCII character is unchanged.
#[verifier::external_body]
pub(crate) fn char_to_lowercase(c: char) -> (v: Vec<char>)
    ensures
        v@ == lowercase_mapping(c),
        'A' <= c <= 'Z' ==> v@ == seq![((c as u32) + 32) as char],
        (c as u32) < 128 && !('A' <= c <= 'Z') ==> v@ == seq![c],
{
    c.to_lowercase().collect()
}

/// Calls std's `char::to_uppercase` and collects the characters it yields. The contract
/// names the result, and states the ASCII cases that std documents: a lowercase ASCII
/// letter becomes the matching uppercase letter, any other ASCII character is unchanged.
#[verifier::external_body]
pub(crate) fn char_to_uppercase(c: char) -> (v: Vec<char>)
    ensures
        v@ == uppercase_mapping(c),
        'a' <= c <= 'z' ==> v@ == seq![((c as u32) - 32) as char],
        (c as u32) < 128 && !('a' <= c <= 'z') ==> v@ == seq![c],
{
    c.to_uppercase().collect()
}

/// A string whose first character is replaced by its lowercase mapping.
pub open spec fn minimized(s: Seq<char>) -> Seq<char> {
    if s.len() == 0 {
        Seq::empty()
    } else {
        lowercase_mapping(s[0]) + s.drop_first()
    }
}

/// A string whose first character is replaced by its uppercase mapping.
pub open spec fn capitalized(s: Seq<char>) -> Seq<char> {
    if s.len() == 0 {
        Seq::empty()
    } else {
        uppercase_mapping(s[0]) + s.drop_first()
    }
}

/// Minimizes the first letter of a string. It is used for standardizing error messages.
pub fn minimize_first_letter(string: String) -> (r: String)
    ensures
        r@ == minimized(string@),
{
    let characters = str_chars(string.as_str());
    if characters.len() == 0 {
        return String::new();
    }
    let mut result = char_to_lowercase(characters[0]);
    let mut i: usize = 1;
    while i < characters.len()
        invariant
            1 <= i <= characters.len(),
            characters@ == string@,
            result@ == lowercase_mapping(string@[0]) + string@.subrange(1, i as int),
        decreases characters.len() - i,
    {
        result.push(characters[i]);
        i = i + 1;
        assert(result@ =~= lowercase_mapping(string@[0]) + string@.subrange(1, i as int));
    }
    assert(string@.drop_first() =~= string@.subrange(1, string@.len() as int));
    chars_to_string(&result)
}

/// Capitalizes the first letter of a string. It is used for standardizing error messages.
pub fn capitalize_first_letter(string: String) -> (r: String)
    ensures
        r@ == capitalized(string@),
{
    let characters = str_chars(string.as_str());
    if characters.len() == 0 {
        return String::new();
    }
    let mut result = char_to_uppercase(characters[0]);
    let mut i: usize = 1;
    while i < characters.len()
        invariant
            1 <= i <= characters.len(),
            characters@ == string@,
            result@ == uppercase_mapping(string@[0]) + string@.subrange(1, i as int),
        decreases characters.len() - i,
    {
        result.push(characters[i]);
        i = i + 1;
        assert(result@ =~= uppercase_mapping(string@[0]) + string@.subrange(1, i as int));
    }
    assert(string@.drop_first() =~= string@.subrange(1, string@.len() as int));
    chars_to_string(&result)
}

/// Appends the characters of `s` to `v`.
pub fn push_str(v: &mut Vec<char>, s: &str)
    ensures
        final(v)@ == old(v)@ + s@,
{
    let mut chars = str_chars(s);
    v.append(&mut chars);
}

/// Appends the characters of `w` to `v`.
pub fn push_chars(v: &mut Vec<char>, w: &Vec<char>)
    ensures
        final(v)@ == old(v)@ + w@,
{
    let mut i: usize = 0;
    while i < w.len()
        invariant
            i <= w.len(),
            v@ == old(v)@ + w@.take(i as int),
        decreases w.len() - i,
    {
        v.push(w[i]);
        i = i + 1;
        assert(v@ =~= old(v)@ + w@.take(i as int));
    }
    assert(w@.take(w.len() as int) =~= w@);
}

/// Whether a number is a Unicode scalar value (a code point that is not a surrogate).
pub open spec fn is_scalar_value(v: u32) -> bool {
    v <= 0x10FFFF && !(0xD800 <= v <= 0xDFFF)
}

/// Calls std's `char::from_u32`: the character with the given code, if the code is a
/// Unicode scalar value.
#[verifier::external_body]
pub(crate) fn char_from_u32(v: u32) -> (c: Option<char>)
    ensures
        c is Some <==> is_scalar_value(v),
        c matches Some(ch) ==> ch as u32 == v,
{
    char::from_u32(v)
}

} // verus!
