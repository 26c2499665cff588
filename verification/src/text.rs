//! Small verified helpers on characters and strings that the rest of the crate shares.
use vstd::prelude::*;
use vstd::string::*;

verus! {

/// `String::push` appends one character to the end of the string.
pub assume_specification[ String::push ](s: &mut String, ch: char)
    ensures
        final(s)@ == old(s)@.push(ch),
;

/// `char::from_u32` yields the character with the given code point, and `None` exactly for
/// the values that are no Unicode scalar (the surrogates and what lies above 0x10FFFF).
pub assume_specification[ char::from_u32 ](i: u32) -> (r: Option<char>)
    ensures
        r == (if vstd::utf8::is_scalar(i) {
            Some(i as char)
        } else {
            None::<char>
        }),
;

/// What `{:?}` prints for a string: the text in double quotes, with escapes.
pub uninterp spec fn debug_quoted(s: Seq<char>) -> Seq<char>;

/// Formats a string with `{:?}` (the `Debug` impl of `str`): the result is a function of the
/// text alone, named `debug_quoted`.
#[verifier::external_body]
pub(crate) fn quote_debug(s: &str) -> (r: String)
    ensures
        r@ == debug_quoted(s@),
{
    format!("{:?}", s)
}

/// What `{:?}` prints for a character: the character in single quotes, with escapes.
pub uninterp spec fn debug_char(c: char) -> Seq<char>;

/// Formats a character with `{:?}` (the `Debug` impl of `char`): the result is a function of
/// the character alone, named `debug_char`.
#[verifier::external_body]
pub(crate) fn quote_char(c: char) -> (r: String)
    ensures
        r@ == debug_char(c),
{
    format!("{:?}", c)
}

/// The characters of a string slice, in order.
pub fn chars_of(s: &str) -> (v: Vec<char>)
    ensures
        v@ == s@,
{
    let mut v: Vec<char> = Vec::new();
    for c in it: s.chars()
        invariant
            it.seq() == s@,
            v@ == it.seq().take(it.index() as int),
    {
        v.push(c);
    }
    v
}

/// Tests whether `ch` occurs among the characters of `v`.
pub fn contains_char(v: &Vec<char>, ch: char) -> (r: bool)
    ensures
        r == v@.contains(ch),
{
    let mut i: usize = 0;
    while i < v.len()
        invariant
            i <= v.len(),
            forall|j: int| 0 <= j < i ==> v@[j] != ch,
        decreases v.len() - i,
    {
        if v[i] == ch {
            assert(v@[i as int] == ch);
            return true;
        }
        i += 1;
    }
    false
}

/// Appends the characters `v[from..to]` to `s`.
pub fn push_range(s: &mut String, v: &Vec<char>, from: usize, to: usize)
    requires
        from <= to <= v.len(),
    ensures
        final(s)@ == old(s)@ + v@.subrange(from as int, to as int),
{
    let mut i: usize = from;
    while i < to
        invariant
            from <= i <= to <= v.len(),
            s@ == old(s)@ + v@.subrange(from as int, i as int),
        decreases to - i,
    {
        s.push(v[i]);
        i += 1;
        assert(v@.subrange(from as int, i as int) == v@.subrange(from as int, i - 1).push(
            v@[i - 1],
        ));
    }
}

/// The string made of the characters `v[from..to]`.
pub fn string_of_range(v: &Vec<char>, from: usize, to: usize) -> (s: String)
    requires
        from <= to <= v.len(),
    ensures
        s@ == v@.subrange(from as int, to as int),
{
    let mut s = String::new();
    push_range(&mut s, v, from, to);
    s
}

/// The decimal digit for a value below ten.
pub open spec fn digit_char(d: nat) -> char {
    if d == 0 {
        '0'
    } else if d == 1 {
        '1'
    } else if d == 2 {
        '2'
    } else if d == 3 {
        '3'
    } else if d == 4 {
        '4'
    } else if d == 5 {
        '5'
    } else if d == 6 {
        '6'
    } else if d == 7 {
        '7'
    } else if d == 8 {
        '8'
    } else {
        '9'
    }
}

/// The decimal numeral of `n`, without leading zeros.
pub open spec fn decimal(n: nat) -> Seq<char>
    decreases n,
{
    if n < 10 {
        seq![digit_char(n)]
    } else {
        decimal(n / 10).push(digit_char(n % 10))
    }
}

fn digit(d: usize) -> (c: char)
    requires
        d < 10,
    ensures
        c == digit_char(d as nat),
{
    if d == 0 {
        '0'
    } else if d == 1 {
        '1'
    } else if d == 2 {
        '2'
    } else if d == 3 {
        '3'
    } else if d == 4 {
        '4'
    } else if d == 5 {
        '5'
    } else if d == 6 {
        '6'
    } else if d == 7 {
        '7'
    } else if d == 8 {
        '8'
    } else {
        '9'
    }
}

/// Appends the decimal numeral of `n` to `s`.
pub fn push_decimal(s: &mut String, n: usize)
    ensures
        final(s)@ == old(s)@ + decimal(n as nat),
    decreases n,
{
    if n >= 10 {
        push_decimal(s, n / 10);
    }
    s.push(digit(n % 10));
}

/// True for the characters with the Unicode property `White_Space`.
pub open spec fn is_whitespace(c: char) -> bool {
    let u = c as u32;
    ||| 0x09 <= u <= 0x0D
    ||| u == 0x20
    ||| u == 0x85
    ||| u == 0xA0
    ||| u == 0x1680
    ||| 0x2000 <= u <= 0x200A
    ||| u == 0x2028
    ||| u == 0x2029
    ||| u == 0x202F
    ||| u == 0x205F
    ||| u == 0x3000
}

/// Tests whether `c` has the Unicode property `White_Space`.
pub fn char_is_whitespace(c: char) -> (b: bool)
    ensures
        b == is_whitespace(c),
{
    let u: u32 = c as u32;
    (0x09 <= u && u <= 0x0D) || u == 0x20 || u == 0x85 || u == 0xA0 || u == 0x1680 || (0x2000 <= u
        && u <= 0x200A) || u == 0x2028 || u == 0x2029 || u == 0x202F || u == 0x205F || u == 0x3000
}

/// True for the whitespace characters of ASCII: tab, line feed, vertical tab, form feed,
/// carriage return and space.
pub open spec fn is_ascii_space(c: char) -> bool {
    let u = c as u32;
    0x09 <= u <= 0x0D || u == 0x20
}

/// Tests whether `c` is a whitespace character of ASCII.
pub fn char_is_ascii_space(c: char) -> (b: bool)
    ensures
        b == is_ascii_space(c),
{
    let u: u32 = c as u32;
    (0x09 <= u && u <= 0x0D) || u == 0x20
}

/// Number of bytes that the UTF-8 encoding of `c` takes.
pub open spec fn utf8_width(c: char) -> nat {
    let u = c as u32;
    if u < 0x80 {
        1
    } else if u < 0x800 {
        2
    } else if u < 0x10000 {
        3
    } else {
        4
    }
}

/// Computes the number of bytes that the UTF-8 encoding of `c` takes.
pub fn char_width(c: char) -> (w: usize)
    ensures
        w == utf8_width(c),
{
    let u: u32 = c as u32;
    if u < 0x80 {
        1
    } else if u < 0x800 {
        2
    } else if u < 0x10000 {
        3
    } else {
        4
    }
}

/// Number of bytes that the UTF-8 encoding of the first `n` characters of `s` takes.
pub open spec fn utf8_len(s: Seq<char>, n: nat) -> nat
    decreases n,
{
    if n == 0 || n > s.len() {
        0
    } else {
        utf8_len(s, (n - 1) as nat) + utf8_width(s[n - 1])
    }
}

/// The byte count grows with the prefix, by at least one and at most four bytes a character.
pub proof fn utf8_len_monotonic(s: Seq<char>, m: nat, n: nat)
    requires
        m <= n <= s.len(),
    ensures
        utf8_len(s, m) + (n - m) <= utf8_len(s, n) <= utf8_len(s, m) + 4 * (n - m),
    decreases n,
{
    if m < n {
        utf8_len_monotonic(s, m, (n - 1) as nat);
    }
}


/// The byte count of a string is that of its first character and of the rest.
pub proof fn utf8_len_unfold_front(s: Seq<char>, n: nat)
    requires
        0 < n <= s.len(),
    ensures
        utf8_len(s, n) == utf8_width(s[0]) + utf8_len(s.drop_first(), (n - 1) as nat),
    decreases n,
{
    if n > 1 {
        utf8_len_unfold_front(s, (n - 1) as nat);
        assert(s.drop_first()[n - 2] == s[n - 1]);
    } else {
        assert(utf8_len(s, 0) == 0);
        assert(utf8_len(s.drop_first(), 0) == 0);
    }
}

/// `utf8_len` counts the bytes of the UTF-8 encoding.
pub proof fn utf8_len_is_encoded_len(s: Seq<char>)
    ensures
        utf8_len(s, s.len()) == vstd::utf8::encode_utf8(s).len(),
    decreases s.len(),
{
    if s.len() > 0 {
        utf8_len_unfold_front(s, s.len());
        utf8_len_is_encoded_len(s.drop_first());
        vstd::utf8::char_is_scalar(s[0]);
    }
}

/// The byte count of a part of a string is the difference of the byte counts of the
/// prefixes that end where the part ends and where it begins.
pub proof fn utf8_len_of_subrange(s: Seq<char>, a: int, b: int, k: nat)
    requires
        0 <= a <= b <= s.len(),
        k <= b - a,
    ensures
        utf8_len(s.subrange(a, b), k) == utf8_len(s, (a + k) as nat) - utf8_len(s, a as nat),
    decreases k,
{
    if k > 0 {
        utf8_len_of_subrange(s, a, b, (k - 1) as nat);
    }
}

/// The number of bytes of a string slice, with the fact that the count of its characters'
/// bytes is that number.
pub fn byte_len(s: &str) -> (n: usize)
    ensures
        n == utf8_len(s@, s@.len()),
        s@.len() <= n,
{
    proof {
        utf8_len_is_encoded_len(s@);
        utf8_len_monotonic(s@, 0, s@.len());
    }
    s.as_bytes().len()
}

} // verus!
