//! Characters and strings: the calls into `std` that handle them, each
//! stated over the `Seq<char>` view of the text, and the decimal and ASCII
//! rules that the rest of the library writes text by.

use vstd::prelude::*;

verus! {

/// Whether `c` has the Unicode `Uppercase` property, as `char::is_uppercase` decides it.
pub uninterp spec fn unicode_is_uppercase(c: char) -> bool;

/// The characters that `char::to_lowercase` yields for `c`.
pub uninterp spec fn unicode_to_lowercase(c: char) -> Seq<char>;

/// The characters that `char::to_uppercase` yields for `c`.
pub uninterp spec fn unicode_to_uppercase(c: char) -> Seq<char>;

/// An ASCII capital letter.
pub open spec fn is_ascii_upper(c: char) -> bool {
    'A' <= c && c <= 'Z'
}

/// An ASCII small letter.
pub open spec fn is_ascii_lower(c: char) -> bool {
    'a' <= c && c <= 'z'
}

/// The ASCII letter of the other case, for an ASCII letter.
pub open spec fn ascii_swap_case(c: char) -> char {
    if is_ascii_upper(c) {
        ((c as u32) + 32) as char
    } else {
        ((c as u32) - 32) as char
    }
}

/// The small letter for an ASCII capital letter; any other character as it is.
pub open spec fn ascii_lower_char(c: char) -> char {
    if is_ascii_upper(c) { ascii_swap_case(c) } else { c }
}

/// The capital letter for an ASCII small letter; any other character as it is.
pub open spec fn ascii_upper_char(c: char) -> char {
    if is_ascii_lower(c) { ascii_swap_case(c) } else { c }
}

/// Whether `c` is uppercase: among ASCII characters the capital letters,
/// beyond ASCII the characters with the Unicode `Uppercase` property.
pub open spec fn is_upper(c: char) -> bool {
    if (c as u32) < 128 { is_ascii_upper(c) } else { unicode_is_uppercase(c) }
}

/// The lowercase form of `c`: its small letter for an ASCII capital, an
/// ASCII character itself otherwise, and what `char::to_lowercase` yields
/// beyond ASCII.
pub open spec fn lower_of(c: char) -> Seq<char> {
    if (c as u32) < 128 { seq![ascii_lower_char(c)] } else { unicode_to_lowercase(c) }
}

/// The uppercase form of `c`, in the same way as `lower_of`.
pub open spec fn upper_of(c: char) -> Seq<char> {
    if (c as u32) < 128 { seq![ascii_upper_char(c)] } else { unicode_to_uppercase(c) }
}

/// Calls `char::is_uppercase`. Its documentation ties it to the Unicode
/// `Uppercase` property, which among ASCII characters holds of `'A'..='Z'` alone.
#[verifier::external_body]
pub fn char_is_uppercase(c: char) -> (r: bool)
    ensures
        r == unicode_is_uppercase(c),
        (c as u32) < 128 ==> (r <==> is_ascii_upper(c)),
{
    c.is_uppercase()
}

/// Calls `char::to_lowercase` and collects what it yields: one or more
/// characters; an ASCII capital letter maps to its small letter, and any
/// other ASCII character to itself.
#[verifier::external_body]
pub fn char_to_lowercase(c: char) -> (r: Vec<char>)
    ensures
        r@ == unicode_to_lowercase(c),
        r@.len() >= 1,
        (c as u32) < 128 ==> r@ == seq![if is_ascii_upper(c) { ascii_swap_case(c) } else { c }],
{
    c.to_lowercase().collect()
}

/// Calls `char::to_uppercase` and collects what it yields: one or more
/// characters; an ASCII small letter maps to its capital letter, and any
/// other ASCII character to itself.
#[verifier::external_body]
pub fn char_to_uppercase(c: char) -> (r: Vec<char>)
    ensures
        r@ == unicode_to_uppercase(c),
        r@.len() >= 1,
        (c as u32) < 128 ==> r@ == seq![if is_ascii_lower(c) { ascii_swap_case(c) } else { c }],
{
    c.to_uppercase().collect()
}

/// Whether `c` is an ASCII control character: a code point below 0x20,
/// or 0x7F.
pub fn char_is_ascii_control(c: char) -> (r: bool)
    ensures
        r <==> ((c as u32) < 0x20 || (c as u32) == 0x7f),
{
    let v = c as u32;
    v < 0x20 || v == 0x7f
}

/// The characters of `s`, in order, read with `str::chars`.
pub fn str_chars(s: &str) -> (r: Vec<char>)
    ensures
        r@ == s@,
{
    broadcast use vstd::string::axiom_spec_iter;
    let mut r: Vec<char> = Vec::new();
    for c in it: s.chars()
        invariant
            it.seq() == s@,
            r@ == it.seq().take(it.index() as int),
    {
        r.push(c);
        assert(it.seq().take(it.index() + 1) == it.seq().take(it.index() as int).push(c));
    }
    assert(s@.take(s@.len() as int) == s@);
    r
}

/// Calls `String::push`, which appends one character.
#[verifier::external_body]
pub fn string_push(s: &mut String, c: char)
    ensures
        final(s)@ == old(s)@.push(c),
{
    s.push(c)
}

/// Calls `==` on two string slices, which compares their characters.
#[verifier::external_body]
pub fn str_eq(a: &str, b: &str) -> (r: bool)
    ensures
        r == (a@ == b@),
{
    a == b
}

/// The decimal digit for `d`, which is below ten.
pub open spec fn digit_char(d: int) -> char {
    (('0' as int) + d) as char
}

/// The decimal digits of a natural number, without leading zeros.
pub open spec fn nat_decimal(n: nat) -> Seq<char>
    decreases n,
{
    if n < 10 {
        seq![digit_char(n as int)]
    } else {
        nat_decimal(n / 10) + seq![digit_char((n % 10) as int)]
    }
}

/// The decimal form of an integer, with a leading `-` when it is negative.
pub open spec fn int_decimal(n: int) -> Seq<char> {
    if n < 0 {
        seq!['-'] + nat_decimal((-n) as nat)
    } else {
        nat_decimal(n as nat)
    }
}

/// Appends the decimal digits of `m` to `s`.
fn push_decimal(s: &mut String, m: u64)
    ensures
        final(s)@ == old(s)@ + nat_decimal(m as nat),
    decreases m,
{
    if m >= 10 {
        push_decimal(s, m / 10);
    }
    let d: u8 = (m % 10) as u8;
    let c = (48u8 + d) as char;
    assert(c == digit_char((m % 10) as int));
    string_push(s, c);
    proof {
        if m < 10 {
            assert(m % 10 == m);
        }
    }
}

/// The decimal form of `n`, with a leading `-` when it is negative (what
/// `i64::to_string` writes).
pub fn i64_to_decimal(n: i64) -> (r: String)
    ensures
        r@ == int_decimal(n as int),
{
    let mut s = String::new();
    if n < 0 {
        string_push(&mut s, '-');
        let m: u64 = (-(n + 1)) as u64 + 1;
        assert(m as int == -(n as int));
        push_decimal(&mut s, m);
    } else {
        push_decimal(&mut s, n as u64);
    }
    s
}

/// Appends every character of `cs` to `s`.
pub fn push_chars(s: &mut String, cs: &Vec<char>)
    ensures
        final(s)@ == old(s)@ + cs@,
{
    let mut i: usize = 0;
    while i < cs.len()
        invariant
            i <= cs.len(),
            s@ == old(s)@ + cs@.take(i as int),
        decreases cs.len() - i,
    {
        string_push(s, cs[i]);
        i = i + 1;
        assert(cs@.take(i as int) == cs@.take(i - 1) .push(cs@[i - 1]));
    }
    assert(cs@.take(cs.len() as int) == cs@);
}

/// `t` occurs in `s` as a run of consecutive characters.
pub open spec fn contains_text(s: Seq<char>, t: Seq<char>) -> bool {
    exists|i: int| 0 <= i && i + t.len() <= s.len() && #[trigger] s.subrange(i, i + t.len()) == t
}

/// A text occurs in any text that has it between a head and a tail.
pub proof fn lemma_contains_text_within(a: Seq<char>, t: Seq<char>, b: Seq<char>)
    ensures
        contains_text(a + t + b, t),
{
    let s = a + t + b;
    assert(s.subrange(a.len() as int, (a.len() + t.len()) as int) =~= t);
}

/// A text that occurs in `m` occurs in `a + m + b`.
pub proof fn lemma_contains_text_wrapped(a: Seq<char>, m: Seq<char>, b: Seq<char>, t: Seq<char>)
    requires
        contains_text(m, t),
    ensures
        contains_text(a + m + b, t),
{
    let i = choose|i: int| 0 <= i && i + t.len() <= m.len() && #[trigger] m.subrange(i, i + t.len()) == t;
    let s = a + m + b;
    assert(s.subrange(a.len() + i, a.len() + i + t.len()) =~= m.subrange(i, i + t.len()));
}

} // verus!
