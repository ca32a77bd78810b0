//! Character-level helpers shared by the format modules: conversions between
//! `str`/`String` and character vectors, ASCII case folding, decimal rendering.

use vstd::prelude::*;

verus! {

/// `c` is one of the ASCII digits `0`..=`9`.
pub open spec fn is_digit(c: char) -> bool {
    '0' <= c && c <= '9'
}

/// ASCII lower-casing of one character: `A`..=`Z` become `a`..=`z`, everything else is kept.
pub open spec fn ascii_lower_char(c: char) -> char {
    if 'A' <= c && c <= 'Z' {
        ((c as u32) + 32) as char
    } else {
        c
    }
}

/// ASCII lower-casing of a whole character sequence.
pub open spec fn ascii_lower(s: Seq<char>) -> Seq<char> {
    s.map_values(|c: char| ascii_lower_char(c))
}

/// The characters of `s` from index `i` on.
pub open spec fn from_index(s: Seq<char>, i: usize) -> Seq<char> {
    s.skip(i as int)
}

/// The value of a single ASCII digit.
pub open spec fn digit_value(c: char) -> nat {
    ((c as u32) - ('0' as u32)) as nat
}

/// Decimal rendering of a natural number, most significant digit first, no leading zeros.
pub open spec fn decimal(n: nat) -> Seq<char>
    decreases n,
{
    if n < 10 {
        seq![digit_char(n)]
    } else {
        decimal(n / 10).push(digit_char(n % 10))
    }
}

/// The ASCII digit character for a value below ten.
pub open spec fn digit_char(d: nat) -> char {
    ((d + 48) as u32) as char
}

/// The characters of a string slice, in order.
pub fn chars_of(s: &str) -> (v: Vec<char>)
    ensures
        v@ == s@,
{
    let mut v: Vec<char> = Vec::new();
    for c in it: s.chars()
        invariant
            v@ == it.seq().take(it.index() as int),
            it.seq() == s@,
    {
        v.push(c);
    }
    v
}

/// Builds a `String` holding exactly the given characters (`collect` through
/// `String`'s `FromIterator<&char>`).
#[verifier::external_body]
pub(crate) fn string_of(v: &Vec<char>) -> (s: String)
    ensures
        s@ == v@,
{
    v.iter().collect()
}

/// Appends one character to a `String` (`String::push`).
#[verifier::external_body]
pub(crate) fn push_char(s: &mut String, c: char)
    ensures
        final(s)@ == old(s)@.push(c),
{
    s.push(c)
}

/// A `String` copy of a string slice.
pub fn owned(s: &str) -> (r: String)
    ensures
        r@ == s@,
{
    s.to_owned()
}

/// Character-wise equality of two character vectors.
pub fn chars_eq(a: &Vec<char>, b: &Vec<char>) -> (r: bool)
    ensures
        r == (a@ == b@),
{
    if a.len() != b.len() {
        return false;
    }
    let mut i: usize = 0;
    while i < a.len()
        invariant
            a.len() == b.len(),
            i <= a.len(),
            forall|j: int| 0 <= j < i ==> a@[j] == b@[j],
        decreases a.len() - i,
    {
        if a[i] != b[i] {
            return false;
        }
        i = i + 1;
    }
    assert(a@ =~= b@);
    true
}

/// `v` spells exactly the string slice `lit`.
pub fn is_word(v: &Vec<char>, lit: &str) -> (r: bool)
    ensures
        r == (v@ == lit@),
{
    let w = chars_of(lit);
    chars_eq(v, &w)
}

/// Character-wise equality of two string slices.
pub fn str_eq(a: &str, b: &str) -> (r: bool)
    ensures
        r == (a@ == b@),
{
    let x = chars_of(a);
    let y = chars_of(b);
    chars_eq(&x, &y)
}

/// ASCII lower-casing of one character.
pub fn lower_ascii_char(c: char) -> (r: char)
    ensures
        r == ascii_lower_char(c),
{
    if 'A' <= c && c <= 'Z' {
        let code: u32 = (c as u32) + 32;
        proof {
            assert(code <= 0x7f);
        }
        char_from_ascii(code)
    } else {
        c
    }
}

/// The character with an ASCII code point.
pub fn char_from_ascii(code: u32) -> (c: char)
    requires
        code <= 0x7f,
    ensures
        c == code as char,
        c as u32 == code,
{
    let b: u8 = code as u8;
    b as char
}

/// ASCII lower-casing of a character vector (`str::to_ascii_lowercase` on characters).
pub fn lower_ascii_chars(v: &Vec<char>) -> (r: Vec<char>)
    ensures
        r@ == ascii_lower(v@),
{
    let mut r: Vec<char> = Vec::new();
    let mut i: usize = 0;
    while i < v.len()
        invariant
            i <= v.len(),
            r@ == ascii_lower(v@.take(i as int)),
        decreases v.len() - i,
    {
        let c = lower_ascii_char(v[i]);
        r.push(c);
        assert(v@.take(i + 1) =~= v@.take(i as int).push(v@[i as int]));
        i = i + 1;
    }
    assert(v@.take(v.len() as int) =~= v@);
    r
}

/// ASCII lower-casing of a string slice into a new `String`.
pub fn lower_ascii(s: &str) -> (r: String)
    ensures
        r@ == ascii_lower(s@),
{
    let v = chars_of(s);
    let l = lower_ascii_chars(&v);
    string_of(&l)
}

/// Decimal rendering of an unsigned number, as `u64::to_string` prints it.
pub fn decimal_string(n: u64) -> (s: String)
    ensures
        s@ == decimal(n as nat),
{
    let mut digits: Vec<char> = Vec::new();
    let mut m: u64 = n;
    // digits are collected least significant first
    while m >= 10
        invariant
            decimal(n as nat) == decimal(m as nat) + reverse_of(digits@),
        decreases m,
    {
        let c = char_from_ascii(((m % 10) + 48) as u32);
        let ghost before = digits@;
        digits.push(c);
        proof {
            assert(c == digit_char((m % 10) as nat));
            lemma_reverse_push(before, c);
            assert(decimal(m as nat) == decimal((m / 10) as nat).push(c));
            assert(decimal((m / 10) as nat).push(c) + reverse_of(before) =~= decimal(
                (m / 10) as nat,
            ) + reverse_of(digits@));
        }
        m = m / 10;
    }
    let c = char_from_ascii((m + 48) as u32);
    let ghost before = digits@;
    digits.push(c);
    proof {
        assert(c == digit_char(m as nat));
        lemma_reverse_push(before, c);
        assert(decimal(n as nat) =~= reverse_of(digits@));
    }
    let mut out: Vec<char> = Vec::new();
    let mut i: usize = digits.len();
    while i > 0
        invariant
            i <= digits.len(),
            out@ =~= reverse_of(digits@).take((digits.len() - i) as int),
        decreases i,
    {
        i = i - 1;
        let ghost k = (digits.len() - i - 1) as int;
        proof {
            lemma_reverse_index(digits@, k);
            assert(reverse_of(digits@).take(k + 1) =~= reverse_of(digits@).take(k).push(
                digits@[i as int],
            ));
        }
        out.push(digits[i]);
    }
    proof {
        lemma_reverse_len(digits@);
        assert(reverse_of(digits@).take(digits.len() as int) =~= reverse_of(digits@));
    }
    string_of(&out)
}

/// Reversal of a sequence.
pub open spec fn reverse_of<A>(s: Seq<A>) -> Seq<A>
    decreases s.len(),
{
    if s.len() == 0 {
        Seq::empty()
    } else {
        seq![s.last()] + reverse_of(s.drop_last())
    }
}

proof fn lemma_reverse_push<A>(s: Seq<A>, x: A)
    ensures
        reverse_of(s.push(x)) =~= seq![x] + reverse_of(s),
{
    assert(s.push(x).drop_last() =~= s);
}

proof fn lemma_reverse_len<A>(s: Seq<A>)
    ensures
        reverse_of(s).len() == s.len(),
    decreases s.len(),
{
    if s.len() > 0 {
        lemma_reverse_len(s.drop_last());
    }
}

proof fn lemma_reverse_index<A>(s: Seq<A>, k: int)
    requires
        0 <= k < s.len(),
    ensures
        reverse_of(s).len() == s.len(),
        reverse_of(s)[k] == s[s.len() - 1 - k],
    decreases s.len(),
{
    lemma_reverse_len(s);
    if k > 0 {
        lemma_reverse_index(s.drop_last(), k - 1);
    }
}

} // verus!
