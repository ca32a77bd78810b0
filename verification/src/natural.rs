//! Natural ordering of names: runs of digits compare by their numeric value,
//! everything else compares character by character, ignoring case.

use vstd::prelude::*;
use std::cmp::Ordering;
use crate::strs::{chars_of, is_digit, digit_value, from_index, decimal, digit_char};

verus! {

/// What `char::to_lowercase` yields first for `c`.
pub uninterp spec fn lowercase_first(c: char) -> char;

/// The first character of the Unicode lowercase mapping of `c`
/// (`c.to_lowercase().next()`, falling back to `c`). The contract names that
/// character and adds what the Unicode tables (`UnicodeData.txt` and
/// `SpecialCasing.txt`, which the documentation of `to_lowercase` names) give:
/// `A`..=`Z` map to `a`..=`z`, every other ASCII character maps to itself, and
/// no character outside the ASCII digits lower-cases to one of them. Beyond
/// that, nothing is stated of the mapping.
#[verifier::external_body]
pub(crate) fn lower(c: char) -> (r: char)
    ensures
        r == lowercase_first(c),
        (c as u32) < 0x80 ==> r == crate::strs::ascii_lower_char(c),
        !is_digit(c) ==> !is_digit(r),
{
    c.to_lowercase().next().unwrap_or(c)
}

/// Number of ASCII digits at the start of `s`.
pub open spec fn digit_run(s: Seq<char>) -> nat
    decreases s.len(),
{
    if s.len() > 0 && is_digit(s[0]) {
        1 + digit_run(s.drop_first())
    } else {
        0
    }
}

/// One step of reading a number: `acc * 10 + d`, saturating at `u64::MAX`
/// after the multiplication and again after the addition.
pub open spec fn saturating_step(acc: nat, d: nat) -> nat {
    let m = if acc * 10 > u64::MAX { u64::MAX as nat } else { acc * 10 };
    if m + d > u64::MAX {
        u64::MAX as nat
    } else {
        m + d
    }
}

/// The value of the leading digit run of `s`, read onto `acc` with saturation.
pub open spec fn run_value_from(acc: nat, s: Seq<char>) -> nat
    decreases s.len(),
{
    if s.len() > 0 && is_digit(s[0]) {
        run_value_from(saturating_step(acc, digit_value(s[0])), s.drop_first())
    } else {
        acc
    }
}

/// The (saturated) value of the leading digit run of `s`.
pub open spec fn run_value(s: Seq<char>) -> nat {
    run_value_from(0, s)
}

pub proof fn lemma_digit_run_bounds(s: Seq<char>)
    ensures
        digit_run(s) <= s.len(),
        s.len() > 0 && is_digit(s[0]) ==> digit_run(s) >= 1,
        forall|i: int| 0 <= i < digit_run(s) ==> is_digit(#[trigger] s[i]),
        digit_run(s) < s.len() ==> !is_digit(s[digit_run(s) as int]),
    decreases s.len(),
{
    if s.len() > 0 && is_digit(s[0]) {
        lemma_digit_run_bounds(s.drop_first());
        assert forall|i: int| 0 <= i < digit_run(s) implies is_digit(#[trigger] s[i]) by {
            if i > 0 {
                assert(s[i] == s.drop_first()[i - 1]);
            }
        }
    }
}

pub proof fn lemma_run_value_bounded(acc: nat, s: Seq<char>)
    requires
        acc <= u64::MAX,
    ensures
        run_value_from(acc, s) <= u64::MAX,
    decreases s.len(),
{
    if s.len() > 0 && is_digit(s[0]) {
        lemma_run_value_bounded(saturating_step(acc, digit_value(s[0])), s.drop_first());
    }
}

/// What is left of `s` after its leading digit run.
pub open spec fn after_run(s: Seq<char>) -> Seq<char> {
    s.skip(digit_run(s) as int)
}

/// A character as names are compared: its lower-case form. An ASCII character
/// lower-cases as ASCII does (`A`..=`Z` to `a`..=`z`, the rest unchanged);
/// any other takes the first character of its Unicode lower-case mapping
/// (`lowercase_first`), except that one whose lower-case form would be an ASCII
/// digit (Unicode has none) stays itself, so digits and other characters never
/// meet.
pub open spec fn folded(c: char) -> char {
    if (c as u32) < 0x80 {
        crate::strs::ascii_lower_char(c)
    } else if is_digit(lowercase_first(c)) {
        c
    } else {
        lowercase_first(c)
    }
}

/// Names compare without regard to ASCII case: changing the case of ASCII
/// letters anywhere in either name does not change the order.
pub proof fn law_ascii_case_ignored(a: Seq<char>, b: Seq<char>)
    ensures
        natural_order(crate::strs::ascii_lower(a), b) == natural_order(a, b),
        natural_order(a, crate::strs::ascii_lower(b)) == natural_order(a, b),
{
    lemma_lower_left(a, b);
    lemma_lower_left(b, a);
    law_natural_antisymmetric(a, b);
    law_natural_antisymmetric(a, crate::strs::ascii_lower(b));
}

proof fn lemma_lower_drop_first(s: Seq<char>)
    requires
        s.len() > 0,
    ensures
        crate::strs::ascii_lower(s).drop_first() == crate::strs::ascii_lower(s.drop_first()),
        crate::strs::ascii_lower(s)[0] == crate::strs::ascii_lower_char(s[0]),
{
    assert(crate::strs::ascii_lower(s).drop_first() =~= crate::strs::ascii_lower(s.drop_first()));
}

proof fn lemma_lower_runs(acc: nat, s: Seq<char>)
    ensures
        run_value_from(acc, crate::strs::ascii_lower(s)) == run_value_from(acc, s),
        digit_run(crate::strs::ascii_lower(s)) == digit_run(s),
        after_run(crate::strs::ascii_lower(s)) == crate::strs::ascii_lower(after_run(s)),
    decreases s.len(),
{
    let l = crate::strs::ascii_lower(s);
    if s.len() > 0 {
        lemma_lower_drop_first(s);
        if is_digit(s[0]) {
            assert(l[0] == s[0]);
            lemma_lower_runs(saturating_step(acc, digit_value(s[0])), s.drop_first());
            lemma_digit_run_bounds(s);
            lemma_digit_run_bounds(l);
            assert(after_run(l) =~= after_run(l.drop_first()));
            assert(after_run(s) =~= after_run(s.drop_first()));
        } else {
            assert(!is_digit(l[0]));
            assert(after_run(l) =~= l);
            assert(after_run(s) =~= s);
        }
    } else {
        assert(after_run(l) =~= l);
        assert(after_run(s) =~= s);
        assert(l =~= s);
    }
}

proof fn lemma_lower_left(a: Seq<char>, b: Seq<char>)
    ensures
        natural_order(crate::strs::ascii_lower(a), b) == natural_order(a, b),
    decreases a.len() + b.len(),
{
    let l = crate::strs::ascii_lower(a);
    if a.len() > 0 && b.len() > 0 {
        lemma_lower_drop_first(a);
        let x = a[0];
        assert(is_digit(l[0]) == is_digit(x));
        if is_digit(x) && is_digit(b[0]) {
            lemma_lower_runs(0, a);
            lemma_digit_run_bounds(a);
            lemma_digit_run_bounds(b);
            lemma_lower_left(after_run(a), after_run(b));
        } else {
            assert(folded(l[0]) == folded(x));
            lemma_lower_left(a.drop_first(), b.drop_first());
        }
    } else if a.len() == 0 {
        assert(l.len() == 0);
    }
}

/// Natural order of two names. Where both continue with a digit, the whole digit
/// runs are read as numbers and compared by value (so `02` equals `2` and `9`
/// precedes `10`); otherwise the next characters are compared after lower-casing.
/// A name that runs out first is the smaller one.
pub open spec fn natural_order(a: Seq<char>, b: Seq<char>) -> Ordering
    decreases a.len() + b.len(),
{
    if a.len() == 0 && b.len() == 0 {
        Ordering::Equal
    } else if a.len() == 0 {
        Ordering::Less
    } else if b.len() == 0 {
        Ordering::Greater
    } else if is_digit(a[0]) && is_digit(b[0]) {
        let na = run_value(a);
        let nb = run_value(b);
        if na < nb {
            Ordering::Less
        } else if na > nb {
            Ordering::Greater
        } else {
            proof {
                lemma_digit_run_bounds(a);
                lemma_digit_run_bounds(b);
            }
            natural_order(after_run(a), after_run(b))
        }
    } else {
        let x = folded(a[0]);
        let y = folded(b[0]);
        if x < y {
            Ordering::Less
        } else if x > y {
            Ordering::Greater
        } else {
            natural_order(a.drop_first(), b.drop_first())
        }
    }
}

/// Reads the run of digits starting at `start`: its saturated value and the
/// index just past it.
fn take_number(v: &Vec<char>, start: usize) -> (r: (u64, usize))
    requires
        start <= v.len(),
    ensures
        r.0 == run_value(v@.skip(start as int)),
        r.1 == start + digit_run(v@.skip(start as int)),
{
    let mut n: u64 = 0;
    let mut i: usize = start;
    proof {
        lemma_digit_run_bounds(v@.skip(start as int));
    }
    while i < v.len() && '0' <= v[i] && v[i] <= '9'
        invariant
            start <= i <= v.len(),
            run_value(v@.skip(start as int)) == run_value_from(n as nat, v@.skip(i as int)),
            digit_run(v@.skip(start as int)) == (i - start) + digit_run(v@.skip(i as int)),
        decreases v.len() - i,
    {
        let d: u64 = digit_of(v[i]);
        let m: u64 = match n.checked_mul(10) {
            Some(x) => x,
            None => u64::MAX,
        };
        let next: u64 = match m.checked_add(d) {
            Some(x) => x,
            None => u64::MAX,
        };
        proof {
            assert(v@.skip(i as int).drop_first() =~= v@.skip(i + 1));
            assert(next as nat == saturating_step(n as nat, digit_value(v@[i as int])));
        }
        n = next;
        i = i + 1;
    }
    proof {
        lemma_run_value_bounded(n as nat, v@.skip(i as int));
    }
    (n, i)
}

/// The value of an ASCII digit.
fn digit_of(c: char) -> (d: u64)
    requires
        is_digit(c),
    ensures
        d as nat == digit_value(c),
        d < 10,
{
    ((c as u32) - ('0' as u32)) as u64
}

/// Compares `a` and `b` in natural order: `02-file` before `10-file`, and
/// `План` equal to `план`.
pub fn natural_cmp(a: &str, b: &str) -> (r: Ordering)
    ensures
        r == natural_order(a@, b@),
{
    let x = chars_of(a);
    let y = chars_of(b);
    let mut i: usize = 0;
    let mut j: usize = 0;
    proof {
        assert(from_index(x@, i) =~= a@);
        assert(from_index(y@, j) =~= b@);
    }
    loop
        invariant
            i <= x.len(),
            j <= y.len(),
            natural_order(a@, b@) == natural_order(from_index(x@, i), from_index(y@, j)),
        decreases x.len() - i + y.len() - j,
    {
        let ghost s = from_index(x@, i);
        let ghost t = from_index(y@, j);
        if i == x.len() && j == y.len() {
            return Ordering::Equal;
        }
        if i == x.len() {
            return Ordering::Less;
        }
        if j == y.len() {
            return Ordering::Greater;
        }
        let c = x[i];
        let d = y[j];
        assert(s[0] == c && t[0] == d);
        if '0' <= c && c <= '9' && '0' <= d && d <= '9' {
            let (na, ni) = take_number(&x, i);
            let (nb, nj) = take_number(&y, j);
            if na < nb {
                return Ordering::Less;
            }
            if na > nb {
                return Ordering::Greater;
            }
            proof {
                lemma_digit_run_bounds(s);
                lemma_digit_run_bounds(t);
                assert(after_run(s) =~= from_index(x@, ni));
                assert(after_run(t) =~= from_index(y@, nj));
            }
            i = ni;
            j = nj;
        } else {
            let lx = lower(c);
            let ly = lower(d);
            assert(lx == folded(c) && ly == folded(d));
            if lx < ly {
                return Ordering::Less;
            }
            if lx > ly {
                return Ordering::Greater;
            }
            proof {
                assert(s.drop_first() =~= x@.skip(i + 1));
                assert(t.drop_first() =~= y@.skip(j + 1));
            }
            i = i + 1;
            j = j + 1;
        }
    }
}

} // verus!

verus! {

/// The ordering with its two sides swapped.
pub open spec fn flipped(o: Ordering) -> Ordering {
    match o {
        Ordering::Less => Ordering::Greater,
        Ordering::Equal => Ordering::Equal,
        Ordering::Greater => Ordering::Less,
    }
}

/// Every name is equal to itself in natural order.
pub proof fn law_natural_reflexive(a: Seq<char>)
    ensures
        natural_order(a, a) == Ordering::Equal,
    decreases a.len(),
{
    if a.len() > 0 {
        if is_digit(a[0]) {
            lemma_digit_run_bounds(a);
            law_natural_reflexive(after_run(a));
        } else {
            law_natural_reflexive(a.drop_first());
        }
    }
}

/// Swapping the two names swaps the answer: `a` precedes `b` exactly when `b`
/// follows `a`, and equality is symmetric.
pub proof fn law_natural_antisymmetric(a: Seq<char>, b: Seq<char>)
    ensures
        natural_order(b, a) == flipped(natural_order(a, b)),
    decreases a.len() + b.len(),
{
    if a.len() > 0 && b.len() > 0 {
        if is_digit(a[0]) && is_digit(b[0]) {
            lemma_digit_run_bounds(a);
            lemma_digit_run_bounds(b);
            law_natural_antisymmetric(after_run(a), after_run(b));
        } else {
            law_natural_antisymmetric(a.drop_first(), b.drop_first());
        }
    }
}

} // verus!

verus! {

/// Natural order is transitive: if `a` is not after `b` and `b` is not after `c`,
/// then `a` is not after `c`, and it is strictly before `c` when either step is
/// strict.
pub proof fn law_natural_transitive(a: Seq<char>, b: Seq<char>, c: Seq<char>)
    requires
        natural_order(a, b) != Ordering::Greater,
        natural_order(b, c) != Ordering::Greater,
    ensures
        natural_order(a, c) != Ordering::Greater,
        natural_order(a, b) == Ordering::Less || natural_order(b, c) == Ordering::Less
            ==> natural_order(a, c) == Ordering::Less,
    decreases a.len() + b.len() + c.len(),
{
    if a.len() > 0 && b.len() > 0 && c.len() > 0 {
        let (x, y, z) = (a[0], b[0], c[0]);
        assert(a[0] == x && b[0] == y && c[0] == z);
        if is_digit(x) && is_digit(y) && is_digit(z) {
            lemma_digit_run_bounds(a);
            lemma_digit_run_bounds(b);
            lemma_digit_run_bounds(c);
            if run_value(a) == run_value(b) && run_value(b) == run_value(c) {
                law_natural_transitive(after_run(a), after_run(b), after_run(c));
            }
        } else if !is_digit(x) && !is_digit(y) && !is_digit(z) {
            if folded(x) == folded(y) && folded(y) == folded(z) {
                law_natural_transitive(a.drop_first(), b.drop_first(), c.drop_first());
            }
        }
        // Mixed heads: a digit and a non-digit never compare equal, since
        // `folded` keeps digits apart from everything else.
    }
}

proof fn lemma_run_value_push(acc: nat, s: Seq<char>, d: char)
    requires
        forall|i: int| 0 <= i < s.len() ==> is_digit(#[trigger] s[i]),
        is_digit(d),
    ensures
        run_value_from(acc, s.push(d)) == saturating_step(run_value_from(acc, s), digit_value(d)),
    decreases s.len(),
{
    if s.len() == 0 {
        assert(s.push(d)[0] == d);
        assert(s.push(d).drop_first() =~= Seq::<char>::empty());
        reveal_with_fuel(run_value_from, 2);
    } else {
        assert(s.push(d)[0] == s[0]);
        assert(s.push(d).drop_first() =~= s.drop_first().push(d));
        assert forall|i: int| 0 <= i < s.drop_first().len() implies is_digit(
            #[trigger] s.drop_first()[i],
        ) by {
            assert(s.drop_first()[i] == s[i + 1]);
        }
        lemma_run_value_push(saturating_step(acc, digit_value(s[0])), s.drop_first(), d);
    }
}

proof fn lemma_run_stops(acc: nat, s: Seq<char>, x: Seq<char>)
    requires
        forall|i: int| 0 <= i < s.len() ==> is_digit(#[trigger] s[i]),
        x.len() == 0 || !is_digit(x[0]),
    ensures
        run_value_from(acc, s + x) == run_value_from(acc, s),
        digit_run(s + x) == s.len(),
    decreases s.len(),
{
    if s.len() == 0 {
        assert(s + x =~= x);
    } else {
        assert((s + x)[0] == s[0]);
        assert((s + x).drop_first() =~= s.drop_first() + x);
        assert forall|i: int| 0 <= i < s.drop_first().len() implies is_digit(
            #[trigger] s.drop_first()[i],
        ) by {
            assert(s.drop_first()[i] == s[i + 1]);
        }
        lemma_run_stops(saturating_step(acc, digit_value(s[0])), s.drop_first(), x);
    }
}

proof fn lemma_decimal_value(n: nat)
    requires
        n <= u64::MAX,
    ensures
        decimal(n).len() >= 1,
        forall|i: int| 0 <= i < decimal(n).len() ==> is_digit(#[trigger] decimal(n)[i]),
        run_value(decimal(n)) == n,
    decreases n,
{
    if n < 10 {
        let c = digit_char(n);
        assert(c as u32 == n + 48);
        assert(decimal(n) == seq![c]);
        assert(seq![c].drop_first() =~= Seq::<char>::empty());
        assert(digit_value(c) == n);
        reveal_with_fuel(run_value_from, 2);
    } else {
        lemma_decimal_value(n / 10);
        let c = digit_char(n % 10);
        assert(c as u32 == n % 10 + 48);
        assert(digit_value(c) == n % 10);
        let p = decimal(n / 10);
        assert forall|i: int| 0 <= i < decimal(n).len() implies is_digit(#[trigger] decimal(n)[i]) by {
            if i < p.len() {
                assert(decimal(n)[i] == p[i]);
            }
        }
        lemma_run_value_push(0, p, c);
        assert((n / 10) * 10 + n % 10 == n) by (nonlinear_arith);
        assert((n / 10) * 10 <= n) by (nonlinear_arith);
    }
}

/// Numbers in names compare by value: a name that starts with the number `m`
/// comes before one that starts with a larger number `n`, whatever text
/// follows each number (so `9-b` precedes `10-a`).
pub proof fn law_numbers_by_value(m: nat, n: nat, x: Seq<char>, y: Seq<char>)
    requires
        m < n <= u64::MAX,
        x.len() == 0 || !is_digit(x[0]),
        y.len() == 0 || !is_digit(y[0]),
    ensures
        natural_order(decimal(m) + x, decimal(n) + y) == Ordering::Less,
{
    lemma_decimal_value(m);
    lemma_decimal_value(n);
    lemma_run_stops(0, decimal(m), x);
    lemma_run_stops(0, decimal(n), y);
    assert((decimal(m) + x)[0] == decimal(m)[0]);
    assert((decimal(n) + y)[0] == decimal(n)[0]);
}

/// Leading zeros do not count: a name with a zero put before its number is
/// equal in natural order to the name without it (`02-a` and `2-a`).
pub proof fn law_leading_zero_ignored(a: Seq<char>)
    requires
        a.len() > 0,
        is_digit(a[0]),
    ensures
        natural_order(seq!['0'] + a, a) == Ordering::Equal,
{
    let z = seq!['0'] + a;
    assert(z[0] == '0');
    assert(z.drop_first() =~= a);
    assert(digit_value('0') == 0);
    assert(saturating_step(0, 0) == 0);
    assert(run_value(z) == run_value(a));
    assert(digit_run(z) == 1 + digit_run(a));
    lemma_digit_run_bounds(a);
    assert(after_run(z) =~= after_run(a));
    law_natural_reflexive(after_run(a));
}

} // verus!
