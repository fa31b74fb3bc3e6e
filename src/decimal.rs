use vstd::prelude::*;
use crate::dimensions::{is_input, q, Ratio, Rational, INPUT_MAX};
use vstd::slice::slice_subrange;

verus! {

/// `c` is an ASCII decimal digit.
pub open spec fn is_digit(c: u8) -> bool {
    0x30 <= c <= 0x39
}

/// Every byte of `s` is a decimal digit.
pub open spec fn all_digits(s: Seq<u8>) -> bool {
    forall|i: int| 0 <= i < s.len() ==> is_digit(#[trigger] s[i])
}

/// The number that the decimal digits `s` spell (0 for no digits).
pub open spec fn digits_value(s: Seq<u8>) -> int
    decreases s.len(),
{
    if s.len() == 0 {
        0
    } else {
        digits_value(s.drop_last()) * 10 + (s.last() - 0x30)
    }
}

/// Ten to the power `n`.
pub open spec fn pow10(n: nat) -> int
    decreases n,
{
    if n == 0 {
        1
    } else {
        10 * pow10((n - 1) as nat)
    }
}

/// Index of the first `.` in `s` at or after `i`, or -1.
pub open spec fn first_dot(s: Seq<u8>, i: int) -> int
    decreases s.len() - i,
{
    if i < 0 || i >= s.len() {
        -1
    } else if s[i] == 0x2e {
        i
    } else {
        first_dot(s, i + 1)
    }
}

/// The value of decimal text: digits with at most one `.`, and at least one
/// digit. The result's denominator is ten to the number of decimals.
pub open spec fn decimal_value(s: Seq<u8>) -> Option<Rational> {
    let k = first_dot(s, 0);
    if k < 0 {
        if s.len() > 0 && all_digits(s) {
            Some((digits_value(s), 1))
        } else {
            None
        }
    } else {
        let whole = s.take(k);
        let fraction = s.skip(k + 1);
        if s.len() >= 2 && all_digits(whole) && all_digits(fraction) {
            Some(
                (
                    digits_value(whole) * pow10(fraction.len()) + digits_value(fraction),
                    pow10(fraction.len()),
                ),
            )
        } else {
            None
        }
    }
}

/// `v` as a `Ratio`, where numerator and denominator both fit 64 bits.
pub open spec fn held(v: Rational) -> Option<Ratio> {
    if 0 <= v.0 <= INPUT_MAX && 0 <= v.1 <= INPUT_MAX {
        Some(Ratio { num: v.0 as u128, den: v.1 as u128 })
    } else {
        None
    }
}

proof fn lemma_digits_value_nonnegative(s: Seq<u8>)
    requires
        all_digits(s),
    ensures
        digits_value(s) >= 0,
    decreases s.len(),
{
    if s.len() > 0 {
        assert(is_digit(s[s.len() - 1]));
        lemma_digits_value_nonnegative(s.drop_last());
    }
}

/// Appending digits never makes the number smaller.
proof fn lemma_digits_value_grows(s: Seq<u8>, j: int)
    requires
        all_digits(s),
        0 <= j <= s.len(),
    ensures
        digits_value(s.take(j)) <= digits_value(s),
    decreases s.len() - j,
{
    if j < s.len() {
        let t = s.take(j + 1);
        assert(t.drop_last() =~= s.take(j));
        assert(is_digit(s[j]));
        lemma_digits_value_nonnegative(s.take(j));
        lemma_digits_value_grows(s, j + 1);
    } else {
        assert(s.take(j) =~= s);
    }
}

proof fn lemma_pow10_grows(a: nat, b: nat)
    requires
        a <= b,
    ensures
        1 <= pow10(a) <= pow10(b),
    decreases b,
{
    if b > a {
        lemma_pow10_grows(a, (b - 1) as nat);
    } else if a > 0 {
        lemma_pow10_grows((a - 1) as nat, (a - 1) as nat);
    }
}

/// The value of the digits `s[start..end]`, or `None` where it exceeds 64 bits.
fn digits_value_capped(s: &[u8], start: usize, end: usize) -> (r: Option<u128>)
    requires
        start <= end <= s@.len(),
        all_digits(s@.subrange(start as int, end as int)),
    ensures
        match r {
            Some(v) => v == digits_value(s@.subrange(start as int, end as int)) && v <= INPUT_MAX,
            None => digits_value(s@.subrange(start as int, end as int)) > INPUT_MAX,
        },
{
    let ghost full = s@.subrange(start as int, end as int);
    let mut value: u128 = 0;
    let mut i: usize = start;
    assert(full.take(0) =~= Seq::<u8>::empty());
    while i < end
        invariant
            start <= i <= end <= s@.len(),
            full == s@.subrange(start as int, end as int),
            all_digits(full),
            value == digits_value(full.take(i - start)),
            value <= INPUT_MAX,
        decreases end - i,
    {
        assert(is_digit(full[i - start]));
        assert(full[i - start] == s@[i as int]);
        let next: u128 = value * 10 + (s[i] - 0x30) as u128;
        assert(full.take(i - start + 1).drop_last() =~= full.take(i - start));
        if next > INPUT_MAX {
            proof {
                lemma_digits_value_grows(full, i - start + 1);
            }
            return None;
        }
        value = next;
        i = i + 1;
    }
    assert(full.take(end - start) =~= full);
    Some(value)
}

/// Ten to the power `n`, or `None` where it exceeds 64 bits.
fn pow10_capped(n: usize) -> (r: Option<u128>)
    ensures
        match r {
            Some(v) => v == pow10(n as nat) && v <= INPUT_MAX,
            None => pow10(n as nat) > INPUT_MAX,
        },
{
    let mut value: u128 = 1;
    let mut i: usize = 0;
    while i < n
        invariant
            i <= n,
            value == pow10(i as nat),
            value <= INPUT_MAX,
        decreases n - i,
    {
        let next: u128 = value * 10;
        if next > INPUT_MAX {
            proof {
                lemma_pow10_grows((i + 1) as nat, n as nat);
            }
            return None;
        }
        value = next;
        i = i + 1;
    }
    Some(value)
}

/// Position of the first `.` of `s`, if any.
fn find_dot(s: &[u8]) -> (r: Option<usize>)
    ensures
        match r {
            Some(k) => k == first_dot(s@, 0) && k < s@.len(),
            None => first_dot(s@, 0) == -1,
        },
{
    let mut i: usize = 0;
    while i < s.len()
        invariant
            i <= s@.len(),
            first_dot(s@, 0) == first_dot(s@, i as int),
        decreases s@.len() - i,
    {
        if s[i] == 0x2e {
            return Some(i);
        }
        i = i + 1;
    }
    None
}

/// Whether `s[start..end]` holds only decimal digits.
fn are_digits(s: &[u8], start: usize, end: usize) -> (r: bool)
    requires
        start <= end <= s@.len(),
    ensures
        r == all_digits(s@.subrange(start as int, end as int)),
{
    let mut i: usize = start;
    while i < end
        invariant
            start <= i <= end <= s@.len(),
            forall|j: int| start <= j < i ==> is_digit(s@[j]),
        decreases end - i,
    {
        if s[i] < 0x30 || s[i] > 0x39 {
            assert(!is_digit(s@.subrange(start as int, end as int)[i - start]));
            return false;
        }
        i = i + 1;
    }
    assert forall|j: int| 0 <= j < end - start implies is_digit(
        #[trigger] s@.subrange(start as int, end as int)[j],
    ) by {
        assert(is_digit(s@[start + j]));
    }
    true
}

/// Reads decimal text such as `5`, `2.5`, `.5` or `120.`: `None` where the
/// text is not of that form, `Some(None)` where its value is not held (the
/// numerator or the denominator exceeds 64 bits).
fn read_decimal(s: &[u8]) -> (r: Option<Option<Ratio>>)
    ensures
        match decimal_value(s@) {
            None => r is None,
            Some(v) => r == Some(held(v)),
        },
        r matches Some(Some(m)) ==> is_input(m),
{
    let n: usize = s.len();
    match find_dot(s) {
        None => {
            if n == 0 || !are_digits(s, 0, n) {
                assert(s@.subrange(0, n as int) =~= s@);
                return None;
            }
            assert(s@.subrange(0, n as int) =~= s@);
            match digits_value_capped(s, 0, n) {
                Some(v) => Some(Some(Ratio { num: v, den: 1 })),
                None => Some(None),
            }
        },
        Some(k) => {
            assert(s@.subrange(0, k as int) =~= s@.take(k as int));
            assert(s@.subrange(k + 1, n as int) =~= s@.skip(k + 1));
            if n < 2 || !are_digits(s, 0, k) || !are_digits(s, k + 1, n) {
                return None;
            }
            let ghost whole = s@.take(k as int);
            let ghost fraction = s@.skip(k + 1);
            proof {
                lemma_digits_value_nonnegative(whole);
                lemma_digits_value_nonnegative(fraction);
                lemma_pow10_grows(0, fraction.len());
            }
            let den = match pow10_capped(n - k - 1) {
                Some(d) => d,
                None => return Some(None),
            };
            let w = match digits_value_capped(s, 0, k) {
                Some(w) => w,
                None => {
                    proof {
                        assert(digits_value(whole) * pow10(fraction.len()) >= digits_value(whole)) by (nonlinear_arith)
                            requires
                                digits_value(whole) >= 0,
                                pow10(fraction.len()) >= 1,
                        ;
                    }
                    return Some(None);
                },
            };
            let f = match digits_value_capped(s, k + 1, n) {
                Some(f) => f,
                None => return Some(None),
            };
            proof {
                assert(w * den <= INPUT_MAX * INPUT_MAX) by (nonlinear_arith)
                    requires
                        w <= INPUT_MAX,
                        den <= INPUT_MAX,
                ;
            }
            let num: u128 = w * den + f;
            if num > INPUT_MAX {
                return Some(None);
            }
            Some(Some(Ratio { num, den }))
        },
    }
}

/// A value typed into a field, as floating-point parsing reads it.
#[derive(Clone, Copy, Debug, PartialEq, Eq, Structural)]
pub enum Entry {
    /// A value that the model can hold.
    Number(Ratio),
    /// A negative number, not a number, an infinity, or a value whose
    /// numerator or denominator exceeds 64 bits: it cannot be rendered.
    Rejected,
}

/// `c` with ASCII upper case turned to lower case.
pub open spec fn ascii_lower(c: u8) -> u8 {
    if 0x41 <= c <= 0x5a {
        (c + 32) as u8
    } else {
        c
    }
}

/// `t` is `inf`, `infinity` or `nan`, in any case.
pub open spec fn is_special_word(t: Seq<u8>) -> bool {
    let l = Seq::new(t.len(), |i: int| ascii_lower(t[i]));
    ||| l == seq![0x69u8, 0x6eu8, 0x66u8]
    ||| l == seq![0x69u8, 0x6eu8, 0x66u8, 0x69u8, 0x6eu8, 0x69u8, 0x74u8, 0x79u8]
    ||| l == seq![0x6eu8, 0x61u8, 0x6eu8]
}

/// Index of the first `e` or `E` in `s` at or after `i`, or -1.
pub open spec fn first_exponent_mark(s: Seq<u8>, i: int) -> int
    decreases s.len() - i,
{
    if i < 0 || i >= s.len() {
        -1
    } else if s[i] == 0x65 || s[i] == 0x45 {
        i
    } else {
        first_exponent_mark(s, i + 1)
    }
}

/// `s` without a leading `+` or `-`.
pub open spec fn unsigned_part(s: Seq<u8>) -> Seq<u8> {
    if s.len() > 0 && (s[0] == 0x2b || s[0] == 0x2d) {
        s.skip(1)
    } else {
        s
    }
}

/// The value of an exponent: an optional sign and at least one digit.
pub open spec fn exponent_value(t: Seq<u8>) -> Option<int> {
    let digits = unsigned_part(t);
    if digits.len() > 0 && all_digits(digits) {
        Some(if t[0] == 0x2d { -digits_value(digits) } else { digits_value(digits) })
    } else {
        None
    }
}

/// `m` times ten to the power `x`, where the result can be held.
pub open spec fn scaled(m: Rational, x: int) -> Entry {
    let v = if x >= 0 {
        (m.0 * pow10(x as nat), m.1)
    } else {
        (m.0, m.1 * pow10((-x) as nat))
    };
    if held(m) is Some && held(v) is Some {
        Entry::Number(held(v)->Some_0)
    } else {
        Entry::Rejected
    }
}

/// How floating-point parsing reads `s`: an optional sign, then `inf`,
/// `infinity` or `nan` in any case, or decimal digits with at most one `.`
/// and at least one digit, optionally followed by `e` or `E`, an optional
/// sign and digits. `None` where the text is of no such form.
pub open spec fn entry_of(s: Seq<u8>) -> Option<Entry> {
    let body = unsigned_part(s);
    let k = first_exponent_mark(body, 0);
    let mantissa = if k < 0 { body } else { body.take(k) };
    let exponent = if k < 0 { Some(0int) } else { exponent_value(body.skip(k + 1)) };
    if is_special_word(body) {
        Some(Entry::Rejected)
    } else {
        match (decimal_value(mantissa), exponent) {
            (Some(m), Some(x)) => if s[0] == 0x2d {
                Some(Entry::Rejected)
            } else {
                Some(scaled(m, x))
            },
            _ => None,
        }
    }
}

proof fn lemma_pow10_exceeds_input()
    ensures
        pow10(20) > INPUT_MAX,
{
    reveal_with_fuel(pow10, 21);
}

/// Whether `t` is `inf`, `infinity` or `nan`, in any case.
fn special_word(t: &[u8]) -> (r: bool)
    ensures
        r == is_special_word(t@),
{
    let n = t.len();
    if n != 3 && n != 8 {
        proof {
            let l = Seq::new(t@.len(), |i: int| ascii_lower(t@[i]));
            assert(l.len() == n);
            assert(seq![0x69u8, 0x6eu8, 0x66u8].len() == 3);
            assert(seq![0x69u8, 0x6eu8, 0x66u8, 0x69u8, 0x6eu8, 0x69u8, 0x74u8, 0x79u8].len() == 8);
            assert(seq![0x6eu8, 0x61u8, 0x6eu8].len() == 3);
        }
        return false;
    }
    let mut l: Vec<u8> = Vec::new();
    let mut i: usize = 0;
    while i < n
        invariant
            n == t@.len(),
            i <= n,
            l@.len() == i,
            forall|j: int| 0 <= j < i ==> l@[j] == ascii_lower(t@[j]),
        decreases n - i,
    {
        let c = t[i];
        l.push(if 0x41 <= c && c <= 0x5a { c + 32 } else { c });
        i = i + 1;
    }
    assert(l@ =~= Seq::new(t@.len(), |i: int| ascii_lower(t@[i])));
    bytes_eq(l.as_slice(), &[0x69u8, 0x6eu8, 0x66u8]) || bytes_eq(
        l.as_slice(),
        &[0x69u8, 0x6eu8, 0x66u8, 0x69u8, 0x6eu8, 0x69u8, 0x74u8, 0x79u8],
    ) || bytes_eq(l.as_slice(), &[0x6eu8, 0x61u8, 0x6eu8])
}

/// Byte-for-byte equality of two slices.
fn bytes_eq(a: &[u8], b: &[u8]) -> (r: bool)
    ensures
        r == (a@ == b@),
{
    if a.len() != b.len() {
        return false;
    }
    let mut i: usize = 0;
    while i < a.len()
        invariant
            a@.len() == b@.len(),
            i <= a@.len(),
            forall|j: int| 0 <= j < i ==> a@[j] == b@[j],
        decreases a@.len() - i,
    {
        if a[i] != b[i] {
            return false;
        }
        i = i + 1;
    }
    assert(a@ =~= b@);
    true
}

/// Position of the first `e` or `E` of `s`, if any.
fn find_exponent_mark(s: &[u8]) -> (r: Option<usize>)
    ensures
        match r {
            Some(k) => k == first_exponent_mark(s@, 0) && k < s@.len(),
            None => first_exponent_mark(s@, 0) == -1,
        },
{
    let mut i: usize = 0;
    while i < s.len()
        invariant
            i <= s@.len(),
            first_exponent_mark(s@, 0) == first_exponent_mark(s@, i as int),
        decreases s@.len() - i,
    {
        if s[i] == 0x65 || s[i] == 0x45 {
            return Some(i);
        }
        i = i + 1;
    }
    None
}

/// Ten to the power `x`, or `None` where it exceeds 64 bits.
fn pow10_of(x: u128) -> (r: Option<u128>)
    ensures
        match r {
            Some(v) => v == pow10(x as nat) && v <= INPUT_MAX,
            None => pow10(x as nat) > INPUT_MAX,
        },
{
    if x >= 20 {
        proof {
            lemma_pow10_exceeds_input();
            lemma_pow10_grows(20, x as nat);
        }
        return None;
    }
    pow10_capped(x as usize)
}

/// `m` times ten to the power `x` (or its inverse where `negative`), where
/// `x` exceeds 64 bits when `None`.
fn scale(m: Ratio, x: Option<u128>, negative: bool) -> (r: Entry)
    requires
        is_input(m),
        x matches Some(e) ==> e <= INPUT_MAX,
    ensures
        x matches Some(a) ==> r == scaled(q(m), if negative { -(a as int) } else { a as int }),
        x is None && negative ==> forall|e: int| e < -INPUT_MAX ==> #[trigger] scaled(q(m), e) == r,
        x is None && !negative ==> forall|e: int| e > INPUT_MAX ==> #[trigger] scaled(q(m), e) == r,
        r matches Entry::Number(v) ==> is_input(v),
{
    let p = match x {
        Some(e) => pow10_of(e),
        None => None,
    };
    if negative {
        match p {
            Some(p) => {
                proof {
                    assert(m.den * p <= INPUT_MAX * INPUT_MAX) by (nonlinear_arith)
                        requires
                            m.den <= INPUT_MAX,
                            p <= INPUT_MAX,
                    ;
                    lemma_pow10_grows(0, x->Some_0 as nat);
                    assert(m.den * p >= 1) by (nonlinear_arith)
                        requires
                            m.den >= 1,
                            p >= 1,
                    ;
                }
                let den = m.den * p;
                proof {
                    let a = x->Some_0;
                    if a == 0 {
                        assert(p == 1);
                        assert(m.den * p == m.den) by (nonlinear_arith)
                            requires
                                p == 1,
                        ;
                        assert(m.num * pow10(0) == m.num);
                    }
                }
                if den > INPUT_MAX {
                    proof {
                        let a = x->Some_0 as int;
                        assert(a > 0);
                        assert(scaled(q(m), -a) == Entry::Rejected);
                    }
                    Entry::Rejected
                } else {
                    proof {
                        let a = x->Some_0 as int;
                        if a > 0 {
                            assert(held((m.num as int, m.den * pow10(a as nat))) == Some(Ratio { num: m.num, den }));
                        }
                        assert(scaled(q(m), -a) == Entry::Number(Ratio { num: m.num, den }));
                    }
                    Entry::Number(Ratio { num: m.num, den })
                }
            },
            None => {
                proof {
                    if x is Some {
                        let a = x->Some_0 as int;
                        if a > 0 {
                            assert(m.den * pow10(a as nat) >= pow10(a as nat)) by (nonlinear_arith)
                                requires
                                    m.den >= 1,
                                    pow10(a as nat) > 0,
                            ;
                        } else {
                            assert(pow10(0) == 1);
                        }
                    }
                    assert forall|e: int| e < -INPUT_MAX implies #[trigger] scaled(q(m), e) == Entry::Rejected by {
                        lemma_pow10_exceeds_input();
                        lemma_pow10_grows(20, (-e) as nat);
                        assert(m.den * pow10((-e) as nat) >= pow10((-e) as nat)) by (nonlinear_arith)
                            requires
                                m.den >= 1,
                                pow10((-e) as nat) > 0,
                        ;
                    }
                }
                Entry::Rejected
            },
        }
    } else {
        if m.num == 0 {
            proof {
                assert forall|e: int| e >= 0 implies #[trigger] scaled(q(m), e) == Entry::Number(
                    Ratio { num: 0, den: m.den },
                ) by {
                    assert(m.num * pow10(e as nat) == 0) by (nonlinear_arith)
                        requires
                            m.num == 0,
                    ;
                }
            }
            return Entry::Number(Ratio { num: 0, den: m.den });
        }
        match p {
            Some(p) => {
                proof {
                    assert(m.num * p <= INPUT_MAX * INPUT_MAX) by (nonlinear_arith)
                        requires
                            m.num <= INPUT_MAX,
                            p <= INPUT_MAX,
                    ;
                }
                let num = m.num * p;
                proof {
                    assert(held(q(m)) is Some);
                }
                if num > INPUT_MAX {
                    Entry::Rejected
                } else {
                    Entry::Number(Ratio { num, den: m.den })
                }
            },
            None => {
                proof {
                    if x is Some {
                        let a = x->Some_0 as int;
                        lemma_pow10_grows(0, a as nat);
                        assert(m.num * pow10(a as nat) >= pow10(a as nat)) by (nonlinear_arith)
                            requires
                                m.num >= 1,
                                pow10(a as nat) > 0,
                        ;
                    }
                    assert forall|e: int| e > INPUT_MAX implies #[trigger] scaled(q(m), e) == Entry::Rejected by {
                        lemma_pow10_exceeds_input();
                        lemma_pow10_grows(20, e as nat);
                        assert(m.num * pow10(e as nat) >= pow10(e as nat)) by (nonlinear_arith)
                            requires
                                m.num >= 1,
                                pow10(e as nat) > 0,
                        ;
                    }
                }
                Entry::Rejected
            },
        }
    }
}

/// Reads an exponent: its sign, and its size unless that exceeds 64 bits.
fn read_exponent(t: &[u8]) -> (r: Option<(bool, Option<u128>)>)
    ensures
        match exponent_value(t@) {
            None => r is None,
            Some(x) => r matches Some((negative, size)) && (size matches Some(a) ==> a <= INPUT_MAX && x == (
            if negative {
                -a
            } else {
                a as int
            })) && (size is None ==> (if negative {
                -x
            } else {
                x
            }) > INPUT_MAX),
        },
{
    let n = t.len();
    let start: usize = if n > 0 && (t[0] == 0x2b || t[0] == 0x2d) {
        1
    } else {
        0
    };
    let digits = slice_subrange(t, start, n);
    assert(digits@ =~= unsigned_part(t@));
    assert(t@.subrange(start as int, n as int) =~= digits@);
    if digits.len() == 0 || !are_digits(t, start, n) {
        return None;
    }
    let negative = t[0] == 0x2d;
    proof {
        lemma_digits_value_nonnegative(digits@);
    }
    Some((negative, digits_value_capped(t, start, n)))
}

/// Reads a value typed into a field the way floating-point parsing does:
/// an optional sign, then `inf`, `infinity` or `nan` in any case, or decimal
/// digits with at most one `.` (at least one digit), optionally followed by
/// an exponent (`e` or `E`, an optional sign, digits). `None` where the text
/// is of no such form; `Rejected` for a negative number, not a number, an
/// infinity, or a value that does not fit 64-bit numerator and denominator.
pub fn parse_entry(s: &[u8]) -> (r: Option<Entry>)
    ensures
        r == entry_of(s@),
        r matches Some(Entry::Number(v)) ==> is_input(v),
{
    let n = s.len();
    let start: usize = if n > 0 && (s[0] == 0x2b || s[0] == 0x2d) {
        1
    } else {
        0
    };
    let body = slice_subrange(s, start, n);
    assert(body@ =~= unsigned_part(s@));
    if special_word(body) {
        return Some(Entry::Rejected);
    }
    let negative = n > 0 && s[0] == 0x2d;
    let (mantissa, exponent) = match find_exponent_mark(body) {
        None => (body, None),
        Some(k) => {
            let rest = slice_subrange(body, k + 1, body.len());
            assert(rest@ =~= body@.skip(k + 1));
            (slice_subrange(body, 0, k), Some(rest))
        },
    };
    proof {
        if exponent is Some {
            assert(mantissa@ =~= body@.take(first_exponent_mark(body@, 0)));
        }
    }
    let m = match read_decimal(mantissa) {
        None => return None,
        Some(m) => m,
    };
    let scale_by = match exponent {
        None => (false, Some(0u128)),
        Some(t) => match read_exponent(t) {
            None => return None,
            Some(e) => e,
        },
    };
    if negative {
        return Some(Entry::Rejected);
    }
    match m {
        None => Some(Entry::Rejected),
        Some(m) => {
            let r = scale(m, scale_by.1, scale_by.0);
            proof {
                if exponent is Some {
                    let x = exponent_value(body@.skip(first_exponent_mark(body@, 0) + 1))->Some_0;
                    if scale_by.1 is None {
                        assert(scaled(q(m), x) == r);
                    }
                }
            }
            Some(r)
        },
    }
}

} // verus!
