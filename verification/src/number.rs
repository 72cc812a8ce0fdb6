//! Decimal numbers: reading them as `str::parse` does and writing them zero-padded.
use vstd::prelude::*;

verus! {

/// An ASCII decimal digit.
pub open spec fn is_digit(c: char) -> bool {
    48 <= c as u32 <= 57
}

pub open spec fn digit_value(c: char) -> nat {
    (c as u32 - 48) as nat
}

pub open spec fn all_digits(s: Seq<char>) -> bool {
    forall|i: int| 0 <= i < s.len() ==> is_digit(#[trigger] s[i])
}

/// The number written by the decimal digits `s`.
pub open spec fn digits_value(s: Seq<char>) -> nat
    decreases s.len(),
{
    if s.len() == 0 {
        0
    } else {
        digits_value(s.drop_last()) * 10 + digit_value(s.last())
    }
}

/// `str::parse` for an unsigned integer type whose largest value is `max`:
/// an optional `+`, then at least one decimal digit, and no overflow.
pub open spec fn parse_unsigned(s: Seq<char>, max: nat) -> Option<nat> {
    let d = if s.len() > 0 && s[0] == '+' {
        s.drop_first()
    } else {
        s
    };
    if d.len() > 0 && all_digits(d) && digits_value(d) <= max {
        Some(digits_value(d))
    } else {
        None
    }
}

pub proof fn lemma_digits_value_prefix(s: Seq<char>, i: int)
    requires
        0 <= i <= s.len(),
    ensures
        digits_value(s.take(i)) <= digits_value(s),
    decreases s.len(),
{
    if i < s.len() {
        assert(s.drop_last().take(i) =~= s.take(i));
        lemma_digits_value_prefix(s.drop_last(), i);
    } else {
        assert(s.take(i) =~= s);
    }
}

/// Parses `v[a..b]` as an unsigned decimal number no larger than `max`.
pub fn parse_span_unsigned(v: &Vec<char>, a: usize, b: usize, max: u64) -> (r: Option<u64>)
    requires
        a <= b <= v.len(),
        max <= u32::MAX,
    ensures
        match parse_unsigned(v@.subrange(a as int, b as int), max as nat) {
            Some(n) => r == Some(n as u64),
            None => r is None,
        },
{
    let ghost s = v@.subrange(a as int, b as int);
    let mut start = a;
    if a < b && v[a] == '+' {
        start = a + 1;
    }
    let ghost d = v@.subrange(start as int, b as int);
    assert(d =~= (if s.len() > 0 && s[0] == '+' { s.drop_first() } else { s }));
    if start == b {
        return None;
    }
    let mut acc: u64 = 0;
    let mut k = start;
    assert(d.take(0) =~= Seq::<char>::empty());
    while k < b
        invariant
            a <= start <= k <= b <= v.len(),
            max <= u32::MAX,
            d == v@.subrange(start as int, b as int),
            s == v@.subrange(a as int, b as int),
            d == (if s.len() > 0 && s[0] == '+' { s.drop_first() } else { s }),
            all_digits(d.take(k - start)),
            acc == digits_value(d.take(k - start)),
            acc <= max,
        decreases b - k,
    {
        let c = v[k];
        let u = c as u32;
        if u < 48 || u > 57 {
            assert(d[k - start] == c);
            assert(!is_digit(d[k - start]));
            assert(!all_digits(d));
            assert(parse_unsigned(s, max as nat) is None);
            return None;
        }
        assert(d.take(k - start + 1).drop_last() =~= d.take(k - start));
        assert(d.take(k - start + 1).last() == c);
        acc = acc * 10 + (u - 48) as u64;
        k = k + 1;
        if acc > max {
            assert(acc == digits_value(d.take(k - start)));
            proof {
                if all_digits(d) {
                    lemma_digits_value_prefix(d, k - start);
                    assert(digits_value(d) > max);
                }
            }
            assert(parse_unsigned(s, max as nat) is None);
            return None;
        }
    }
    assert(d.take(k - start) =~= d);
    Some(acc)
}

/// The digit character for `d < 10`.
pub open spec fn digit_char(d: nat) -> char {
    ((d + 48) as u32) as char
}

/// The shortest decimal form of `n`.
pub open spec fn decimal(n: nat) -> Seq<char>
    decreases n,
{
    if n < 10 {
        seq![digit_char(n)]
    } else {
        decimal(n / 10).push(digit_char(n % 10))
    }
}

pub open spec fn zeros(k: nat) -> Seq<char> {
    Seq::new(k, |i: int| '0')
}

/// The decimal form of `n` with zeros in front up to `width` characters (`{:0width$}`).
pub open spec fn padded(n: nat, width: nat) -> Seq<char> {
    let d = decimal(n);
    if d.len() < width {
        zeros((width - d.len()) as nat) + d
    } else {
        d
    }
}

/// Appends the decimal form of `n`.
pub fn push_decimal(s: &mut String, n: u64)
    ensures
        final(s)@ == old(s)@ + decimal(n as nat),
    decreases n,
{
    if n >= 10 {
        push_decimal(s, n / 10);
    }
    let d: u8 = (n % 10) as u8;
    let c: char = (d + 48) as char;
    crate::text::push_char(s, c);
    proof {
        if n >= 10 {
            assert(old(s)@ + decimal(n as nat) =~= old(s)@ + decimal((n / 10) as nat) + seq![c]);
        } else {
            assert(old(s)@ + decimal(n as nat) =~= old(s)@ + seq![c]);
        }
    }
}

pub open spec fn pow10(k: nat) -> nat
    decreases k,
{
    if k == 0 {
        1
    } else {
        10 * pow10((k - 1) as nat)
    }
}

pub proof fn lemma_decimal_len_bound(n: nat, k: nat)
    requires
        k >= 1,
        n < pow10(k),
    ensures
        decimal(n).len() <= k,
    decreases k,
{
    if n >= 10 {
        assert(k >= 2) by {
            if k == 1 {
                reveal_with_fuel(pow10, 2);
            }
        }
        lemma_decimal_len_bound(n / 10, (k - 1) as nat);
    }
}

/// The number of characters in the decimal form of `n`.
pub fn decimal_len(n: u64) -> (l: usize)
    ensures
        l == decimal(n as nat).len(),
        1 <= l <= 20,
    decreases n,
{
    proof {
        reveal_with_fuel(pow10, 21);
        assert(u64::MAX < pow10(20));
        lemma_decimal_len_bound(n as nat, 20);
    }
    if n >= 10 {
        decimal_len(n / 10) + 1
    } else {
        1
    }
}

/// Appends `n` with zeros in front up to `width` characters.
pub fn push_padded(s: &mut String, n: u64, width: usize)
    ensures
        final(s)@ == old(s)@ + padded(n as nat, width as nat),
{
    let len = decimal_len(n);
    if len < width {
        let mut k: usize = 0;
        while k < width - len
            invariant
                len < width,
                k <= width - len,
                s@ == old(s)@ + zeros(k as nat),
            decreases width - len - k,
        {
            crate::text::push_char(s, '0');
            k = k + 1;
            assert(s@ =~= old(s)@ + zeros(k as nat));
        }
    }
    let ghost mid = s@;
    push_decimal(s, n);
    proof {
        if len < width {
            assert(s@ =~= old(s)@ + padded(n as nat, width as nat));
        } else {
            assert(s@ =~= old(s)@ + padded(n as nat, width as nat));
        }
    }
}

pub proof fn lemma_decimal_digits(n: nat)
    ensures
        all_digits(decimal(n)),
        digits_value(decimal(n)) == n,
        decimal(n).len() >= 1,
    decreases n,
{
    let c = digit_char(n % 10);
    assert(digit_value(c) == n % 10);
    if n >= 10 {
        lemma_decimal_digits(n / 10);
        assert(n == (n / 10) * 10 + n % 10) by (nonlinear_arith);
        let d = decimal(n);
        assert(d.drop_last() =~= decimal(n / 10));
        assert(d.last() == c);
        assert(digits_value(d) == digits_value(decimal(n / 10)) * 10 + digit_value(c));
        assert(digits_value(d) == n);
    } else {
        assert(decimal(n).drop_last() =~= Seq::<char>::empty());
        assert(decimal(n).last() == c);
        assert(digits_value(Seq::<char>::empty()) == 0);
        assert(digits_value(decimal(n)) == n);
    }
}

pub proof fn lemma_zeros_prefix(k: nat, d: Seq<char>)
    ensures
        digits_value(zeros(k) + d) == digits_value(d),
        all_digits(d) ==> all_digits(zeros(k) + d),
    decreases d.len(),
{
    if d.len() > 0 {
        assert((zeros(k) + d).drop_last() =~= zeros(k) + d.drop_last());
        lemma_zeros_prefix(k, d.drop_last());
    } else {
        assert(zeros(k) + d =~= zeros(k));
        lemma_zeros_value(k);
    }
}

pub proof fn lemma_zeros_value(k: nat)
    ensures
        digits_value(zeros(k)) == 0,
    decreases k,
{
    if k > 0 {
        assert(zeros(k).drop_last() =~= zeros((k - 1) as nat));
        lemma_zeros_value((k - 1) as nat);
    }
}

/// The zero-padded decimal form reads back as the number it was made from.
pub proof fn lemma_padded_digits(n: nat, width: nat)
    ensures
        all_digits(padded(n, width)),
        digits_value(padded(n, width)) == n,
        padded(n, width).len() >= width,
        padded(n, width).len() >= 1,
{
    lemma_decimal_digits(n);
    if decimal(n).len() < width {
        lemma_zeros_prefix((width - decimal(n).len()) as nat, decimal(n));
    }
}

/// A run of `k` decimal digits is below `10^k`.
pub proof fn lemma_digits_value_bound(s: Seq<char>)
    requires
        all_digits(s),
    ensures
        digits_value(s) < pow10(s.len()),
    decreases s.len(),
{
    if s.len() > 0 {
        lemma_digits_value_bound(s.drop_last());
        assert(is_digit(s.last()));
        assert(digits_value(s) == digits_value(s.drop_last()) * 10 + digit_value(s.last()));
        assert(digits_value(s.drop_last()) + 1 <= pow10(s.drop_last().len()));
        assert(digits_value(s.drop_last()) * 10 + 10 <= pow10(s.drop_last().len()) * 10) by (nonlinear_arith)
            requires
                digits_value(s.drop_last()) + 1 <= pow10(s.drop_last().len()),
        ;
    }
}

/// The value of two digit runs written one after the other.
pub proof fn lemma_digits_value_concat(a: Seq<char>, b: Seq<char>)
    ensures
        digits_value(a + b) == digits_value(a) * pow10(b.len()) + digits_value(b),
    decreases b.len(),
{
    if b.len() == 0 {
        assert(a + b =~= a);
        assert(pow10(0) == 1);
        assert(digits_value(b) == 0);
    } else {
        assert((a + b).drop_last() =~= a + b.drop_last());
        assert((a + b).last() == b.last());
        lemma_digits_value_concat(a, b.drop_last());
        let x = digits_value(a);
        let p = pow10(b.drop_last().len());
        let y = digits_value(b.drop_last());
        assert((x * p + y) * 10 == x * (10 * p) + y * 10) by (nonlinear_arith);
        assert(pow10(b.len()) == 10 * p);
        assert(digits_value(b) == y * 10 + digit_value(b.last()));
        assert(digits_value(a + b) == (x * p + y) * 10 + digit_value(b.last()));
        assert(x * (10 * p) == x * pow10(b.len()));
    }
}

/// A non-empty run of digits parses to its value when that value fits.
pub proof fn lemma_parse_digits(s: Seq<char>, max: nat)
    requires
        s.len() > 0,
        all_digits(s),
        digits_value(s) <= max,
    ensures
        parse_unsigned(s, max) == Some(digits_value(s)),
{
    assert(is_digit(s[0]));
}

/// The zero-padded form of a number below `10^width` is exactly `width` digits long.
pub proof fn lemma_padded_len(n: nat, width: nat)
    requires
        width >= 1,
        n < pow10(width),
    ensures
        padded(n, width).len() == width,
        all_digits(padded(n, width)),
        digits_value(padded(n, width)) == n,
{
    lemma_decimal_len_bound(n, width);
    lemma_padded_digits(n, width);
}

} // verus!
