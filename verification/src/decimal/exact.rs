//! Decimal numbers that come to a whole number.

use vstd::arithmetic::power2;
use vstd::prelude::*;

use crate::decimal;
use crate::text;

verus! {

/// A row of digits before a dot and one behind it are the parts of the number.
pub proof fn lemma_number_parts(whole: Seq<char>, fraction: Seq<char>)
    requires
        decimal::all_digits(whole),
        decimal::all_digits(fraction),
    ensures
        fraction.len() > 0 ==> decimal::whole_part(whole + seq!['.'] + fraction) == whole && decimal::fraction_part(
            whole + seq!['.'] + fraction,
        ) == fraction,
        fraction.len() == 0 ==> decimal::whole_part(whole) == whole && decimal::fraction_part(whole) == fraction,
{
    if fraction.len() > 0 {
        let s = whole + seq!['.'] + fraction;
        lemma_dot_at(s, whole.len() as int);
        assert(s.subrange(0, whole.len() as int) =~= whole);
        assert(s.skip(whole.len() as int + 1) =~= fraction);
    } else {
        lemma_dot_at(whole, whole.len() as int);
        assert(whole.subrange(0, whole.len() as int) =~= whole);
        assert(fraction =~= Seq::empty());
    }
}

proof fn lemma_dot_at(s: Seq<char>, at: int)
    requires
        0 <= at <= s.len(),
        at < s.len() ==> s[at] == '.',
        forall|i: int| 0 <= i < at ==> decimal::is_digit(#[trigger] s[i]),
    ensures
        decimal::dot_at(s) == at,
    decreases s.len(),
{
    if at > 0 {
        assert(decimal::is_digit(s[0]));
        lemma_dot_at(s.skip(1), at - 1);
    }
}

proof fn lemma_pow10_positive(k: nat)
    ensures
        decimal::pow10(k) > 0,
    decreases k,
{
    if k > 0 {
        lemma_pow10_positive((k - 1) as nat);
    }
}

proof fn lemma_bits_below(n: nat, k: nat)
    requires
        n < power2::pow2(k),
    ensures
        decimal::bits(n) <= k,
    decreases k,
{
    power2::lemma2_to64();
    if n > 0 {
        if k > 0 {
            power2::lemma_pow2_unfold(k);
            lemma_bits_below(n / 2, (k - 1) as nat);
        }
    }
}

proof fn lemma_nearest_of_multiple(q: nat, b: nat)
    requires
        b > 0,
    ensures
        decimal::nearest(q * b, b) == q,
        (q * b) / b == q,
{
    vstd::arithmetic::div_mod::lemma_div_multiples_vanish(q as int, b as int);
    vstd::arithmetic::div_mod::lemma_mod_multiples_basic(q as int, b as int);
    vstd::arithmetic::mul::lemma_mul_is_commutative(q as int, b as int);
}

/// Where a decimal number times a power of two is a whole number below 2^53, it is
/// read as that number.
pub proof fn law_whole_results_are_exact(s: Seq<char>, shift: nat, bytes: nat)
    requires
        decimal::is_decimal(s),
        bytes * decimal::pow10(decimal::fraction_part(s).len()) == decimal::digits_value(
            decimal::whole_part(s) + decimal::fraction_part(s),
        ) * power2::pow2(shift),
        bytes < 0x20_0000_0000_0000,
    ensures
        decimal::scaled_whole(s, shift) == bytes,
{
    let m = decimal::pow10(decimal::fraction_part(s).len());
    let n = decimal::digits_value(decimal::whole_part(s) + decimal::fraction_part(s)) * power2::pow2(shift);
    lemma_pow10_positive(decimal::fraction_part(s).len());
    assert(n == bytes * m);
    lemma_nearest_of_multiple(bytes, m);
    power2::lemma2_to64();
    power2::lemma2_to64_rest();
    lemma_bits_below(bytes, 53);
    let e = decimal::bits(n / m) - 53;
    assert(n / m == bytes);
    if bytes == 0 {
        assert(n == 0) by (nonlinear_arith)
            requires
                n == bytes * m,
                bytes == 0,
        ;
    } else {
        assert(n >= m) by (nonlinear_arith)
            requires
                n == bytes * m,
                bytes >= 1,
        ;
        let p = power2::pow2((-e) as nat);
        power2::lemma_pow2_pos((-e) as nat);
        assert(n * p == (bytes * p) * m) by (nonlinear_arith)
            requires
                n == bytes * m,
        ;
        lemma_nearest_of_multiple((bytes * p) as nat, m);
        lemma_nearest_of_multiple(bytes, p);
        if e == 0 {
            assert(p == 1);
            assert(m * p == m);
            assert(decimal::nearest(n, m) == bytes);
        }
    }
}

/// A number in decimal digits is read back as that number.
pub proof fn law_digits_read_back(n: nat)
    ensures
        decimal::digits_value(text::decimal_text(n)) == n,
        decimal::all_digits(text::decimal_text(n)),
        text::decimal_text(n).len() > 0,
        n > 0 ==> text::decimal_text(n)[0] != '0',
    decreases n,
{
    let s = text::decimal_text(n);
    let last = ((48 + n % 10) as u8) as char;
    assert(s.last() == last);
    assert(last as int == 48 + n % 10);
    if n < 10 {
        assert(s.drop_last() =~= Seq::empty());
        assert(decimal::digits_value(s.drop_last()) == 0);
    } else {
        law_digits_read_back(n / 10);
        assert(s.drop_last() =~= text::decimal_text(n / 10));
        assert forall|i: int| 0 <= i < s.len() implies decimal::is_digit(#[trigger] s[i]) by {
            if i < s.len() - 1 {
                assert(s[i] == text::decimal_text(n / 10)[i]);
            }
        }
        assert(s[0] == text::decimal_text(n / 10)[0]);
    }
}

/// A number of 2^64 or more is read as the greatest that there is.
pub proof fn law_great_numbers_are_capped(s: Seq<char>, shift: nat)
    requires
        decimal::is_decimal(s),
        decimal::digits_value(decimal::whole_part(s) + decimal::fraction_part(s)) * power2::pow2(shift)
            >= 0x1_0000_0000_0000_0000 * decimal::pow10(decimal::fraction_part(s).len()),
    ensures
        decimal::scaled_whole(s, shift) == u64::MAX,
{
    let m = decimal::pow10(decimal::fraction_part(s).len());
    let n = decimal::digits_value(decimal::whole_part(s) + decimal::fraction_part(s)) * power2::pow2(shift);
    lemma_pow10_positive(decimal::fraction_part(s).len());
    let top: int = 0x1_0000_0000_0000_0000;
    vstd::arithmetic::div_mod::lemma_fundamental_div_mod(n as int, m as int);
    let q = n as int / m as int;
    assert(q >= top) by (nonlinear_arith)
        requires
            n >= top * m,
            n == m * q + n % m,
            0 <= n % m < m,
            m > 0,
    ;
    decimal::lemma_too_big(n, m);
}

/// A fraction of a byte, up to one half of it, is cut, for sizes below 2^52.
pub proof fn law_small_fractions_are_cut(s: Seq<char>, shift: nat, whole: nat, rest: nat)
    requires
        decimal::is_decimal(s),
        decimal::digits_value(decimal::whole_part(s) + decimal::fraction_part(s)) * power2::pow2(shift) == whole
            * decimal::pow10(decimal::fraction_part(s).len()) + rest,
        2 * rest <= decimal::pow10(decimal::fraction_part(s).len()),
        0 < whole < 0x10_0000_0000_0000,
    ensures
        decimal::scaled_whole(s, shift) == whole,
{
    let m = decimal::pow10(decimal::fraction_part(s).len());
    let n = decimal::digits_value(decimal::whole_part(s) + decimal::fraction_part(s)) * power2::pow2(shift);
    lemma_pow10_positive(decimal::fraction_part(s).len());
    assert(rest < m);
    vstd::arithmetic::div_mod::lemma_fundamental_div_mod_converse(n as int, m as int, whole as int, rest as int);
    assert(n / m == whole);
    power2::lemma2_to64();
    power2::lemma2_to64_rest();
    lemma_bits_below(whole, 52);
    let k = (53 - decimal::bits(whole)) as nat;
    assert(k >= 1);
    let p = power2::pow2(k);
    power2::lemma_pow2_unfold(k);
    power2::lemma_pow2_pos((k - 1) as nat);
    let half = power2::pow2((k - 1) as nat);
    assert(p == 2 * half);
    assert(n >= m) by (nonlinear_arith)
        requires
            n == whole * m + rest,
            whole >= 1,
    ;
    let a = (n * p) as nat;
    // The scaled number lies between `whole * p` and half a unit above it.
    let q = a as int / m as int;
    let r = a as int % m as int;
    vstd::arithmetic::div_mod::lemma_fundamental_div_mod(a as int, m as int);
    assert(a == (whole * p) * m + rest * p) by (nonlinear_arith)
        requires
            a == n * p,
            n == whole * m + rest,
    ;
    assert(rest * p <= half * m) by (nonlinear_arith)
        requires
            p == 2 * half,
            2 * rest <= m,
            half > 0,
    ;
    assert(q >= whole * p) by (nonlinear_arith)
        requires
            a == m * q + r,
            0 <= r < m,
            a >= (whole * p) * m,
            m > 0,
    ;
    assert(q <= whole * p + half && (q == whole * p + half ==> r == 0)) by (nonlinear_arith)
        requires
            a == m * q + r,
            0 <= r < m,
            a <= (whole * p) * m + half * m,
            m > 0,
    ;
    let near = decimal::nearest(a, m);
    assert(near <= whole * p + half && near >= whole * p);
    assert(near / p == whole) by {
        vstd::arithmetic::div_mod::lemma_fundamental_div_mod_converse(
            near as int,
            p as int,
            whole as int,
            near - whole * p,
        );
        vstd::arithmetic::mul::lemma_mul_is_commutative(whole as int, p as int);
    }
    assert(whole <= u64::MAX);
    let e = decimal::bits(n / m) - 53;
    assert(e < 0 && (-e) as nat == k);
}

/// A number has at most one dot and at least one digit; a digit may be wanting before or
/// behind the dot.
pub proof fn law_decimal_numbers(a: Seq<char>, b: Seq<char>, c: Seq<char>)
    requires
        decimal::all_digits(a),
        decimal::all_digits(b),
    ensures
        decimal::is_decimal(a) <==> a.len() > 0,
        b.len() > 0 ==> decimal::is_decimal(a + seq!['.'] + b),
        a.len() > 0 ==> decimal::is_decimal(a + seq!['.']),
        !decimal::is_decimal(seq!['.']),
        !decimal::is_decimal(a + seq!['.'] + b + seq!['.'] + c),
{
    let none = Seq::<char>::empty();
    lemma_number_parts(a, none);
    lemma_number_parts(a, b);
    let ended = a + seq!['.'];
    lemma_dot_at(ended, a.len() as int);
    assert(ended.subrange(0, a.len() as int) =~= a);
    assert(ended.skip(a.len() as int + 1).len() == 0);
    let dot = seq!['.'];
    lemma_dot_at(dot, 0);
    assert(dot.subrange(0, 0).len() == 0 && dot.skip(1).len() == 0);
    let two = a + seq!['.'] + b + seq!['.'] + c;
    lemma_dot_at(two, a.len() as int);
    let rest = two.skip(a.len() as int + 1);
    assert(rest[b.len() as int] == '.');
    if decimal::all_digits(decimal::fraction_part(two)) {
        assert(decimal::is_digit(rest[b.len() as int]));
    }
}

} // verus!
