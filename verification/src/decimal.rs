//! Decimal numbers as text, scaled by a power of two and cut to whole numbers the
//! way binary floating point with 53 significant bits cuts them.

use vstd::arithmetic::power2;
use vstd::prelude::*;

pub mod exact;

verus! {

pub open spec fn is_digit(c: char) -> bool {
    '0' <= c <= '9'
}

/// The number that a row of digits writes.
pub open spec fn digits_value(s: Seq<char>) -> nat
    decreases s.len(),
{
    if s.len() == 0 {
        0
    } else {
        (digits_value(s.drop_last()) * 10 + (s.last() as int - '0' as int)) as nat
    }
}

pub open spec fn pow10(k: nat) -> nat
    decreases k,
{
    if k == 0 {
        1
    } else {
        10 * pow10((k - 1) as nat)
    }
}

/// The place of the first dot, or the length.
pub open spec fn dot_at(s: Seq<char>) -> int
    decreases s.len(),
{
    if s.len() == 0 {
        0
    } else if s[0] == '.' {
        0
    } else {
        1 + dot_at(s.skip(1))
    }
}

pub open spec fn all_digits(s: Seq<char>) -> bool {
    forall|i: int| 0 <= i < s.len() ==> is_digit(#[trigger] s[i])
}

/// What stands before the dot.
pub open spec fn whole_part(s: Seq<char>) -> Seq<char> {
    s.subrange(0, dot_at(s))
}

/// What stands behind the dot.
pub open spec fn fraction_part(s: Seq<char>) -> Seq<char> {
    if dot_at(s) < s.len() {
        s.skip(dot_at(s) + 1)
    } else {
        Seq::empty()
    }
}

/// Digits with at most one dot, and at least one digit.
pub open spec fn is_decimal(s: Seq<char>) -> bool {
    &&& all_digits(whole_part(s))
    &&& all_digits(fraction_part(s))
    &&& whole_part(s).len() + fraction_part(s).len() > 0
}

/// The number of binary digits.
pub open spec fn bits(n: nat) -> nat
    decreases n,
{
    if n == 0 {
        0
    } else {
        1 + bits(n / 2)
    }
}

/// The whole number nearest to `a / b`; of two equally near ones the even one.
pub open spec fn nearest(a: nat, b: nat) -> nat {
    let q = a / b;
    let r = a % b;
    if 2 * r < b {
        q
    } else if 2 * r > b {
        q + 1
    } else {
        q + q % 2
    }
}

/// The whole part of the number with 53 significant bits that is nearest to
/// `n / m`.
pub open spec fn rounded_whole(n: nat, m: nat) -> nat {
    let e = bits(n / m) - 53;
    if 2 * n < m {
        0
    } else if e >= 0 {
        nearest(n, m * power2::pow2(e as nat)) * power2::pow2(e as nat)
    } else {
        nearest(n * power2::pow2((-e) as nat), m) / power2::pow2((-e) as nat)
    }
}

/// The number or, where it does not fit, the greatest `u64`.
pub open spec fn fit(n: nat) -> u64 {
    if n > u64::MAX {
        u64::MAX
    } else {
        n as u64
    }
}

/// The decimal number times two to the power of `shift`, rounded to 53
/// significant bits and cut to a whole number.
pub open spec fn scaled_whole(s: Seq<char>, shift: nat) -> u64 {
    fit(
        rounded_whole(
            digits_value(whole_part(s) + fraction_part(s)) * power2::pow2(shift),
            pow10(fraction_part(s).len()),
        ),
    )
}

// ---- digits of a fraction ---------------------------------------------

/// The number that a row of decimal digits writes.
spec fn value(g: Seq<u8>) -> nat
    decreases g.len(),
{
    if g.len() == 0 {
        0
    } else {
        value(g.drop_last()) * 10 + g.last() as nat
    }
}

spec fn decimal_digits(g: Seq<u8>) -> bool {
    forall|i: int| 0 <= i < g.len() ==> (#[trigger] g[i]) <= 9
}

proof fn lemma_pow10_positive(k: nat)
    ensures
        pow10(k) > 0,
    decreases k,
{
    if k > 0 {
        lemma_pow10_positive((k - 1) as nat);
    }
}

proof fn lemma_value_first(g: Seq<u8>)
    requires
        g.len() > 0,
    ensures
        value(g) == g[0] * pow10((g.len() - 1) as nat) + value(g.skip(1)),
    decreases g.len(),
{
    let k = (g.len() - 1) as nat;
    if g.len() == 1 {
        assert(g.drop_last().len() == 0);
        assert(g.skip(1).len() == 0);
        assert(value(g.drop_last()) == 0);
        assert(pow10(0) == 1);
    } else {
        let front = g.drop_last();
        lemma_value_first(front);
        assert(front.skip(1) =~= g.skip(1).drop_last());
        assert(g.skip(1).last() == g.last());
        let p = pow10((k - 1) as nat);
        assert(pow10(k) == 10 * p);
        let (d, r) = (g[0] as int, value(front.skip(1)) as int);
        assert((d * p + r) * 10 == d * (10 * p) + r * 10) by (nonlinear_arith);
    }
}

proof fn lemma_value_bound(g: Seq<u8>)
    requires
        decimal_digits(g),
    ensures
        value(g) < pow10(g.len()),
    decreases g.len(),
{
    if g.len() > 0 {
        let front = g.drop_last();
        assert(decimal_digits(front)) by {
            assert forall|i: int| 0 <= i < front.len() implies (#[trigger] front[i]) <= 9 by {
                assert(front[i] == g[i]);
            }
        }
        lemma_value_bound(front);
        assert(g[g.len() - 1] <= 9);
    }
}

proof fn lemma_value_zero(g: Seq<u8>)
    requires
        decimal_digits(g),
    ensures
        value(g) == 0 <==> forall|i: int| 0 <= i < g.len() ==> #[trigger] g[i] == 0,
    decreases g.len(),
{
    if g.len() > 0 {
        let front = g.drop_last();
        assert(decimal_digits(front)) by {
            assert forall|i: int| 0 <= i < front.len() implies (#[trigger] front[i]) <= 9 by {
                assert(front[i] == g[i]);
            }
        }
        lemma_value_zero(front);
        if value(g) == 0 {
            assert forall|i: int| 0 <= i < g.len() implies #[trigger] g[i] == 0 by {
                if i < front.len() {
                    assert(front[i] == g[i]);
                }
            }
        }
        if forall|i: int| 0 <= i < g.len() ==> #[trigger] g[i] == 0 {
            assert forall|i: int| 0 <= i < front.len() implies #[trigger] front[i] == 0 by {
                assert(front[i] == g[i]);
            }
            assert(g[g.len() - 1] == 0);
        }
    }
}

/// Doubles the fraction that the digits write, and returns what it carries over
/// one.
fn double(g: &mut Vec<u8>) -> (carry: u8)
    requires
        decimal_digits(old(g)@),
    ensures
        final(g)@.len() == old(g)@.len(),
        decimal_digits(final(g)@),
        carry <= 1,
        2 * value(old(g)@) == carry * pow10(old(g)@.len()) + value(final(g)@),
{
    let ghost before = g@;
    let n: usize = g.len();
    let mut i: usize = n;
    let mut carry: u8 = 0;
    assert(before.skip(n as int).len() == 0);
    while i > 0
        invariant
            n == before.len(),
            g@.len() == n,
            i <= n,
            carry <= 1,
            decimal_digits(before),
            forall|k: int| 0 <= k < i ==> #[trigger] g@[k] == before[k],
            forall|k: int| i <= k < n ==> (#[trigger] g@[k]) <= 9,
            2 * value(before.skip(i as int)) == carry * pow10((n - i) as nat) + value(g@.skip(i as int)),
        decreases i,
    {
        let ghost g_before = g@;
        let ghost c0 = carry;
        i -= 1;
        assert(before[i as int] <= 9);
        assert(g@[i as int] == before[i as int]);
        let d: u8 = g[i] * 2 + carry;
        if d >= 10 {
            g[i] = d - 10;
            carry = 1;
        } else {
            g[i] = d;
            carry = 0;
        }
        proof {
            let a = before.skip(i as int);
            let b = g@.skip(i as int);
            lemma_value_first(a);
            lemma_value_first(b);
            assert(a.skip(1) =~= before.skip(i + 1));
            assert(b.skip(1) =~= g_before.skip(i + 1));
            let p = pow10((n - i - 1) as nat);
            assert(pow10((n - i) as nat) == 10 * p);
            let (x, y, c) = (before[i as int] as int, g@[i as int] as int, carry as int);
            assert(2 * x + c0 == c * 10 + y);
            assert(2 * (x * p) + c0 * p == c * (10 * p) + y * p) by (nonlinear_arith)
                requires
                    2 * x + c0 == c * 10 + y,
            ;
        }
    }
    assert(before.skip(0) =~= before);
    assert(g@.skip(0) =~= g@);
    assert(decimal_digits(g@));
    carry
}

/// Whether all digits are zero.
fn is_zero(g: &Vec<u8>) -> (r: bool)
    requires
        decimal_digits(g@),
    ensures
        r == (value(g@) == 0),
{
    let n: usize = g.len();
    let mut i: usize = 0;
    while i < n
        invariant
            n == g@.len(),
            i <= n,
            decimal_digits(g@),
            forall|k: int| 0 <= k < i ==> #[trigger] g@[k] == 0,
        decreases n - i,
    {
        if g[i] != 0 {
            proof {
                lemma_value_zero(g@);
            }
            return false;
        }
        i += 1;
    }
    proof {
        lemma_value_zero(g@);
    }
    true
}

/// Whether doubling the fraction carries a one `count` times in a row: whether
/// what it lacks to one is at most one in two to the power of `count`.
#[verifier::loop_isolation(false)]
fn all_ones(g: Vec<u8>, count: u32) -> (r: bool)
    requires
        decimal_digits(g@),
        count <= 64,
    ensures
        r == ((pow10(g@.len()) - value(g@)) * power2::pow2(count as nat) <= pow10(g@.len())),
{
    let mut g: Vec<u8> = g;
    let ghost m = pow10(g@.len()) as int;
    let ghost v = value(g@) as int;
    let ghost len = g@.len();
    let mut i: u32 = 0;
    proof {
        lemma_pow2_facts(0);
        lemma_value_bound(g@);
    }
    while i < count
        invariant
            decimal_digits(g@),
            g@.len() == len,
            m == pow10(len),
            0 <= v < m,
            i <= count,
            (m - v) * power2::pow2(i as nat) == m - value(g@),
        decreases count - i,
    {
        let ghost w = value(g@) as int;
        let ghost p = power2::pow2(i as nat) as int;
        proof {
            lemma_pow2_facts(i as nat);
            lemma_pow2_facts((i + 1) as nat);
            lemma_value_bound(g@);
        }
        let carry: u8 = double(&mut g);
        proof {
            lemma_value_bound(g@);
            let w2 = value(g@) as int;
            assert(2 * w == carry * m + w2);
            assert((m - v) * (2 * p) == 2 * ((m - v) * p)) by (nonlinear_arith);
            assert(power2::pow2((i + 1) as nat) == 2 * p);
            if carry == 0 {
                assert(0 * m == 0);
                lemma_pow2_grows((i + 1) as nat, count as nat);
                let q = power2::pow2(count as nat) as int;
                assert((m - v) * q >= (m - v) * (2 * p)) by (nonlinear_arith)
                    requires
                        m - v > 0,
                        q >= 2 * p,
                ;
                assert((m - v) * q > m);
            } else {
                assert(1 * m == m);
            }
        }
        if carry == 0 {
            return false;
        }
        i += 1;
    }
    proof {
        lemma_value_bound(g@);
    }
    true
}

proof fn lemma_pow2_facts(k: nat)
    ensures
        power2::pow2(k) > 0,
        k == 0 ==> power2::pow2(k) == 1,
        k > 0 ==> power2::pow2(k) == 2 * power2::pow2((k - 1) as nat),
{
    power2::lemma_pow2_pos(k);
    power2::lemma2_to64();
    power2::lemma2_to64_rest();
    if k > 0 {
        power2::lemma_pow2_unfold(k);
    }
}

proof fn lemma_pow2_grows(a: nat, b: nat)
    requires
        a <= b,
    ensures
        power2::pow2(a) <= power2::pow2(b),
    decreases b,
{
    if a < b {
        lemma_pow2_facts(b);
        lemma_pow2_grows(a, (b - 1) as nat);
        lemma_pow2_facts((b - 1) as nat);
    }
}

// ---- rounding -----------------------------------------------------------

proof fn lemma_bits(n: nat)
    ensures
        n > 0 ==> bits(n) > 0 && power2::pow2((bits(n) - 1) as nat) <= n,
        n < power2::pow2(bits(n)),
    decreases n,
{
    lemma_pow2_facts(0);
    if n > 0 {
        lemma_bits(n / 2);
        lemma_pow2_facts(bits(n));
        lemma_pow2_facts(bits(n / 2));
    }
}

/// Quotient and remainder by a product.
proof fn lemma_divide_by_product(n: nat, m: nat, p: nat)
    requires
        m > 0,
        p > 0,
    ensures
        m * p > 0,
        n / (m * p) == (n / m) / p,
        n % (m * p) == ((n / m) % p) * m + n % m,
{
    let (f, r) = (n / m, n % m);
    let (q, low) = (f / p, f % p);
    assert(n == f * m + r) by {
        vstd::arithmetic::div_mod::lemma_fundamental_div_mod(n as int, m as int);
        assert(f * m == m * f) by (nonlinear_arith);
    }
    assert(f == q * p + low) by {
        vstd::arithmetic::div_mod::lemma_fundamental_div_mod(f as int, p as int);
        assert(q * p == p * q) by (nonlinear_arith);
    }
    assert(m * p > 0) by (nonlinear_arith)
        requires
            m > 0,
            p > 0,
    ;
    assert(n == q * (m * p) + (low * m + r)) by (nonlinear_arith)
        requires
            n == f * m + r,
            f == q * p + low,
    ;
    assert(0 <= low * m + r < m * p) by (nonlinear_arith)
        requires
            0 <= low < p,
            0 <= r < m,
    ;
    vstd::arithmetic::div_mod::lemma_fundamental_div_mod_converse(
        n as int,
        (m * p) as int,
        q as int,
        (low * m + r) as int,
    );
}

/// A number of 2^64 or more does not fit after rounding either.
pub(crate) proof fn lemma_too_big(n: nat, m: nat)
    requires
        m > 0,
        n / m >= 0x1_0000_0000_0000_0000,
    ensures
        fit(rounded_whole(n, m)) == u64::MAX,
{
    let f = n / m;
    lemma_bits(f);
    power2::lemma2_to64();
    power2::lemma2_to64_rest();
    let b = bits(f);
    if b <= 64 {
        lemma_pow2_grows(b, 64);
    }
    let e = (b - 53) as nat;
    let p = power2::pow2(e);
    lemma_pow2_facts(e);
    lemma_divide_by_product(n, m, p);
    let q = f / p;
    assert(power2::pow2((b - 1) as nat) == power2::pow2(52) * p) by {
        power2::lemma_pow2_adds(52, e);
    }
    let top = power2::pow2(52);
    assert(q >= top) by {
        vstd::arithmetic::div_mod::lemma_fundamental_div_mod(f as int, p as int);
        assert(q >= top) by (nonlinear_arith)
            requires
                f >= top * p,
                f == p * q + f % p,
                0 <= f % p < p,
        ;
    }
    let k = nearest(n, m * p);
    assert(k >= q);
    assert(k * p >= top * p) by (nonlinear_arith)
        requires
            k >= top,
            p > 0,
    ;
    lemma_pow2_grows(64, (b - 1) as nat);
    assert(2 * n >= m) by {
        vstd::arithmetic::div_mod::lemma_fundamental_div_mod(n as int, m as int);
        assert(n >= m) by (nonlinear_arith)
            requires
                n == m * f + n % m,
                n % m >= 0,
                f >= 1,
                m > 0,
        ;
    }
}

/// Rounding a number with more than 53 bits.
proof fn lemma_round_wide(n: nat, m: nat, e: nat)
    requires
        m > 0,
        e > 0,
        bits(n / m) == 53 + e,
    ensures
        ({
            let p = power2::pow2(e);
            let (q, low) = ((n / m) / p, (n / m) % p);
            let half = power2::pow2((e - 1) as nat);
            rounded_whole(n, m) == p * (if low > half || low == half && n % m > 0 {
                q + 1
            } else if low == half {
                q + q % 2
            } else {
                q
            })
        }),
{
    let p = power2::pow2(e);
    let half = power2::pow2((e - 1) as nat);
    let f = n / m;
    lemma_pow2_facts(e);
    lemma_divide_by_product(n, m, p);
    lemma_bits(f);
    let (q, low, r) = (f / p, f % p, n % m);
    let rem = low * m + r;
    assert(p == 2 * half);
    assert(f > 0);
    assert(2 * n >= m) by {
        vstd::arithmetic::div_mod::lemma_fundamental_div_mod(n as int, m as int);
        assert(n >= m) by (nonlinear_arith)
            requires
                n == m * f + r,
                r >= 0,
                f >= 1,
                m > 0,
        ;
    }
    if low > half {
        assert(2 * rem > m * p) by (nonlinear_arith)
            requires
                rem == low * m + r,
                r >= 0,
                low >= half + 1,
                p == 2 * half,
                m > 0,
        ;
    } else if low == half {
        assert(2 * rem == m * p + 2 * r) by (nonlinear_arith)
            requires
                rem == low * m + r,
                low == half,
                p == 2 * half,
        ;
    } else {
        assert(2 * rem < m * p) by (nonlinear_arith)
            requires
                rem == low * m + r,
                r < m,
                low + 1 <= half,
                p == 2 * half,
                m > 0,
        ;
    }
    let k = nearest(n, m * p);
    assert(k * p == p * k) by (nonlinear_arith);
}

/// Rounding a number with fewer than 53 bits: what follows the point can only
/// carry into the whole part.
proof fn lemma_round_narrow(n: nat, m: nat, t: nat)
    requires
        m > 0,
        t > 0,
        bits(n / m) + t == 53,
    ensures
        rounded_whole(n, m) == n / m + (if (m - n % m) * power2::pow2(t + 1) <= m {
            1nat
        } else {
            0nat
        }),
{
    let p = power2::pow2(t) as int;
    let (f, r) = ((n / m) as int, (n % m) as int);
    lemma_pow2_facts(t);
    lemma_pow2_facts(t + 1);
    vstd::arithmetic::div_mod::lemma_fundamental_div_mod(n as int, m as int);
    assert(n == f * m + r) by {
        assert(f * m == m * f) by (nonlinear_arith);
    }
    assert(power2::pow2(t + 1) == 2 * p);
    let gap = (m - r) * p;
    assert((m - r) * (2 * p) == 2 * gap) by (nonlinear_arith)
        requires
            gap == (m - r) * p,
    ;
    if 2 * n < m {
        assert(f == 0) by (nonlinear_arith)
            requires
                n == f * m + r,
                2 * n < m,
                r >= 0,
                f >= 0,
                m > 0,
        ;
        assert(2 * gap > m) by (nonlinear_arith)
            requires
                gap == (m - r) * p,
                2 * r < m,
                p >= 2,
                m > 0,
        ;
    } else {
        let big = (n * power2::pow2(t)) as int;
        let a = (r * p) / (m as int);
        let rr = (r * p) % (m as int);
        vstd::arithmetic::div_mod::lemma_fundamental_div_mod(r * p, m as int);
        assert(r * p == a * m + rr) by {
            assert(a * m == m * a) by (nonlinear_arith);
        }
        assert(r * p >= 0) by (nonlinear_arith)
            requires
                r >= 0,
                p > 0,
        ;
        assert(0 <= a < p) by (nonlinear_arith)
            requires
                r * p == a * m + rr,
                0 <= rr < m,
                0 <= r < m,
                p > 0,
        ;
        let q = f * p + a;
        assert(big == q * m + rr) by (nonlinear_arith)
            requires
                big == n * p,
                n == f * m + r,
                r * p == a * m + rr,
                q == f * p + a,
        ;
        vstd::arithmetic::div_mod::lemma_fundamental_div_mod_converse(big, m as int, q, rr);
        assert(gap == (p - a) * m - rr) by (nonlinear_arith)
            requires
                gap == (m - r) * p,
                r * p == a * m + rr,
        ;
        let up: int = if 2 * rr > m {
            1
        } else if 2 * rr == m {
            q % 2
        } else {
            0
        };
        let k = nearest(n * power2::pow2(t), m) as int;
        assert(k == q + up);
        let half = power2::pow2((t - 1) as nat) as int;
        assert(p == 2 * half);
        if a == p - 1 {
            assert((p - a) * m == m) by (nonlinear_arith)
                requires
                    a == p - 1,
            ;
            assert(q % 2 == 1) by {
                assert(q == 2 * (f * half + half - 1) + 1) by (nonlinear_arith)
                    requires
                        q == f * p + a,
                        a == p - 1,
                        p == 2 * half,
                ;
            }
            if 2 * rr >= m {
                assert(k == (f + 1) * p + 0) by (nonlinear_arith)
                    requires
                        k == q + 1,
                        q == f * p + a,
                        a == p - 1,
                ;
                vstd::arithmetic::div_mod::lemma_fundamental_div_mod_converse(k, p, f + 1, 0);
            } else {
                assert(k == f * p + a);
                vstd::arithmetic::div_mod::lemma_fundamental_div_mod_converse(k, p, f, a);
            }
        } else {
            assert(gap > m) by (nonlinear_arith)
                requires
                    gap == (p - a) * m - rr,
                    p - a >= 2,
                    0 <= rr < m,
            ;
            assert(k == f * p + (a + up));
            vstd::arithmetic::div_mod::lemma_fundamental_div_mod_converse(k, p, f, a + up);
        }
    }
}

// ---- reading --------------------------------------------------------------

fn digit(c: char) -> (r: Option<u8>)
    ensures
        match r {
            Some(d) => is_digit(c) && d == c as int - '0' as int && d <= 9,
            None => !is_digit(c),
        },
{
    if '0' <= c && c <= '9' {
        Some((c as u32 - 48) as u8)
    } else {
        None
    }
}

/// The number of binary digits.
fn count_bits(n: u64) -> (b: u32)
    ensures
        b == bits(n as nat),
        b <= 64,
{
    let mut b: u32 = 0;
    let mut rest: u64 = n;
    proof {
        lemma_bits_of_u64(n as nat);
    }
    while rest > 0
        invariant
            b + bits(rest as nat) == bits(n as nat),
            bits(n as nat) <= 64,
        decreases rest,
    {
        rest = rest / 2;
        b += 1;
    }
    b
}

proof fn lemma_bits_of_u64(n: nat)
    requires
        n <= u64::MAX,
    ensures
        bits(n) <= 64,
{
    lemma_bits(n);
    power2::lemma2_to64();
    power2::lemma2_to64_rest();
    if bits(n) > 64 {
        lemma_pow2_grows(64, (bits(n) - 1) as nat);
    }
}

/// Where the first dot stands, or the length.
fn find_dot(s: &[char]) -> (at: usize)
    ensures
        at == dot_at(s@),
        at <= s@.len(),
{
    let n: usize = s.len();
    let mut i: usize = 0;
    assert(s@.skip(0) =~= s@);
    while i < n
        invariant
            n == s@.len(),
            i <= n,
            dot_at(s@) == i + dot_at(s@.skip(i as int)),
        decreases n - i,
    {
        assert(s@.skip(i as int)[0] == s@[i as int]);
        assert(s@.skip(i as int).skip(1) =~= s@.skip(i + 1));
        if s[i] == '.' {
            return i;
        }
        i += 1;
    }
    assert(s@.skip(n as int).len() == 0);
    n
}

/// The number that the digits write, unless it is 2^64 or more.
fn whole_value(s: &[char]) -> (r: Option<u64>)
    requires
        all_digits(s@),
    ensures
        match r {
            Some(v) => v == digits_value(s@),
            None => digits_value(s@) > u64::MAX,
        },
{
    let n: usize = s.len();
    let mut big: bool = false;
    let mut v: u64 = 0;
    let mut i: usize = 0;
    assert(s@.subrange(0, 0).len() == 0);
    while i < n
        invariant
            n == s@.len(),
            i <= n,
            all_digits(s@),
            !big ==> v == digits_value(s@.subrange(0, i as int)),
            big ==> digits_value(s@.subrange(0, i as int)) > u64::MAX,
        decreases n - i,
    {
        proof {
            let next = s@.subrange(0, i + 1);
            assert(next.drop_last() =~= s@.subrange(0, i as int));
            assert(next.last() == s@[i as int]);
            assert(is_digit(s@[i as int]));
        }
        match digit(s[i]) {
            Some(d) => {
                let wide: u128 = v as u128 * 10 + d as u128;
                if wide > u64::MAX as u128 {
                    big = true;
                } else {
                    v = wide as u64;
                }
            },
            None => {},
        }
        i += 1;
    }
    assert(s@.subrange(0, n as int) =~= s@);
    if big {
        None
    } else {
        Some(v)
    }
}

/// The digits as numbers, or `None` where something else stands among them.
fn digit_row(s: &[char]) -> (r: Option<Vec<u8>>)
    ensures
        match r {
            Some(g) => all_digits(s@) && g@.len() == s@.len() && decimal_digits(g@) && value(g@) == digits_value(
                s@,
            ),
            None => !all_digits(s@),
        },
{
    let n: usize = s.len();
    let mut g: Vec<u8> = Vec::new();
    let mut i: usize = 0;
    assert(s@.subrange(0, 0).len() == 0);
    while i < n
        invariant
            n == s@.len(),
            i <= n,
            g@.len() == i,
            decimal_digits(g@),
            forall|k: int| 0 <= k < i ==> is_digit(#[trigger] s@[k]),
            value(g@) == digits_value(s@.subrange(0, i as int)),
        decreases n - i,
    {
        match digit(s[i]) {
            Some(d) => {
                let ghost before = g@;
                g.push(d);
                proof {
                    let next = s@.subrange(0, i + 1);
                    assert(next.drop_last() =~= s@.subrange(0, i as int));
                    assert(g@.drop_last() =~= before);
                }
            },
            None => {
                assert(!is_digit(s@[i as int]));
                return None;
            },
        }
        i += 1;
    }
    assert(s@.subrange(0, n as int) =~= s@);
    Some(g)
}

proof fn lemma_digits_concat(a: Seq<char>, b: Seq<char>)
    requires
        all_digits(b),
    ensures
        digits_value(a + b) == digits_value(a) * pow10(b.len()) + digits_value(b),
    decreases b.len(),
{
    if b.len() == 0 {
        assert(a + b =~= a);
        assert(digits_value(a) * 1 == digits_value(a)) by (nonlinear_arith);
    } else {
        assert((a + b).drop_last() =~= a + b.drop_last());
        assert(is_digit(b[b.len() - 1]));
        assert forall|i: int| 0 <= i < b.drop_last().len() implies is_digit(#[trigger] b.drop_last()[i]) by {
            assert(is_digit(b[i]));
        }
        lemma_digits_concat(a, b.drop_last());
        let p = pow10((b.len() - 1) as nat);
        let (x, y) = (digits_value(a), digits_value(b.drop_last()));
        assert((x * p + y) * 10 == x * (10 * p) + y * 10) by (nonlinear_arith);
        assert((a + b).last() == b.last());
        let d = b.last() as int - '0' as int;
        assert(digits_value(a + b) == (x * p + y) * 10 + d);
        assert(digits_value(b) == y * 10 + d);
        assert(pow10(b.len()) == 10 * p);
    }
}

/// The nearest whole number below the point, from the whole part and the digits
/// behind it.
fn round_parts(f: u64, g: Vec<u8>, Ghost(n): Ghost<nat>) -> (r: u64)
    requires
        decimal_digits(g@),
        n == f * pow10(g@.len()) + value(g@),
    ensures
        r == fit(rounded_whole(n, pow10(g@.len()))),
{
    let ghost m = pow10(g@.len());
    let ghost v = value(g@);
    proof {
        lemma_pow10_positive(g@.len());
        lemma_value_bound(g@);
        vstd::arithmetic::div_mod::lemma_fundamental_div_mod_converse(n as int, m as int, f as int, v as int);
        assert(n / m == f && n % m == v);
    }
    let b: u32 = count_bits(f);
    if b > 53 {
        let e: u32 = b - 53;
        let p: u64 = power_of_two(e);
        let half: u64 = power_of_two(e - 1);
        let q: u64 = f / p;
        let low: u64 = f % p;
        let rest_zero: bool = is_zero(&g);
        proof {
            lemma_round_wide(n, m, e as nat);
            lemma_bits(f as nat);
            lemma_pow2_facts(e as nat);
            power2::lemma_pow2_adds(53, e as nat);
            power2::lemma2_to64();
            power2::lemma2_to64_rest();
            vstd::arithmetic::div_mod::lemma_fundamental_div_mod(f as int, p as int);
            assert(q < 0x20_0000_0000_0000) by (nonlinear_arith)
                requires
                    f == p * q + f % p,
                    f % p >= 0,
                    f < 0x20_0000_0000_0000 * p,
                    p > 0,
            ;
        }
        let k: u64 = if low > half || (low == half && !rest_zero) {
            q + 1
        } else if low == half {
            q + q % 2
        } else {
            q
        };
        proof {
            assert(p * k <= 0x800 * 0x20_0000_0000_0000) by (nonlinear_arith)
                requires
                    p <= 0x800,
                    k <= 0x20_0000_0000_0000,
            ;
        }
        let wide: u128 = p as u128 * k as u128;
        if wide > u64::MAX as u128 {
            u64::MAX
        } else {
            wide as u64
        }
    } else if b == 53 {
        let mut g: Vec<u8> = g;
        let carry: u8 = double(&mut g);
        let rest_zero: bool = is_zero(&g);
        proof {
            lemma_value_bound(g@);
            lemma_pow2_facts(0);
            assert(m * 1 == m) by (nonlinear_arith);
            lemma_bits(f as nat);
            power2::lemma2_to64();
            power2::lemma2_to64_rest();
            assert(2 * n >= m) by (nonlinear_arith)
                requires
                    n == f * m + v,
                    f >= 1,
                    v >= 0,
                    m > 0,
            ;
            let k = nearest(n, m);
            assert(k * 1 == k) by (nonlinear_arith);
            assert(carry == 0 ==> carry * m == 0) by (nonlinear_arith);
            assert(carry == 1 ==> carry * m == m) by (nonlinear_arith);
        }
        if carry == 0 {
            f
        } else if !rest_zero {
            f + 1
        } else {
            f + f % 2
        }
    } else {
        let t: u32 = 53 - b;
        proof {
            lemma_round_narrow(n, m, t as nat);
            lemma_bits(f as nat);
            lemma_pow2_grows(b as nat, 53);
            power2::lemma2_to64();
            power2::lemma2_to64_rest();
        }
        if all_ones(g, t + 1) {
            f + 1
        } else {
            f
        }
    }
}

fn power_of_two(e: u32) -> (p: u64)
    requires
        e <= 11,
    ensures
        p == power2::pow2(e as nat),
        1 <= p <= 0x800,
{
    let mut p: u64 = 1;
    let mut i: u32 = 0;
    proof {
        lemma_pow2_facts(0);
        power2::lemma2_to64();
        power2::lemma2_to64_rest();
    }
    while i < e
        invariant
            i <= e <= 11,
            p == power2::pow2(i as nat),
            power2::pow2(11) == 0x800,
        decreases e - i,
    {
        proof {
            lemma_pow2_facts((i + 1) as nat);
            lemma_pow2_grows((i + 1) as nat, 11);
        }
        p = p * 2;
        i += 1;
    }
    proof {
        lemma_pow2_facts(e as nat);
        lemma_pow2_grows(e as nat, 11);
    }
    p
}

/// Reads a decimal number and scales it by two to the power of `shift`; `None`
/// where the text is not a decimal number. The result is cut to a whole number
/// after rounding to 53 significant bits, and is at most the greatest `u64`.
pub fn scaled(s: &[char], shift: u32) -> (r: Option<u64>)
    requires
        shift <= 40,
    ensures
        r == (if is_decimal(s@) {
            Some(scaled_whole(s@, shift as nat))
        } else {
            None
        }),
{
    let n: usize = s.len();
    let at: usize = find_dot(s);
    let whole: &[char] = vstd::slice::slice_subrange(s, 0, at);
    let from: usize = if at < n {
        at + 1
    } else {
        n
    };
    let fraction: &[char] = vstd::slice::slice_subrange(s, from, n);
    assert(whole@ =~= whole_part(s@));
    assert(fraction@ =~= fraction_part(s@));
    if whole.len() == 0 && fraction.len() == 0 {
        return None;
    }
    match digit_row(whole) {
        None => {
            return None;
        },
        Some(_) => {},
    }
    let mut g: Vec<u8> = match digit_row(fraction) {
        None => {
            return None;
        },
        Some(g) => g,
    };
    let ghost m = pow10(fraction@.len());
    let ghost d = digits_value(whole@ + fraction@);
    let ghost total = d * power2::pow2(shift as nat);
    proof {
        lemma_digits_concat(whole@, fraction@);
        lemma_pow10_positive(fraction@.len());
        lemma_pow2_facts(shift as nat);
        lemma_pow2_facts(0);
        lemma_value_bound(g@);
    }
    match whole_value(whole) {
        None => {
            proof {
                let w = digits_value(whole@);
                let p = power2::pow2(shift as nat);
                assert(total >= w * m) by (nonlinear_arith)
                    requires
                        total == d * p,
                        d >= w * m,
                        p >= 1,
                        d >= 0,
                ;
                lemma_quotient_at_least(total, m, w);
                lemma_too_big(total, m);
            }
            Some(u64::MAX)
        },
        Some(w) => {
            let mut hi: u128 = w as u128;
            let mut i: u32 = 0;
            proof {
                power2::lemma2_to64();
                power2::lemma2_to64_rest();
                assert(d * 1 == d) by (nonlinear_arith);
                assert(w * 1 == w) by (nonlinear_arith);
            }
            while i < shift
                invariant
                    i <= shift <= 40,
                    decimal_digits(g@),
                    g@.len() == fraction@.len(),
                    m == pow10(fraction@.len()),
                    hi * m + value(g@) == d * power2::pow2(i as nat),
                    hi < 0x1_0000_0000_0000_0000 * power2::pow2(i as nat),
                    power2::pow2(40) == 0x100_0000_0000,
                decreases shift - i,
            {
                let ghost (h0, v0) = (hi as int, value(g@) as int);
                let ghost p = power2::pow2(i as nat) as int;
                proof {
                    lemma_pow2_facts((i + 1) as nat);
                    lemma_pow2_grows((i + 1) as nat, 40);
                    lemma_pow2_grows(i as nat, 40);
                }
                let carry: u8 = double(&mut g);
                proof {
                    let (v1, c) = (value(g@) as int, carry as int);
                    let h1 = 2 * h0 + c;
                    assert(h1 * m + v1 == d * (2 * p)) by (nonlinear_arith)
                        requires
                            h1 == 2 * h0 + c,
                            2 * v0 == c * m + v1,
                            h0 * m + v0 == d * p,
                    ;
                }
                hi = hi * 2 + carry as u128;
                i += 1;
            }
            proof {
                lemma_value_bound(g@);
                vstd::arithmetic::div_mod::lemma_fundamental_div_mod_converse(
                    total as int,
                    m as int,
                    hi as int,
                    value(g@) as int,
                );
            }
            if hi > u64::MAX as u128 {
                proof {
                    lemma_too_big(total, m);
                }
                Some(u64::MAX)
            } else {
                Some(round_parts(hi as u64, g, Ghost(total)))
            }
        },
    }
}

proof fn lemma_quotient_at_least(n: nat, m: nat, w: nat)
    requires
        m > 0,
        n >= w * m,
    ensures
        n / m >= w,
{
    vstd::arithmetic::div_mod::lemma_fundamental_div_mod(n as int, m as int);
    let q = n / m;
    assert(q >= w) by (nonlinear_arith)
        requires
            n >= w * m,
            n == m * q + n % m,
            n % m < m,
            m > 0,
    ;
}

} // verus!
