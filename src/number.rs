//! Exact decimal numbers: a signed mantissa scaled by a power of ten.
use vstd::prelude::*;

verus! {

/// Largest number of digits after the decimal point.
pub const MAX_SCALE: u32 = 18;

/// `10^n`.
pub open spec fn pow10(n: nat) -> int
    decreases n,
{
    if n == 0 {
        1
    } else {
        10 * pow10((n - 1) as nat)
    }
}

pub proof fn lemma_pow10_positive(n: nat)
    ensures
        pow10(n) >= 1,
    decreases n,
{
    if n > 0 {
        lemma_pow10_positive((n - 1) as nat);
    }
}

pub proof fn lemma_pow10_monotonic(a: nat, b: nat)
    requires
        a <= b,
    ensures
        pow10(a) <= pow10(b),
    decreases b,
{
    if a < b {
        lemma_pow10_monotonic(a, (b - 1) as nat);
        lemma_pow10_positive((b - 1) as nat);
    }
}

pub proof fn lemma_pow10_36()
    ensures
        pow10(18) == 1000000000000000000int,
        pow10(36) == 1000000000000000000000000000000000000int,
{
    reveal_with_fuel(pow10, 37);
}

/// Strips trailing zero digits after the decimal point: the shortest
/// representation `(m', s')` of the value `m / 10^s`.
pub open spec fn normalize(m: int, s: nat) -> (int, nat)
    decreases s,
{
    if s > 0 && m % 10 == 0 {
        normalize(m / 10, (s - 1) as nat)
    } else {
        (m, s)
    }
}

/// A mantissa and scale that a `Decimal` can hold.
pub open spec fn fits(p: (int, nat)) -> bool {
    i64::MIN <= p.0 <= i64::MAX && p.1 <= MAX_SCALE
}

/// The value `mantissa / 10^scale`, kept with no trailing zero after the
/// decimal point, so that equal values have equal representations.
#[derive(Clone, Copy, Debug, PartialEq, Eq, Structural)]
pub struct Decimal {
    mantissa: i64,
    scale: u32,
}

impl Decimal {
    #[verifier::type_invariant]
    pub closed spec fn wf(self) -> bool {
        &&& self.scale <= MAX_SCALE
        &&& (self.scale == 0 || self.mantissa % 10 != 0)
    }

    pub closed spec fn pair(self) -> (int, nat) {
        (self.mantissa as int, self.scale as nat)
    }


    /// The integer `n` as a decimal.
    pub closed spec fn int_spec(n: int) -> Decimal {
        Decimal { mantissa: n as i64, scale: 0 }
    }

    /// The digits after the point, as held.
    pub closed spec fn scale_spec(self) -> nat {
        self.scale as nat
    }

    pub closed spec fn is_zero_spec(self) -> bool {
        self.mantissa == 0
    }

    pub closed spec fn is_negative_spec(self) -> bool {
        self.mantissa < 0
    }

    /// The absolute value, where it can be held.
    pub closed spec fn abs_spec(self) -> Option<Decimal> {
        if self.mantissa == i64::MIN {
            None
        } else if self.mantissa < 0 {
            Some(Decimal { mantissa: (-self.mantissa) as i64, scale: self.scale })
        } else {
            Some(self)
        }
    }

    /// The integer `n`.
    pub fn from_int(n: i64) -> (r: Decimal)
        ensures
            r == Decimal::int_spec(n as int),
    {
        Decimal { mantissa: n, scale: 0 }
    }

    pub fn is_zero(&self) -> (r: bool)
        ensures
            r == self.is_zero_spec(),
            r == (*self == Decimal::int_spec(0)),
    {
        proof { use_type_invariant(self); }
        self.mantissa == 0
    }

    /// Is the value exactly one?
    pub fn is_one(&self) -> (r: bool)
        ensures
            r == (*self == Decimal::int_spec(1)),
    {
        proof { use_type_invariant(self); }
        self.mantissa == 1 && self.scale == 0
    }

    pub fn is_negative(&self) -> (r: bool)
        ensures
            r == self.is_negative_spec(),
    {
        self.mantissa < 0
    }

    /// The absolute value, where it can be held.
    pub fn abs(&self) -> (r: Option<Decimal>)
        ensures
            r == self.abs_spec(),
    {
        proof { use_type_invariant(self); }
        if self.mantissa == i64::MIN {
            None
        } else if self.mantissa < 0 {
            Some(Decimal { mantissa: -self.mantissa, scale: self.scale })
        } else {
            Some(*self)
        }
    }
}

/// The decimal with the given normalized mantissa and scale, if it fits.
pub closed spec fn from_pair(p: (int, nat)) -> Option<Decimal> {
    if fits(p) {
        Some(Decimal { mantissa: p.0 as i64, scale: p.1 as u32 })
    } else {
        None
    }
}

/// `10^n` as a machine integer.
pub fn pow10_i128(n: u32) -> (r: i128)
    requires
        n <= 36,
    ensures
        r == pow10(n as nat),
{
    let mut r: i128 = 1;
    let mut i: u32 = 0;
    while i < n
        invariant
            i <= n <= 36,
            r == pow10(i as nat),
        decreases n - i,
    {
        proof {
            lemma_pow10_monotonic((i + 1) as nat, 36);
            lemma_pow10_36();
            assert(pow10((i + 1) as nat) == 10 * pow10(i as nat));
            assert(r * 10 <= 1000000000000000000000000000000000000int);
            lemma_pow10_positive(i as nat);
        }
        r = r * 10;
        i = i + 1;
    }
    r
}

/// Builds the decimal for `m / 10^s`, where its normalized form fits.
fn make_decimal(m: i128, s: u32) -> (r: Option<Decimal>)
    ensures
        r == from_pair(normalize(m as int, s as nat)),
{
    proof { lemma_normalize_wf(m as int, s as nat); }
    let mut m1 = m;
    let mut s1 = s;
    while s1 > 0 && m1 % 10 == 0
        invariant
            normalize(m1 as int, s1 as nat) == normalize(m as int, s as nat),
        decreases s1,
    {
        m1 = m1 / 10;
        s1 = s1 - 1;
    }
    assert(normalize(m1 as int, s1 as nat) == (m1 as int, s1 as nat));
    if s1 <= MAX_SCALE && i64::MIN as i128 <= m1 && m1 <= i64::MAX as i128 {
        Some(Decimal { mantissa: m1 as i64, scale: s1 })
    } else {
        None
    }
}

proof fn lemma_normalize_wf(m: int, s: nat)
    ensures
        normalize(m, s).1 <= s,
        normalize(m, s).1 == 0 || normalize(m, s).0 % 10 != 0,
    decreases s,
{
    if s > 0 && m % 10 == 0 {
        lemma_normalize_wf(m / 10, (s - 1) as nat);
    }
}

impl Decimal {
    /// `a + b`, where it can be held.
    pub closed spec fn add_spec(self, other: Decimal) -> Option<Decimal> {
        from_pair(sum_of(self, other))
    }

    /// `a - b`, where it can be held.
    pub closed spec fn sub_spec(self, other: Decimal) -> Option<Decimal> {
        from_pair(difference_of(self, other))
    }

    /// `a * b`, where it can be held.
    pub closed spec fn mul_spec(self, other: Decimal) -> Option<Decimal> {
        from_pair(product_of(self, other))
    }

    /// `a / b`, where it is an exact decimal that can be held.
    pub closed spec fn div_spec(self, other: Decimal) -> Option<Decimal> {
        if divides_exactly(self, other) && i128::MIN <= scaled_dividend(self, other) <= i128::MAX {
            from_pair(quotient_of(self, other))
        } else {
            None
        }
    }
}

/// The sum `a + b`, aligned on the larger scale.
pub closed spec fn sum_of(a: Decimal, b: Decimal) -> (int, nat) {
    let s = if a.scale >= b.scale { a.scale } else { b.scale };
    normalize(
        a.mantissa * pow10((s - a.scale) as nat) + b.mantissa * pow10((s - b.scale) as nat),
        s as nat,
    )
}

/// The difference `a - b`, aligned on the larger scale.
pub closed spec fn difference_of(a: Decimal, b: Decimal) -> (int, nat) {
    let s = if a.scale >= b.scale { a.scale } else { b.scale };
    normalize(
        a.mantissa * pow10((s - a.scale) as nat) - b.mantissa * pow10((s - b.scale) as nat),
        s as nat,
    )
}

/// The product `a * b`.
pub closed spec fn product_of(a: Decimal, b: Decimal) -> (int, nat) {
    normalize(a.mantissa * b.mantissa, (a.scale + b.scale) as nat)
}

/// The numerator of `a / b` over `10^MAX_SCALE`.
pub closed spec fn scaled_dividend(a: Decimal, b: Decimal) -> int {
    a.mantissa * pow10((b.scale + MAX_SCALE - a.scale) as nat)
}

/// Is `a / b` a decimal with at most `MAX_SCALE` digits after the point?
pub closed spec fn divides_exactly(a: Decimal, b: Decimal) -> bool {
    b.mantissa != 0 && scaled_dividend(a, b) % (b.mantissa as int) == 0
}

/// The quotient `a / b`, where it is exact.
pub closed spec fn quotient_of(a: Decimal, b: Decimal) -> (int, nat) {
    normalize(scaled_dividend(a, b) / (b.mantissa as int), MAX_SCALE as nat)
}

proof fn lemma_scaled_bounds(m: i64, e: nat)
    requires
        e <= 18,
    ensures
        -0x8000_0000_0000_0000 * pow10(18) <= m * pow10(e) <= 0x7fff_ffff_ffff_ffff * pow10(18),
{
    lemma_pow10_monotonic(e, 18);
    lemma_pow10_positive(e);
    lemma_pow10_36();
    if m >= 0 {
        assert(0 <= m * pow10(e) <= 0x7fff_ffff_ffff_ffff * pow10(18)) by (nonlinear_arith)
            requires 0 <= m <= 0x7fff_ffff_ffff_ffff, 1 <= pow10(e) <= pow10(18);
    } else {
        assert(0 >= m * pow10(e) >= -0x8000_0000_0000_0000 * pow10(18)) by (nonlinear_arith)
            requires -0x8000_0000_0000_0000 <= m < 0, 1 <= pow10(e) <= pow10(18);
    }
}

impl Decimal {
    /// `self + other`, where the result can be held.
    pub fn checked_add(&self, other: &Decimal) -> (r: Option<Decimal>)
        ensures
            r == self.add_spec(*other),
    {
        proof { use_type_invariant(self); use_type_invariant(other); }
        let s = if self.scale >= other.scale { self.scale } else { other.scale };
        proof {
            lemma_scaled_bounds(self.mantissa, (s - self.scale) as nat);
            lemma_scaled_bounds(other.mantissa, (s - other.scale) as nat);
            lemma_pow10_36();
        }
        let x = (self.mantissa as i128) * pow10_i128(s - self.scale);
        let y = (other.mantissa as i128) * pow10_i128(s - other.scale);
        make_decimal(x + y, s)
    }

    /// `self - other`, where the result can be held.
    pub fn checked_sub(&self, other: &Decimal) -> (r: Option<Decimal>)
        ensures
            r == self.sub_spec(*other),
    {
        proof { use_type_invariant(self); use_type_invariant(other); }
        let s = if self.scale >= other.scale { self.scale } else { other.scale };
        proof {
            lemma_scaled_bounds(self.mantissa, (s - self.scale) as nat);
            lemma_scaled_bounds(other.mantissa, (s - other.scale) as nat);
            lemma_pow10_36();
        }
        let x = (self.mantissa as i128) * pow10_i128(s - self.scale);
        let y = (other.mantissa as i128) * pow10_i128(s - other.scale);
        make_decimal(x - y, s)
    }

    /// `self * other`, where the result can be held.
    pub fn checked_mul(&self, other: &Decimal) -> (r: Option<Decimal>)
        ensures
            r == self.mul_spec(*other),
    {
        proof { use_type_invariant(self); use_type_invariant(other); }
        let a = self.mantissa as i128;
        let b = other.mantissa as i128;
        assert(-0x8000_0000_0000_0000 * 0x8000_0000_0000_0000 <= a * b <= 0x8000_0000_0000_0000
            * 0x8000_0000_0000_0000) by (nonlinear_arith)
            requires
                -0x8000_0000_0000_0000 <= a <= 0x7fff_ffff_ffff_ffff,
                -0x8000_0000_0000_0000 <= b <= 0x7fff_ffff_ffff_ffff,
        ;
        make_decimal(a * b, self.scale + other.scale)
    }

    /// `self / other`, where the quotient is an exact decimal that can be
    /// held; `None` on a zero divisor or an inexact quotient.
    pub fn checked_div(&self, other: &Decimal) -> (r: Option<Decimal>)
        ensures
            r == self.div_spec(*other),
    {
        proof { use_type_invariant(self); use_type_invariant(other); }
        if other.mantissa == 0 {
            return None;
        }
        let e = other.scale + MAX_SCALE - self.scale;
        let p = pow10_i128(e);
        let m = self.mantissa as i128;
        let n = match m.checked_mul(p) {
            Some(n) => n,
            None => {
                return None;
            }
        };
        let k = other.mantissa as i128;
        match n.checked_rem_euclid(k) {
            Some(rem) => {
                if rem != 0 {
                    return None;
                }
            }
            None => {
                assert(n == i128::MIN && k == -1);
                assert(n as int / k as int == 0x8000_0000_0000_0000_0000_0000_0000_0000int);
                assert(0x8000_0000_0000_0000_0000_0000_0000_0000int % 10 == 8);
                assert(normalize(n / k, MAX_SCALE as nat) == (n / k, MAX_SCALE as nat));
                assert(!fits(quotient_of(*self, *other)));
                return None;
            }
        }
        assert(i128::MIN <= n / k <= i128::MAX) by (nonlinear_arith)
            requires
                k != 0,
                !(n == i128::MIN && k == -1),
                i128::MIN <= n <= i128::MAX,
                i64::MIN <= k <= i64::MAX,
        ;
        let q = match n.checked_div_euclid(k) {
            Some(q) => q,
            None => {
                return None;
            }
        };
        make_decimal(q, MAX_SCALE)
    }
}

/// The character of the decimal digit `d` (`0 <= d < 10`).
pub open spec fn digit_char(d: int) -> char {
    if d == 0 { '0' } else if d == 1 { '1' } else if d == 2 { '2' } else if d == 3 { '3' }
    else if d == 4 { '4' } else if d == 5 { '5' } else if d == 6 { '6' } else if d == 7 { '7' }
    else if d == 8 { '8' } else { '9' }
}

/// The value of a decimal digit character.
pub open spec fn digit_value(c: char) -> int {
    if c == '0' { 0 } else if c == '1' { 1 } else if c == '2' { 2 } else if c == '3' { 3 }
    else if c == '4' { 4 } else if c == '5' { 5 } else if c == '6' { 6 } else if c == '7' { 7 }
    else if c == '8' { 8 } else { 9 }
}

pub open spec fn is_digit(c: char) -> bool {
    '0' <= c <= '9'
}

/// The digits of `n` in base ten, without leading zeros (`"0"` for zero).
pub open spec fn digits(n: nat) -> Seq<char>
    decreases n,
{
    if n < 10 {
        seq![digit_char(n as int)]
    } else {
        digits(n / 10).push(digit_char((n % 10) as int))
    }
}

/// The last `w` digits of `n`, with leading zeros.
pub open spec fn padded_digits(n: nat, w: nat) -> Seq<char>
    decreases w,
{
    if w == 0 {
        Seq::empty()
    } else {
        padded_digits(n / 10, (w - 1) as nat).push(digit_char((n % 10) as int))
    }
}

/// The number that a string of decimal digits denotes.
pub open spec fn digits_value(s: Seq<char>) -> int
    decreases s.len(),
{
    if s.len() == 0 {
        0
    } else {
        digits_value(s.drop_last()) * 10 + digit_value(s.last())
    }
}

pub open spec fn magnitude(m: int) -> nat {
    if m < 0 {
        (-m) as nat
    } else {
        m as nat
    }
}

/// The plain decimal text of a number: a minus sign when negative, the
/// integer digits, and the fractional digits after a point when there are
/// any (`3`, `-0.25`, `47.94`).
pub closed spec fn decimal_text(d: Decimal) -> Seq<char> {
    let a = magnitude(d.mantissa as int) as int;
    let p = pow10(d.scale as nat);
    let sign = if d.mantissa < 0 { seq!['-'] } else { Seq::<char>::empty() };
    let whole = sign + digits((a / p) as nat);
    if d.scale == 0 {
        whole
    } else {
        whole + seq!['.'] + padded_digits((a % p) as nat, d.scale as nat)
    }
}

fn digit_to_char(d: u64) -> (c: char)
    requires
        d < 10,
    ensures
        c == digit_char(d as int),
{
    if d == 0 { '0' } else if d == 1 { '1' } else if d == 2 { '2' } else if d == 3 { '3' }
    else if d == 4 { '4' } else if d == 5 { '5' } else if d == 6 { '6' } else if d == 7 { '7' }
    else if d == 8 { '8' } else { '9' }
}

/// The value of a digit character.
pub fn char_to_digit(c: char) -> (d: u8)
    requires
        is_digit(c),
    ensures
        d == digit_value(c),
        d < 10,
{
    if c == '0' { 0 } else if c == '1' { 1 } else if c == '2' { 2 } else if c == '3' { 3 }
    else if c == '4' { 4 } else if c == '5' { 5 } else if c == '6' { 6 } else if c == '7' { 7 }
    else if c == '8' { 8 } else { 9 }
}

fn push_digits(n: u64, out: &mut Vec<char>)
    ensures
        final(out)@ == old(out)@ + digits(n as nat),
    decreases n,
{
    if n < 10 {
        out.push(digit_to_char(n));
    } else {
        push_digits(n / 10, out);
        out.push(digit_to_char(n % 10));
    }
}

fn push_padded_digits(n: u64, w: u32, out: &mut Vec<char>)
    ensures
        final(out)@ == old(out)@ + padded_digits(n as nat, w as nat),
    decreases w,
{
    if w > 0 {
        push_padded_digits(n / 10, w - 1, out);
        out.push(digit_to_char(n % 10));
    }
}

impl Decimal {
    /// Appends the decimal text of this number.
    pub fn write_text(&self, out: &mut Vec<char>)
        ensures
            final(out)@ == old(out)@ + decimal_text(*self),
    {
        proof { use_type_invariant(self); }
        let ghost start = out@;
        let a: u64 = if self.mantissa < 0 {
            (-(self.mantissa as i128)) as u64
        } else {
            self.mantissa as u64
        };
        proof {
            lemma_pow10_36();
            lemma_pow10_monotonic(self.scale as nat, 18);
            lemma_pow10_positive(self.scale as nat);
        }
        let p = pow10_i128(self.scale) as u64;
        if self.mantissa < 0 {
            out.push('-');
        }
        push_digits(a / p, out);
        if self.scale > 0 {
            out.push('.');
            push_padded_digits(a % p, self.scale, out);
        }
        assert(out@ =~= start + decimal_text(*self));
    }
}

/// The number written with the integer digits `i` and the fractional
/// digits `f`, where it has at most eighteen digits in all.
pub closed spec fn literal_spec(i: Seq<char>, f: Seq<char>) -> Option<Decimal> {
    if i.len() + f.len() <= 18 {
        from_pair(normalize(digits_value(i + f), f.len()))
    } else {
        None
    }
}

proof fn lemma_digits_value_bound(s: Seq<char>)
    requires
        forall|k: int| 0 <= k < s.len() ==> is_digit(#[trigger] s[k]),
    ensures
        0 <= digits_value(s) < pow10(s.len()),
    decreases s.len(),
{
    if s.len() > 0 {
        let t = s.drop_last();
        assert forall|k: int| 0 <= k < t.len() implies is_digit(#[trigger] t[k]) by {
            assert(t[k] == s[k]);
        }
        lemma_digits_value_bound(t);
        assert(0 <= digit_value(s.last()) <= 9);
        assert(pow10(s.len()) == 10 * pow10(t.len()));
    }
}

impl Decimal {
    /// The number written with the integer digits `i` and the fractional
    /// digits `f`; `None` beyond eighteen digits.
    pub fn from_digits(i: &Vec<char>, f: &Vec<char>) -> (r: Option<Decimal>)
        requires
            forall|k: int| 0 <= k < i.len() ==> is_digit(#[trigger] i[k]),
            forall|k: int| 0 <= k < f.len() ==> is_digit(#[trigger] f[k]),
        ensures
            r == literal_spec(i@, f@),
    {
        if i.len() > 18 || f.len() > 18 - i.len() {
            return None;
        }
        let ghost all = i@ + f@;
        let n: usize = i.len() + f.len();
        assert forall|k: int| 0 <= k < all.len() implies is_digit(#[trigger] all[k]) by {
            if k < i.len() {
                assert(all[k] == i[k]);
            } else {
                assert(all[k] == f[k - i.len()]);
            }
        }
        let mut v: i64 = 0;
        let mut k: usize = 0;
        while k < n
            invariant
                n == all.len() <= 18,
                k <= n,
                all == i@ + f@,
                forall|j: int| 0 <= j < all.len() ==> is_digit(#[trigger] all[j]),
                v == digits_value(all.subrange(0, k as int)),
            decreases n - k,
        {
            let c = if k < i.len() { i[k] } else { f[k - i.len()] };
            assert(c == all[k as int]);
            let ghost pre = all.subrange(0, k + 1);
            assert(pre.drop_last() =~= all.subrange(0, k as int));
            proof {
                assert forall|j: int| 0 <= j < pre.len() implies is_digit(#[trigger] pre[j]) by {
                    assert(pre[j] == all[j]);
                }
                lemma_digits_value_bound(pre);
                lemma_pow10_monotonic(pre.len(), 18);
                lemma_pow10_36();
            }
            v = v * 10 + char_to_digit(c) as i64;
            k = k + 1;
        }
        assert(all.subrange(0, n as int) =~= all);
        make_decimal(v as i128, f.len() as u32)
    }
}

impl Decimal {
    /// The decimal text of this number.
    pub fn text(&self) -> (r: String)
        ensures
            r@ == decimal_text(*self),
    {
        let mut out: Vec<char> = Vec::new();
        self.write_text(&mut out);
        assert(out@ =~= decimal_text(*self));
        crate::expr::string_from_chars(&out)
    }

    /// The digits of the number without its point.
    pub fn mantissa(&self) -> (r: i64)
        ensures
            r == self.pair().0,
    {
        self.mantissa
    }

    /// How many digits stand after the point.
    pub fn scale(&self) -> (r: u32)
        ensures
            r == self.scale_spec(),
    {
        self.scale
    }
}

impl Decimal {
    /// A non-negative number whose text has at most eighteen digits: what
    /// a numeric literal denotes.
    pub closed spec fn is_literal(self) -> bool {
        &&& self.wf()
        &&& self.mantissa >= 0
        &&& digits((self.mantissa as int / pow10(self.scale as nat)) as nat).len() + self.scale <= 18
    }

    /// The digits before the point in the text of a non-negative number.
    pub closed spec fn int_text(self) -> Seq<char> {
        digits((self.mantissa as int / pow10(self.scale as nat)) as nat)
    }

    /// The digits after the point in the text of a non-negative number.
    pub closed spec fn frac_text(self) -> Seq<char> {
        if self.scale == 0 {
            Seq::empty()
        } else {
            padded_digits((self.mantissa as int % pow10(self.scale as nat)) as nat, self.scale as nat)
        }
    }
}

pub open spec fn all_digits(s: Seq<char>) -> bool {
    forall|k: int| 0 <= k < s.len() ==> is_digit(#[trigger] s[k])
}

proof fn lemma_digit_char(d: int)
    requires
        0 <= d < 10,
    ensures
        is_digit(digit_char(d)),
        digit_value(digit_char(d)) == d,
{
}

proof fn lemma_digits(n: nat)
    ensures
        digits(n).len() >= 1,
        all_digits(digits(n)),
        digits_value(digits(n)) == n,
    decreases n,
{
    if n >= 10 {
        lemma_digits(n / 10);
        lemma_digit_char((n % 10) as int);
        let t = digits(n / 10);
        assert(digits(n).drop_last() =~= t);
        assert(digits(n).last() == digit_char((n % 10) as int));
        assert((n / 10) * 10 + n % 10 == n);
        assert(digits_value(digits(n)) == digits_value(t) * 10 + digit_value(digits(n).last()));
        assert forall|k: int| 0 <= k < digits(n).len() implies is_digit(#[trigger] digits(n)[k]) by {
            if k < t.len() {
                assert(digits(n)[k] == t[k]);
            }
        }
    } else {
        lemma_digit_char(n as int);
        let one = seq![digit_char(n as int)];
        assert(one.drop_last() =~= Seq::<char>::empty());
        assert(digits_value(Seq::<char>::empty()) == 0);
        assert(digits_value(one) == digits_value(one.drop_last()) * 10 + digit_value(one.last()));
        assert(digits(n) == one);
    }
}

proof fn lemma_padded(n: nat, w: nat)
    ensures
        padded_digits(n, w).len() == w,
        all_digits(padded_digits(n, w)),
        digits_value(padded_digits(n, w)) == (n as int) % pow10(w),
    decreases w,
{
    if w > 0 {
        lemma_padded(n / 10, (w - 1) as nat);
        lemma_digit_char((n % 10) as int);
        let t = padded_digits(n / 10, (w - 1) as nat);
        assert(padded_digits(n, w).drop_last() =~= t);
        assert forall|k: int| 0 <= k < padded_digits(n, w).len() implies is_digit(#[trigger] padded_digits(n, w)[k]) by {
            if k < t.len() {
                assert(padded_digits(n, w)[k] == t[k]);
            }
        }
        let q = pow10((w - 1) as nat);
        lemma_pow10_positive((w - 1) as nat);
        assert(pow10(w) == 10 * q);
        let m = n as int;
        vstd::arithmetic::div_mod::lemma_mod_breakdown(m, 10, q);
        assert(((m / 10) % q) * 10 + m % 10 == m % (10 * q));
    } else {
        assert(n % 1 == 0);
    }
}

proof fn lemma_digits_value_append(a: Seq<char>, b: Seq<char>)
    ensures
        digits_value(a + b) == digits_value(a) * pow10(b.len()) + digits_value(b),
    decreases b.len(),
{
    if b.len() == 0 {
        assert(a + b =~= a);
    } else {
        let b1 = b.drop_last();
        lemma_digits_value_append(a, b1);
        assert((a + b).drop_last() =~= a + b1);
        assert((a + b).last() == b.last());
        assert(pow10(b.len()) == 10 * pow10(b1.len()));
        assert((digits_value(a) * pow10(b1.len()) + digits_value(b1)) * 10 + digit_value(b.last())
            == digits_value(a) * (10 * pow10(b1.len())) + (digits_value(b1) * 10 + digit_value(b.last())))
            by (nonlinear_arith);
    }
}

/// A non-negative literal's text: its integer digits, then a point and its
/// fractional digits when it has any; and reading those digits back gives
/// the same number.
pub proof fn lemma_literal_text(d: Decimal)
    requires
        d.is_literal(),
    ensures
        decimal_text(d) == (if d.scale_spec() == 0 {
            d.int_text()
        } else {
            d.int_text() + seq!['.'] + d.frac_text()
        }),
        d.int_text().len() >= 1,
        all_digits(d.int_text()),
        d.frac_text().len() == d.scale_spec(),
        all_digits(d.frac_text()),
        literal_spec(d.int_text(), d.frac_text()) == Some(d),
{
    let a = d.mantissa as int;
    let p = pow10(d.scale as nat);
    lemma_pow10_positive(d.scale as nat);
    lemma_digits((a / p) as nat);
    lemma_padded((a % p) as nat, d.scale as nat);
    lemma_digits_value_append(d.int_text(), d.frac_text());
    assert(magnitude(a) == a);
    assert(Seq::<char>::empty() + d.int_text() =~= d.int_text());
    if d.scale == 0 {
        assert(d.int_text() + d.frac_text() =~= d.int_text());
        assert(p == 1);
    } else {
        assert((a % p) % p == a % p) by (nonlinear_arith)
            requires p >= 1, a >= 0;
    }
    assert((a / p) * p + a % p == a) by (nonlinear_arith)
        requires p >= 1;
    assert(digits_value(d.int_text() + d.frac_text()) == a);
    assert(normalize(a, d.scale as nat) == (a, d.scale as nat));
}

proof fn lemma_pow10_add(a: nat, b: nat)
    ensures
        pow10(a) * pow10(b) == pow10(a + b),
    decreases b,
{
    if b > 0 {
        lemma_pow10_add(a, (b - 1) as nat);
        assert(pow10(a + b) == 10 * pow10((a + b - 1) as nat));
        assert(pow10(a) * pow10(b) == pow10(a) * (10 * pow10((b - 1) as nat)));
        assert(pow10(a) * (10 * pow10((b - 1) as nat)) == 10 * (pow10(a) * pow10((b - 1) as nat)))
            by (nonlinear_arith);
    }
}

/// Normalizing strips some `z` trailing zeros.
proof fn lemma_normalize_shape(m: int, s: nat)
    requires
        m >= 0,
    ensures
        exists|z: nat| #![trigger pow10(z)] z <= s && normalize(m, s) == (m / pow10(z), (s - z) as nat)
            && normalize(m, s).0 >= 0,
    decreases s,
{
    if s > 0 && m % 10 == 0 {
        lemma_normalize_shape(m / 10, (s - 1) as nat);
        let z = choose|z: nat| #![trigger pow10(z)] z <= (s - 1) as nat && normalize(m / 10, (s - 1) as nat) == (
            (m / 10) / pow10(z),
            ((s - 1) as nat - z) as nat,
        ) && normalize(m / 10, (s - 1) as nat).0 >= 0;
        lemma_pow10_positive(z);
        vstd::arithmetic::div_mod::lemma_div_denominator(m, 10, pow10(z));
        assert(pow10(z + 1) == 10 * pow10(z));
        assert(normalize(m, s) == (m / pow10(z + 1), (s - (z + 1)) as nat));
    } else {
        assert(m / pow10(0) == m);
    }
}

proof fn lemma_digits_len_bound(x: nat, l: nat)
    requires
        l >= 1,
        x < pow10(l),
    ensures
        digits(x).len() <= l,
    decreases l,
{
    if x >= 10 {
        assert(pow10(l) == 10 * pow10((l - 1) as nat));
        if l == 1 {
            assert(false);
        }
        lemma_digits_len_bound(x / 10, (l - 1) as nat);
    }
}

/// What a literal of at most eighteen digits denotes is a literal.
pub proof fn lemma_literal_spec_is_literal(i: Seq<char>, f: Seq<char>)
    requires
        i.len() >= 1,
        all_digits(i),
        all_digits(f),
        literal_spec(i, f) is Some,
    ensures
        literal_spec(i, f)->Some_0.is_literal(),
{
    let v = digits_value(i + f);
    assert(all_digits(i + f)) by {
        assert forall|k: int| 0 <= k < (i + f).len() implies is_digit(#[trigger] (i + f)[k]) by {
            if k < i.len() {
                assert((i + f)[k] == i[k]);
            } else {
                assert((i + f)[k] == f[k - i.len()]);
            }
        }
    }
    lemma_digits_value_bound(i + f);
    lemma_normalize_shape(v, f.len());
    lemma_normalize_wf(v, f.len());
    let z = choose|z: nat| #![trigger pow10(z)] z <= f.len() && normalize(v, f.len()) == (v / pow10(z), (f.len() - z) as nat)
        && normalize(v, f.len()).0 >= 0;
    let d = literal_spec(i, f)->Some_0;
    let m = v / pow10(z);
    let sc = (f.len() - z) as nat;
    assert(d.mantissa as int == m && d.scale as nat == sc);
    lemma_pow10_positive(z);
    lemma_pow10_positive(sc);
    lemma_pow10_positive(f.len());
    lemma_pow10_add(z, sc);
    vstd::arithmetic::div_mod::lemma_div_denominator(v, pow10(z), pow10(sc));
    assert(m / pow10(sc) == v / pow10(f.len()));
    lemma_pow10_add(f.len(), i.len());
    assert(v < pow10(f.len()) * pow10(i.len()));
    let pf = pow10(f.len());
    let pi = pow10(i.len());
    vstd::arithmetic::div_mod::lemma_fundamental_div_mod(v, pf);
    assert(v / pf < pi) by (nonlinear_arith)
        requires
            0 <= v < pf * pi,
            pf > 0,
            v == pf * (v / pf) + v % pf,
            0 <= v % pf,
    ;
    lemma_digits_len_bound((v / pow10(f.len())) as nat, i.len());
}

/// One is a literal.
pub proof fn lemma_one_is_literal()
    ensures
        Decimal::int_spec(1).is_literal(),
{
    assert(pow10(0) == 1);
    assert(digits(1) == seq![digit_char(1)]);
}

/// Integers that a `Decimal` holds are equal as decimals exactly when they
/// are equal.
pub proof fn lemma_int_spec_injective(a: int, b: int)
    requires
        i64::MIN <= a <= i64::MAX,
        i64::MIN <= b <= i64::MAX,
    ensures
        (Decimal::int_spec(a) == Decimal::int_spec(b)) <==> a == b,
{
}

/// The text of a non-negative integer is its digits.
pub proof fn lemma_int_text(n: int)
    requires
        0 <= n <= i64::MAX,
    ensures
        decimal_text(Decimal::int_spec(n)) == digits(n as nat),
{
    assert(pow10(0) == 1);
    assert(Seq::<char>::empty() + digits(n as nat) =~= digits(n as nat));
}

/// Sums, differences and products of integers, where they fit.
pub proof fn lemma_int_arithmetic(a: int, b: int)
    requires
        i64::MIN <= a <= i64::MAX,
        i64::MIN <= b <= i64::MAX,
    ensures
        i64::MIN <= a + b <= i64::MAX ==> Decimal::int_spec(a).add_spec(Decimal::int_spec(b)) == Some(
            Decimal::int_spec(a + b),
        ),
        i64::MIN <= a - b <= i64::MAX ==> Decimal::int_spec(a).sub_spec(Decimal::int_spec(b)) == Some(
            Decimal::int_spec(a - b),
        ),
        i64::MIN <= a * b <= i64::MAX ==> Decimal::int_spec(a).mul_spec(Decimal::int_spec(b)) == Some(
            Decimal::int_spec(a * b),
        ),
{
    assert(pow10(0) == 1);
    let x = Decimal::int_spec(a);
    let y = Decimal::int_spec(b);
    assert(x.mantissa * pow10(0) + y.mantissa * pow10(0) == a + b);
    assert(x.mantissa * pow10(0) - y.mantissa * pow10(0) == a - b);
    assert(normalize(a + b, 0) == (a + b, 0nat));
    assert(normalize(a - b, 0) == (a - b, 0nat));
    assert(normalize(a * b, 0) == (a * b, 0nat));
    assert(sum_of(x, y) == normalize(a + b, 0));
    assert(difference_of(x, y) == normalize(a - b, 0));
}

/// The text of a number holds only digits, a minus sign and a point.
pub proof fn lemma_decimal_text_chars(d: Decimal)
    ensures
        forall|k: int| 0 <= k < decimal_text(d).len() ==> is_digit(#[trigger] decimal_text(d)[k])
            || decimal_text(d)[k] == '-' || decimal_text(d)[k] == '.',
{
    let a = magnitude(d.mantissa as int) as int;
    let p = pow10(d.scale as nat);
    lemma_pow10_positive(d.scale as nat);
    lemma_digits((a / p) as nat);
    lemma_padded((a % p) as nat, d.scale as nat);
}

} // verus!
