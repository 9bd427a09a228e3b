use vstd::prelude::*;
use vstd::string::*;
use crate::text::push_char;

verus! {

/// An exact rational number `num / den`.
///
/// A denominator that is not positive marks an undefined value (the result of
/// a division by zero, or of a result too large to hold), which compares
/// unequal to everything, itself included.
#[derive(Clone, Copy, Debug)]
pub struct Number {
    pub num: i64,
    pub den: i64,
}

/// Greatest common divisor, by Euclid's rule.
pub open spec fn gcd(a: nat, b: nat) -> nat
    decreases b,
{
    if b == 0 {
        a
    } else {
        gcd(b, a % b)
    }
}

pub open spec fn abs(x: int) -> nat {
    if x < 0 {
        (-x) as nat
    } else {
        x as nat
    }
}

pub open spec fn undefined() -> Number {
    Number { num: 0, den: 0 }
}

/// `n / d` in lowest terms, or undefined when that does not fit in `i64`.
pub open spec fn reduce(n: int, d: int) -> Number {
    let g = gcd(abs(n), abs(d));
    let m = abs(n) / g;
    let q = abs(d) / g;
    if m <= i64::MAX && q <= i64::MAX {
        Number { num: (if n < 0 { -m } else { m as int }) as i64, den: q as i64 }
    } else {
        undefined()
    }
}

impl Number {
    pub open spec fn is_defined(self) -> bool {
        self.den > 0
    }

    pub open spec fn is_zero_spec(self) -> bool {
        self.den > 0 && self.num == 0
    }

    pub open spec fn is_one_spec(self) -> bool {
        self.den > 0 && self.num == self.den
    }

    /// Both are defined and stand for the same rational.
    pub open spec fn same_value(self, o: Number) -> bool {
        self.is_defined() && o.is_defined() && self.num * o.den == o.num * self.den
    }

    pub open spec fn sum_spec(self, o: Number) -> Number {
        if self.is_defined() && o.is_defined() {
            reduce(self.num * o.den + o.num * self.den, self.den * o.den)
        } else {
            undefined()
        }
    }

    pub open spec fn difference_spec(self, o: Number) -> Number {
        if self.is_defined() && o.is_defined() {
            reduce(self.num * o.den - o.num * self.den, self.den * o.den)
        } else {
            undefined()
        }
    }

    pub open spec fn product_spec(self, o: Number) -> Number {
        if self.is_defined() && o.is_defined() {
            reduce(self.num * o.num, self.den * o.den)
        } else {
            undefined()
        }
    }

    pub open spec fn quotient_spec(self, o: Number) -> Number {
        if self.is_defined() && o.is_defined() && o.num != 0 {
            if o.num < 0 {
                reduce(-self.num * o.den, self.den * -o.num)
            } else {
                reduce(self.num * o.den, self.den * o.num)
            }
        } else {
            undefined()
        }
    }

    pub open spec fn negation_spec(self) -> Number {
        if self.is_defined() && self.num != i64::MIN {
            Number { num: (-self.num) as i64, den: self.den }
        } else {
            undefined()
        }
    }
}

proof fn lemma_gcd_positive(a: nat, b: nat)
    requires
        b > 0,
    ensures
        gcd(a, b) > 0,
    decreases b,
{
    if a % b != 0 {
        lemma_gcd_positive(b, a % b);
    } else {
        assert(gcd(b, 0) == b);
    }
}

proof fn lemma_product_bound(x: int, y: int)
    requires
        -0x8000_0000_0000_0000 <= x <= 0x8000_0000_0000_0000,
        -0x8000_0000_0000_0000 <= y <= 0x8000_0000_0000_0000,
    ensures
        -0x4000_0000_0000_0000_0000_0000_0000_0000 <= x * y <= 0x4000_0000_0000_0000_0000_0000_0000_0000,
{
    assert(-0x4000_0000_0000_0000_0000_0000_0000_0000 <= x * y <= 0x4000_0000_0000_0000_0000_0000_0000_0000)
        by (nonlinear_arith)
        requires
            -0x8000_0000_0000_0000 <= x <= 0x8000_0000_0000_0000,
            -0x8000_0000_0000_0000 <= y <= 0x8000_0000_0000_0000,
    ;
}

proof fn lemma_scaled_bound(x: int, y: int)
    requires
        -0x8000_0000_0000_0000 <= x <= 0x8000_0000_0000_0000,
        0 < y < 0x8000_0000_0000_0000,
    ensures
        -0x3fff_ffff_ffff_ffff_8000_0000_0000_0000 <= x * y <= 0x3fff_ffff_ffff_ffff_8000_0000_0000_0000,
{
    assert(-0x3fff_ffff_ffff_ffff_8000_0000_0000_0000 <= x * y <= 0x3fff_ffff_ffff_ffff_8000_0000_0000_0000)
        by (nonlinear_arith)
        requires
            -0x8000_0000_0000_0000 <= x <= 0x8000_0000_0000_0000,
            0 < y < 0x8000_0000_0000_0000,
    ;
}

proof fn lemma_positive_product(x: int, y: int)
    requires
        0 < x,
        0 < y,
    ensures
        0 < x * y,
{
    assert(0 < x * y) by (nonlinear_arith)
        requires
            0 < x,
            0 < y,
    ;
}

fn gcd_u128(a: u128, b: u128) -> (g: u128)
    ensures
        g == gcd(a as nat, b as nat),
{
    let mut x = a;
    let mut y = b;
    while y != 0
        invariant
            gcd(x as nat, y as nat) == gcd(a as nat, b as nat),
        decreases y,
    {
        let t = x % y;
        x = y;
        y = t;
    }
    x
}

fn reduce_exec(n: i128, d: i128) -> (r: Number)
    requires
        d > 0,
        n > i128::MIN,
    ensures
        r == reduce(n as int, d as int),
{
    let m: u128 = if n < 0 { (-n) as u128 } else { n as u128 };
    let dd: u128 = d as u128;
    let g = gcd_u128(m, dd);
    proof {
        lemma_gcd_positive(m as nat, dd as nat);
    }
    let mq = m / g;
    let dq = dd / g;
    if mq <= i64::MAX as u128 && dq <= i64::MAX as u128 {
        let mi = mq as i64;
        let num: i64 = if n < 0 { -mi } else { mi };
        Number { num, den: dq as i64 }
    } else {
        Number { num: 0, den: 0 }
    }
}

impl Number {
    /// The integer `n`.
    pub fn integer(n: i64) -> (r: Number)
        ensures
            r == (Number { num: n, den: 1 }),
    {
        Number { num: n, den: 1 }
    }

    /// `n / d` in lowest terms; undefined when `d` is zero.
    pub fn ratio(n: i64, d: i64) -> (r: Number)
        ensures
            d == 0 ==> r == undefined(),
            d > 0 ==> r == reduce(n as int, d as int),
            d < 0 ==> r == reduce(-n, -d),
    {
        if d == 0 {
            Number { num: 0, den: 0 }
        } else if d > 0 {
            reduce_exec(n as i128, d as i128)
        } else {
            reduce_exec(-(n as i128), -(d as i128))
        }
    }

    /// The undefined value.
    pub fn nan() -> (r: Number)
        ensures
            r == undefined(),
    {
        Number { num: 0, den: 0 }
    }

    pub fn is_defined_value(&self) -> (r: bool)
        ensures
            r == self.is_defined(),
    {
        self.den > 0
    }

    pub fn is_zero(&self) -> (r: bool)
        ensures
            r == self.is_zero_spec(),
    {
        self.den > 0 && self.num == 0
    }

    pub fn is_one(&self) -> (r: bool)
        ensures
            r == self.is_one_spec(),
    {
        self.den > 0 && self.num == self.den
    }

    pub fn same(&self, o: &Number) -> (r: bool)
        ensures
            r == self.same_value(*o),
    {
        if self.den > 0 && o.den > 0 {
            proof {
                lemma_product_bound(self.num as int, o.den as int);
                lemma_product_bound(o.num as int, self.den as int);
            }
            (self.num as i128) * (o.den as i128) == (o.num as i128) * (self.den as i128)
        } else {
            false
        }
    }

    pub fn add(&self, o: &Number) -> (r: Number)
        ensures
            r == self.sum_spec(*o),
    {
        if self.den > 0 && o.den > 0 {
            proof {
                lemma_scaled_bound(self.num as int, o.den as int);
                lemma_scaled_bound(o.num as int, self.den as int);
                lemma_scaled_bound(self.den as int, o.den as int);
                lemma_positive_product(self.den as int, o.den as int);
            }
            let n = (self.num as i128) * (o.den as i128) + (o.num as i128) * (self.den as i128);
            let d = (self.den as i128) * (o.den as i128);
            reduce_exec(n, d)
        } else {
            Number { num: 0, den: 0 }
        }
    }

    pub fn sub(&self, o: &Number) -> (r: Number)
        ensures
            r == self.difference_spec(*o),
    {
        if self.den > 0 && o.den > 0 {
            proof {
                lemma_scaled_bound(self.num as int, o.den as int);
                lemma_scaled_bound(o.num as int, self.den as int);
                lemma_scaled_bound(self.den as int, o.den as int);
                lemma_positive_product(self.den as int, o.den as int);
            }
            let n = (self.num as i128) * (o.den as i128) - (o.num as i128) * (self.den as i128);
            let d = (self.den as i128) * (o.den as i128);
            reduce_exec(n, d)
        } else {
            Number { num: 0, den: 0 }
        }
    }

    pub fn mul(&self, o: &Number) -> (r: Number)
        ensures
            r == self.product_spec(*o),
    {
        if self.den > 0 && o.den > 0 {
            proof {
                lemma_product_bound(self.num as int, o.num as int);
                lemma_scaled_bound(self.den as int, o.den as int);
                lemma_positive_product(self.den as int, o.den as int);
            }
            let n = (self.num as i128) * (o.num as i128);
            let d = (self.den as i128) * (o.den as i128);
            reduce_exec(n, d)
        } else {
            Number { num: 0, den: 0 }
        }
    }

    pub fn div(&self, o: &Number) -> (r: Number)
        ensures
            r == self.quotient_spec(*o),
    {
        if self.den > 0 && o.den > 0 && o.num != 0 {
            let on: i128 = if o.num < 0 { -(o.num as i128) } else { o.num as i128 };
            let sn: i128 = if o.num < 0 { -(self.num as i128) } else { self.num as i128 };
            proof {
                lemma_product_bound(sn as int, o.den as int);
                lemma_product_bound(self.den as int, on as int);
                lemma_positive_product(self.den as int, on as int);
            }
            let n = sn * (o.den as i128);
            let d = (self.den as i128) * on;
            proof {
                if o.num < 0 {
                    assert(-self.num * o.den == sn * o.den) by (nonlinear_arith)
                        requires sn == -self.num;
                    assert(self.den * -o.num == self.den * on) by (nonlinear_arith)
                        requires on == -o.num;
                }
            }
            reduce_exec(n, d)
        } else {
            Number { num: 0, den: 0 }
        }
    }

    pub fn neg(&self) -> (r: Number)
        ensures
            r == self.negation_spec(),
    {
        if self.den > 0 && self.num != i64::MIN {
            Number { num: -self.num, den: self.den }
        } else {
            Number { num: 0, den: 0 }
        }
    }
}

/// The decimal digit for `d` in `0..10`.
pub open spec fn digit_char(d: int) -> char {
    if d == 0 {
        '0'
    } else if d == 1 {
        '1'
    } else if d == 2 {
        '2'
    } else if d == 3 {
        '3'
    } else if d == 4 {
        '4'
    } else if d == 5 {
        '5'
    } else if d == 6 {
        '6'
    } else if d == 7 {
        '7'
    } else if d == 8 {
        '8'
    } else {
        '9'
    }
}

/// The decimal digits of `n`, most significant first, without leading zeros.
pub open spec fn decimal_digits(n: nat) -> Seq<char>
    decreases n,
{
    if n < 10 {
        seq![digit_char(n as int)]
    } else {
        decimal_digits(n / 10).push(digit_char((n % 10) as int))
    }
}

/// The fractional part `.ddd` of `r` thousandths, trailing zeros dropped.
pub open spec fn thousandths_text(r: nat) -> Seq<char> {
    if r == 0 {
        seq![]
    } else if r % 100 == 0 {
        seq!['.', digit_char((r / 100) as int)]
    } else if r % 10 == 0 {
        seq!['.', digit_char((r / 100) as int), digit_char((r / 10 % 10) as int)]
    } else {
        seq!['.', digit_char((r / 100) as int), digit_char((r / 10 % 10) as int), digit_char((r % 10) as int)]
    }
}

/// `num / den` in thousandths, rounded half away from zero.
pub open spec fn rounded_thousandths(x: Number) -> int {
    let t = abs(x.num * 1000);
    let q = t / (x.den as nat);
    let m = if 2 * (t % (x.den as nat)) >= x.den { q + 1 } else { q };
    if x.num < 0 {
        -m
    } else {
        m as int
    }
}

/// The shortest decimal text of `k` thousandths.
pub open spec fn thousandths_decimal(k: int) -> Seq<char> {
    let sign: Seq<char> = if k < 0 { seq!['-'] } else { seq![] };
    sign + decimal_digits(abs(k) / 1000) + thousandths_text(abs(k) % 1000)
}

impl Number {
    /// The display text: the value rounded to three decimals, or `NaN`.
    pub open spec fn text_spec(self) -> Seq<char> {
        if self.is_defined() {
            thousandths_decimal(rounded_thousandths(self))
        } else {
            seq!['N', 'a', 'N']
        }
    }
}

fn digit_of(d: u128) -> (c: char)
    requires
        d < 10,
    ensures
        c == digit_char(d as int),
{
    if d == 0 {
        '0'
    } else if d == 1 {
        '1'
    } else if d == 2 {
        '2'
    } else if d == 3 {
        '3'
    } else if d == 4 {
        '4'
    } else if d == 5 {
        '5'
    } else if d == 6 {
        '6'
    } else if d == 7 {
        '7'
    } else if d == 8 {
        '8'
    } else {
        '9'
    }
}

/// Appends the decimal digits of `n`.
pub(crate) fn push_digits(s: &mut String, n: u128)
    ensures
        final(s)@ == old(s)@ + decimal_digits(n as nat),
    decreases n,
{
    if n < 10 {
        push_char(s, digit_of(n));
        assert(old(s)@.push(digit_char(n as int)) =~= old(s)@ + decimal_digits(n as nat));
    } else {
        push_digits(s, n / 10);
        push_char(s, digit_of(n % 10));
        assert(old(s)@ + decimal_digits(n as nat) =~= old(s)@ + decimal_digits((n / 10) as nat)
            + seq![digit_char((n % 10) as int)]);
    }
}

impl Number {
    /// The value rounded to three decimals, as the shortest decimal text
    /// (`2`, `0.667`, `-1.5`); `NaN` when undefined.
    pub fn to_text(&self) -> (r: String)
        ensures
            r@ == self.text_spec(),
    {
        let mut s = String::new();
        if self.den <= 0 {
            push_char(&mut s, 'N');
            push_char(&mut s, 'a');
            push_char(&mut s, 'N');
            assert(s@ =~= seq!['N', 'a', 'N']);
            return s;
        }
        let x: i128 = (self.num as i128) * 1000;
        let t: u128 = if x < 0 { (-x) as u128 } else { x as u128 };
        let d: u128 = self.den as u128;
        let q = t / d;
        let m: u128 = if 2 * (t % d) >= d { q + 1 } else { q };
        let ghost k = rounded_thousandths(*self);
        assert(abs(k) == m);
        if x < 0 && m != 0 {
            push_char(&mut s, '-');
        }
        assert(s@ =~= (if k < 0 { seq!['-'] } else { Seq::<char>::empty() }));
        push_digits(&mut s, m / 1000);
        let r = m % 1000;
        if r != 0 {
            push_char(&mut s, '.');
            push_char(&mut s, digit_of(r / 100));
            if r % 100 != 0 {
                push_char(&mut s, digit_of(r / 10 % 10));
                if r % 10 != 0 {
                    push_char(&mut s, digit_of(r % 10));
                }
            }
        }
        assert(s@ =~= thousandths_decimal(k));
        s
    }
}

pub open spec fn is_digit(c: char) -> bool {
    '0' <= c <= '9'
}

pub open spec fn digit_value(c: char) -> int {
    c as int - '0' as int
}

pub open spec fn all_digits(s: Seq<char>) -> bool {
    forall|i: int| 0 <= i < s.len() ==> is_digit(#[trigger] s[i])
}

/// The number that a string of decimal digits spells.
pub open spec fn digits_value(s: Seq<char>) -> int
    decreases s.len(),
{
    if s.len() == 0 {
        0
    } else {
        digits_value(s.drop_last()) * 10 + digit_value(s.last())
    }
}

pub open spec fn pow10(k: nat) -> int
    decreases k,
{
    if k == 0 {
        1
    } else {
        10 * pow10((k - 1) as nat)
    }
}

/// The text after a leading sign, if there is one.
pub open spec fn unsigned_part(s: Seq<char>) -> Seq<char> {
    if s.len() > 0 && (s[0] == '-' || s[0] == '+') {
        s.subrange(1, s.len() as int)
    } else {
        s
    }
}

/// `b` is digits with one decimal point at `p`.
pub open spec fn point_at(b: Seq<char>, p: int) -> bool {
    &&& 0 <= p < b.len()
    &&& b[p] == '.'
    &&& all_digits(b.subrange(0, p))
    &&& all_digits(b.subrange(p + 1, b.len() as int))
}

/// A decimal literal without exponent: an optional sign, then digits with
/// at most one decimal point, holding between one and eighteen digits.
pub open spec fn decimal_spec(s: Seq<char>) -> Option<Number> {
    let b = unsigned_part(s);
    let neg = s.len() > 0 && s[0] == '-';
    if all_digits(b) && 1 <= b.len() <= 18 {
        let v = digits_value(b);
        Some(reduce(if neg { -v } else { v }, 1))
    } else if (exists|p: int| point_at(b, p)) && 2 <= b.len() <= 19 {
        let p = choose|p: int| point_at(b, p);
        let v = digits_value(b.subrange(0, p) + b.subrange(p + 1, b.len() as int));
        Some(reduce(if neg { -v } else { v }, pow10((b.len() - p - 1) as nat)))
    } else {
        None
    }
}

proof fn lemma_digits_value_bound(s: Seq<char>)
    requires
        all_digits(s),
    ensures
        0 <= digits_value(s) < pow10(s.len()),
    decreases s.len(),
{
    if s.len() > 0 {
        let t = s.drop_last();
        assert(all_digits(t)) by {
            assert forall|i: int| 0 <= i < t.len() implies is_digit(#[trigger] t[i]) by {
                assert(t[i] == s[i]);
            }
        }
        lemma_digits_value_bound(t);
        assert(is_digit(s[s.len() - 1]));
        let a = digits_value(t);
        let d = digit_value(s.last());
        let p = pow10(t.len());
        assert(pow10(s.len()) == 10 * p);
        assert(0 <= a * 10 + d < 10 * p) by (nonlinear_arith)
            requires
                0 <= a < p,
                0 <= d < 10,
        ;
    }
}

proof fn lemma_pow10_positive(k: nat)
    ensures
        pow10(k) >= 1,
    decreases k,
{
    if k > 0 {
        lemma_pow10_positive((k - 1) as nat);
    }
}

proof fn lemma_pow10_grows(k: nat)
    requires
        k <= 18,
    ensures
        1 <= pow10(k) <= 1_000_000_000_000_000_000,
    decreases 18 - k,
{
    lemma_pow10_positive(k);
    if k < 18 {
        lemma_pow10_grows(k + 1);
    } else {
        reveal_with_fuel(pow10, 19);
        assert(pow10(18) == 1_000_000_000_000_000_000);
    }
}

fn digit_number(c: char) -> (d: u64)
    requires
        is_digit(c),
    ensures
        d == digit_value(c),
{
    (c as u32 - '0' as u32) as u64
}

impl Number {
    /// Reads a decimal literal without exponent (see `decimal_spec`).
    fn parse_decimal(s: &str) -> (r: Option<Number>)
        ensures
            r == decimal_spec(s@),
    {
        let n = s.unicode_len();
        let mut start: usize = 0;
        let mut neg = false;
        if n > 0 {
            let c0 = s.get_char(0);
            if c0 == '-' || c0 == '+' {
                start = 1;
                neg = c0 == '-';
            }
        }
        let ghost b = unsigned_part(s@);
        assert(b =~= s@.subrange(start as int, n as int));
        let mut dot: usize = n;
        let mut i: usize = start;
        while i < n
            invariant
                n == s@.len(),
                start <= i <= n,
                b == s@.subrange(start as int, n as int),
                b == unsigned_part(s@),
                dot == n ==> all_digits(b.subrange(0, i - start)),
                dot != n ==> {
                    &&& start <= dot < i
                    &&& b[dot - start] == '.'
                    &&& all_digits(b.subrange(0, dot - start))
                    &&& all_digits(b.subrange(dot - start + 1, i - start))
                },
            decreases n - i,
        {
            let c = s.get_char(i);
            assert(b[i - start] == c);
            if c == '.' {
                if dot != n {
                    assert forall|p: int| !point_at(b, p) by {
                        if point_at(b, p) {
                            let d1 = dot - start;
                            let d2 = i - start;
                            if p != d1 {
                                if d1 < p {
                                    assert(b.subrange(0, p)[d1] == b[d1]);
                                } else {
                                    assert(b.subrange(p + 1, b.len() as int)[d1 - p - 1] == b[d1]);
                                }
                            } else {
                                assert(b.subrange(p + 1, b.len() as int)[d2 - p - 1] == b[d2]);
                            }
                        }
                    }
                    assert(!all_digits(b)) by {
                        assert(b[i - start] == '.');
                    }
                    assert(decimal_spec(s@) is None);
                    return None;
                }
                dot = i;
            } else if !('0' <= c && c <= '9') {
                assert forall|p: int| !point_at(b, p) by {
                    if point_at(b, p) {
                        if p < i - start {
                            assert(b.subrange(p + 1, b.len() as int)[i - start - p - 1] == b[i - start]);
                        } else if p > i - start {
                            assert(b.subrange(0, p)[i - start] == b[i - start]);
                        }
                    }
                }
                assert(!all_digits(b)) by {
                    assert(b[i - start] == c);
                }
                assert(decimal_spec(s@) is None);
                return None;
            } else {
                proof {
                    if dot == n {
                        assert forall|j: int| 0 <= j < i + 1 - start implies is_digit(
                            #[trigger] b.subrange(0, i + 1 - start)[j],
                        ) by {
                            if j < i - start {
                                assert(b.subrange(0, i + 1 - start)[j] == b.subrange(0, i - start)[j]);
                            }
                        }
                    } else {
                        assert forall|j: int| 0 <= j < i + 1 - (dot - start + 1) - start implies is_digit(
                            #[trigger] b.subrange(dot - start + 1, i + 1 - start)[j],
                        ) by {
                            if j < i - start - (dot - start + 1) {
                                assert(b.subrange(dot - start + 1, i + 1 - start)[j] == b.subrange(
                                    dot - start + 1,
                                    i - start,
                                )[j]);
                            }
                        }
                    }
                }
            }
            i = i + 1;
        }
        let has_dot: usize = if dot < n { 1 } else { 0 };
        let len = n - start;
        assert(b.subrange(0, len as int) =~= b);
        if len < 1 + has_dot || len > 18 + has_dot {
            return None;
        }
        let p: usize = dot - start;
        let ghost digits = if has_dot == 1 {
            b.subrange(0, p as int) + b.subrange(p + 1, b.len() as int)
        } else {
            b
        };
        proof {
            if dot < n {
                assert(point_at(b, p as int));
                assert forall|q: int| point_at(b, q) implies q == p by {
                    if q < p {
                        assert(b.subrange(0, p as int)[q] == b[q]);
                    } else if q > p {
                        assert(b.subrange(q + 1, b.len() as int)[p - q - 1] == b[p as int]);
                        assert(b.subrange(0, q)[p as int] == b[p as int]);
                    }
                }
                assert(!all_digits(b)) by {
                    assert(b[p as int] == '.');
                }
            }
            assert(all_digits(digits)) by {
                assert forall|j: int| 0 <= j < digits.len() implies is_digit(#[trigger] digits[j]) by {
                    if has_dot == 0 {
                    } else if j < p {
                        assert(digits[j] == b.subrange(0, p as int)[j]);
                    } else {
                        assert(digits[j] == b.subrange(p + 1, b.len() as int)[j - p]);
                    }
                }
            }
        }
        let count: usize = len - has_dot;
        assert(digits.len() == count);
        let mut acc: u64 = 0;
        let mut j: usize = 0;
        while j < count
            invariant
                count == digits.len(),
                count <= 18,
                all_digits(digits),
                j <= count,
                acc == digits_value(digits.subrange(0, j as int)),
                has_dot == 1 ==> digits == b.subrange(0, p as int) + b.subrange(p + 1, b.len() as int),
                has_dot == 0 ==> digits == b,
                b == s@.subrange(start as int, n as int),
                n == s@.len(),
                start <= n,
                p + start <= n,
                len == n - start,
                count == len - has_dot,
                has_dot <= 1,
                has_dot == 0 ==> p == len,
                has_dot == 1 ==> p < len,
            decreases count - j,
        {
            let pos: usize = if j < p { start + j } else { start + j + 1 };
            let c = s.get_char(pos);
            proof {
                if has_dot == 0 {
                    assert(digits[j as int] == b[j as int]);
                } else {
                    let front = b.subrange(0, p as int);
                    let back = b.subrange(p + 1, b.len() as int);
                    assert(front.len() == p);
                    assert(digits == front + back);
                    if j < p {
                        assert((front + back)[j as int] == front[j as int]);
                    } else {
                        assert((front + back)[j as int] == back[j - p]);
                    }
                }
            }
            assert(c == digits[j as int]);
            let ghost pre = digits.subrange(0, j as int);
            let ghost next = digits.subrange(0, j + 1);
            assert(next.drop_last() =~= pre);
            proof {
                lemma_digits_value_bound(next);
                lemma_pow10_grows(next.len());
                assert(all_digits(next)) by {
                    assert forall|q: int| 0 <= q < next.len() implies is_digit(#[trigger] next[q]) by {
                        assert(next[q] == digits[q]);
                    }
                }
            }
            acc = acc * 10 + digit_number(c);
            j = j + 1;
        }
        assert(digits.subrange(0, count as int) =~= digits);
        let mut scale: i64 = 1;
        let mut k: usize = 0;
        let frac: usize = if has_dot == 1 { len - p - 1 } else { 0 };
        while k < frac
            invariant
                k <= frac,
                frac <= 18,
                scale == pow10(k as nat),
            decreases frac - k,
        {
            proof {
                lemma_pow10_grows((k + 1) as nat);
            }
            scale = scale * 10;
            k = k + 1;
        }
        proof {
            lemma_pow10_grows(frac as nat);
        }
        let v: i128 = if neg { -(acc as i128) } else { acc as i128 };
        Some(reduce_exec(v, scale as i128))
    }
}

pub open spec fn is_exponent_mark(c: char) -> bool {
    c == 'e' || c == 'E'
}

/// The position of the first exponent mark from `i` on.
pub open spec fn first_mark(s: Seq<char>, i: int) -> Option<int>
    decreases s.len() - i,
{
    if i < 0 || i >= s.len() {
        None
    } else if is_exponent_mark(s[i]) {
        Some(i)
    } else {
        first_mark(s, i + 1)
    }
}

/// An exponent: an optional sign and one or two digits, at most eighteen.
pub open spec fn exponent_spec(t: Seq<char>) -> Option<int> {
    let b = unsigned_part(t);
    if all_digits(b) && 1 <= b.len() <= 2 && digits_value(b) <= 18 {
        Some(if t.len() > 0 && t[0] == '-' { -digits_value(b) } else { digits_value(b) })
    } else {
        None
    }
}

/// `m` times ten to the power `k`.
pub open spec fn scaled(m: Number, k: int) -> Number {
    if k >= 0 {
        m.product_spec(Number { num: pow10(k as nat) as i64, den: 1 })
    } else {
        m.quotient_spec(Number { num: pow10((-k) as nat) as i64, den: 1 })
    }
}

/// A number literal: a decimal literal (see `decimal_spec`), optionally
/// followed by `e` or `E` and an exponent (see `exponent_spec`). The value
/// is exact; it is undefined when it does not fit.
pub open spec fn literal_spec(s: Seq<char>) -> Option<Number> {
    match first_mark(s, 0) {
        None => decimal_spec(s),
        Some(p) => match (decimal_spec(s.subrange(0, p)), exponent_spec(s.subrange(p + 1, s.len() as int))) {
            (Some(m), Some(k)) => Some(scaled(m, k)),
            _ => None,
        },
    }
}

/// Reads an exponent (see `exponent_spec`).
fn parse_exponent(t: &str) -> (r: Option<i64>)
    ensures
        match r {
            Some(k) => exponent_spec(t@) == Some(k as int) && -18 <= k <= 18,
            None => exponent_spec(t@) is None,
        },
{
    let n = t.unicode_len();
    let mut start: usize = 0;
    let mut neg = false;
    if n > 0 {
        let c0 = t.get_char(0);
        if c0 == '-' || c0 == '+' {
            start = 1;
            neg = c0 == '-';
        }
    }
    let ghost b = unsigned_part(t@);
    assert(b =~= t@.subrange(start as int, n as int));
    let len = n - start;
    if len < 1 || len > 2 {
        return None;
    }
    let mut v: i64 = 0;
    let mut i: usize = 0;
    while i < len
        invariant
            n == t@.len(),
            start + len == n,
            1 <= len <= 2,
            i <= len,
            b == t@.subrange(start as int, n as int),
            b == unsigned_part(t@),
            neg == (t@.len() > 0 && t@[0] == '-'),
            all_digits(b.subrange(0, i as int)),
            v == digits_value(b.subrange(0, i as int)),
            0 <= v < pow10(i as nat),
        decreases len - i,
    {
        let c = t.get_char(start + i);
        assert(b[i as int] == c);
        if !('0' <= c && c <= '9') {
            assert(!all_digits(b));
            return None;
        }
        assert(b.subrange(0, i + 1).drop_last() =~= b.subrange(0, i as int));
        assert(all_digits(b.subrange(0, i + 1))) by {
            assert forall|q: int| 0 <= q < i + 1 implies is_digit(#[trigger] b.subrange(0, i + 1)[q]) by {
                if q < i {
                    assert(b.subrange(0, i + 1)[q] == b.subrange(0, i as int)[q]);
                }
            }
        }
        proof {
            lemma_pow10_grows((i + 1) as nat);
        }
        v = v * 10 + digit_number(c) as i64;
        i = i + 1;
    }
    assert(b.subrange(0, len as int) =~= b);
    if v > 18 {
        return None;
    }
    Some(if neg { -v } else { v })
}

fn power_of_ten(k: u64) -> (r: i64)
    requires
        k <= 18,
    ensures
        r == pow10(k as nat),
{
    let mut p: i64 = 1;
    let mut i: u64 = 0;
    while i < k
        invariant
            i <= k,
            k <= 18,
            p == pow10(i as nat),
        decreases k - i,
    {
        proof {
            lemma_pow10_grows((i + 1) as nat);
        }
        p = p * 10;
        i = i + 1;
    }
    p
}

impl Number {
    /// Reads a number literal such as `2`, `-1`, `+0.5`, `2.` or `1.5e-3`;
    /// `None` when the text is not one (see `literal_spec`).
    pub fn parse(s: &str) -> (r: Option<Number>)
        ensures
            r == literal_spec(s@),
    {
        let n = s.unicode_len();
        let mut p: usize = 0;
        while p < n
            invariant
                n == s@.len(),
                p <= n,
                first_mark(s@, 0) == first_mark(s@, p as int),
            ensures
                p <= n,
                first_mark(s@, 0) == first_mark(s@, p as int),
                p < n ==> is_exponent_mark(s@[p as int]),
            decreases n - p,
        {
            let c = s.get_char(p);
            if c == 'e' || c == 'E' {
                break;
            }
            p = p + 1;
        }
        if p == n {
            return Number::parse_decimal(s);
        }
        let mantissa = s.substring_char(0, p);
        let exponent = s.substring_char(p + 1, n);
        let m = match Number::parse_decimal(mantissa) {
            Some(m) => m,
            None => {
                return None;
            },
        };
        let k = match parse_exponent(exponent) {
            Some(k) => k,
            None => {
                return None;
            },
        };
        if k >= 0 {
            let f = power_of_ten(k as u64);
            Some(m.mul(&Number::integer(f)))
        } else {
            let f = power_of_ten((-k) as u64);
            Some(m.div(&Number::integer(f)))
        }
    }
}

} // verus!
