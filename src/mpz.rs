//! Arbitrary-precision signed integers.
//!
//! `Mpz` holds a `rug::Integer` and gives it a mathematical value, `x@`, an
//! `int`. Each call into rug sits behind one small private wrapper below; the
//! public methods are verified against the wrappers' contracts.
use core::cmp::Ordering;
use rug::integer::IsPrime;
use rug::Integer;
use vstd::arithmetic::power::pow;
use vstd::prelude::*;

verus! {

#[verifier::external_type_specification]
#[verifier::external_body]
pub struct ExInteger(Integer);

/// The value that a `rug::Integer` stands for.
pub uninterp spec fn int_value(x: Integer) -> int;

/// Floor division, as GMP's `fdiv` functions round.
pub open spec fn floor_div(a: int, b: int) -> int {
    if b > 0 {
        a / b
    } else {
        (-a) / (-b)
    }
}

/// The remainder that goes with `floor_div`: it has the sign of `b`.
pub open spec fn floor_mod(a: int, b: int) -> int {
    a - b * floor_div(a, b)
}

/// Truncating division, as GMP's `tdiv` functions round.
pub open spec fn trunc_div(a: int, b: int) -> int {
    if (a >= 0) == (b > 0) {
        floor_div(a, b)
    } else {
        -floor_div(-a, b)
    }
}

pub open spec fn abs(a: int) -> int {
    if a < 0 {
        -a
    } else {
        a
    }
}

pub open spec fn divides(d: int, a: int) -> bool {
    exists|k: int| #[trigger] (d * k) == a
}

/// Euclid's algorithm on natural numbers.
pub open spec fn gcd_nat(a: nat, b: nat) -> nat
    decreases b,
{
    if b == 0 {
        a
    } else {
        gcd_nat(b, a % b)
    }
}

/// The greatest common divisor of two integers, never negative.
pub open spec fn gcd(a: int, b: int) -> int {
    gcd_nat(abs(a) as nat, abs(b) as nat) as int
}

/// The number of bits of a natural number: 0 for 0.
pub open spec fn bit_len(n: nat) -> nat
    decreases n,
{
    if n == 0 {
        0
    } else {
        1 + bit_len(n / 2)
    }
}

pub proof fn lemma_floor_mod_range(a: int, b: int)
    requires
        b > 0,
    ensures
        0 <= floor_mod(a, b) < b,
{
    assert(0 <= a - b * (a / b) < b) by (nonlinear_arith)
        requires
            b > 0,
    ;
}

/// Ceiling division.
pub open spec fn ceil_div(a: int, b: int) -> int {
    -floor_div(-a, b)
}

/// The value of big-endian bytes.
pub open spec fn be_value(s: Seq<u8>) -> int
    decreases s.len(),
{
    if s.len() == 0 {
        0
    } else {
        be_value(s.drop_last()) * 256 + s.last() as int
    }
}

pub open spec fn sign_of(a: int) -> i32 {
    if a < 0 {
        -1i32
    } else if a == 0 {
        0i32
    } else {
        1i32
    }
}

/// Relies on `Integer::from(u64)`: the value is kept.
#[verifier::external_body]
fn int_from_u64(x: u64) -> (r: Integer)
    ensures
        int_value(r) == x as int,
{
    Integer::from(x)
}

/// Relies on `Integer::from(i64)`: the value is kept.
#[verifier::external_body]
fn int_from_i64(x: i64) -> (r: Integer)
    ensures
        int_value(r) == x as int,
{
    Integer::from(x)
}

/// Relies on `Integer::clone`: the copy has the same value.
#[verifier::external_body]
fn int_clone(x: &Integer) -> (r: Integer)
    ensures
        int_value(r) == int_value(*x),
{
    x.clone()
}

/// Relies on rug's `&Integer + &Integer`.
#[verifier::external_body]
fn int_add(x: &Integer, y: &Integer) -> (r: Integer)
    ensures
        int_value(r) == int_value(*x) + int_value(*y),
{
    Integer::from(x + y)
}

/// Relies on rug's `&Integer - &Integer`.
#[verifier::external_body]
fn int_sub(x: &Integer, y: &Integer) -> (r: Integer)
    ensures
        int_value(r) == int_value(*x) - int_value(*y),
{
    Integer::from(x - y)
}

/// Relies on rug's `&Integer * &Integer`.
#[verifier::external_body]
fn int_mul(x: &Integer, y: &Integer) -> (r: Integer)
    ensures
        int_value(r) == int_value(*x) * int_value(*y),
{
    Integer::from(x * y)
}

/// Relies on rug's `-&Integer`.
#[verifier::external_body]
fn int_neg(x: &Integer) -> (r: Integer)
    ensures
        int_value(r) == -int_value(*x),
{
    Integer::from(-x)
}

/// Relies on `Integer::cmp`: the order of the values.
#[verifier::external_body]
fn int_cmp(x: &Integer, y: &Integer) -> (r: i32)
    ensures
        r == sign_of(int_value(*x) - int_value(*y)),
{
    match x.cmp(y) {
        Ordering::Less => -1,
        Ordering::Equal => 0,
        Ordering::Greater => 1,
    }
}

/// Relies on `Integer::cmp_abs`: the order of the absolute values.
#[verifier::external_body]
fn int_cmp_abs(x: &Integer, y: &Integer) -> (r: i32)
    ensures
        r == sign_of(abs(int_value(*x)) - abs(int_value(*y))),
{
    match x.cmp_abs(y) {
        Ordering::Less => -1,
        Ordering::Equal => 0,
        Ordering::Greater => 1,
    }
}

/// Relies on `Integer::cmp0`: the sign of the value.
#[verifier::external_body]
fn int_sign(x: &Integer) -> (r: i32)
    ensures
        r == sign_of(int_value(*x)),
{
    match x.cmp0() {
        Ordering::Less => -1,
        Ordering::Equal => 0,
        Ordering::Greater => 1,
    }
}

/// Relies on `Integer::div_rem_floor`: quotient rounded down, remainder with
/// the sign of the divisor; it panics on a zero divisor.
#[verifier::external_body]
fn int_div_rem_floor(x: &Integer, y: &Integer) -> (r: (Integer, Integer))
    requires
        int_value(*y) != 0,
    ensures
        int_value(r.0) == floor_div(int_value(*x), int_value(*y)),
        int_value(r.1) == floor_mod(int_value(*x), int_value(*y)),
{
    x.clone().div_rem_floor(y.clone())
}

/// Relies on `Integer::div_rem`: quotient rounded toward zero; it
/// panics on a zero divisor.
#[verifier::external_body]
fn int_div_rem_trunc(x: &Integer, y: &Integer) -> (r: (Integer, Integer))
    requires
        int_value(*y) != 0,
    ensures
        int_value(r.0) == trunc_div(int_value(*x), int_value(*y)),
        int_value(r.1) == int_value(*x) - int_value(*y) * trunc_div(int_value(*x), int_value(*y)),
{
    x.clone().div_rem(y.clone())
}

/// Relies on `Integer::div_exact`: correct when the division is exact; it
/// panics on a zero divisor.
#[verifier::external_body]
fn int_div_exact(x: &Integer, y: &Integer) -> (r: Integer)
    requires
        int_value(*y) != 0,
        int_value(*x) % int_value(*y) == 0,
    ensures
        int_value(r) * int_value(*y) == int_value(*x),
{
    x.clone().div_exact(y)
}

/// Relies on `Integer::gcd`: the greatest common divisor, never negative.
#[verifier::external_body]
fn int_gcd(x: &Integer, y: &Integer) -> (r: Integer)
    ensures
        int_value(r) == gcd(int_value(*x), int_value(*y)),
{
    x.clone().gcd(y)
}

/// Relies on `Integer::extended_gcd`: the gcd `g` and cofactors `s`, `t` with
/// `x*s + y*t == g`.
#[verifier::external_body]
fn int_extended_gcd(x: &Integer, y: &Integer) -> (r: (Integer, Integer, Integer))
    ensures
        int_value(r.0) == gcd(int_value(*x), int_value(*y)),
        int_value(*x) * int_value(r.1) + int_value(*y) * int_value(r.2) == int_value(r.0),
{
    x.clone().extended_gcd(y.clone(), Integer::new())
}

/// Relies on `Integer::root`: the `n`th root, truncated; it panics for
/// `n == 0` and for an even root of a negative value.
#[verifier::external_body]
fn int_root(x: &Integer, n: u32) -> (r: Integer)
    requires
        n > 0,
        int_value(*x) >= 0,
    ensures
        int_value(r) >= 0,
        pow(int_value(r), n as nat) <= int_value(*x),
        int_value(*x) < pow(int_value(r) + 1, n as nat),
{
    x.clone().root(n)
}

/// Relies on `Integer::significant_digits::<bool>`: the number of binary
/// digits of the absolute value, as a `usize`.
#[verifier::external_body]
fn int_significant_bits(x: &Integer) -> (r: usize)
    ensures
        r as nat == bit_len(abs(int_value(*x)) as nat),
{
    x.significant_digits::<bool>()
}

/// Relies on rug's `&Integer >> u32`: division by a power of two, rounded
/// down.
#[verifier::external_body]
fn int_shr(x: &Integer, n: u32) -> (r: Integer)
    ensures
        int_value(r) == floor_div(int_value(*x), pow(2, n as nat)),
{
    Integer::from(x >> n)
}

/// Relies on `Integer::to_i64`: `Some` exactly when the value fits.
#[verifier::external_body]
fn int_to_i64(x: &Integer) -> (r: Option<i64>)
    ensures
        r.is_some() <==> i64::MIN <= int_value(*x) <= i64::MAX,
        r.is_some() ==> r.unwrap() as int == int_value(*x),
{
    x.to_i64()
}

/// Relies on `Integer::from_str_radix` with radix 10.
#[verifier::external_body]
fn int_parse_decimal(s: &str) -> (r: Option<Integer>)
    ensures
        r.is_some() && is_decimal(s@) ==> int_value(r.unwrap()) == decimal_value(s@),
        is_decimal(s@) ==> r.is_some(),
{
    Integer::from_str_radix(s, 10).ok()
}

/// The outcome of GMP's primality test on `n` with `reps` rounds: 0 for
/// "not prime", 1 for "probably prime", 2 for "prime". The test seeds its
/// own random state the same way on every call, so the outcome depends on
/// `n` and `reps` alone.
pub uninterp spec fn prime_test(n: int, reps: nat) -> int;

pub open spec fn prime_result(code: int) -> ProbabPrimeResult {
    if code == 0 {
        ProbabPrimeResult::NotPrime
    } else if code == 1 {
        ProbabPrimeResult::ProbablyPrime
    } else {
        ProbabPrimeResult::Prime
    }
}

/// Relies on `Integer::is_probably_prime` (GMP's `mpz_probab_prime_p`): `No`
/// only for a number that is not prime, `Yes` only for one that is; it
/// converts `reps` to a C `int`, and panics past `i32::MAX`.
#[verifier::external_body]
fn int_is_probably_prime(x: &Integer, reps: u32) -> (r: ProbabPrimeResult)
    requires
        reps <= i32::MAX,
    ensures
        r == prime_result(prime_test(int_value(*x), reps as nat)),
        int_value(*x) >= 0 && r == ProbabPrimeResult::NotPrime ==> !is_prime(int_value(*x)),
        int_value(*x) >= 0 && r == ProbabPrimeResult::Prime ==> is_prime(int_value(*x)),
{
    match x.is_probably_prime(reps) {
        IsPrime::No => ProbabPrimeResult::NotPrime,
        IsPrime::Probably => ProbabPrimeResult::ProbablyPrime,
        IsPrime::Yes => ProbabPrimeResult::Prime,
    }
}

pub open spec fn is_prime(n: int) -> bool {
    n > 1 && forall|d: int| 1 < d < n ==> #[trigger] (n % d) != 0
}

/// The result of a probabilistic primality test.
#[derive(PartialEq, Eq, Structural, Debug)]
pub enum ProbabPrimeResult {
    NotPrime,
    ProbablyPrime,
    Prime,
}

pub open spec fn is_digit(c: char) -> bool {
    '0' <= c && c <= '9'
}

/// A non-empty string of ASCII digits.
pub open spec fn is_decimal(s: Seq<char>) -> bool {
    s.len() > 0 && forall|i: int| 0 <= i < s.len() ==> is_digit(#[trigger] s[i])
}

pub open spec fn decimal_value(s: Seq<char>) -> int
    decreases s.len(),
{
    if s.len() == 0 {
        0
    } else {
        decimal_value(s.drop_last()) * 10 + (s.last() as int - '0' as int)
    }
}

#[derive(Debug, Hash)]
pub struct Mpz {
    inner: Integer,
}

impl View for Mpz {
    type V = int;

    closed spec fn view(&self) -> int {
        int_value(self.inner)
    }
}

impl Mpz {
    pub fn zero() -> (r: Mpz)
        ensures
            r@ == 0,
    {
        Mpz { inner: int_from_u64(0) }
    }

    pub fn one() -> (r: Mpz)
        ensures
            r@ == 1,
    {
        Mpz { inner: int_from_u64(1) }
    }

    pub fn from_u64(x: u64) -> (r: Mpz)
        ensures
            r@ == x as int,
    {
        Mpz { inner: int_from_u64(x) }
    }

    pub fn from_i64(x: i64) -> (r: Mpz)
        ensures
            r@ == x as int,
    {
        Mpz { inner: int_from_i64(x) }
    }

    /// Parses a decimal numeral; `None` where `s` is not one.
    pub fn from_decimal(s: &str) -> (r: Option<Mpz>)
        ensures
            is_decimal(s@) ==> r.is_some() && r.unwrap()@ == decimal_value(s@),
    {
        match int_parse_decimal(s) {
            Some(i) => Some(Mpz { inner: i }),
            None => None,
        }
    }

    pub fn copy(&self) -> (r: Mpz)
        ensures
            r@ == self@,
    {
        Mpz { inner: int_clone(&self.inner) }
    }

    /// `self = x`
    pub fn set(&mut self, x: &Mpz)
        ensures
            final(self)@ == x@,
    {
        self.inner = int_clone(&x.inner);
    }

    pub fn set_si(&mut self, x: i64)
        ensures
            final(self)@ == x as int,
    {
        self.inner = int_from_i64(x);
    }

    pub fn set_ui(&mut self, x: u64)
        ensures
            final(self)@ == x as int,
    {
        self.inner = int_from_u64(x);
    }

    /// `self = x + y`
    pub fn add(&mut self, x: &Mpz, y: &Mpz)
        ensures
            final(self)@ == x@ + y@,
    {
        self.inner = int_add(&x.inner, &y.inner);
    }

    /// `self += x`
    pub fn add_mut(&mut self, x: &Mpz)
        ensures
            final(self)@ == old(self)@ + x@,
    {
        self.inner = int_add(&self.inner, &x.inner);
    }

    /// `self = x - y`
    pub fn sub(&mut self, x: &Mpz, y: &Mpz)
        ensures
            final(self)@ == x@ - y@,
    {
        self.inner = int_sub(&x.inner, &y.inner);
    }

    /// `self -= x`
    pub fn sub_mut(&mut self, x: &Mpz)
        ensures
            final(self)@ == old(self)@ - x@,
    {
        self.inner = int_sub(&self.inner, &x.inner);
    }

    /// `self = x * y`
    pub fn mul(&mut self, x: &Mpz, y: &Mpz)
        ensures
            final(self)@ == x@ * y@,
    {
        self.inner = int_mul(&x.inner, &y.inner);
    }

    /// `self *= x`
    pub fn mul_mut(&mut self, x: &Mpz)
        ensures
            final(self)@ == old(self)@ * x@,
    {
        self.inner = int_mul(&self.inner, &x.inner);
    }

    /// `self = x * y` for a machine word `y`
    pub fn mul_si(&mut self, x: &Mpz, y: i64)
        ensures
            final(self)@ == x@ * y,
    {
        let w = int_from_i64(y);
        self.inner = int_mul(&x.inner, &w);
    }

    /// `self = x * y` for an unsigned machine word `y`
    pub fn mul_ui(&mut self, x: &Mpz, y: u64)
        ensures
            final(self)@ == x@ * y,
    {
        let w = int_from_u64(y);
        self.inner = int_mul(&x.inner, &w);
    }

    /// `self += x * y`
    pub fn add_mul(&mut self, x: &Mpz, y: &Mpz)
        ensures
            final(self)@ == old(self)@ + x@ * y@,
    {
        let p = int_mul(&x.inner, &y.inner);
        self.inner = int_add(&self.inner, &p);
    }

    /// `self -= x * y`
    pub fn submul(&mut self, x: &Mpz, y: &Mpz)
        ensures
            final(self)@ == old(self)@ - x@ * y@,
    {
        let p = int_mul(&x.inner, &y.inner);
        self.inner = int_sub(&self.inner, &p);
    }

    /// `self *= x` for an unsigned machine word `x`
    pub fn mul_ui_mut(&mut self, x: u64)
        ensures
            final(self)@ == old(self)@ * x,
    {
        let w = int_from_u64(x);
        self.inner = int_mul(&self.inner, &w);
    }

    /// `self = self^2`
    pub fn square_mut(&mut self)
        ensures
            final(self)@ == old(self)@ * old(self)@,
    {
        self.inner = int_mul(&self.inner, &self.inner);
    }

    /// `self = -x`
    pub fn neg(&mut self, x: &Mpz)
        ensures
            final(self)@ == -x@,
    {
        self.inner = int_neg(&x.inner);
    }

    /// `self = -self`
    pub fn neg_mut(&mut self)
        ensures
            final(self)@ == -old(self)@,
    {
        self.inner = int_neg(&self.inner);
    }

    /// `self = |x|`
    pub fn abs(&mut self, x: &Mpz)
        ensures
            final(self)@ == abs(x@),
    {
        if int_sign(&x.inner) < 0 {
            self.inner = int_neg(&x.inner);
        } else {
            self.inner = int_clone(&x.inner);
        }
    }

    /// `self = |self|`
    pub fn abs_mut(&mut self)
        ensures
            final(self)@ == abs(old(self)@),
    {
        if int_sign(&self.inner) < 0 {
            self.inner = int_neg(&self.inner);
        }
    }

    /// The sign of `self - x`: -1, 0 or 1.
    pub fn cmp_mpz(&self, x: &Mpz) -> (r: i32)
        ensures
            r == sign_of(self@ - x@),
    {
        int_cmp(&self.inner, &x.inner)
    }

    /// The sign of `|self| - |x|`: -1, 0 or 1.
    pub fn cmpabs(&self, x: &Mpz) -> (r: i32)
        ensures
            r == sign_of(abs(self@) - abs(x@)),
    {
        int_cmp_abs(&self.inner, &x.inner)
    }

    /// The sign of `self - x` for a machine word `x`.
    pub fn cmp_si(&self, x: i64) -> (r: i32)
        ensures
            r == sign_of(self@ - x),
    {
        let w = int_from_i64(x);
        int_cmp(&self.inner, &w)
    }

    /// The sign of `self`: -1, 0 or 1.
    pub fn sgn(&self) -> (r: i32)
        ensures
            r == sign_of(self@),
    {
        int_sign(&self.inner)
    }

    pub fn is_neg(&self) -> (r: bool)
        ensures
            r == (self@ < 0),
    {
        int_sign(&self.inner) < 0
    }

    pub fn is_zero(&self) -> (r: bool)
        ensures
            r == (self@ == 0),
    {
        int_sign(&self.inner) == 0
    }

    pub fn is_one(&self) -> (r: bool)
        ensures
            r == (self@ == 1),
    {
        self.cmp_si(1) == 0
    }

    pub fn odd(&self) -> (r: bool)
        ensures
            r == (self@ % 2 == 1),
    {
        let two = int_from_u64(2);
        let (_q, rem) = int_div_rem_floor(&self.inner, &two);
        int_sign(&rem) != 0
    }

    /// `self = floor(n / d)`
    pub fn fdiv_q(&mut self, n: &Mpz, d: &Mpz)
        requires
            d@ != 0,
        ensures
            final(self)@ == floor_div(n@, d@),
    {
        let (q, _r) = int_div_rem_floor(&n.inner, &d.inner);
        self.inner = q;
    }

    /// `self = floor(self / d)`
    pub fn fdiv_q_mut(&mut self, d: &Mpz)
        requires
            d@ != 0,
        ensures
            final(self)@ == floor_div(old(self)@, d@),
    {
        let (q, _r) = int_div_rem_floor(&self.inner, &d.inner);
        self.inner = q;
    }

    /// `self = floor(n / d)` for an unsigned machine word `d`
    pub fn fdiv_q_ui(&mut self, n: &Mpz, d: u64)
        requires
            d != 0,
        ensures
            final(self)@ == n@ / (d as int),
    {
        let w = int_from_u64(d);
        let (q, _r) = int_div_rem_floor(&n.inner, &w);
        self.inner = q;
    }

    /// `self = floor(self / d)` for an unsigned machine word `d`
    pub fn fdiv_q_ui_mut(&mut self, d: u64)
        requires
            d != 0,
        ensures
            final(self)@ == old(self)@ / (d as int),
    {
        let w = int_from_u64(d);
        let (q, _r) = int_div_rem_floor(&self.inner, &w);
        self.inner = q;
    }

    /// `self = n mod d`, with the sign of `d`
    pub fn fdiv_r(&mut self, n: &Mpz, d: &Mpz)
        requires
            d@ != 0,
        ensures
            final(self)@ == floor_mod(n@, d@),
    {
        let (_q, r) = int_div_rem_floor(&n.inner, &d.inner);
        self.inner = r;
    }

    /// `self = self mod d`, with the sign of `d`
    pub fn fdiv_r_mut(&mut self, d: &Mpz)
        requires
            d@ != 0,
        ensures
            final(self)@ == floor_mod(old(self)@, d@),
    {
        let (_q, r) = int_div_rem_floor(&self.inner, &d.inner);
        self.inner = r;
    }

    /// `self = floor(n / d)`, `r = n mod d`
    pub fn fdiv_qr(&mut self, r: &mut Mpz, n: &Mpz, d: &Mpz)
        requires
            d@ != 0,
        ensures
            final(self)@ == floor_div(n@, d@),
            final(r)@ == floor_mod(n@, d@),
    {
        let (q, rem) = int_div_rem_floor(&n.inner, &d.inner);
        self.inner = q;
        r.inner = rem;
    }

    /// `self = self / d`, rounded toward zero
    pub fn tdiv_q_mut(&mut self, d: &Mpz)
        requires
            d@ != 0,
        ensures
            final(self)@ == trunc_div(old(self)@, d@),
    {
        let (q, _r) = int_div_rem_trunc(&self.inner, &d.inner);
        self.inner = q;
    }

    /// `self = n / d` where `d` divides `n`
    pub fn divexact(&mut self, n: &Mpz, d: &Mpz)
        requires
            d@ != 0,
            n@ % d@ == 0,
        ensures
            final(self)@ * d@ == n@,
    {
        self.inner = int_div_exact(&n.inner, &d.inner);
    }

    /// `self = self / d` where `d` divides `self`
    pub fn divexact_mut(&mut self, d: &Mpz)
        requires
            d@ != 0,
            old(self)@ % d@ == 0,
        ensures
            final(self)@ * d@ == old(self)@,
    {
        self.inner = int_div_exact(&self.inner, &d.inner);
    }

    /// `self = gcd(x, y)`
    pub fn gcd(&mut self, x: &Mpz, y: &Mpz)
        ensures
            final(self)@ == gcd(x@, y@),
    {
        self.inner = int_gcd(&x.inner, &y.inner);
    }

    /// `self = gcd(self, x)`
    pub fn gcd_mut(&mut self, x: &Mpz)
        ensures
            final(self)@ == gcd(old(self)@, x@),
    {
        self.inner = int_gcd(&self.inner, &x.inner);
    }

    /// `self = gcd(a, b)` with cofactors: `a*s + b*t == self`.
    pub fn gcdext(&mut self, s: &mut Mpz, t: &mut Mpz, a: &Mpz, b: &Mpz)
        ensures
            final(self)@ == gcd(a@, b@),
            a@ * final(s)@ + b@ * final(t)@ == final(self)@,
    {
        let (g, s1, t1) = int_extended_gcd(&a.inner, &b.inner);
        self.inner = g;
        s.inner = s1;
        t.inner = t1;
    }

    /// `self = floor(self^(1/n))` for a non-negative `self`
    pub fn root_mut(&mut self, n: u32)
        requires
            n > 0,
            old(self)@ >= 0,
        ensures
            final(self)@ >= 0,
            pow(final(self)@, n as nat) <= old(self)@ < pow(final(self)@ + 1, n as nat),
    {
        self.inner = int_root(&self.inner, n);
    }

    /// The number of bits of `|self|`; 0 for 0.
    pub fn bit_length(&self) -> (r: usize)
        ensures
            r as nat == bit_len(abs(self@) as nat),
    {
        int_significant_bits(&self.inner)
    }

    /// `self = floor(x / 2^n)`
    pub fn fdiv_q_2exp(&mut self, x: &Mpz, n: u32)
        ensures
            final(self)@ == floor_div(x@, pow(2, n as nat)),
    {
        self.inner = int_shr(&x.inner, n);
    }

    /// The value as a machine word, where it fits.
    pub fn to_i64(&self) -> (r: Option<i64>)
        ensures
            r.is_some() <==> i64::MIN <= self@ <= i64::MAX,
            r.is_some() ==> r.unwrap() as int == self@,
    {
        int_to_i64(&self.inner)
    }

    /// Trial divisions, a Baillie-PSW test and `reps - 24` Miller-Rabin
    /// rounds.
    pub fn probab_prime(&self, reps: u32) -> (r: ProbabPrimeResult)
        requires
            reps <= i32::MAX,
        ensures
            r == prime_result(prime_test(self@, reps as nat)),
            self@ >= 0 && r == ProbabPrimeResult::NotPrime ==> !is_prime(self@),
            self@ >= 0 && r == ProbabPrimeResult::Prime ==> is_prime(self@),
    {
        int_is_probably_prime(&self.inner, reps)
    }

    /// Prime or probably prime; `false` only for a non-negative number that
    /// is not prime, or for a negative one.
    pub fn is_prime(&self, iterations: u32) -> (r: bool)
        requires
            iterations <= i32::MAX,
        ensures
            r == (self@ >= 0 && (prime_result(prime_test(self@, iterations as nat))
                == ProbabPrimeResult::Prime || (prime_result(prime_test(self@, iterations as nat))
                == ProbabPrimeResult::ProbablyPrime && self@ > 1))),
            self@ >= 0 && !r ==> !is_prime(self@),
            self@ >= 0 && r ==> self@ > 1,
    {
        if self.sgn() < 0 {
            return false;
        }
        match self.probab_prime(iterations) {
            ProbabPrimeResult::NotPrime => false,
            ProbabPrimeResult::ProbablyPrime => self.cmp_si(1) > 0,
            ProbabPrimeResult::Prime => true,
        }
    }

    /// `self = x mod |m|`, never negative
    pub fn modulo(&mut self, x: &Mpz, m: &Mpz)
        requires
            m@ != 0,
        ensures
            final(self)@ == x@ % abs(m@),
    {
        let mut am = Mpz::zero();
        am.abs(m);
        self.fdiv_r(x, &am);
        proof {
            vstd::arithmetic::div_mod::lemma_fundamental_div_mod(x@, am@);
            assert(am@ * (x@ / am@) == (x@ / am@) * am@) by (nonlinear_arith);
        }
    }

    /// `self = self mod |m|`, never negative
    pub fn modulo_mut(&mut self, m: &Mpz)
        requires
            m@ != 0,
        ensures
            final(self)@ == old(self)@ % abs(m@),
    {
        let x = self.copy();
        self.modulo(&x, m);
    }

    /// `self = ceil(n / d)`
    pub fn cdiv_q(&mut self, n: &Mpz, d: &Mpz)
        requires
            d@ != 0,
        ensures
            final(self)@ == ceil_div(n@, d@),
    {
        let mut neg_n = Mpz::zero();
        neg_n.neg(n);
        self.fdiv_q(&neg_n, d);
        self.neg_mut();
    }

    /// `self = n - d*ceil(n / d)`
    pub fn cdiv_r(&mut self, n: &Mpz, d: &Mpz)
        requires
            d@ != 0,
        ensures
            final(self)@ == n@ - d@ * ceil_div(n@, d@),
    {
        let mut q = Mpz::zero();
        q.cdiv_q(n, d);
        self.set(n);
        self.submul(d, &q);
    }

    /// `self -= x * y`
    pub fn sub_mul(&mut self, x: &Mpz, y: &Mpz)
        ensures
            final(self)@ == old(self)@ - x@ * y@,
    {
        self.submul(x, y);
    }

    /// `self += x` for an unsigned machine word `x`
    pub fn add_ui_mut(&mut self, x: u64)
        ensures
            final(self)@ == old(self)@ + x,
    {
        let w = Mpz::from_u64(x);
        self.add_mut(&w);
    }

    /// `self -= x` for an unsigned machine word `x`
    pub fn sub_ui_mut(&mut self, x: u64)
        ensures
            final(self)@ == old(self)@ - x,
    {
        let w = Mpz::from_u64(x);
        self.sub_mut(&w);
    }

    /// `self = x / 2^n`, rounded toward zero
    pub fn tdiv_q_2exp(&mut self, x: &Mpz, n: u32)
        ensures
            final(self)@ == trunc_div(x@, pow(2, n as nat)),
    {
        proof {
            vstd::arithmetic::power::lemma_pow_positive(2, n as nat);
        }
        if x.is_neg() {
            let mut ax = Mpz::zero();
            ax.neg(x);
            self.fdiv_q_2exp(&ax, n);
            self.neg_mut();
        } else {
            self.fdiv_q_2exp(x, n);
        }
    }

    /// The value as an unsigned machine word, where it fits.
    pub fn to_u64(&self) -> (r: Option<u64>)
        ensures
            r.is_some() <==> 0 <= self@ <= u64::MAX,
            r.is_some() ==> r.unwrap() as int == self@,
    {
        if self.sgn() < 0 {
            return None;
        }
        let mut hi = Mpz::zero();
        hi.fdiv_q_2exp(self, 32);
        let mut lo = Mpz::zero();
        let two32 = Mpz::from_u64(4294967296);
        lo.fdiv_r(self, &two32);
        proof {
            vstd::arithmetic::power2::lemma_pow2(32);
            vstd::arithmetic::power2::lemma2_to64();
            vstd::arithmetic::div_mod::lemma_fundamental_div_mod(self@, 4294967296);
        }
        assert(pow(2, 32) == 4294967296);
        match (hi.to_i64(), lo.to_i64()) {
            (Some(h), Some(l)) => {
                if h >= 4294967296 || h < 0 || l < 0 {
                    return None;
                }
                assert(self@ == h * 4294967296 + l);
                Some((h as u64) * 4294967296 + (l as u64))
            },
            _ => None,
        }
    }

    /// `|self - modulus*ceil(self / modulus)|`, the remainder of ceiling
    /// division by `modulus`.
    pub fn crem_u16(&self, modulus: u16) -> (r: u16)
        requires
            modulus > 0,
        ensures
            r as int == (-self@) % (modulus as int),
    {
        let mut neg = Mpz::zero();
        neg.neg(self);
        let m = Mpz::from_u64(modulus as u64);
        let mut rem = Mpz::zero();
        rem.fdiv_r(&neg, &m);
        proof {
            vstd::arithmetic::div_mod::lemma_fundamental_div_mod(neg@, m@);
            assert(m@ * (neg@ / m@) == (neg@ / m@) * m@) by (nonlinear_arith);
        }
        match rem.to_i64() {
            Some(v) => v as u16,
            None => 0,
        }
    }

    /// The number whose big-endian bytes are `data`.
    pub fn from_bytes(data: &[u8]) -> (r: Mpz)
        ensures
            r@ == be_value(data@),
    {
        let mut acc = Mpz::zero();
        let mut i: usize = 0;
        while i < data.len()
            invariant
                i <= data@.len(),
                acc@ == be_value(data@.subrange(0, i as int)),
            decreases data@.len() - i,
        {
            proof {
                let s1 = data@.subrange(0, i as int + 1);
                assert(s1.drop_last() =~= data@.subrange(0, i as int));
            }
            acc.mul_ui_mut(256);
            acc.add_ui_mut(data[i] as u64);
            i = i + 1;
        }
        assert(data@.subrange(0, data@.len() as int) =~= data@);
        acc
    }

    pub fn swap(&mut self, x: &mut Mpz)
        ensures
            final(self)@ == old(x)@,
            final(x)@ == old(self)@,
    {
        core::mem::swap(&mut self.inner, &mut x.inner);
    }
}

impl Clone for Mpz {
    fn clone(&self) -> (r: Self)
        ensures
            r@ == self@,
    {
        self.copy()
    }
}

impl PartialEq for Mpz {
    fn eq(&self, o: &Mpz) -> (r: bool)
        ensures
            r == (self@ == o@),
    {
        int_cmp(&self.inner, &o.inner) == 0
    }
}

impl vstd::std_specs::cmp::PartialEqSpecImpl for Mpz {
    open spec fn obeys_eq_spec() -> bool {
        true
    }

    open spec fn eq_spec(&self, o: &Mpz) -> bool {
        self@ == o@
    }
}

impl Eq for Mpz {

}

} // verus!
