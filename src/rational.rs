use vstd::prelude::*;

verus! {

/// An exact number `num / den`. Every operation returns it in lowest terms with
/// a positive denominator.
///
/// Every literal and every number computed by the simplifier is one of these; a
/// result whose lowest-terms form does not fit in `i64` is reported as absent
/// and the caller leaves the expression it came from unevaluated.
#[derive(Debug, Clone, Copy, PartialEq, Eq, Structural)]
pub struct Rational {
    pub num: i64,
    pub den: i64,
}

pub open spec fn gcd(a: nat, b: nat) -> nat
    decreases b,
{
    if b == 0 {
        a
    } else {
        gcd(b, a % b)
    }
}

pub open spec fn abs(n: int) -> nat {
    if n < 0 {
        (-n) as nat
    } else {
        n as nat
    }
}

/// `n / d` in lowest terms, with the sign carried by the numerator.
pub open spec fn reduce(n: int, d: int) -> (int, int) {
    let g = gcd(abs(n), abs(d));
    let m = (abs(n) / g) as int;
    (if n < 0 {
        -m
    } else {
        m
    }, (abs(d) / g) as int)
}

/// A pair that a `Rational` can hold.
pub open spec fn fits(p: (int, int)) -> bool {
    i64::MIN < p.0 <= i64::MAX && 1 <= p.1 <= i64::MAX
}

/// The rational `n / d` (with `d > 0`), if its lowest-terms form fits.
pub open spec fn make(n: int, d: int) -> Option<(int, int)> {
    let p = reduce(n, d);
    if fits(p) {
        Some(p)
    } else {
        None
    }
}

pub open spec fn rat_add(a: (int, int), b: (int, int)) -> Option<(int, int)> {
    make(a.0 * b.1 + b.0 * a.1, a.1 * b.1)
}

pub open spec fn rat_sub(a: (int, int), b: (int, int)) -> Option<(int, int)> {
    make(a.0 * b.1 - b.0 * a.1, a.1 * b.1)
}

pub open spec fn rat_mul(a: (int, int), b: (int, int)) -> Option<(int, int)> {
    make(a.0 * b.0, a.1 * b.1)
}

/// Quotient; absent for a zero divisor.
pub open spec fn rat_div(a: (int, int), b: (int, int)) -> Option<(int, int)> {
    if b.0 == 0 {
        None
    } else if b.0 < 0 {
        make(-(a.0 * b.1), a.1 * (-b.0))
    } else {
        make(a.0 * b.1, a.1 * b.0)
    }
}

/// Integer part of `x / y`, rounded toward zero.
pub open spec fn trunc_div(x: int, y: int) -> int {
    let q = (abs(x) / abs(y)) as int;
    if (x < 0) != (y < 0) {
        -q
    } else {
        q
    }
}

/// Remainder `a - trunc(a / b) * b`, which takes the sign of `a`; absent for a
/// zero divisor.
pub open spec fn rat_rem(a: (int, int), b: (int, int)) -> Option<(int, int)> {
    if b.0 == 0 {
        None
    } else {
        let q = trunc_div(a.0 * b.1, a.1 * b.0);
        make(a.0 * b.1 - q * b.0 * a.1, a.1 * b.1)
    }
}

/// `a` raised to the natural power `k`, if every partial product fits.
pub open spec fn rat_pow(a: (int, int), k: nat) -> Option<(int, int)>
    decreases k,
{
    if k == 0 {
        Some((1int, 1int))
    } else {
        match rat_pow(a, (k - 1) as nat) {
            Some(p) => rat_mul(p, a),
            None => None,
        }
    }
}

/// `a` raised to the integer `b`; absent where `b` is not an integer, where a
/// zero is raised to a negative power, or where the result does not fit.
pub open spec fn rat_pow_int(a: (int, int), b: (int, int)) -> Option<(int, int)> {
    if b.1 != 1 {
        None
    } else if b.0 >= 0 {
        rat_pow(a, b.0 as nat)
    } else {
        match rat_pow(a, abs(b.0)) {
            Some(p) => rat_div((1int, 1int), p),
            None => None,
        }
    }
}

/// The `Rational` that holds a pair that fits.
pub open spec fn from_pair(p: (int, int)) -> Rational {
    Rational { num: p.0 as i64, den: p.1 as i64 }
}

pub open spec fn lift(p: Option<(int, int)>) -> Option<Rational> {
    match p {
        Some(q) => Some(from_pair(q)),
        None => None,
    }
}

pub open spec fn magnitude(a: Rational) -> Rational {
    if a.num < 0 && a.num > i64::MIN {
        Rational { num: (-a.num) as i64, den: a.den }
    } else {
        a
    }
}

pub open spec fn sum(a: Rational, b: Rational) -> Option<Rational> {
    if fits(a@) && fits(b@) {
        lift(rat_add(a@, b@))
    } else {
        None
    }
}

pub open spec fn difference(a: Rational, b: Rational) -> Option<Rational> {
    if fits(a@) && fits(b@) {
        lift(rat_sub(a@, b@))
    } else {
        None
    }
}

pub open spec fn product(a: Rational, b: Rational) -> Option<Rational> {
    if fits(a@) && fits(b@) {
        lift(rat_mul(a@, b@))
    } else {
        None
    }
}

pub open spec fn quotient(a: Rational, b: Rational) -> Option<Rational> {
    if fits(a@) && fits(b@) {
        lift(rat_div(a@, b@))
    } else {
        None
    }
}

pub open spec fn remainder(a: Rational, b: Rational) -> Option<Rational> {
    if fits(a@) && fits(b@) {
        lift(rat_rem(a@, b@))
    } else {
        None
    }
}

pub open spec fn power(a: Rational, b: Rational) -> Option<Rational> {
    if fits(a@) && fits(b@) {
        lift(rat_power(a@, b@))
    } else {
        None
    }
}

/// `x` to the natural power `q`.
pub open spec fn ipow(x: nat, q: nat) -> nat
    decreases q,
{
    if q == 0 {
        1
    } else {
        x * ipow(x, (q - 1) as nat)
    }
}

/// The natural number whose `q`-th power is `n`, if there is one.
pub open spec fn int_root(n: nat, q: nat) -> Option<nat> {
    if exists|x: nat| ipow(x, q) == n {
        Some(choose|x: nat| ipow(x, q) == n)
    } else {
        None
    }
}

/// `a` raised to the rational `b`, when the result is rational: an integer `b`
/// as in `rat_pow_int`; for `b = p/q` with `q > 1`, a non-negative `a` whose
/// numerator and denominator are `q`-th powers gives the `p`-th power of their
/// roots; anything else is absent.
pub open spec fn rat_power(a: (int, int), b: (int, int)) -> Option<(int, int)> {
    if b.1 == 1 {
        rat_pow_int(a, b)
    } else if a.0 < 0 || b.1 < 2 || a.1 < 1 {
        None
    } else {
        match (int_root(a.0 as nat, b.1 as nat), int_root(a.1 as nat, b.1 as nat)) {
            (Some(x), Some(y)) => rat_pow_int((x as int, y as int), (b.0, 1)),
            _ => None,
        }
    }
}

proof fn lemma_ipow_pos(x: nat, q: nat)
    requires
        x >= 1,
    ensures
        ipow(x, q) >= 1,
    decreases q,
{
    if q > 0 {
        lemma_ipow_pos(x, (q - 1) as nat);
        assert(x * ipow(x, (q - 1) as nat) >= 1) by (nonlinear_arith)
            requires
                x >= 1,
                ipow(x, (q - 1) as nat) >= 1,
        ;
    }
}

proof fn lemma_ipow_ge(x: nat, q: nat)
    requires
        x >= 1,
        q >= 1,
    ensures
        ipow(x, q) >= x,
{
    lemma_ipow_pos(x, (q - 1) as nat);
    assert(x * ipow(x, (q - 1) as nat) >= x) by (nonlinear_arith)
        requires
            x >= 1,
            ipow(x, (q - 1) as nat) >= 1,
    ;
}

proof fn lemma_ipow_strict(x: nat, y: nat, q: nat)
    requires
        x < y,
        q >= 1,
    ensures
        ipow(x, q) < ipow(y, q),
    decreases q,
{
    let qq = (q - 1) as nat;
    lemma_ipow_pos(y, qq);
    if q == 1 {
        assert(ipow(x, 0) == 1 && ipow(y, 0) == 1);
        assert(ipow(x, 1) == x * ipow(x, 0));
        assert(ipow(y, 1) == y * ipow(y, 0));
    } else {
        lemma_ipow_strict(x, y, qq);
        let a = ipow(x, qq);
        let b = ipow(y, qq);
        assert(x * a < y * b) by (nonlinear_arith)
            requires
                x < y,
                a < b,
                b >= 1,
        ;
    }
}

proof fn lemma_ipow_exp_mono(x: nat, i: nat, j: nat)
    requires
        x >= 1,
        i <= j,
    ensures
        ipow(x, i) <= ipow(x, j),
    decreases j,
{
    if i < j {
        lemma_ipow_exp_mono(x, i, (j - 1) as nat);
        lemma_ipow_pos(x, (j - 1) as nat);
        let b = ipow(x, (j - 1) as nat);
        assert(b <= x * b) by (nonlinear_arith)
            requires
                x >= 1,
        ;
    }
}

proof fn lemma_ipow_small(x: nat, q: nat)
    requires
        x <= 1,
        q >= 1,
    ensures
        ipow(x, q) == x,
    decreases q,
{
    let qq = (q - 1) as nat;
    if q > 1 {
        lemma_ipow_small(x, qq);
    } else {
        assert(ipow(x, qq) == 1);
    }
    let b = ipow(x, qq);
    assert(ipow(x, q) == x * b);
    assert(x * b == x) by (nonlinear_arith)
        requires
            x <= 1,
            b == 1 || b == x,
    ;
}

/// `x^q` if it is at most `cap`.
fn ipow_capped(x: u64, q: u64, cap: u64) -> (r: Option<u64>)
    requires
        q >= 1,
    ensures
        r matches Some(v) ==> v as nat == ipow(x as nat, q as nat) && v <= cap,
        r is None ==> ipow(x as nat, q as nat) > cap,
{
    if x <= 1 {
        proof {
            lemma_ipow_small(x as nat, q as nat);
        }
        return if x <= cap {
            Some(x)
        } else {
            None
        };
    }
    if cap == 0 {
        proof {
            lemma_ipow_ge(x as nat, q as nat);
        }
        return None;
    }
    let mut acc: u128 = 1;
    let mut i: u64 = 0;
    while i < q
        invariant
            x >= 2,
            i <= q,
            acc as nat == ipow(x as nat, i as nat),
            acc <= cap as u128,
        decreases q - i,
    {
        assert(acc * (x as u128) <= 0xFFFF_FFFF_FFFF_FFFF * 0xFFFF_FFFF_FFFF_FFFFu128) by (nonlinear_arith)
            requires
                acc <= 0xFFFF_FFFF_FFFF_FFFFu128,
                x <= 0xFFFF_FFFF_FFFF_FFFFu64,
        ;
        let next = acc * (x as u128);
        assert(ipow(x as nat, (i + 1) as nat) == x as nat * ipow(x as nat, i as nat));
        assert(next as nat == ipow(x as nat, (i + 1) as nat)) by (nonlinear_arith)
            requires
                next as nat == acc as nat * x as nat,
                acc as nat == ipow(x as nat, i as nat),
                ipow(x as nat, (i + 1) as nat) == x as nat * ipow(x as nat, i as nat),
        ;
        if next > cap as u128 {
            proof {
                lemma_ipow_exp_mono(x as nat, (i + 1) as nat, q as nat);
            }
            return None;
        }
        acc = next;
        i = i + 1;
    }
    Some(acc as u64)
}

/// The natural `q`-th root of `n`, if `n` is a `q`-th power.
fn root_of(n: u64, q: u64) -> (r: Option<u64>)
    requires
        q >= 2,
        n < 0xFFFF_FFFF_FFFF_FFFF,
    ensures
        r matches Some(x) ==> int_root(n as nat, q as nat) == Some(x as nat),
        r is None ==> int_root(n as nat, q as nat) is None,
{
    let mut lo: u64 = 0;
    let mut hi: u64 = n + 1;
    proof {
        assert forall|x: nat| hi <= x implies ipow(x, q as nat) > n by {
            lemma_ipow_ge(x, q as nat);
        }
    }
    while lo < hi
        invariant
            q >= 2,
            lo <= hi <= n + 1,
            forall|x: nat| x < lo ==> ipow(x, q as nat) < n,
            forall|x: nat| hi <= x ==> ipow(x, q as nat) > n,
        decreases hi - lo,
    {
        let mid = lo + (hi - lo) / 2;
        match ipow_capped(mid, q, n) {
            None => {
                proof {
                    assert forall|x: nat| mid <= x implies ipow(x, q as nat) > n by {
                        if mid < x {
                            lemma_ipow_strict(mid as nat, x, q as nat);
                        }
                    }
                }
                hi = mid;
            },
            Some(v) => {
                if v == n {
                    proof {
                        assert(ipow(mid as nat, q as nat) == n);
                        let c = choose|x: nat| ipow(x, q as nat) == n;
                        if c < mid {
                            lemma_ipow_strict(c, mid as nat, q as nat);
                        } else if mid < c {
                            lemma_ipow_strict(mid as nat, c, q as nat);
                        }
                    }
                    return Some(mid);
                }
                if v < n {
                    proof {
                        assert forall|x: nat| x < mid + 1 implies ipow(x, q as nat) < n by {
                            if x < mid {
                                lemma_ipow_strict(x, mid as nat, q as nat);
                            }
                        }
                    }
                    lo = mid + 1;
                } else {
                    proof {
                        assert forall|x: nat| mid <= x implies ipow(x, q as nat) > n by {
                            if mid < x {
                                lemma_ipow_strict(mid as nat, x, q as nat);
                            }
                        }
                    }
                    hi = mid;
                }
            },
        }
    }
    proof {
        assert forall|x: nat| ipow(x, q as nat) != n by {
            if x < lo {
            } else {
            }
        }
    }
    None
}

pub proof fn lemma_gcd_pos(a: nat, b: nat)
    requires
        a > 0 || b > 0,
    ensures
        gcd(a, b) > 0,
    decreases b,
{
    if b != 0 {
        lemma_gcd_pos(b, a % b);
    }
}

fn gcd_u128(a: u128, b: u128) -> (r: u128)
    ensures
        r == gcd(a as nat, b as nat),
{
    let mut x = a;
    let mut y = b;
    while y != 0
        invariant
            gcd(x as nat, y as nat) == gcd(a as nat, b as nat),
        decreases y,
    {
        let t = x % y;
        x = y;
        y = t;
    }
    x
}

/// Builds the lowest-terms rational `n / d`, if it fits.
fn make_exec(n: i128, d: i128) -> (r: Option<Rational>)
    requires
        n > i128::MIN,
        d > 0,
    ensures
        r matches Some(q) ==> make(n as int, d as int) == Some(q.view()),
        r is None ==> make(n as int, d as int) is None,
{
    let mag: u128 = if n < 0 {
        (-n) as u128
    } else {
        n as u128
    };
    let g = gcd_u128(mag, d as u128);
    proof {
        lemma_gcd_pos(mag as nat, d as nat);
    }
    let m = mag / g;
    let e = (d as u128) / g;
    if m > i64::MAX as u128 || e > i64::MAX as u128 || e == 0 {
        return None;
    }
    let num: i64 = if n < 0 {
        -(m as i64)
    } else {
        m as i64
    };
    Some(Rational { num, den: e as i64 })
}

impl View for Rational {
    type V = (int, int);

    open spec fn view(&self) -> (int, int) {
        (self.num as int, self.den as int)
    }
}

impl Rational {
    /// The integer `n` as a rational.
    pub fn from_int(n: i64) -> (r: Rational)
        requires
            n > i64::MIN,
        ensures
            r@ == (n as int, 1int),
    {
        Rational { num: n, den: 1 }
    }

    pub fn fits_exec(&self) -> (r: bool)
        ensures
            r == fits(self@),
    {
        self.num > i64::MIN && self.den >= 1
    }

    /// The absolute value; a numerator of `i64::MIN`, which no `Rational` in lowest
    /// terms that fits has, is left as it is.
    pub fn abs(&self) -> (r: Rational)
        ensures
            r == magnitude(*self),
    {
        if self.num < 0 && self.num > i64::MIN {
            Rational { num: -self.num, den: self.den }
        } else {
            *self
        }
    }

    pub fn add(&self, o: &Rational) -> (r: Option<Rational>)
        ensures
            r == sum(*self, *o),
    {
        if self.fits_exec() && o.fits_exec() {
            self.add_fit(o)
        } else {
            None
        }
    }

    pub fn sub(&self, o: &Rational) -> (r: Option<Rational>)
        ensures
            r == difference(*self, *o),
    {
        if self.fits_exec() && o.fits_exec() {
            self.sub_fit(o)
        } else {
            None
        }
    }

    pub fn mul(&self, o: &Rational) -> (r: Option<Rational>)
        ensures
            r == product(*self, *o),
    {
        if self.fits_exec() && o.fits_exec() {
            self.mul_fit(o)
        } else {
            None
        }
    }

    pub fn div(&self, o: &Rational) -> (r: Option<Rational>)
        ensures
            r == quotient(*self, *o),
    {
        if self.fits_exec() && o.fits_exec() {
            self.div_fit(o)
        } else {
            None
        }
    }

    pub fn rem(&self, o: &Rational) -> (r: Option<Rational>)
        ensures
            r == remainder(*self, *o),
    {
        if self.fits_exec() && o.fits_exec() {
            self.rem_fit(o)
        } else {
            None
        }
    }

    pub fn pow(&self, o: &Rational) -> (r: Option<Rational>)
        ensures
            r == power(*self, *o),
    {
        if self.fits_exec() && o.fits_exec() {
            self.pow_fit(o)
        } else {
            None
        }
    }

    fn add_fit(&self, o: &Rational) -> (r: Option<Rational>)
        requires
            fits(self@),
            fits(o@),
        ensures
            r matches Some(q) ==> rat_add(self@, o@) == Some(q@),
            r is None ==> rat_add(self@, o@) is None,
    {
        proof { lemma_products(self@, o@); }
        let n = (self.num as i128) * (o.den as i128) + (o.num as i128) * (self.den as i128);
        make_exec(n, (self.den as i128) * (o.den as i128))
    }

    fn sub_fit(&self, o: &Rational) -> (r: Option<Rational>)
        requires
            fits(self@),
            fits(o@),
        ensures
            r matches Some(q) ==> rat_sub(self@, o@) == Some(q@),
            r is None ==> rat_sub(self@, o@) is None,
    {
        proof { lemma_products(self@, o@); }
        let n = (self.num as i128) * (o.den as i128) - (o.num as i128) * (self.den as i128);
        make_exec(n, (self.den as i128) * (o.den as i128))
    }

    fn mul_fit(&self, o: &Rational) -> (r: Option<Rational>)
        requires
            fits(self@),
            fits(o@),
        ensures
            r matches Some(q) ==> rat_mul(self@, o@) == Some(q@),
            r is None ==> rat_mul(self@, o@) is None,
    {
        proof { lemma_products(self@, o@); }
        make_exec((self.num as i128) * (o.num as i128), (self.den as i128) * (o.den as i128))
    }

    fn div_fit(&self, o: &Rational) -> (r: Option<Rational>)
        requires
            fits(self@),
            fits(o@),
        ensures
            r matches Some(q) ==> rat_div(self@, o@) == Some(q@),
            r is None ==> rat_div(self@, o@) is None,
    {
        proof {
            lemma_products(self@, o@);
            if o.num < 0 {
                lemma_bounded_product(self.den as int, -o.num);
                assert(0 < self.den * (-o.num)) by (nonlinear_arith)
                    requires
                        0 < self.den,
                        0 < -o.num,
                ;
            } else if o.num > 0 {
                assert(0 < self.den * o.num) by (nonlinear_arith)
                    requires
                        0 < self.den,
                        0 < o.num,
                ;
            }
        }
        if o.num == 0 {
            None
        } else if o.num < 0 {
            make_exec(
                -((self.num as i128) * (o.den as i128)),
                (self.den as i128) * (-(o.num as i128)),
            )
        } else {
            make_exec((self.num as i128) * (o.den as i128), (self.den as i128) * (o.num as i128))
        }
    }

    fn rem_fit(&self, o: &Rational) -> (r: Option<Rational>)
        requires
            fits(self@),
            fits(o@),
        ensures
            r matches Some(q) ==> rat_rem(self@, o@) == Some(q@),
            r is None ==> rat_rem(self@, o@) is None,
    {
        proof { lemma_products(self@, o@); }
        if o.num == 0 {
            return None;
        }
        // a = x / (a.den * b.den), b = y / (a.den * b.den)
        let x: i128 = (self.num as i128) * (o.den as i128);
        let y: i128 = (self.den as i128) * (o.num as i128);
        let ux: u128 = if x < 0 { (-x) as u128 } else { x as u128 };
        let uy: u128 = if y < 0 { (-y) as u128 } else { y as u128 };
        proof {
            assert(y != 0) by (nonlinear_arith)
                requires
                    self.den > 0,
                    o.num != 0,
                    y == self.den * o.num,
            ;
        }
        let uq: u128 = ux / uy;
        proof {
            lemma_quot_bound(ux as nat, uy as nat);
        }
        // |x - q * y| = |x| - q * |y| < |y|, so the remainder fits
        let urem: u128 = ux - uq * uy;
        let rem_n: i128 = if x < 0 { -(urem as i128) } else { urem as i128 };
        proof {
            lemma_rem_identity(self@, o@, x as int, y as int, uq as int, urem as int);
        }
        make_exec(rem_n, (self.den as i128) * (o.den as i128))
    }

    /// `self` raised to the power `e`; absent where `rat_power` is.
    fn pow_fit(&self, e: &Rational) -> (r: Option<Rational>)
        requires
            fits(self@),
            fits(e@),
        ensures
            r matches Some(q) ==> rat_power(self@, e@) == Some(q@),
            r is None ==> rat_power(self@, e@) is None,
        decreases e.den,
    {
        if e.den != 1 {
            if self.num < 0 || e.den < 2 || self.den < 1 {
                return None;
            }
            let x = root_of(self.num as u64, e.den as u64);
            let y = root_of(self.den as u64, e.den as u64);
            return match (x, y) {
                (Some(x), Some(y)) => {
                    proof {
                        if x > 0 {
                            lemma_ipow_ge(x as nat, e.den as nat);
                        }
                        if y == 0 {
                            lemma_ipow_small(0, e.den as nat);
                        } else {
                            lemma_ipow_ge(y as nat, e.den as nat);
                        }
                    }
                    let base = Rational { num: x as i64, den: y as i64 };
                    base.pow_fit(&Rational { num: e.num, den: 1 })
                },
                _ => None,
            };
        }
        let k: u64 = if e.num < 0 { (-e.num) as u64 } else { e.num as u64 };
        let p = pow_nat(self, k);
        if e.num >= 0 {
            p
        } else {
            match p {
                Some(p) => {
                    proof {
                        assert(fits((1int, 1int)));
                    }
                    Rational { num: 1, den: 1 }.div_fit(&p)
                },
                None => None,
            }
        }
    }
}

/// A base whose powers never grow: 0, 1 or -1.
pub open spec fn is_unit_or_zero(a: (int, int)) -> bool {
    a.1 == 1 && -1 <= a.0 <= 1
}

proof fn lemma_pow_unit(a: (int, int), k: nat)
    requires
        is_unit_or_zero(a),
    ensures
        rat_pow(a, k) == Some(
            (if a.0 == 0 && k > 0 {
                0int
            } else if a.0 == -1 && k % 2 == 1 {
                -1int
            } else {
                1int
            }, 1int),
        ),
    decreases k,
{
    if k > 0 {
        lemma_pow_unit(a, (k - 1) as nat);
        let p = rat_pow(a, (k - 1) as nat).unwrap();
        assert(gcd(0, 1) == 1) by { assert(gcd(1, 0) == 1); }
        assert(gcd(1, 1) == 1) by { assert(gcd(1, 0) == 1); }
        assert(p.1 * a.1 == 1);
        assert(-1 <= p.0 <= 1);
        if a.0 == 0 {
            assert(p.0 * a.0 == 0);
        } else if a.0 == 1 {
            assert(p.0 * a.0 == p.0);
        } else {
            assert(a.0 == -1);
            assert(p.0 * a.0 == -p.0) by (nonlinear_arith)
                requires
                    a.0 == -1,
            ;
            assert(k % 2 == 1 <==> (k - 1) as nat % 2 == 0);
        }
        assert(reduce(p.0 * a.0, p.1 * a.1) == (p.0 * a.0, 1int));
    }
}

fn pow_nat(a: &Rational, k: u64) -> (r: Option<Rational>)
    requires
        fits(a@),
    ensures
        r matches Some(q) ==> rat_pow(a@, k as nat) == Some(q@),
        r is None ==> rat_pow(a@, k as nat) is None,
{
    if a.den == 1 && -1 <= a.num && a.num <= 1 {
        proof {
            lemma_pow_unit(a@, k as nat);
        }
        let v: i64 = if a.num == 0 && k > 0 {
            0
        } else if a.num == -1 && k % 2 == 1 {
            -1
        } else {
            1
        };
        return Some(Rational { num: v, den: 1 });
    }
    let mut acc = Rational { num: 1, den: 1 };
    let mut i: u64 = 0;
    assert(gcd(1, 1) == 1) by { assert(gcd(1, 0) == 1); }
    while i < k
        invariant
            i <= k,
            fits(a@),
            fits(acc@),
            rat_pow(a@, i as nat) == Some(acc@),
        decreases k - i,
    {
        match acc.mul_fit(a) {
            Some(n) => {
                acc = n;
            },
            None => {
                proof {
                    lemma_pow_none_stays(a@, (i + 1) as nat, k as nat);
                }
                return None;
            },
        }
        i = i + 1;
    }
    Some(acc)
}

proof fn lemma_pow_none_stays(a: (int, int), i: nat, k: nat)
    requires
        i <= k,
        rat_pow(a, i) is None,
    ensures
        rat_pow(a, k) is None,
    decreases k - i,
{
    if i < k {
        lemma_pow_none_stays(a, i + 1, k);
    }
}

proof fn lemma_products(a: (int, int), b: (int, int))
    requires
        fits(a),
        fits(b),
    ensures
        -prod_bound() <= a.0 * b.1 <= prod_bound(),
        -prod_bound() <= b.0 * a.1 <= prod_bound(),
        -prod_bound() <= a.0 * b.0 <= prod_bound(),
        -prod_bound() <= a.1 * b.0 <= prod_bound(),
        0 < a.1 * b.1 <= prod_bound(),
{
    lemma_bounded_product(a.0, b.1);
    lemma_bounded_product(b.0, a.1);
    lemma_bounded_product(a.0, b.0);
    lemma_bounded_product(a.1, b.0);
    lemma_bounded_product(a.1, b.1);
    assert(0 < a.1 * b.1) by (nonlinear_arith)
        requires
            0 < a.1,
            0 < b.1,
    ;
}

/// The largest magnitude of a product of two `Rational` components.
pub open spec fn prod_bound() -> int {
    0x3FFF_FFFF_FFFF_FFFF_0000_0000_0000_0001
}

proof fn lemma_bounded_product(x: int, y: int)
    requires
        -0x7FFF_FFFF_FFFF_FFFF <= x <= 0x7FFF_FFFF_FFFF_FFFF,
        -0x7FFF_FFFF_FFFF_FFFF <= y <= 0x7FFF_FFFF_FFFF_FFFF,
    ensures
        -prod_bound() <= x * y <= prod_bound(),
{
    lemma_abs_mul(x, y);
    assert(abs(x) * abs(y) <= 0x7FFF_FFFF_FFFF_FFFF * 0x7FFF_FFFF_FFFF_FFFF) by (nonlinear_arith)
        requires
            abs(x) <= 0x7FFF_FFFF_FFFF_FFFF,
            abs(y) <= 0x7FFF_FFFF_FFFF_FFFF,
    ;
}

proof fn lemma_abs_mul(x: int, y: int)
    ensures
        abs(x * y) == abs(x) * abs(y),
{
    if x < 0 && y < 0 {
        assert(x * y == (-x) * (-y)) by (nonlinear_arith);
        assert((-x) * (-y) >= 0) by (nonlinear_arith) requires -x > 0, -y > 0;
    } else if x < 0 {
        assert(x * y == -((-x) * y)) by (nonlinear_arith);
        assert((-x) * y >= 0) by (nonlinear_arith) requires -x > 0, y >= 0;
    } else if y < 0 {
        assert(x * y == -(x * (-y))) by (nonlinear_arith);
        assert(x * (-y) >= 0) by (nonlinear_arith) requires x >= 0, -y > 0;
    } else {
        assert(x * y >= 0) by (nonlinear_arith) requires x >= 0, y >= 0;
    }
}

proof fn lemma_quot_bound(x: nat, y: nat)
    requires
        y > 0,
    ensures
        (x / y) * y <= x,
        x - (x / y) * y < y,
{
    assert(x == (x / y) * y + x % y) by (nonlinear_arith) requires y > 0;
}

proof fn lemma_rem_identity(a: (int, int), b: (int, int), x: int, y: int, q: int, u: int)
    requires
        fits(a),
        fits(b),
        b.0 != 0,
        x == a.0 * b.1,
        y == a.1 * b.0,
        q == (abs(x) / abs(y)) as int,
        u == abs(x) - q * abs(y),
    ensures
        (if x < 0 { -u } else { u }) == a.0 * b.1 - trunc_div(a.0 * b.1, a.1 * b.0) * b.0 * a.1,
{
    let t = trunc_div(x, y);
    assert(y != 0) by (nonlinear_arith)
        requires
            a.1 > 0,
            b.0 != 0,
            y == a.1 * b.0,
    ;
    assert(t * b.0 * a.1 == t * y) by (nonlinear_arith)
        requires
            y == a.1 * b.0,
    ;
    if (x < 0) != (y < 0) {
        assert(t == -q);
        assert(t * y == -(q * y)) by (nonlinear_arith)
            requires
                t == -q,
        ;
    } else {
        assert(t == q);
    }
    if y < 0 {
        assert(q * y == -(q * abs(y))) by (nonlinear_arith)
            requires
                abs(y) == -y,
        ;
    } else {
        assert(q * y == q * abs(y));
    }
}

} // verus!
