use vstd::prelude::*;

verus! {

/// An exact decimal scalar with value `mantissa / 10^scale`.
///
/// This is the numeric domain of constant expressions.  All constant folding
/// is exact: an operation whose result has no finite decimal form of this
/// shape (or whose mantissa would leave `i64`) simply declines to fold.
#[derive(Clone, Copy, Debug, PartialEq, Eq, Structural)]
pub struct Scalar {
    pub mantissa: i64,
    pub scale: u32,
}

/// `10^k`.
pub open spec fn pow10(k: nat) -> nat
    decreases k,
{
    if k == 0 {
        1
    } else {
        10 * pow10((k - 1) as nat)
    }
}

pub open spec fn fits_i64(x: int) -> bool {
    i64::MIN as int <= x <= i64::MAX as int
}

pub open spec fn abs_int(m: int) -> nat {
    if m < 0 {
        (-m) as nat
    } else {
        m as nat
    }
}

pub open spec fn with_sign(neg: bool, mag: nat) -> int {
    if neg {
        -(mag as int)
    } else {
        mag as int
    }
}

/// A scalar is canonical when its mantissa carries no trailing decimal zero,
/// so each representable value has exactly one canonical form.
pub open spec fn canonical(s: Scalar) -> bool {
    s.scale == 0 || abs_int(s.mantissa as int) % 10 != 0
}

/// Trailing zero digits stripped from the magnitude `mag / 10^k`.
pub open spec fn norm_mag(mag: nat, k: nat) -> (nat, nat)
    decreases k,
{
    if k == 0 || mag % 10 != 0 {
        (mag, k)
    } else {
        norm_mag(mag / 10, (k - 1) as nat)
    }
}

/// The canonical form of `m / 10^k`, as a mantissa-scale pair.
pub open spec fn norm_model(m: int, k: nat) -> (int, nat) {
    let (nmag, nk) = norm_mag(abs_int(m), k);
    (with_sign(m < 0, nmag), nk)
}

pub proof fn lemma_pow10_pos(k: nat)
    ensures
        pow10(k) >= 1,
    decreases k,
{
    if k > 0 {
        lemma_pow10_pos((k - 1) as nat);
    }
}

pub proof fn lemma_pow10_add(a: nat, b: nat)
    ensures
        pow10(a + b) == pow10(a) * pow10(b),
    decreases a,
{
    if a == 0 {
        assert(pow10(a) == 1);
        assert(pow10(a + b) == 1 * pow10(b));
    } else {
        lemma_pow10_add((a - 1) as nat, b);
        let p = pow10((a - 1) as nat);
        let q = pow10(b);
        assert((a + b - 1) as nat == (a - 1) as nat + b);
        assert(pow10(a + b) == 10 * pow10((a - 1) as nat + b));
        assert(pow10(a + b) == pow10(a) * pow10(b)) by (nonlinear_arith)
            requires
                pow10(a + b) == 10 * (p * q),
                pow10(a) == 10 * p,
                pow10(b) == q,
        ;
    }
}

/// Facts about `norm_mag`: the result is canonical, keeps the value, and
/// never grows the magnitude.
pub proof fn lemma_norm_mag(mag: nat, k: nat)
    ensures
        ({
            let (nmag, nk) = norm_mag(mag, k);
            &&& nk <= k
            &&& (nk == 0 || nmag % 10 != 0)
            &&& nmag * pow10(k) == mag * pow10(nk)
            &&& nmag <= mag
        }),
    decreases k,
{
    if k == 0 || mag % 10 != 0 {
        lemma_pow10_pos(k);
        let (nmag, nk) = norm_mag(mag, k);
        assert(nmag * pow10(k) == mag * pow10(nk));
    } else {
        lemma_norm_mag(mag / 10, (k - 1) as nat);
        let (nmag, nk) = norm_mag(mag / 10, (k - 1) as nat);
        lemma_pow10_add(1, (k - 1) as nat);
        assert(mag == 10 * (mag / 10));
        assert(nmag * pow10(k) == mag * pow10(nk)) by (nonlinear_arith)
            requires
                nmag * pow10((k - 1) as nat) == (mag / 10) * pow10(nk),
                pow10(k) == 10 * pow10((k - 1) as nat),
                mag == 10 * (mag / 10),
        ;
    }
}

/// Split a mantissa into sign and magnitude.
pub(crate) fn mag_of(m: i64) -> (r: (bool, u64))
    ensures
        r.1 as nat == abs_int(m as int),
        r.0 == (m < 0),
{
    if m < 0 {
        let wide: i128 = -(m as i128);
        (true, wide as u64)
    } else {
        (false, m as u64)
    }
}

/// Rebuild a mantissa from sign and magnitude, when it fits.
pub(crate) fn from_mag(neg: bool, mag: u64) -> (r: Option<i64>)
    ensures
        r matches Some(v) ==> v as int == with_sign(neg, mag as nat),
        r is None ==> !fits_i64(with_sign(neg, mag as nat)),
{
    if neg {
        if mag <= 9223372036854775808u64 {
            let wide: i128 = -(mag as i128);
            Some(wide as i64)
        } else {
            None
        }
    } else {
        if mag <= 9223372036854775807u64 {
            Some(mag as i64)
        } else {
            None
        }
    }
}

/// `m * 10^d` as an `i64`, or `None` when that leaves the `i64` range.
pub(crate) fn scale_up(m: i64, d: u32) -> (r: Option<i64>)
    ensures
        r matches Some(v) ==> v == m * pow10(d as nat) && fits_i64(m * pow10(d as nat)),
        r is None ==> !fits_i64(m * pow10(d as nat)),
{
    let mut cur: i64 = m;
    let mut j: u32 = 0;
    assert(pow10(0) == 1);
    while j < d
        invariant
            j <= d,
            cur == m * pow10(j as nat),
        decreases d - j,
    {
        proof {
            lemma_pow10_add(j as nat, 1);
        }
        match cur.checked_mul(10) {
            Some(next) => {
                assert(next == m * pow10((j + 1) as nat)) by (nonlinear_arith)
                    requires
                        next == cur * 10,
                        cur == m * pow10(j as nat),
                        pow10((j + 1) as nat) == pow10(j as nat) * 10,
                ;
                cur = next;
                j = j + 1;
            },
            None => {
                proof {
                    assert(!fits_i64(m * pow10((j + 1) as nat))) by (nonlinear_arith)
                        requires
                            cur == m * pow10(j as nat),
                            pow10((j + 1) as nat) == pow10(j as nat) * 10,
                            !fits_i64(cur * 10),
                    ;
                    lemma_scale_monotone(m as int, (j + 1) as nat, d as nat);
                }
                return None;
            },
        }
    }
    Some(cur)
}

/// If `m * 10^d1` already leaves the `i64` range, so does `m * 10^d2` for
/// any larger `d2`.
proof fn lemma_scale_monotone(m: int, d1: nat, d2: nat)
    requires
        d1 <= d2,
        !fits_i64(m * pow10(d1)),
    ensures
        !fits_i64(m * pow10(d2)),
{
    lemma_pow10_add(d1, (d2 - d1) as nat);
    lemma_pow10_pos((d2 - d1) as nat);
    let p1 = pow10(d1) as int;
    let p2 = pow10(d2) as int;
    let q = pow10((d2 - d1) as nat) as int;
    assert(d1 + (d2 - d1) as nat == d2);
    assert(p2 == p1 * q);
    assert(m * p2 == (m * p1) * q) by (nonlinear_arith)
        requires
            p2 == p1 * q,
    ;
    if m * p1 > i64::MAX as int {
        assert((m * p1) * q >= (m * p1) * 1) by (nonlinear_arith)
            requires
                q >= 1,
                m * p1 > 0,
        ;
    } else {
        assert((m * p1) * q <= (m * p1) * 1) by (nonlinear_arith)
            requires
                q >= 1,
                m * p1 < 0,
        ;
    }
}

/// Strip trailing zero digits: the canonical form of `m / 10^k`.
pub fn normalize(m: i64, k: u32) -> (r: Scalar)
    ensures
        (r.mantissa as int, r.scale as nat) == norm_model(m as int, k as nat),
        canonical(r),
        r.mantissa * pow10(k as nat) == m * pow10(r.scale as nat),
{
    let (neg, mag0) = mag_of(m);
    let mut mag: u64 = mag0;
    let mut kk: u32 = k;
    while kk > 0 && mag % 10 == 0
        invariant
            norm_mag(mag0 as nat, k as nat) == norm_mag(mag as nat, kk as nat),
            mag <= mag0,
        decreases kk,
    {
        mag = mag / 10;
        kk = kk - 1;
    }
    proof {
        lemma_norm_mag(mag0 as nat, k as nat);
    }
    let sm = from_mag(neg, mag);
    let rm = match sm {
        Some(v) => v,
        None => 0,  // unreachable: the magnitude only shrank
    };
    proof {
        assert(fits_i64(with_sign(neg, mag as nat)));
        let (nm, nk) = norm_model(m as int, k as nat);
        assert(rm as int == nm);
        assert(rm * pow10(k as nat) == m * pow10(kk as nat)) by (nonlinear_arith)
            requires
                mag as nat * pow10(k as nat) == mag0 as nat * pow10(kk as nat),
                rm as int == with_sign(neg, mag as nat),
                m as int == with_sign(neg, mag0 as nat),
        ;
    }
    Scalar { mantissa: rm, scale: kk }
}

/// The canonical scalar for `m / 10^k`.
pub open spec fn norm_scalar(m: int, k: nat) -> Scalar {
    let (nm, nk) = norm_model(m, k);
    Scalar { mantissa: nm as i64, scale: nk as u32 }
}

pub open spec fn max_nat(a: nat, b: nat) -> nat {
    if a >= b {
        a
    } else {
        b
    }
}

/// The exact sum, aligned to the larger scale, when it stays within `i64`.
pub open spec fn add_model(a: Scalar, b: Scalar) -> Option<Scalar> {
    let k = max_nat(a.scale as nat, b.scale as nat);
    let ma = a.mantissa * pow10((k - a.scale as nat) as nat);
    let mb = b.mantissa * pow10((k - b.scale as nat) as nat);
    if fits_i64(ma) && fits_i64(mb) && fits_i64(ma + mb) {
        Some(norm_scalar(ma + mb, k))
    } else {
        None
    }
}

/// The exact difference, aligned to the larger scale, when it stays within `i64`.
pub open spec fn sub_model(a: Scalar, b: Scalar) -> Option<Scalar> {
    let k = max_nat(a.scale as nat, b.scale as nat);
    let ma = a.mantissa * pow10((k - a.scale as nat) as nat);
    let mb = b.mantissa * pow10((k - b.scale as nat) as nat);
    if fits_i64(ma) && fits_i64(mb) && fits_i64(ma - mb) {
        Some(norm_scalar(ma - mb, k))
    } else {
        None
    }
}

/// The exact product, when it stays within `i64` and `u32` bounds.
pub open spec fn mul_model(a: Scalar, b: Scalar) -> Option<Scalar> {
    if fits_i64(a.mantissa * b.mantissa) && a.scale + b.scale <= u32::MAX {
        Some(norm_scalar(a.mantissa * b.mantissa, (a.scale as nat + b.scale as nat) as nat))
    } else {
        None
    }
}

/// Long division of magnitudes, one decimal digit of the quotient at a time.
/// `m / 10^kq` accumulates the quotient so far; `rem` is the running
/// remainder over `den`.  `None` when the expansion does not terminate
/// within `fuel` digits or the accumulated quotient leaves `u64`.
pub open spec fn div_digits(m: nat, rem: nat, den: nat, kq: nat, fuel: nat) -> Option<(nat, nat)>
    recommends
        den > 0,
    decreases fuel,
{
    if rem == 0 {
        Some((m, kq))
    } else if fuel == 0 {
        None
    } else {
        let wide = rem * 10;
        let digit = wide / den;
        let rem2 = wide % den;
        let m2 = m * 10 + digit;
        if m2 > u64::MAX {
            None
        } else {
            div_digits(m2, rem2, den, kq + 1, (fuel - 1) as nat)
        }
    }
}

/// How many fraction digits a quotient may produce before folding gives up.
pub open spec fn div_fuel() -> nat {
    64
}

/// The exact quotient, when it has a finite decimal form reachable within
/// `div_fuel` digits and within the `i64`/`u32` bounds; `None` otherwise,
/// and always `None` for a zero divisor.
pub open spec fn div_model(a: Scalar, b: Scalar) -> Option<Scalar> {
    if b.mantissa == 0 {
        None
    } else {
        let maga = abs_int(a.mantissa as int);
        let magb = abs_int(b.mantissa as int);
        let neg = (a.mantissa < 0) != (b.mantissa < 0);
        match div_digits(maga / magb, maga % magb, magb, 0, div_fuel()) {
            None => None,
            Some((m, kq)) => {
                if a.scale as nat + kq > u32::MAX {
                    None
                } else {
                    let e = a.scale + kq - b.scale;
                    if e >= 0 {
                        if fits_i64(with_sign(neg, m)) {
                            Some(norm_scalar(with_sign(neg, m), e as nat))
                        } else {
                            None
                        }
                    } else {
                        let m2 = with_sign(neg, m) * pow10((-e) as nat);
                        if fits_i64(with_sign(neg, m)) && fits_i64(m2) {
                            Some(norm_scalar(m2, 0))
                        } else {
                            None
                        }
                    }
                }
            },
        }
    }
}

/// `base^n` over the integers.
pub open spec fn pow_int(base: int, n: nat) -> int
    decreases n,
{
    if n == 0 {
        1
    } else {
        base * pow_int(base, (n - 1) as nat)
    }
}

/// The exact power for a positive integer exponent, within bounds.
pub open spec fn pow_pos_model(a: Scalar, n: nat) -> Option<Scalar> {
    if fits_i64(pow_int(a.mantissa as int, n)) && a.scale as nat * n <= u32::MAX {
        Some(norm_scalar(pow_int(a.mantissa as int, n), a.scale as nat * n))
    } else {
        None
    }
}

/// The exact power for an integer exponent; fractional exponents never fold.
/// A negative exponent goes through the reciprocal, so it folds only when
/// that reciprocal has a finite decimal form.
pub open spec fn pow_model(a: Scalar, b: Scalar) -> Option<Scalar> {
    if b.scale != 0 {
        None
    } else if b.mantissa == 0 {
        Some(Scalar { mantissa: 1, scale: 0 })
    } else if b.mantissa > 0 {
        pow_pos_model(a, b.mantissa as nat)
    } else {
        match pow_pos_model(a, abs_int(b.mantissa as int)) {
            None => None,
            Some(p) => div_model(Scalar { mantissa: 1, scale: 0 }, p),
        }
    }
}

pub proof fn lemma_pow_int_add(base: int, m: nat, n: nat)
    ensures
        pow_int(base, m + n) == pow_int(base, m) * pow_int(base, n),
    decreases m,
{
    if m == 0 {
        assert(pow_int(base, n) == 1 * pow_int(base, n));
    } else {
        lemma_pow_int_add(base, (m - 1) as nat, n);
        let p = pow_int(base, (m - 1) as nat);
        let q = pow_int(base, n);
        assert((m + n - 1) as nat == (m - 1) as nat + n);
        assert(pow_int(base, m + n) == base * pow_int(base, (m - 1) as nat + n));
        assert(pow_int(base, m + n) == pow_int(base, m) * pow_int(base, n)) by (nonlinear_arith)
            requires
                pow_int(base, m + n) == base * (p * q),
                pow_int(base, m) == base * p,
                pow_int(base, n) == q,
        ;
    }
}

proof fn lemma_pow_int_one(n: nat)
    ensures
        pow_int(1, n) == 1,
    decreases n,
{
    if n > 0 {
        lemma_pow_int_one((n - 1) as nat);
    }
}

proof fn lemma_pow_int_neg_one(n: nat)
    ensures
        pow_int(-1, n) == if n % 2 == 0 {
            1int
        } else {
            -1int
        },
    decreases n,
{
    if n > 0 {
        lemma_pow_int_neg_one((n - 1) as nat);
    }
}

/// For a base of magnitude at least one, powers have magnitude at least one.
proof fn lemma_pow_int_mag(base: int, n: nat)
    requires
        base >= 1 || base <= -1,
    ensures
        pow_int(base, n) >= 1 || pow_int(base, n) <= -1,
    decreases n,
{
    if n > 0 {
        lemma_pow_int_mag(base, (n - 1) as nat);
        let p = pow_int(base, (n - 1) as nat);
        assert(base * p >= 1 || base * p <= -1) by (nonlinear_arith)
            requires
                base >= 1 || base <= -1,
                p >= 1 || p <= -1,
        ;
    }
}

/// For a base of magnitude at least two, positive powers have magnitude at
/// least two.
proof fn lemma_pow_int_mag2(base: int, n: nat)
    requires
        base >= 2 || base <= -2,
        n >= 1,
    ensures
        pow_int(base, n) >= 2 || pow_int(base, n) <= -2,
    decreases n,
{
    if n == 1 {
        assert(pow_int(base, 1) == base * pow_int(base, 0));
    } else {
        lemma_pow_int_mag2(base, (n - 1) as nat);
        let p = pow_int(base, (n - 1) as nat);
        assert(base * p >= 2 || base * p <= -2) by (nonlinear_arith)
            requires
                base >= 2 || base <= -2,
                p >= 2 || p <= -2,
        ;
    }
}

/// Once a power leaves the `i64` range it never returns for larger exponents.
proof fn lemma_pow_int_mono(base: int, n1: nat, n2: nat)
    requires
        base >= 2 || base <= -2,
        n1 <= n2,
        !fits_i64(pow_int(base, n1)),
    ensures
        !fits_i64(pow_int(base, n2)),
{
    if n1 < n2 {
        lemma_pow_int_add(base, n1, (n2 - n1) as nat);
        lemma_pow_int_mag2(base, (n2 - n1) as nat);
        let p1 = pow_int(base, n1);
        let q = pow_int(base, (n2 - n1) as nat);
        let p2 = p1 * q;
        assert(n1 + (n2 - n1) as nat == n2);
        assert(pow_int(base, n2) == p2);
        if q >= 2 {
            if p1 > i64::MAX as int {
                assert(p2 >= 2 * p1) by (nonlinear_arith)
                    requires
                        p2 == p1 * q,
                        q >= 2,
                        p1 > 0,
                ;
            } else {
                assert(p2 <= 2 * p1) by (nonlinear_arith)
                    requires
                        p2 == p1 * q,
                        q >= 2,
                        p1 < 0,
                ;
            }
        } else {
            if p1 > i64::MAX as int {
                assert(p2 <= -2 * p1) by (nonlinear_arith)
                    requires
                        p2 == p1 * q,
                        q <= -2,
                        p1 > 0,
                ;
            } else {
                assert(p2 >= -2 * p1) by (nonlinear_arith)
                    requires
                        p2 == p1 * q,
                        q <= -2,
                        p1 < 0,
                ;
            }
        }

    }
}

impl Scalar {
    /// Exact power for a positive integer exponent.
    #[verifier::rlimit(100)]
fn pow_pos(self, n: u64) -> (r: Option<Scalar>)
        requires
            n >= 1,
        ensures
            r == pow_pos_model(self, n as nat),
    {
        proof {
            assert((self.scale as int) * (n as int) <= 0xffff_ffff * 0xffff_ffff_ffff_ffff)
                by (nonlinear_arith)
                requires
                    0 <= self.scale as int <= 0xffff_ffff,
                    0 <= n as int <= 0xffff_ffff_ffff_ffff,
            ;
        }
        let k128: u128 = (self.scale as u128) * (n as u128);
        if k128 > 0xffff_ffffu128 {
            return None;
        }
        let k: u32 = k128 as u32;
        if self.mantissa == 0 {
            assert(pow_int(0, n as nat) == 0 * pow_int(0, (n - 1) as nat));
            return Some(normalize(0, k));
        }
        if self.mantissa == 1 {
            proof {
                lemma_pow_int_one(n as nat);
            }
            return Some(normalize(1, k));
        }
        if self.mantissa == -1 {
            proof {
                lemma_pow_int_neg_one(n as nat);
            }
            let m: i64 = if n % 2 == 0 {
                1
            } else {
                -1
            };
            return Some(normalize(m, k));
        }
        let mut acc: i64 = self.mantissa;
        let mut i: u64 = 1;
        assert(pow_int(self.mantissa as int, 1) == self.mantissa * pow_int(self.mantissa as int, 0));
        while i < n
            invariant
                1 <= i <= n,
                acc == pow_int(self.mantissa as int, i as nat),
                self.mantissa >= 2 || self.mantissa <= -2,
            decreases n - i,
    {
            match acc.checked_mul(self.mantissa) {
                Some(v) => {
                    assert(pow_int(self.mantissa as int, (i + 1) as nat) == self.mantissa * pow_int(
                        self.mantissa as int,
                        i as nat,
                    )) by {
                        lemma_pow_int_add(self.mantissa as int, 1, i as nat);
                        assert(pow_int(self.mantissa as int, 1) == self.mantissa as int * pow_int(
                            self.mantissa as int,
                            0,
                        ));
                        assert(pow_int(self.mantissa as int, 1) * pow_int(
                            self.mantissa as int,
                            i as nat,
                        ) == self.mantissa as int * pow_int(self.mantissa as int, i as nat));
                    }
                    acc = v;
                    i = i + 1;
                },
                None => {
                    proof {
                        lemma_pow_int_add(self.mantissa as int, 1, i as nat);
                        assert(pow_int(self.mantissa as int, (i + 1) as nat) == self.mantissa
                            * pow_int(self.mantissa as int, i as nat));
                        lemma_pow_int_mono(self.mantissa as int, (i + 1) as nat, n as nat);
                    }
                    return None;
                },
            }
        }
        Some(normalize(acc, k))
    }

    /// Exact power for an integer-valued exponent scalar; `None` otherwise.
    pub fn try_pow(self, other: Scalar) -> (r: Option<Scalar>)
        ensures
            r == pow_model(self, other),
    {
        if other.scale != 0 {
            return None;
        }
        if other.mantissa == 0 {
            return Some(Scalar { mantissa: 1, scale: 0 });
        }
        let (negn, nmag) = mag_of(other.mantissa);
        let p = match self.pow_pos(nmag) {
            Some(v) => v,
            None => {
                return None;
            },
        };
        if negn {
            Scalar { mantissa: 1, scale: 0 }.try_div(p)
        } else {
            Some(p)
        }
    }

    /// Exact quotient with a finite decimal expansion; `None` otherwise,
    /// in particular for a zero divisor.
    #[verifier::rlimit(100)]
pub fn try_div(self, other: Scalar) -> (r: Option<Scalar>)
        ensures
            r == div_model(self, other),
    {
        if other.mantissa == 0 {
            return None;
        }
        let (nega, maga) = mag_of(self.mantissa);
        let (negb, magb) = mag_of(other.mantissa);
        let neg = nega != negb;
        let mut m: u64 = maga / magb;
        let mut rem: u64 = maga % magb;
        let mut kq: u32 = 0;
        while rem != 0
            invariant
                magb > 0,
                rem < magb,
                kq <= 64,
                other.mantissa != 0,
                magb as nat == abs_int(other.mantissa as int),
                maga as nat == abs_int(self.mantissa as int),
                neg == ((self.mantissa < 0) != (other.mantissa < 0)),
                div_digits(
                    abs_int(self.mantissa as int) / abs_int(other.mantissa as int),
                    abs_int(self.mantissa as int) % abs_int(other.mantissa as int),
                    magb as nat,
                    0,
                    div_fuel(),
                ) == div_digits(m as nat, rem as nat, magb as nat, kq as nat, (64 - kq) as nat),
            decreases 64 - kq,
        {
            if kq == 64 {
                proof {
                    assert(rem as nat != 0);
                    assert(div_digits(m as nat, rem as nat, magb as nat, kq as nat, 0) is None);
                    assert(abs_int(other.mantissa as int) == magb as nat);
                    assert(div_model(self, other) is None);
                }
                return None;
            }
            let ghost m_old = m as nat;
            let ghost rem_old = rem as nat;
            let ghost kq_old = kq as nat;
            let wide: u128 = (rem as u128) * 10;
            proof {
                vstd::arithmetic::div_mod::lemma_multiply_divide_lt(
                    wide as int,
                    magb as int,
                    10,
                );
                vstd::arithmetic::div_mod::lemma_mod_bound(wide as int, magb as int);
            }
            let digit: u64 = (wide / (magb as u128)) as u64;
            rem = (wide % (magb as u128)) as u64;
            let m10 = match m.checked_mul(10) {
                Some(v) => v,
                None => {
                    assert(div_digits(m_old, rem_old, magb as nat, kq_old, (64 - kq_old) as nat)
                        is None);
                    return None;
                },
            };
            m = match m10.checked_add(digit) {
                Some(v) => v,
                None => {
                    assert(div_digits(m_old, rem_old, magb as nat, kq_old, (64 - kq_old) as nat)
                        is None);
                    return None;
                },
            };
            kq = kq + 1;
            proof {
                assert(div_digits(m_old, rem_old, magb as nat, kq_old, (64 - kq_old) as nat)
                    == div_digits(m as nat, rem as nat, magb as nat, kq as nat, (64 - kq) as nat));
            }
        }
        let esum = match self.scale.checked_add(kq) {
            Some(v) => v,
            None => {
                return None;
            },
        };
        let signed = match from_mag(neg, m) {
            Some(v) => v,
            None => {
                return None;
            },
        };
        if esum >= other.scale {
            Some(normalize(signed, esum - other.scale))
        } else {
            let scaled = match scale_up(signed, other.scale - esum) {
                Some(v) => v,
                None => {
                    return None;
                },
            };
            Some(normalize(scaled, 0))
        }
    }

    pub fn try_add(self, other: Scalar) -> (r: Option<Scalar>)
        ensures
            r == add_model(self, other),
    {
        let k: u32 = if self.scale >= other.scale {
            self.scale
        } else {
            other.scale
        };
        let ma = match scale_up(self.mantissa, k - self.scale) {
            Some(v) => v,
            None => {
                return None;
            },
        };
        let mb = match scale_up(other.mantissa, k - other.scale) {
            Some(v) => v,
            None => {
                return None;
            },
        };
        let sum = match ma.checked_add(mb) {
            Some(v) => v,
            None => {
                return None;
            },
        };
        Some(normalize(sum, k))
    }

    pub fn try_sub(self, other: Scalar) -> (r: Option<Scalar>)
        ensures
            r == sub_model(self, other),
    {
        let k: u32 = if self.scale >= other.scale {
            self.scale
        } else {
            other.scale
        };
        let ma = match scale_up(self.mantissa, k - self.scale) {
            Some(v) => v,
            None => {
                return None;
            },
        };
        let mb = match scale_up(other.mantissa, k - other.scale) {
            Some(v) => v,
            None => {
                return None;
            },
        };
        let diff = match ma.checked_sub(mb) {
            Some(v) => v,
            None => {
                return None;
            },
        };
        Some(normalize(diff, k))
    }

    pub fn try_mul(self, other: Scalar) -> (r: Option<Scalar>)
        ensures
            r == mul_model(self, other),
    {
        let m = match self.mantissa.checked_mul(other.mantissa) {
            Some(v) => v,
            None => {
                return None;
            },
        };
        let k = match self.scale.checked_add(other.scale) {
            Some(v) => v,
            None => {
                return None;
            },
        };
        Some(normalize(m, k))
    }
}


/// Signed version of the normalization facts: the canonical form keeps
/// the value and is canonical.
pub proof fn lemma_norm_model_value(m: int, k: nat)
    ensures
        ({
            let (nm, nk) = norm_model(m, k);
            &&& nk <= k
            &&& nm * pow10(k) == m * pow10(nk)
            &&& (nk == 0 || abs_int(nm) % 10 != 0)
            &&& abs_int(nm) <= abs_int(m)
        }),
{
    lemma_norm_mag(abs_int(m), k);
    let (nmag, nk) = norm_mag(abs_int(m), k);
    let (nm, _) = norm_model(m, k);
    assert(nm == with_sign(m < 0, nmag));
    if m < 0 {
        assert(nm * pow10(k) == m * pow10(nk)) by (nonlinear_arith)
            requires
                nmag * pow10(k) == abs_int(m) * pow10(nk),
                nm == -(nmag as int),
                m == -(abs_int(m) as int),
        ;
    } else {
        assert(nm * pow10(k) == m * pow10(nk));
    }
    assert(abs_int(nm) == nmag);
}

/// A folded sum is canonical and denotes the exact rational sum:
/// `r = (a.mantissa * 10^b.scale + b.mantissa * 10^a.scale)
///      / (10^a.scale * 10^b.scale)`.
pub proof fn lemma_add_model_value(a: Scalar, b: Scalar, r: Scalar)
    requires
        add_model(a, b) == Some(r),
    ensures
        canonical(r),
        r.mantissa * (pow10(a.scale as nat) * pow10(b.scale as nat)) == (a.mantissa * pow10(
            b.scale as nat,
        ) + b.mantissa * pow10(a.scale as nat)) * pow10(r.scale as nat),
{
    let ak = a.scale as nat;
    let bk = b.scale as nat;
    let k = max_nat(ak, bk);
    let ma = a.mantissa * pow10((k - ak) as nat);
    let mb = b.mantissa * pow10((k - bk) as nat);
    let sum = ma + mb;
    lemma_norm_model_value(sum, k);
    let (nm, nk) = norm_model(sum, k);
    assert(r.mantissa == nm && r.scale == nk);
    let pk = pow10(k) as int;
    let pnk = pow10(nk) as int;
    let pd = pow10((ak + bk - k) as nat) as int;
    lemma_pow10_add(k, (ak + bk - k) as nat);
    assert(pow10(ak + bk) == pk * pd);
    lemma_pow10_add(ak, bk);
    assert(pow10(ak + bk) == pow10(ak) * pow10(bk));
    lemma_pow10_add((k - ak) as nat, (ak + bk - k) as nat);
    assert(pow10(bk) == pow10((k - ak) as nat) * pd);
    lemma_pow10_add((k - bk) as nat, (ak + bk - k) as nat);
    assert(pow10(ak) == pow10((k - bk) as nat) * pd);
    let pa = pow10(ak) as int;
    let pb = pow10(bk) as int;
    let pka = pow10((k - ak) as nat) as int;
    let pkb = pow10((k - bk) as nat) as int;
    assert(sum * pd == a.mantissa * pb + b.mantissa * pa) by (nonlinear_arith)
        requires
            sum == ma + mb,
            ma == a.mantissa * pka,
            mb == b.mantissa * pkb,
            pb == pka * pd,
            pa == pkb * pd,
    ;
    assert(nm * (pa * pb) == (sum * pd) * pnk) by (nonlinear_arith)
        requires
            nm * pk == sum * pnk,
            pa * pb == pk * pd,
    ;
    assert(nm * (pa * pb) == (a.mantissa * pb + b.mantissa * pa) * pnk) by (nonlinear_arith)
        requires
            nm * (pa * pb) == (sum * pd) * pnk,
            sum * pd == a.mantissa * pb + b.mantissa * pa,
    ;
}

/// A folded difference is canonical and denotes the exact rational
/// difference.
pub proof fn lemma_sub_model_value(a: Scalar, b: Scalar, r: Scalar)
    requires
        sub_model(a, b) == Some(r),
    ensures
        canonical(r),
        r.mantissa * (pow10(a.scale as nat) * pow10(b.scale as nat)) == (a.mantissa * pow10(
            b.scale as nat,
        ) - b.mantissa * pow10(a.scale as nat)) * pow10(r.scale as nat),
{
    let ak = a.scale as nat;
    let bk = b.scale as nat;
    let k = max_nat(ak, bk);
    let ma = a.mantissa * pow10((k - ak) as nat);
    let mb = b.mantissa * pow10((k - bk) as nat);
    let diff = ma - mb;
    lemma_norm_model_value(diff, k);
    let (nm, nk) = norm_model(diff, k);
    assert(r.mantissa == nm && r.scale == nk);
    let pk = pow10(k) as int;
    let pnk = pow10(nk) as int;
    let pd = pow10((ak + bk - k) as nat) as int;
    lemma_pow10_add(k, (ak + bk - k) as nat);
    lemma_pow10_add(ak, bk);
    lemma_pow10_add((k - ak) as nat, (ak + bk - k) as nat);
    lemma_pow10_add((k - bk) as nat, (ak + bk - k) as nat);
    let pa = pow10(ak) as int;
    let pb = pow10(bk) as int;
    let pka = pow10((k - ak) as nat) as int;
    let pkb = pow10((k - bk) as nat) as int;
    assert(diff * pd == a.mantissa * pb - b.mantissa * pa) by (nonlinear_arith)
        requires
            diff == ma - mb,
            ma == a.mantissa * pka,
            mb == b.mantissa * pkb,
            pb == pka * pd,
            pa == pkb * pd,
    ;
    assert(nm * (pa * pb) == (diff * pd) * pnk) by (nonlinear_arith)
        requires
            nm * pk == diff * pnk,
            pa * pb == pk * pd,
    ;
    assert(nm * (pa * pb) == (a.mantissa * pb - b.mantissa * pa) * pnk) by (nonlinear_arith)
        requires
            nm * (pa * pb) == (diff * pd) * pnk,
            diff * pd == a.mantissa * pb - b.mantissa * pa,
    ;
}

/// A folded product is canonical and denotes the exact rational product.
pub proof fn lemma_mul_model_value(a: Scalar, b: Scalar, r: Scalar)
    requires
        mul_model(a, b) == Some(r),
    ensures
        canonical(r),
        r.mantissa * (pow10(a.scale as nat) * pow10(b.scale as nat)) == (a.mantissa
            * b.mantissa) * pow10(r.scale as nat),
{
    let ak = a.scale as nat;
    let bk = b.scale as nat;
    lemma_norm_model_value(a.mantissa * b.mantissa, ak + bk);
    lemma_pow10_add(ak, bk);
}

/// A folded positive power is canonical and denotes the exact rational
/// power.
pub proof fn lemma_pow_pos_model_value(a: Scalar, n: nat, r: Scalar)
    requires
        pow_pos_model(a, n) == Some(r),
    ensures
        canonical(r),
        r.mantissa * pow10(a.scale as nat * n) == pow_int(a.mantissa as int, n) * pow10(
            r.scale as nat,
        ),
{
    lemma_norm_model_value(pow_int(a.mantissa as int, n), a.scale as nat * n);
}

/// The long-division state denotes the starting fraction throughout: when
/// the expansion terminates, the digits collected so far stand exactly for
/// the accumulated quotient.
proof fn lemma_div_digits_value(m: nat, rem: nat, den: nat, kq: nat, fuel: nat)
    requires
        den > 0,
        rem < den,
        div_digits(m, rem, den, kq, fuel) is Some,
    ensures
        ({
            let (mf, kf) = div_digits(m, rem, den, kq, fuel)->Some_0;
            &&& kq <= kf
            &&& mf * den * pow10(kq) == (m * den + rem) * pow10(kf)
        }),
    decreases fuel,
{
    if rem == 0 {
    } else {
        let wide = rem * 10;
        let digit = wide / den;
        let rem2 = wide % den;
        let m2 = m * 10 + digit;
        vstd::arithmetic::div_mod::lemma_fundamental_div_mod(wide as int, den as int);
        vstd::arithmetic::div_mod::lemma_mod_bound(wide as int, den as int);
        lemma_div_digits_value(m2 as nat, rem2, den, kq + 1, (fuel - 1) as nat);
        let (mf, kf) = div_digits(m2 as nat, rem2, den, kq + 1, (fuel - 1) as nat)->Some_0;
        assert(pow10(kq + 1) == 10 * pow10(kq));
        assert(m2 * den + rem2 == 10 * (m * den + rem)) by (nonlinear_arith)
            requires
                m2 == m * 10 + digit,
                wide == den * digit + rem2,
                wide == rem * 10,
        ;
        assert(mf * den * pow10(kq) == (m * den + rem) * pow10(kf)) by (nonlinear_arith)
            requires
                mf * den * pow10(kq + 1) == (m2 * den + rem2) * pow10(kf),
                pow10(kq + 1) == 10 * pow10(kq),
                m2 * den + rem2 == 10 * (m * den + rem),
    ;
    }
}

/// A folded quotient is canonical and denotes the exact rational quotient:
/// `r * b = a` as rationals.
pub proof fn lemma_div_model_value(a: Scalar, b: Scalar, r: Scalar)
    requires
        div_model(a, b) == Some(r),
    ensures
        canonical(r),
        r.mantissa * (b.mantissa * pow10(a.scale as nat)) == a.mantissa * pow10(b.scale as nat)
            * pow10(r.scale as nat),
{
    let maga = abs_int(a.mantissa as int);
    let magb = abs_int(b.mantissa as int);
    let neg = (a.mantissa < 0) != (b.mantissa < 0);
    vstd::arithmetic::div_mod::lemma_fundamental_div_mod(maga as int, magb as int);
    vstd::arithmetic::div_mod::lemma_mod_bound(maga as int, magb as int);
    let (m, kq) = div_digits(maga / magb, maga % magb, magb, 0, div_fuel())->Some_0;
    lemma_div_digits_value(maga / magb, maga % magb, magb, 0, div_fuel());
    assert(m * magb * pow10(0) == ((maga / magb) * magb + maga % magb) * pow10(kq));
    assert(m * magb == maga * pow10(kq)) by (nonlinear_arith)
        requires
            m * magb * 1 == ((maga / magb) * magb + maga % magb) * pow10(kq),
            magb * (maga / magb) + maga % magb == maga,
    ;
    // the signed quotient denotes the signed fraction at scale a.k + kq - b.k
    let sm = with_sign(neg, m);
    if a.mantissa >= 0 {
        assert(maga == a.mantissa);
        if b.mantissa >= 0 {
            assert(!neg && magb == b.mantissa && sm == m);
            assert(sm * b.mantissa == a.mantissa * pow10(kq)) by (nonlinear_arith)
                requires
                    sm == m,
                    b.mantissa == magb,
                    a.mantissa == maga,
                    m * magb == maga * pow10(kq),
            ;
        } else {
            assert(neg && magb == -(b.mantissa as int) && sm == -(m as int));
            assert(sm * b.mantissa == a.mantissa * pow10(kq)) by (nonlinear_arith)
                requires
                    sm == -(m as int),
                    b.mantissa == -(magb as int),
                    a.mantissa == maga,
                    m * magb == maga * pow10(kq),
            ;
        }
    } else {
        assert(maga == -(a.mantissa as int));
        if b.mantissa >= 0 {
            assert(neg && magb == b.mantissa && sm == -(m as int));
            assert(sm * b.mantissa == a.mantissa * pow10(kq)) by (nonlinear_arith)
                requires
                    sm == -(m as int),
                    b.mantissa == magb,
                    a.mantissa == -(maga as int),
                    m * magb == maga * pow10(kq),
            ;
        } else {
            assert(!neg && magb == -(b.mantissa as int) && sm == m);
            assert(sm * b.mantissa == a.mantissa * pow10(kq)) by (nonlinear_arith)
                requires
                    sm == m,
                    b.mantissa == -(magb as int),
                    a.mantissa == -(maga as int),
                    m * magb == maga * pow10(kq),
            ;
        }
    }
    let ak = a.scale as nat;
    let bk = b.scale as nat;
    let e = ak + kq - bk;
    if e >= 0 {
        lemma_norm_model_value(sm, e as nat);
        let (nm, nk) = norm_model(sm, e as nat);
        assert(r.mantissa == nm && r.scale == nk);
        // nm * pow10(e) == sm * pow10(nk); combine with the quotient identity
        lemma_pow10_add(bk, e as nat);
        assert(pow10(ak + kq) == pow10(bk) * pow10(e as nat));
        assert(pow10(ak + kq) == pow10(ak) * pow10(kq)) by {
            lemma_pow10_add(ak, kq);
        }
        let pe = pow10(e as nat) as int;
        let pq = pow10(kq) as int;
        let pa = pow10(ak) as int;
        let pb = pow10(bk) as int;
        let pn = pow10(nk) as int;
        let am = a.mantissa as int;
        let bm = b.mantissa as int;
        lemma_pow10_pos(e as nat);
        assert(nm * (bm * pa) * pe == (sm * bm) * (pa * pn)) by (nonlinear_arith)
            requires
                nm * pe == sm * pn,
        ;
        assert((sm * bm) * (pa * pn) == (am * pq) * (pa * pn));
        assert((am * pq) * (pa * pn) == am * (pa * pq) * pn) by (nonlinear_arith);
        assert(pa * pq == pb * pe);
        assert(am * (pb * pe) * pn == (am * pb * pn) * pe) by (nonlinear_arith);
        assert(nm * (bm * pa) == am * pb * pn) by (nonlinear_arith)
            requires
                nm * (bm * pa) * pe == (am * pb * pn) * pe,
                pe >= 1,
        ;
    } else {
        let m2 = sm * pow10((-e) as nat);
        lemma_norm_model_value(m2, 0);
        let (nm, nk) = norm_model(m2, 0);
        assert(r.mantissa == nm && r.scale == nk);
        assert(nk == 0);
        assert(nm == m2);
        lemma_pow10_add(ak + kq, (-e) as nat);
        assert(pow10(bk) == pow10(ak + kq) * pow10((-e) as nat));
        assert(pow10(ak + kq) == pow10(ak) * pow10(kq)) by {
            lemma_pow10_add(ak, kq);
        }
        assert(nm * (b.mantissa * pow10(ak)) == a.mantissa * pow10(bk) * pow10(nk))
            by (nonlinear_arith)
            requires
                nm == sm * pow10((-e) as nat),
                sm * b.mantissa == a.mantissa * pow10(kq),
                pow10(bk) == pow10(ak) * pow10(kq) * pow10((-e) as nat),
                pow10(nk) == 1,
        ;
    }
}

} // verus!
