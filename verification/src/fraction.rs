//! Fractions of 64-bit integers in lowest terms, computed by `num_rational`.
use vstd::prelude::*;
use num_rational::Rational64;
use num_traits::CheckedMul;

verus! {

/// No integer above 1 divides both.
pub open spec fn coprime(a: int, b: int) -> bool {
    forall|d: int| d > 1 ==> !(#[trigger] (a % d) == 0 && b % d == 0)
}

/// The fraction `p / q` in lowest terms fits in `i64`: its numerator and its (positive)
/// denominator are both in range.
pub open spec fn fits_i64(p: int, q: int) -> bool {
    forall|x: int, y: int|
        y > 0 && coprime(x, y) && #[trigger] (x * q) == #[trigger] (y * p) ==> i64::MIN <= x <= i64::MAX
            && y <= i64::MAX
}

/// A fraction in lowest terms with a positive denominator.
#[derive(Debug, Clone, Copy, PartialEq, Eq, Structural)]
pub struct Fraction {
    numer: i64,
    denom: i64,
}

impl Fraction {
    #[verifier::type_invariant]
    pub closed spec fn valid(self) -> bool {
        self.denom > 0 && coprime(self.numer as int, self.denom as int)
    }

    pub closed spec fn numer_view(self) -> int {
        self.numer as int
    }

    pub closed spec fn denom_view(self) -> int {
        self.denom as int
    }

    pub broadcast proof fn lemma_valid(f: Fraction)
        requires
            #[trigger] f.valid(),
        ensures
            f.denom_view() > 0,
            coprime(f.numer_view(), f.denom_view()),
            i64::MIN <= f.numer_view() <= i64::MAX,
            f.denom_view() <= i64::MAX,
    {
    }

    pub fn numer(&self) -> (r: i64)
        ensures
            r == self.numer_view(),
    {
        self.numer
    }

    pub fn denom(&self) -> (r: i64)
        ensures
            r == self.denom_view(),
    {
        self.denom
    }

    /// `numer / denom` in lowest terms (`Rational64::new`).
    pub fn new(numer: i64, denom: i64) -> (r: Fraction)
        requires
            denom > 0,
        ensures
            r.denom_view() > 0,
            coprime(r.numer_view(), r.denom_view()),
            r.numer_view() * denom == r.denom_view() * numer,
    {
        let (n, d) = ratio_new(numer, denom);
        Fraction { numer: n, denom: d }
    }

    /// The product in lowest terms, or `None` when its numerator or denominator does not
    /// fit in `i64` (`CheckedMul` for `Rational64`).
    pub fn checked_mul(&self, other: &Fraction) -> (r: Option<Fraction>)
        ensures
            r is Some <==> fits_i64(
                self.numer_view() * other.numer_view(),
                self.denom_view() * other.denom_view(),
            ),
            r matches Some(p) ==> p.denom_view() > 0 && coprime(p.numer_view(), p.denom_view())
                && p.numer_view() * (self.denom_view() * other.denom_view()) == p.denom_view() * (
            self.numer_view() * other.numer_view()),
    {
        proof {
            use_type_invariant(self);
            use_type_invariant(other);
        }
        match ratio_checked_mul(self.numer, self.denom, other.numer, other.denom) {
            Some((n, d)) => Some(Fraction { numer: n, denom: d }),
            None => None,
        }
    }
}

/// `Rational64::new(numer, denom)` taken apart into numerator and denominator. Claimed of
/// num-rational: `new` reduces to lowest terms with a positive denominator (`reduce`), so
/// the result is coprime, has a positive denominator and the same value.
#[verifier::external_body]
fn ratio_new(numer: i64, denom: i64) -> (r: (i64, i64))
    requires
        denom > 0,
    ensures
        r.1 > 0,
        coprime(r.0 as int, r.1 as int),
        r.0 * denom == r.1 * numer,
{
    let q = Rational64::new(numer, denom);
    (*q.numer(), *q.denom())
}

/// `CheckedMul::checked_mul` on two `Rational64` in lowest terms, taken apart into
/// numerator and denominator. Claimed of num-rational: it cross-cancels by the gcds, so
/// for reduced inputs the two products it checks are the numerator and denominator of
/// the product in lowest terms; it gives `None` exactly when one of them overflows `i64`,
/// and otherwise that reduced product.
#[verifier::external_body]
fn ratio_checked_mul(an: i64, ad: i64, bn: i64, bd: i64) -> (r: Option<(i64, i64)>)
    requires
        ad > 0,
        bd > 0,
        coprime(an as int, ad as int),
        coprime(bn as int, bd as int),
    ensures
        r is Some <==> fits_i64(an * bn, ad * bd),
        r matches Some(p) ==> p.1 > 0 && coprime(p.0 as int, p.1 as int) && p.0 * (ad * bd) == p.1 * (
        an * bn),
{
    let a = Rational64::new_raw(an, ad);
    let b = Rational64::new_raw(bn, bd);
    match a.checked_mul(&b) {
        Some(p) => Some((*p.numer(), *p.denom())),
        None => None,
    }
}

} // verus!
