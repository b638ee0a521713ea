//! The scalar field that traces are folded over.
use crate::zp;
use vstd::arithmetic::power2::pow2;
use vstd::prelude::*;

verus! {

/// A prime field with a large power-of-two subgroup of roots of unity and an
/// element of multiplicative order three.
///
/// An element is modelled by its canonical representative [`val`](Self::val),
/// an integer in `0 .. modulus()`.
pub trait PrimeField: Sized + Copy + Send + Sync {
    /// The field's modulus.
    spec fn modulus() -> int;

    /// The element as an integer.
    spec fn val(self) -> int;

    /// The largest `s` such that `2^s` divides `modulus() - 1`.
    spec fn two_adicity() -> int;

    /// The chosen element of order `2^two_adicity()`, as an integer.
    spec fn root_of_unity_val() -> int;

    /// The chosen element of order three, as an integer.
    spec fn zeta_val() -> int;

    /// The modulus is odd and greater than two, and its power-of-two part is
    /// not larger than a machine word.
    proof fn lemma_modulus()
        ensures
            Self::modulus() > 2,
            Self::modulus() % 2 == 1,
            1 <= Self::two_adicity() < 64,
    ;

    /// Representatives are canonical.
    proof fn lemma_val(self)
        ensures
            0 <= self.val() < Self::modulus(),
    ;

    /// The order of the root of unity is exactly `2^two_adicity()`.
    proof fn lemma_root_of_unity()
        ensures
            0 <= Self::root_of_unity_val() < Self::modulus(),
            zp::eqm(
                Self::modulus(),
                zp::pw(
                    Self::root_of_unity_val(),
                    pow2((Self::two_adicity() - 1) as nat) as int,
                ),
                -1,
            ),
    ;

    /// The order of zeta is exactly three.
    proof fn lemma_zeta()
        ensures
            1 < Self::zeta_val() < Self::modulus(),
            zp::eqm(Self::modulus(), zp::pw(Self::zeta_val(), 3), 1),
    ;

    fn zero() -> (r: Self)
        ensures
            r.val() == 0,
    ;

    fn one() -> (r: Self)
        ensures
            r.val() == 1,
    ;

    /// The residue of an integer.
    fn from_u64(v: u64) -> (r: Self)
        ensures
            r.val() == v as int % Self::modulus(),
    ;

    fn add(self, rhs: Self) -> (r: Self)
        ensures
            r.val() == (self.val() + rhs.val()) % Self::modulus(),
    ;

    fn sub(self, rhs: Self) -> (r: Self)
        ensures
            r.val() == (self.val() - rhs.val()) % Self::modulus(),
    ;

    fn mul(self, rhs: Self) -> (r: Self)
        ensures
            r.val() == (self.val() * rhs.val()) % Self::modulus(),
    ;

    /// The multiplicative inverse; zero has none.
    fn invert(self) -> (r: Option<Self>)
        ensures
            r is Some <==> self.val() != 0,
            r matches Some(i) ==> (self.val() * i.val()) % Self::modulus() == 1,
    ;

    fn pow(self, exp: u64) -> (r: Self)
        ensures
            r.val() == zp::pw(self.val(), exp as int) % Self::modulus(),
    ;

    fn is_zero(self) -> (r: bool)
        ensures
            r == (self.val() == 0),
    ;

    fn equals(self, rhs: Self) -> (r: bool)
        ensures
            r == (self.val() == rhs.val()),
    ;

    /// The exponent of the largest power-of-two subgroup.
    fn s() -> (r: u32)
        ensures
            r == Self::two_adicity(),
    ;

    fn root_of_unity() -> (r: Self)
        ensures
            r.val() == Self::root_of_unity_val(),
    ;

    fn zeta() -> (r: Self)
        ensures
            r.val() == Self::zeta_val(),
    ;
}

/// The integers that a sequence of field elements stands for.
pub open spec fn vals<F: PrimeField>(s: Seq<F>) -> Seq<int> {
    Seq::new(s.len(), |i: int| s[i].val())
}

} // verus!
