//! The scalar field of BLS12-381.
//!
//! The arithmetic itself is that of `midnight_curves::Fq`. This type holds an
//! element as its canonical integer in 32 little-endian bytes, and each
//! operation converts, calls the outside function and converts back.
use crate::field::PrimeField;
use crate::fq_roots;
use crate::zp;
use ff::{Field, PrimeField as _, WithSmallOrderMulGroup};
use vstd::prelude::*;

verus! {

/// The field's modulus.
pub open spec fn modulus() -> int {
    0x73eda753299d7d483339d80809a1d80553bda402fffe5bfeffffffff00000001int
}

/// The element of order `2^32` that domains are built from.
pub open spec fn root_of_unity() -> int {
    0x16a2a19edfe81f20d09b681922c813b4b63683508c2280b93829971f439f0d2bint
}

/// The element of order three that shifts the extended domain.
pub open spec fn zeta() -> int {
    0xac45a4010001a40200000000ffffffffint
}

/// The integer that little-endian bytes spell.
pub open spec fn spelled(bytes: Seq<u8>) -> int
    decreases bytes.len(),
{
    if bytes.len() == 0 {
        0
    } else {
        bytes[0] + 256 * spelled(bytes.drop_first())
    }
}

/// Bytes spell a natural number.
pub proof fn lemma_spelled_nonneg(a: Seq<u8>)
    ensures
        spelled(a) >= 0,
    decreases a.len(),
{
    if a.len() > 0 {
        lemma_spelled_nonneg(a.drop_first());
    }
}

/// Different bytes spell different integers.
pub proof fn lemma_spelled_injective(a: Seq<u8>, b: Seq<u8>)
    requires
        a.len() == b.len(),
        spelled(a) == spelled(b),
    ensures
        a == b,
    decreases a.len(),
{
    if a.len() > 0 {
        assert(a[0] == b[0] && spelled(a.drop_first()) == spelled(b.drop_first()));
        lemma_spelled_injective(a.drop_first(), b.drop_first());
        assert forall|i: int| 0 <= i < a.len() implies a[i] == b[i] by {
            if i > 0 {
                assert(a.drop_first()[i - 1] == b.drop_first()[i - 1]);
            }
        }
    }
    assert(a =~= b);
}

/// An element of the BLS12-381 scalar field.
#[derive(Clone, Copy, Debug, PartialEq, Eq)]
pub struct Fq {
    repr: [u8; 32],
}

impl Fq {
    /// The integer that the bytes spell.
    pub closed spec fn integer(self) -> int {
        spelled(self.repr@)
    }

    /// The bytes always spell the canonical representative.
    #[verifier::type_invariant]
    spec fn canonical(self) -> bool {
        self.integer() < modulus()
    }

    /// The element that canonical little-endian bytes spell; other bytes spell
    /// none.
    pub fn from_repr(repr: [u8; 32]) -> (r: Option<Fq>)
        ensures
            r is Some <==> spelled(repr@) < modulus(),
            r matches Some(x) ==> x.val() == spelled(repr@),
    {
        proof {
            lemma_spelled_nonneg(repr@);
        }
        let r = Self::outside_from_repr(repr);
        proof {
            if spelled(repr@) < modulus() {
                zp::lemma_small(modulus(), spelled(repr@));
            }
        }
        r
    }

    /// The canonical little-endian bytes.
    pub fn to_repr(self) -> (r: [u8; 32])
        ensures
            spelled(r@) == self.val(),
    {
        proof {
            use_type_invariant(&self);
            lemma_spelled_nonneg(self.repr@);
            zp::lemma_small(modulus(), self.integer());
        }
        self.repr
    }

    /// `ff::PrimeField::from_repr_vartime` of `midnight_curves::Fq`: the element
    /// that the bytes spell, if they are canonical.
    #[verifier::external_body]
    fn outside_from_repr(repr: [u8; 32]) -> (r: Option<Fq>)
        ensures
            r is Some <==> spelled(repr@) < modulus(),
            r matches Some(x) ==> x.integer() == spelled(repr@),
    {
        let x = midnight_curves::Fq::from_repr_vartime(repr)?;
        Some(Fq { repr: x.to_repr() })
    }

    /// `<midnight_curves::Fq as From<u64>>::from`: the element congruent to `v`.
    #[verifier::external_body]
    fn outside_from_u64(v: u64) -> (r: Fq)
        ensures
            r.integer() == v,
    {
        Fq { repr: midnight_curves::Fq::from(v).to_repr() }
    }

    /// `add` of `midnight_curves::Fq`: the sum modulo the field's modulus.
    #[verifier::external_body]
    fn outside_add(a: Fq, b: Fq) -> (r: Fq)
        requires
            a.integer() < modulus(),
            b.integer() < modulus(),
        ensures
            r.integer() == (a.integer() + b.integer()) % modulus(),
    {
        let x = midnight_curves::Fq::from_repr_vartime(a.repr).unwrap();
        let y = midnight_curves::Fq::from_repr_vartime(b.repr).unwrap();
        Fq { repr: (x + y).to_repr() }
    }

    /// `sub` of `midnight_curves::Fq`: the difference modulo the field's modulus.
    #[verifier::external_body]
    fn outside_sub(a: Fq, b: Fq) -> (r: Fq)
        requires
            a.integer() < modulus(),
            b.integer() < modulus(),
        ensures
            r.integer() == (a.integer() - b.integer()) % modulus(),
    {
        let x = midnight_curves::Fq::from_repr_vartime(a.repr).unwrap();
        let y = midnight_curves::Fq::from_repr_vartime(b.repr).unwrap();
        Fq { repr: (x - y).to_repr() }
    }

    /// `mul` of `midnight_curves::Fq`: the product modulo the field's modulus.
    #[verifier::external_body]
    fn outside_mul(a: Fq, b: Fq) -> (r: Fq)
        requires
            a.integer() < modulus(),
            b.integer() < modulus(),
        ensures
            r.integer() == (a.integer() * b.integer()) % modulus(),
    {
        let x = midnight_curves::Fq::from_repr_vartime(a.repr).unwrap();
        let y = midnight_curves::Fq::from_repr_vartime(b.repr).unwrap();
        Fq { repr: (x * y).to_repr() }
    }

    /// `ff::Field::invert` of `midnight_curves::Fq`: the multiplicative inverse,
    /// which every element but zero has.
    #[verifier::external_body]
    fn outside_invert(a: Fq) -> (r: Option<Fq>)
        requires
            a.integer() < modulus(),
        ensures
            r is Some <==> a.integer() != 0,
            r matches Some(i) ==> i.integer() < modulus() && (a.integer() * i.integer())
                % modulus() == 1,
    {
        let x = midnight_curves::Fq::from_repr_vartime(a.repr).unwrap();
        let i: Option<midnight_curves::Fq> = x.invert().into();
        Some(Fq { repr: i?.to_repr() })
    }

    /// `ff::Field::pow` of `midnight_curves::Fq` with a one-word exponent: repeated
    /// multiplication modulo the field's modulus.
    #[verifier::external_body]
    fn outside_pow(a: Fq, exp: u64) -> (r: Fq)
        requires
            a.integer() < modulus(),
        ensures
            r.integer() == zp::pw(a.integer(), exp as int) % modulus(),
    {
        let x = midnight_curves::Fq::from_repr_vartime(a.repr).unwrap();
        Fq { repr: x.pow([exp]).to_repr() }
    }

    /// `ff::PrimeField::S` of `midnight_curves::Fq`: the constant is 32.
    #[verifier::external_body]
    fn outside_s() -> (r: u32)
        ensures
            r == 32,
    {
        <midnight_curves::Fq as ff::PrimeField>::S
    }

    /// `ff::PrimeField::ROOT_OF_UNITY` of `midnight_curves::Fq`: the constant is the
    /// integer written out in [`root_of_unity`].
    #[verifier::external_body]
    fn outside_root_of_unity() -> (r: Fq)
        ensures
            r.integer() == root_of_unity(),
    {
        Fq { repr: midnight_curves::Fq::ROOT_OF_UNITY.to_repr() }
    }

    /// `ff::WithSmallOrderMulGroup::<3>::ZETA` of `midnight_curves::Fq`: the constant
    /// is the integer written out in [`zeta`].
    #[verifier::external_body]
    fn outside_zeta() -> (r: Fq)
        ensures
            r.integer() == zeta(),
    {
        Fq { repr: <midnight_curves::Fq as WithSmallOrderMulGroup<3>>::ZETA.to_repr() }
    }
}

impl PrimeField for Fq {
    open spec fn modulus() -> int {
        modulus()
    }

    open spec fn val(self) -> int {
        self.integer() % modulus()
    }

    open spec fn two_adicity() -> int {
        32
    }

    open spec fn root_of_unity_val() -> int {
        root_of_unity()
    }

    open spec fn zeta_val() -> int {
        zeta()
    }

    proof fn lemma_modulus() {
    }

    proof fn lemma_val(self) {
        zp::lemma_reduce(modulus(), self.integer());
    }

    proof fn lemma_root_of_unity() {
        fq_roots::lemma_root_order();
    }

    proof fn lemma_zeta() {
        fq_roots::lemma_zeta_order();
    }

    fn zero() -> (r: Self) {
        proof {
            zp::lemma_small(modulus(), 0);
        }
        Self::outside_from_u64(0)
    }

    fn one() -> (r: Self) {
        proof {
            zp::lemma_small(modulus(), 1);
        }
        Self::outside_from_u64(1)
    }

    fn from_u64(v: u64) -> (r: Self) {
        Self::outside_from_u64(v)
    }

    fn add(self, rhs: Self) -> (r: Self) {
        proof {
            use_type_invariant(&self);
            use_type_invariant(&rhs);
            let (a, b) = (self.integer(), rhs.integer());
            zp::lemma_reduce(modulus(), a);
            zp::lemma_reduce(modulus(), b);
            zp::lemma_reduce(modulus(), a + b);
            zp::lemma_eqm_add(modulus(), self.val(), a, rhs.val(), b);
        }
        Self::outside_add(self, rhs)
    }

    fn sub(self, rhs: Self) -> (r: Self) {
        proof {
            use_type_invariant(&self);
            use_type_invariant(&rhs);
            let (a, b) = (self.integer(), rhs.integer());
            zp::lemma_reduce(modulus(), a);
            zp::lemma_reduce(modulus(), b);
            zp::lemma_reduce(modulus(), a - b);
            zp::lemma_eqm_sub(modulus(), self.val(), a, rhs.val(), b);
        }
        Self::outside_sub(self, rhs)
    }

    fn mul(self, rhs: Self) -> (r: Self) {
        proof {
            use_type_invariant(&self);
            use_type_invariant(&rhs);
            let (a, b) = (self.integer(), rhs.integer());
            zp::lemma_reduce(modulus(), a);
            zp::lemma_reduce(modulus(), b);
            zp::lemma_reduce(modulus(), a * b);
            zp::lemma_eqm_mul(modulus(), self.val(), a, rhs.val(), b);
        }
        Self::outside_mul(self, rhs)
    }

    fn invert(self) -> (r: Option<Self>) {
        proof {
            use_type_invariant(&self);
            lemma_spelled_nonneg(self.repr@);
            zp::lemma_small(modulus(), self.integer());
        }
        let r = Self::outside_invert(self);
        proof {
            if let Some(i) = r {
                lemma_spelled_nonneg(i.repr@);
                zp::lemma_small(modulus(), i.integer());
            }
        }
        r
    }

    fn pow(self, exp: u64) -> (r: Self) {
        proof {
            use_type_invariant(&self);
            let a = self.integer();
            zp::lemma_reduce(modulus(), a);
            zp::lemma_reduce(modulus(), zp::pw(a, exp as int));
            zp::lemma_eqm_pow(modulus(), self.val(), a, exp as int);
        }
        Self::outside_pow(self, exp)
    }

    fn is_zero(self) -> (r: bool) {
        self.equals(Self::zero())
    }

    fn equals(self, rhs: Self) -> (r: bool) {
        proof {
            use_type_invariant(&self);
            use_type_invariant(&rhs);
            lemma_spelled_nonneg(self.repr@);
            lemma_spelled_nonneg(rhs.repr@);
            zp::lemma_small(modulus(), self.integer());
            zp::lemma_small(modulus(), rhs.integer());
        }
        let mut i: usize = 0;
        while i < 32
            invariant
                i <= 32,
                self.val() == self.integer(),
                rhs.val() == rhs.integer(),
                forall|j: int| 0 <= j < i ==> self.repr@[j] == rhs.repr@[j],
            decreases 32 - i,
        {
            if self.repr[i] != rhs.repr[i] {
                proof {
                    if self.integer() == rhs.integer() {
                        lemma_spelled_injective(self.repr@, rhs.repr@);
                    }
                }
                return false;
            }
            i = i + 1;
        }
        proof {
            assert(self.repr@ =~= rhs.repr@);
        }
        true
    }

    fn s() -> (r: u32) {
        Self::outside_s()
    }

    fn root_of_unity() -> (r: Self) {
        proof {
            zp::lemma_small(modulus(), root_of_unity());
        }
        Self::outside_root_of_unity()
    }

    fn zeta() -> (r: Self) {
        proof {
            zp::lemma_small(modulus(), zeta());
        }
        Self::outside_zeta()
    }
}

} // verus!
