use ff::{Field, PrimeField as _, WithSmallOrderMulGroup};
use protogalaxy::field::PrimeField;
use protogalaxy::fq::Fq;

fn fe(v: u64) -> Fq {
    PrimeField::from_u64(v)
}

/// The bytes of a big-endian hexadecimal number, least significant first.
fn bytes(hex: &str) -> [u8; 32] {
    let mut out = [0u8; 32];
    let digits: Vec<u8> = hex.bytes().rev().collect();
    for (i, pair) in digits.chunks(2).enumerate() {
        let lo = (pair[0] as char).to_digit(16).unwrap() as u8;
        let hi = if pair.len() > 1 { (pair[1] as char).to_digit(16).unwrap() as u8 } else { 0 };
        out[i] = lo + 16 * hi;
    }
    out
}

const MODULUS: &str = "73eda753299d7d483339d80809a1d80553bda402fffe5bfeffffffff00000001";
const MINUS_ONE: &str = "73eda753299d7d483339d80809a1d80553bda402fffe5bfeffffffff00000000";
const ROOT: &str = "16a2a19edfe81f20d09b681922c813b4b63683508c2280b93829971f439f0d2b";
const ZETA: &str = "ac45a4010001a40200000000ffffffff";

#[test]
fn small_integers_are_themselves() {
    assert_eq!(fe(0).to_repr(), bytes("0"));
    assert_eq!(fe(258).to_repr(), bytes("102"));
    assert_eq!(fe(u64::MAX).to_repr(), bytes("ffffffffffffffff"));
    assert_eq!(<Fq as PrimeField>::zero(), fe(0));
    assert_eq!(<Fq as PrimeField>::one(), fe(1));
}

#[test]
fn only_canonical_bytes_are_elements() {
    assert_eq!(Fq::from_repr(bytes(MODULUS)), None);
    assert_eq!(Fq::from_repr([0xff; 32]), None);
    let top = Fq::from_repr(bytes(MINUS_ONE)).unwrap();
    assert_eq!(top.to_repr(), bytes(MINUS_ONE));
    assert_eq!(Fq::from_repr(bytes("2a")), Some(fe(42)));
}

#[test]
fn arithmetic_is_modulo_the_modulus() {
    let top = Fq::from_repr(bytes(MINUS_ONE)).unwrap();
    assert_eq!(PrimeField::add(top, fe(1)), fe(0));
    assert_eq!(PrimeField::add(top, fe(5)), fe(4));
    assert_eq!(PrimeField::sub(fe(0), fe(1)), top);
    assert_eq!(PrimeField::sub(fe(9), fe(4)), fe(5));
    assert_eq!(PrimeField::mul(top, top), fe(1));
    assert_eq!(PrimeField::mul(fe(6), fe(7)), fe(42));
    assert_eq!(PrimeField::pow(fe(3), 5), fe(243));
    assert_eq!(PrimeField::pow(fe(3), 0), fe(1));
    assert_eq!(PrimeField::pow(top, 3), top);
}

#[test]
fn inverses() {
    let half = PrimeField::invert(fe(2)).unwrap();
    assert_eq!(
        half.to_repr(),
        bytes("39f6d3a994cebea4199cec0404d0ec02a9ded2017fff2dff7fffffff80000001")
    );
    assert_eq!(PrimeField::mul(half, fe(2)), fe(1));
    assert_eq!(PrimeField::invert(fe(0)), None);
}

#[test]
fn comparisons() {
    assert!(PrimeField::is_zero(fe(0)));
    assert!(!PrimeField::is_zero(fe(1)));
    assert!(fe(7).equals(fe(7)));
    assert!(!fe(7).equals(fe(8)));
}

#[test]
fn constants() {
    assert_eq!(<Fq as PrimeField>::s(), 32);
    let root = <Fq as PrimeField>::root_of_unity();
    assert_eq!(root.to_repr(), bytes(ROOT));
    let top = Fq::from_repr(bytes(MINUS_ONE)).unwrap();
    assert_eq!(PrimeField::pow(root, 1 << 31), top);
    assert_eq!(PrimeField::pow(root, 1 << 32), fe(1));
    let zeta = <Fq as PrimeField>::zeta();
    assert_eq!(zeta.to_repr(), bytes(ZETA));
    assert_eq!(PrimeField::pow(zeta, 3), fe(1));
    assert_ne!(zeta, fe(1));
}

/// The operations are those of the curve library's scalar field.
#[test]
fn operations_match_the_curve_library() {
    let x = midnight_curves::Fq::from(0x1234_5678_9abc_def0).square();
    let y = midnight_curves::Fq::from(0x0fed_cba9_8765_4321).cube();
    let (a, b) = (Fq::from_repr(x.to_repr()).unwrap(), Fq::from_repr(y.to_repr()).unwrap());
    assert_eq!(PrimeField::add(a, b).to_repr(), (x + y).to_repr());
    assert_eq!(PrimeField::sub(a, b).to_repr(), (x - y).to_repr());
    assert_eq!(PrimeField::mul(a, b).to_repr(), (x * y).to_repr());
    assert_eq!(PrimeField::pow(a, 77).to_repr(), x.pow([77u64]).to_repr());
    assert_eq!(PrimeField::invert(b).unwrap().to_repr(), y.invert().unwrap().to_repr());
    assert_eq!(
        <Fq as PrimeField>::zeta().to_repr(),
        <midnight_curves::Fq as WithSmallOrderMulGroup<3>>::ZETA.to_repr()
    );
    assert_eq!(
        <Fq as PrimeField>::root_of_unity().to_repr(),
        midnight_curves::Fq::ROOT_OF_UNITY.to_repr()
    );
}
