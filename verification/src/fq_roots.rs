//! The orders of the distinguished elements of the BLS12-381 scalar field.
use crate::fq;
use crate::zp;
use vstd::arithmetic::power2::*;
use vstd::prelude::*;

verus! {

proof fn lemma_square_step(i: nat, a: int, k: int, b: int)
    requires
        zp::eqm(fq::modulus(), zp::pw(fq::root_of_unity(), pow2(i) as int), a),
        a * a == fq::modulus() * k + b,
    ensures
        zp::eqm(fq::modulus(), zp::pw(fq::root_of_unity(), pow2(i + 1) as int), b),
{
    let q = fq::modulus();
    let w = fq::root_of_unity();
    let e = pow2(i) as int;
    lemma_pow2_unfold(i + 1);
    zp::lemma_pw_add(w, e, e);
    zp::lemma_eqm_mul(q, zp::pw(w, e), a, zp::pw(w, e), a);
    vstd::arithmetic::div_mod::lemma_mod_multiples_vanish(k, b, q);
}

/// Squaring the root of unity thirty-one times gives minus one.
pub proof fn lemma_root_order()
    ensures
        zp::eqm(fq::modulus(), zp::pw(fq::root_of_unity(), pow2(31) as int), -1),
{
    lemma2_to64();
    zp::lemma_pw1(fq::root_of_unity());
    lemma_square_step(0,
        0x16a2a19edfe81f20d09b681922c813b4b63683508c2280b93829971f439f0d2bint,
        0x46b6a531156833f2ec469fcaf1ad016c0ac8ff8fe9b35ff8ee05ed0d7179bfaint,
        0x4b5371495990693fad1715b02e5713b5f070bb00e28a193d63e7cb4906ffc93fint);
    lemma_square_step(1,
        0x4b5371495990693fad1715b02e5713b5f070bb00e28a193d63e7cb4906ffc93fint,
        0x30f1ab1595c2d2f989fb50964a7330fca73e88614457bfab9c968b2474ec202bint,
        0x2c6d4e4511657e1e1339a815da8b398fed3a181fabb30adc694341f608c9dd56int);
    lemma_square_step(2,
        0x2c6d4e4511657e1e1339a815da8b398fed3a181fabb30adc694341f608c9dd56int,
        0x110691833f37afdebb20c8e046d2b3e6decaddee100e33d6994171de12db77c9int,
        0xc83ea7744bf1bee8da40c1ef2bb459884d37b826214abc6474650359d8e211bint);
    lemma_square_step(3,
        0xc83ea7744bf1bee8da40c1ef2bb459884d37b826214abc6474650359d8e211bint,
        0x159e2bf6a5370d130211f45b03eac7387e0a96213c5fb1b817c887ed1ecd850int,
        0x52dd465e2f09425699e276b571905a7d6558e9e3f6ac7b41d7b688830a4f2089int);
    lemma_square_step(4,
        0x52dd465e2f09425699e276b571905a7d6558e9e3f6ac7b41d7b688830a4f2089int,
        0x3b3b06a28b2a02bf5a5e6c922e12eda976394d9d1a2eff104b9feb132dad6f64int,
        0x23397a9300f8f98bece8ea224f31d25db94f1101b1d7a628e2d0a7869f0319edint);
    lemma_square_step(5,
        0x23397a9300f8f98bece8ea224f31d25db94f1101b1d7a628e2d0a7869f0319edint,
        0xab3f0119626603c452151d90394c5fe5f63d733517d87cc5933f6a03156d3e7int,
        0xa0a77a3b1980c0d116168bffbedc11d02c8118402867ddc531a11a0d2d75182int);
    lemma_square_step(6,
        0xa0a77a3b1980c0d116168bffbedc11d02c8118402867ddc531a11a0d2d75182int,
        0xdea2b6fae4c13adeb5ceea0db4ad434f85d64802013a04dc120eb4fc3de0e6int,
        0x19fe632fd3287390454dc1edc61a1a3c0ba12bb3da64ca5ce32ef844e11a51eint);
    lemma_square_step(7,
        0x19fe632fd3287390454dc1edc61a1a3c0ba12bb3da64ca5ce32ef844e11a51eint,
        0x5d40fa3da1bdb3e982d8325993408e8d10daae5d0d25fe9f5f6c228be37e8int,
        0x291cf6d68823e6876e0bcd91ee76273072cf6a8029b7d7bc92cf4deb77bd779cint);
    lemma_square_step(8,
        0x291cf6d68823e6876e0bcd91ee76273072cf6a8029b7d7bc92cf4deb77bd779cint,
        0xe949a21ffecedd8a6ebeda0253d24770c6475e7105136d20b4e24b8fb4dc862int,
        0x73560252aa0655b25121af06a3b51e3cc631ffb2585a72db5616c57de0ec9eaeint);
    lemma_square_step(9,
        0x73560252aa0655b25121af06a3b51e3cc631ffb2585a72db5616c57de0ec9eaeint,
        0x72bf23af7a589fbb742d2d81ca32150255935a678663bc32c2871632c29d0ae1int,
        0xabe6a5e5abcaa32f2d38f10fbb8d1bbe08fec7c86389beec6e7a6ffb08e3363int);
    lemma_square_step(10,
        0xabe6a5e5abcaa32f2d38f10fbb8d1bbe08fec7c86389beec6e7a6ffb08e3363int,
        0xfee5fb5d0ea236f1b501ec83e593c87e931ac7e47af231b20917dbfee5f80fint,
        0x47c8b5817018af4fc70d0874b0691d4e46b3105f04db5844cd3979122d3ea03aint);
    lemma_square_step(11,
        0x47c8b5817018af4fc70d0874b0691d4e46b3105f04db5844cd3979122d3ea03aint,
        0x2c730c3140a37a7f3f53fcbdea18424e87b457e70cd38cf80220f1992ad6ffd9int,
        0x3e1c54bcb947035a57a6e07cb98de4a2f69e02d265e09d9fece7e0e39898d4bint);
    lemma_square_step(12,
        0x3e1c54bcb947035a57a6e07cb98de4a2f69e02d265e09d9fece7e0e39898d4bint,
        0x2146e2a0b8e0de7288868eee118eaaab19d42369bf1a60e0036d01018e265cint,
        0x520e587a724a6955df625e80d0adef90ad8e16e84419c750194e8c62ecb38d9dint);
    lemma_square_step(13,
        0x520e587a724a6955df625e80d0adef90ad8e16e84419c750194e8c62ecb38d9dint,
        0x3a14a5a3be2166a2bb8b08bf05a97855021e83cee04f46af3e8f720d40eddd4eint,
        0x2d3056a530794f01652f717ae1c34bb0bb97a3bf30ce40fd6f421a7d8ef674fbint);
    lemma_square_step(14,
        0x2d3056a530794f01652f717ae1c34bb0bb97a3bf30ce40fd6f421a7d8ef674fbint,
        0x119d5585e49aad5f9259d189b881bf07e02bc04bae10b9fb776bcb2c88215f09int,
        0x224262332d8acbf4473a2eef772c33d6cd7f2bd6d0711b7d08692405f3b70f10int);
    lemma_square_step(15,
        0x224262332d8acbf4473a2eef772c33d6cd7f2bd6d0711b7d08692405f3b70f10int,
        0xa1fd62a66e50b750997f40fc9e83eea0500b811d36d501789a2b8ec1c2c2853int,
        0x2155379d12180caa88f39a78f1aeb57867a665ae1fcadc91d7118f85cd96b8adint);
    lemma_square_step(16,
        0x2155379d12180caa88f39a78f1aeb57867a665ae1fcadc91d7118f85cd96b8adint,
        0x9958e6f287860573c01eaa5568342998d1392b9d3fcdc8db6ad07ddef7b697bint,
        0x3291357ee558b50d483405417a0cbe39c8d5f51db3f32699fbd047e11279bb6eint);
    lemma_square_step(17,
        0x3291357ee558b50d483405417a0cbe39c8d5f51db3f32699fbd047e11279bb6eint,
        0x160e9ebe700aee0e8574c66da309cd89d6ed44211ce409304995ad0b04db0963int,
        0x56624634b500a166dc86b01c0d477fa6ae4622f6a9152435034d2ff22a5ad9e1int);
    lemma_square_step(18,
        0x56624634b500a166dc86b01c0d477fa6ae4622f6a9152435034d2ff22a5ad9e1int,
        0x405e6df92310b5afd19ea62edd2f1b3fc5abdf7db6a963f5565a28b9f816ae5aint,
        0x485d512737b1da3d2ccddea2972e89ed146b58bc434906ac6fdd00bfc78c8967int);
    lemma_square_step(19,
        0x485d512737b1da3d2ccddea2972e89ed146b58bc434906ac6fdd00bfc78c8967int,
        0x2d2bd4bacd6e3f84defbd926f073f958e1d4245c641a3b8419a3fcd00e94046bint,
        0x564c0a11a0f704f4fc3e8acfe0f8245f0ad1347b378fbf96e206da11a5d36306int);
    lemma_square_step(20,
        0x564c0a11a0f704f4fc3e8acfe0f8245f0ad1347b378fbf96e206da11a5d36306int,
        0x403d4f41dc6a8cda3cf38f8e270787fdc5640c7098f15d5c2c4c29dfc4642a3fint,
        0x6d031f1b5c49c83409f1ca610a08f16655ea6811be9c622d4a838b5d59cd79e5int);
    lemma_square_step(21,
        0x6d031f1b5c49c83409f1ca610a08f16655ea6811be9c622d4a838b5d59cd79e5int,
        0x668237981ad07340e3bec76b2e667c1f236eb1410dc3572970685a2e07096e85int,
        0x325db5c3debf77a18f4de02c0f776af3ea437f9626fc085e3c28d666a5c2d854int);
    lemma_square_step(22,
        0x325db5c3debf77a18f4de02c0f776af3ea437f9626fc085e3c28d666a5c2d854int,
        0x15e1c84c3f26c9b1e00eae02d90a05e7542a1f75ba7e56e4a881715baf3d9842int,
        0x95166525526a65439feec240d80689fd697168a3a6000fe4541b8ff2ee0434eint);
    lemma_square_step(23,
        0x95166525526a65439feec240d80689fd697168a3a6000fe4541b8ff2ee0434eint,
        0xbfbb2ef2ee09fe34f8f27564be4b574bb19a28a01c91801d34575360b28279int,
        0x4f9b4098e2e9f12e6b368121ac0cf4ad0a0865a899e8deff4935bd2f817f694bint);
    lemma_square_step(24,
        0x4f9b4098e2e9f12e6b368121ac0cf4ad0a0865a899e8deff4935bd2f817f694bint,
        0x36aa29c22b40321ba61b5f8d4f77795c110acbf388c9e1c8d157c28ad3b7763bint,
        0x6898111413588742b7c68b4d7fdd60d098d0caac87f5713c5130c2c1660125beint);
    lemma_square_step(25,
        0x6898111413588742b7c68b4d7fdd60d098d0caac87f5713c5130c2c1660125beint,
        0x5e5e2b110231c03083ccd5493c04a498ead16b7e63ad3a7f5df5850ec8628ab1int,
        0x45af6345ec055e4d14a1e27164d8fdbd2d967f4be2f951558140d032f0a9ee53int);
    lemma_square_step(26,
        0x45af6345ec055e4d14a1e27164d8fdbd2d967f4be2f951558140d032f0a9ee53int,
        0x29e358a60746b7fbcb35f71de474d1454e6ba9a6ad4648a255653715b40a8f9bint,
        0x50e0903a157988bab4bcd40e22f55448bf6e88fb4c38fb8a360c60997369df4eint);
    lemma_square_step(27,
        0x50e0903a157988bab4bcd40e22f55448bf6e88fb4c38fb8a360c60997369df4eint,
        0x386c80aaeff17f5277bec07697315a9256acbcf5e7689d06a0f792c28d823ef6int,
        0x20b1ce9140267af9dd1c0af834cec32c17beb312f20b6f7653ea61d87742bcceint);
    lemma_square_step(28,
        0x20b1ce9140267af9dd1c0af834cec32c17beb312f20b6f7653ea61d87742bcceint,
        0x9387c422d7cefe2c20eb21442545c8638ea24eb341e34ae27b3cda3d202f64aint,
        0x345766f603fa66e78c0625cd70d77ce2b38b21c28713b7007228fd3397743f7aint);
    lemma_square_step(29,
        0x345766f603fa66e78c0625cd70d77ce2b38b21c28713b7007228fd3397743f7aint,
        0x17a1cdc048cdb1278454e23dc04aaf593e9344a7a37aaf2d77cf0c6b824d4624int,
        0x8d51ccce760304d0ec030002760300000001000000000000int);
    lemma_square_step(30,
        0x8d51ccce760304d0ec030002760300000001000000000000int,
        0xac45a4010001a4020000000100000000int,
        0x73eda753299d7d483339d80809a1d80553bda402fffe5bfeffffffff00000000int);
    vstd::arithmetic::div_mod::lemma_mod_add_multiples_vanish(-1, fq::modulus());
}

/// The cube of zeta is one.
pub proof fn lemma_zeta_order()
    ensures
        zp::eqm(fq::modulus(), zp::pw(fq::zeta(), 3), 1),
{
    let q = fq::modulus();
    let z = fq::zeta();
    zp::lemma_pw1(z);
    zp::lemma_pw_succ(z, 1);
    zp::lemma_pw_succ(z, 2);
    let z2 = 0x73eda753299d7d483339d80809a1d804a7780001fffcb7fcfffffffe00000001int;
    assert(z * z == q * 0x0int + z2);
    vstd::arithmetic::div_mod::lemma_mod_multiples_vanish(0x0int, z2, q);
    zp::lemma_eqm_mul(q, z * z, z2, z, z);
    assert(z2 * z == q * 0xac45a4010001a40200000000fffffffeint + 1);
    vstd::arithmetic::div_mod::lemma_mod_multiples_vanish(0xac45a4010001a40200000000fffffffeint, 1, q);
}

} // verus!
