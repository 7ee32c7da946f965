//! The trace of an element of the GHASH field.

use crate::field::ghash::BinaryField128bGhash;
use crate::ghash::laws::product;
use crate::ghash::portable::spread_bits;
use crate::ghash::reduction::{lemma_shift_fold, shift_fold};
use crate::ghash::soft64::lemma_spread_is_square;
use crate::ghash::wide::{join, lemma_wide_value};
use crate::math::ntt::artin_schreier;
use vstd::prelude::*;

verus! {

/// The square of an element: its bits spread to the even positions, and the upper half folded back.
#[verifier::opaque]
spec fn squared(x: u128) -> u128 {
    join(spread_bits(x as u64 & 0xffffffff), spread_bits(x as u64 >> 32)) ^ shift_fold(
        shift_fold(
            join(
                spread_bits((x >> 64) as u64 & 0xffffffff),
                spread_bits((x >> 64) as u64 >> 32),
            ),
        ),
    )
}

/// Squaring is spreading and folding.
proof fn lemma_squared(x: u128)
    ensures
        product(x, x) == squared(x),
{
    reveal(squared);
    let (x0, x1) = (x as u64, (x >> 64) as u64);
    let v = [
        spread_bits(x0 & 0xffffffff),
        spread_bits(x0 >> 32),
        spread_bits(x1 & 0xffffffff),
        spread_bits(x1 >> 32),
    ];
    lemma_spread_is_square(v, x);
    lemma_wide_value(v);
    lemma_shift_fold(join(v[2], v[3]));
}

/// One more application of `x -> x^2 + x`.
proof fn lemma_step(n: int, y: u128, z: u128)
    requires
        n >= 0,
        artin_schreier(BinaryField128bGhash(0x02000000000000000000000000000000), n) == BinaryField128bGhash(y),
        squared(y) ^ y == z,
    ensures
        artin_schreier(BinaryField128bGhash(0x02000000000000000000000000000000), n + 1) == BinaryField128bGhash(z),
{
    lemma_squared(y);
}

/// What `x -> x^2 + x` gives, one application after the other.
proof fn lemma_images()
    by (bit_vector)
    ensures
        squared(0x02000000000000000000000000000000) ^ 0x02000000000000000000000000000000
            == 0x001c0000000000000000000000000000,
        squared(0x001c0000000000000000000000000000) ^ 0x001c0000000000000000000000000000
            == 0x001caeb0000000000000000000000000,
        squared(0x001caeb0000000000000000000000000) ^ 0x001caeb0000000000000000000000000
            == 0x001c0023f78f5b000000000000000000,
        squared(0x001c0023f78f5b000000000000000000) ^ 0x001c0023f78f5b000000000000000000
            == 0x001cae93f78d45b021caeb23d45b0000,
        squared(0x001cae93f78d45b021caeb23d45b0000) ^ 0x001cae93f78d45b021caeb23d45b0000
            == 0x041d50445445040551101359ac8f5b00,
        squared(0x041d50445445040551101359ac8f5b00) ^ 0x041d50445445040551101359ac8f5b00
            == 0x1d6cff7ba2486d3cea382bfbb5ba53f7,
        squared(0x1d6cff7ba2486d3cea382bfbb5ba53f7) ^ 0x1d6cff7ba2486d3cea382bfbb5ba53f7
            == 0xe715bfa0a62cf001713d3f75e18ab452,
        squared(0xe715bfa0a62cf001713d3f75e18ab452) ^ 0xe715bfa0a62cf001713d3f75e18ab452
            == 0x54ff3525d3713933f3524aaa8f9ab080,
        squared(0x54ff3525d3713933f3524aaa8f9ab080) ^ 0x54ff3525d3713933f3524aaa8f9ab080
            == 0xfea1240850c069a98696e06b70df6d23,
        squared(0xfea1240850c069a98696e06b70df6d23) ^ 0xfea1240850c069a98696e06b70df6d23
            == 0xbe3ab99910b05c2464bf013429ea8130,
        squared(0xbe3ab99910b05c2464bf013429ea8130) ^ 0xbe3ab99910b05c2464bf013429ea8130
            == 0xda8444336ad73f73e7dd0e78b7598129,
        squared(0xda8444336ad73f73e7dd0e78b7598129) ^ 0xda8444336ad73f73e7dd0e78b7598129
            == 0x9a6cdd1a12f1b3a2ed3d22d0477978ac,
        squared(0x9a6cdd1a12f1b3a2ed3d22d0477978ac) ^ 0x9a6cdd1a12f1b3a2ed3d22d0477978ac
            == 0xaaeb9dd208c2467e781f1c350b81f287,
        squared(0xaaeb9dd208c2467e781f1c350b81f287) ^ 0xaaeb9dd208c2467e781f1c350b81f287
            == 0x405c13fd678c767359b3ee2024e36357,
        squared(0x405c13fd678c767359b3ee2024e36357) ^ 0x405c13fd678c767359b3ee2024e36357
            == 0x21158848b668704e3b69539fd1809fe1,
        squared(0x21158848b668704e3b69539fd1809fe1) ^ 0x21158848b668704e3b69539fd1809fe1
            == 0x38d713df46a560f83b0e5e557bdd9142,
        squared(0x38d713df46a560f83b0e5e557bdd9142) ^ 0x38d713df46a560f83b0e5e557bdd9142
            == 0x877b2e60d2436dca5404dbf956f78a88,
        squared(0x877b2e60d2436dca5404dbf956f78a88) ^ 0x877b2e60d2436dca5404dbf956f78a88
            == 0x5c8ae629b4a054a27004fc7d53ad4973,
        squared(0x5c8ae629b4a054a27004fc7d53ad4973) ^ 0x5c8ae629b4a054a27004fc7d53ad4973
            == 0x971b05ce479e7c9732526424bcbf8652,
        squared(0x971b05ce479e7c9732526424bcbf8652) ^ 0x971b05ce479e7c9732526424bcbf8652
            == 0xdff4b0915b50e3230dc84dd73e3acada,
        squared(0xdff4b0915b50e3230dc84dd73e3acada) ^ 0xdff4b0915b50e3230dc84dd73e3acada
            == 0xc3a5c3821020f5b9dccfbfb8c0e7915a,
        squared(0xc3a5c3821020f5b9dccfbfb8c0e7915a) ^ 0xc3a5c3821020f5b9dccfbfb8c0e7915a
            == 0x204d4709e7cf72e50bcdf786a232ee06,
        squared(0x204d4709e7cf72e50bcdf786a232ee06) ^ 0x204d4709e7cf72e50bcdf786a232ee06
            == 0x3c004e67c831139de90b69a31f514beb,
        squared(0x3c004e67c831139de90b69a31f514beb) ^ 0x3c004e67c831139de90b69a31f514beb
            == 0xdaf14e2a87d6315a799ce3258aae7097,
        squared(0xdaf14e2a87d6315a799ce3258aae7097) ^ 0xdaf14e2a87d6315a799ce3258aae7097
            == 0xdb4724f5887d0ab6f31a9a1f0421f101,
        squared(0xdb4724f5887d0ab6f31a9a1f0421f101) ^ 0xdb4724f5887d0ab6f31a9a1f0421f101
            == 0x9a115f58dd62283512c05c2972dfb433,
        squared(0x9a115f58dd62283512c05c2972dfb433) ^ 0x9a115f58dd62283512c05c2972dfb433
            == 0xffc988d71011fa9d19f963620a0d32a6,
        squared(0xffc988d71011fa9d19f963620a0d32a6) ^ 0xffc988d71011fa9d19f963620a0d32a6
            == 0xfe8a4cf0e5fdd3729ebde49f07f40dd4,
        squared(0xfe8a4cf0e5fdd3729ebde49f07f40dd4) ^ 0xfe8a4cf0e5fdd3729ebde49f07f40dd4
            == 0xbf53ea75e876b90c3a74b3913234a089,
        squared(0xbf53ea75e876b90c3a74b3913234a089) ^ 0xbf53ea75e876b90c3a74b3913234a089
            == 0xca340ad522a51bd1b2ba57ce0c73d811,
        squared(0xca340ad522a51bd1b2ba57ce0c73d811) ^ 0xca340ad522a51bd1b2ba57ce0c73d811
            == 0x1ceedce110457470acd5963cf941fac8,
        squared(0x1ceedce110457470acd5963cf941fac8) ^ 0x1ceedce110457470acd5963cf941fac8
            == 0xf6250a754fcadda77e9cfec04f7f4188,
        squared(0xf6250a754fcadda77e9cfec04f7f4188) ^ 0xf6250a754fcadda77e9cfec04f7f4188
            == 0xc21f5fd239486e5835cb7860416ac272,
        squared(0xc21f5fd239486e5835cb7860416ac272) ^ 0xc21f5fd239486e5835cb7860416ac272
            == 0x7512a3b4f00a4f469f853dee56ca15e9,
        squared(0x7512a3b4f00a4f469f853dee56ca15e9) ^ 0x7512a3b4f00a4f469f853dee56ca15e9
            == 0xd7b0669a2be34849a5914e7e0cf83ef2,
        squared(0xd7b0669a2be34849a5914e7e0cf83ef2) ^ 0xd7b0669a2be34849a5914e7e0cf83ef2
            == 0xae697c915dfa39c39ab1b5ad58642eee,
        squared(0xae697c915dfa39c39ab1b5ad58642eee) ^ 0xae697c915dfa39c39ab1b5ad58642eee
            == 0x188b74ddda7a3a1d55eda963e65ed948,
        squared(0x188b74ddda7a3a1d55eda963e65ed948) ^ 0x188b74ddda7a3a1d55eda963e65ed948
            == 0xaf7bc3dd7d623006152f70e90fc3673f,
        squared(0xaf7bc3dd7d623006152f70e90fc3673f) ^ 0xaf7bc3dd7d623006152f70e90fc3673f
            == 0x594b0ffadad07a7ad7474ef280d6796f,
        squared(0x594b0ffadad07a7ad7474ef280d6796f) ^ 0x594b0ffadad07a7ad7474ef280d6796f
            == 0xde114cb4e184278b83b228ec5d41a1de,
        squared(0xde114cb4e184278b83b228ec5d41a1de) ^ 0xde114cb4e184278b83b228ec5d41a1de
            == 0x82b88e3fbc5720803e45f09f0f8a078e,
        squared(0x82b88e3fbc5720803e45f09f0f8a078e) ^ 0x82b88e3fbc5720803e45f09f0f8a078e
            == 0x45d3e4cf02f9d1dd4ca84d3213be97bd,
        squared(0x45d3e4cf02f9d1dd4ca84d3213be97bd) ^ 0x45d3e4cf02f9d1dd4ca84d3213be97bd
            == 0x2d5d953fb6f14ff24f9a02086505c8e3,
        squared(0x2d5d953fb6f14ff24f9a02086505c8e3) ^ 0x2d5d953fb6f14ff24f9a02086505c8e3
            == 0x08370a6df900ffba0acc29966e45b4f4,
        squared(0x08370a6df900ffba0acc29966e45b4f4) ^ 0x08370a6df900ffba0acc29966e45b4f4
            == 0x29b1cbd6de97fbb214df39ac2b5d9938,
        squared(0x29b1cbd6de97fbb214df39ac2b5d9938) ^ 0x29b1cbd6de97fbb214df39ac2b5d9938
            == 0x15c5c12d48a482a70c17653d6264c46a,
        squared(0x15c5c12d48a482a70c17653d6264c46a) ^ 0x15c5c12d48a482a70c17653d6264c46a
            == 0x9a4b78e6ec30b2c949f0a57cf04b06c5,
        squared(0x9a4b78e6ec30b2c949f0a57cf04b06c5) ^ 0x9a4b78e6ec30b2c949f0a57cf04b06c5
            == 0xeede7eb762ca01de99422e1aa96ad7f4,
        squared(0xeede7eb762ca01de99422e1aa96ad7f4) ^ 0xeede7eb762ca01de99422e1aa96ad7f4
            == 0x281a7215a611517bb336a982f8d18b19,
        squared(0x281a7215a611517bb336a982f8d18b19) ^ 0x281a7215a611517bb336a982f8d18b19
            == 0x50dfd3d70b4c9eab301a7f0c4f19430d,
        squared(0x50dfd3d70b4c9eab301a7f0c4f19430d) ^ 0x50dfd3d70b4c9eab301a7f0c4f19430d
            == 0xa2f6ce912baba310031c27dc3393b83f,
        squared(0xa2f6ce912baba310031c27dc3393b83f) ^ 0xa2f6ce912baba310031c27dc3393b83f
            == 0x7cc4ee84b433b5c5396199a1a8482b03,
        squared(0x7cc4ee84b433b5c5396199a1a8482b03) ^ 0x7cc4ee84b433b5c5396199a1a8482b03
            == 0xbb1c42de72ff39972e531059ffd396c7,
        squared(0xbb1c42de72ff39972e531059ffd396c7) ^ 0xbb1c42de72ff39972e531059ffd396c7
            == 0xc713fd6301ca34709231417504a19a50,
        squared(0xc713fd6301ca34709231417504a19a50) ^ 0xc713fd6301ca34709231417504a19a50
            == 0x3cfc7dd213f64ffa928f96aad69f740f,
        squared(0x3cfc7dd213f64ffa928f96aad69f740f) ^ 0x3cfc7dd213f64ffa928f96aad69f740f
            == 0xcf633f3d90fc3ea2462bf69b988f7d88,
        squared(0xcf633f3d90fc3ea2462bf69b988f7d88) ^ 0xcf633f3d90fc3ea2462bf69b988f7d88
            == 0x445655e175c1cdf14040b47c3d51f78b,
        squared(0x445655e175c1cdf14040b47c3d51f78b) ^ 0x445655e175c1cdf14040b47c3d51f78b
            == 0x2c2eb885cf0d742ca6cf15d3f1589871,
        squared(0x2c2eb885cf0d742ca6cf15d3f1589871) ^ 0x2c2eb885cf0d742ca6cf15d3f1589871
            == 0x5d88df5fb4fdedf768e52dae536ab9ce,
        squared(0x5d88df5fb4fdedf768e52dae536ab9ce) ^ 0x5d88df5fb4fdedf768e52dae536ab9ce
            == 0x97de6aa7ac8f75ab2abb3bf69337cc49,
        squared(0x97de6aa7ac8f75ab2abb3bf69337cc49) ^ 0x97de6aa7ac8f75ab2abb3bf69337cc49
            == 0xde583344e635f6779e2fd5c220b33334,
        squared(0xde583344e635f6779e2fd5c220b33334) ^ 0xde583344e635f6779e2fd5c220b33334
            == 0x83a8e1d32eb7de283c41031b04d0c390,
        squared(0x83a8e1d32eb7de283c41031b04d0c390) ^ 0x83a8e1d32eb7de283c41031b04d0c390
            == 0x44400c39821ceaf40bde03d9487baf37,
        squared(0x44400c39821ceaf40bde03d9487baf37) ^ 0x44400c39821ceaf40bde03d9487baf37
            == 0x3c7d2d6dabab01d3d982b80783d98d6a,
        squared(0x3c7d2d6dabab01d3d982b80783d98d6a) ^ 0x3c7d2d6dabab01d3d982b80783d98d6a
            == 0xdf86af5cdbd644d266ff161dc326adbb,
        squared(0xdf86af5cdbd644d266ff161dc326adbb) ^ 0xdf86af5cdbd644d266ff161dc326adbb
            == 0xd79830462de19b1a22882f6dff2ec9bd,
        squared(0xd79830462de19b1a22882f6dff2ec9bd) ^ 0xd79830462de19b1a22882f6dff2ec9bd
            == 0xee5616c4b2bcf52542c1879fcb343c6f,
        squared(0xee5616c4b2bcf52542c1879fcb343c6f) ^ 0xee5616c4b2bcf52542c1879fcb343c6f
            == 0x79f6bba97fec0c234bbbf014ed91299c,
        squared(0x79f6bba97fec0c234bbbf014ed91299c) ^ 0x79f6bba97fec0c234bbbf014ed91299c
            == 0xa3dfdfa35294f07edfea34a5c0627361,
        squared(0xa3dfdfa35294f07edfea34a5c0627361) ^ 0xa3dfdfa35294f07edfea34a5c0627361
            == 0x2c3897e54b8c6afc7ad76ffafe6db6a5,
        squared(0x2c3897e54b8c6afc7ad76ffafe6db6a5) ^ 0x2c3897e54b8c6afc7ad76ffafe6db6a5
            == 0x0cce7c1112199b477cf99211f48ef10a,
        squared(0x0cce7c1112199b477cf99211f48ef10a) ^ 0x0cce7c1112199b477cf99211f48ef10a
            == 0x3007b2f691ad1dc1acf57423c5dc8ba5,
        squared(0x3007b2f691ad1dc1acf57423c5dc8ba5) ^ 0x3007b2f691ad1dc1acf57423c5dc8ba5
            == 0xef57ed2fdd8a3889bb40d0442b877e3d,
        squared(0xef57ed2fdd8a3889bb40d0442b877e3d) ^ 0xef57ed2fdd8a3889bb40d0442b877e3d
            == 0x2d3100ef09bf1f9ba113738f84328f7a,
        squared(0x2d3100ef09bf1f9ba113738f84328f7a) ^ 0x2d3100ef09bf1f9ba113738f84328f7a
            == 0x5c059a6d1c91d8e5c06706a0686dff6b,
        squared(0x5c059a6d1c91d8e5c06706a0686dff6b) ^ 0x5c059a6d1c91d8e5c06706a0686dff6b
            == 0xd2b586ae7853d9d27ab6555f2bd34be1,
        squared(0xd2b586ae7853d9d27ab6555f2bd34be1) ^ 0xd2b586ae7853d9d27ab6555f2bd34be1
            == 0xf2ce906ca30d3f21b43bf1e82df83ea3,
        squared(0xf2ce906ca30d3f21b43bf1e82df83ea3) ^ 0xf2ce906ca30d3f21b43bf1e82df83ea3
            == 0x9eeb0ea4b1062ef26ef18d9d98857370,
        squared(0x9eeb0ea4b1062ef26ef18d9d98857370) ^ 0x9eeb0ea4b1062ef26ef18d9d98857370
            == 0xe638d4fedad8bbf07436c7e2ba075f0b,
        squared(0xe638d4fedad8bbf07436c7e2ba075f0b) ^ 0xe638d4fedad8bbf07436c7e2ba075f0b
            == 0x55466b03b596ef712587d114d322611f,
        squared(0x55466b03b596ef712587d114d322611f) ^ 0x55466b03b596ef712587d114d322611f
            == 0xaea85170abccecd92754985740028ff5,
        squared(0xaea85170abccecd92754985740028ff5) ^ 0xaea85170abccecd92754985740028ff5
            == 0x5d32bda81d0116efc82601c885ceddca,
        squared(0x5d32bda81d0116efc82601c885ceddca) ^ 0x5d32bda81d0116efc82601c885ceddca
            == 0xd34720836f14bb6f2600511b59d80e9d,
        squared(0xd34720836f14bb6f2600511b59d80e9d) ^ 0xd34720836f14bb6f2600511b59d80e9d
            == 0xe2c05a6a623478bb706a8f0821dd1cb8,
        squared(0xe2c05a6a623478bb706a8f0821dd1cb8) ^ 0xe2c05a6a623478bb706a8f0821dd1cb8
            == 0x59f5fe26f6b7372d1a754d23ea6e34f2,
        squared(0x59f5fe26f6b7372d1a754d23ea6e34f2) ^ 0x59f5fe26f6b7372d1a754d23ea6e34f2
            == 0x8eddc8ebe648256f6f7e089e7e9750f9,
        squared(0x8eddc8ebe648256f6f7e089e7e9750f9) ^ 0x8eddc8ebe648256f6f7e089e7e9750f9
            == 0x710dc3a177e3eb4bdc4e18497b6a52f4,
        squared(0x710dc3a177e3eb4bdc4e18497b6a52f4) ^ 0x710dc3a177e3eb4bdc4e18497b6a52f4
            == 0xcbdafaebc41b278728cba2bde53d5189,
        squared(0xcbdafaebc41b278728cba2bde53d5189) ^ 0xcbdafaebc41b278728cba2bde53d5189
            == 0x5ce8be5988e8eda4c4aa03b5e2f6cf7c,
        squared(0x5ce8be5988e8eda4c4aa03b5e2f6cf7c) ^ 0x5ce8be5988e8eda4c4aa03b5e2f6cf7c
            == 0xd26377fef8497ed37145db4a37b70a64,
        squared(0xd26377fef8497ed37145db4a37b70a64) ^ 0xd26377fef8497ed37145db4a37b70a64
            == 0xf274097e48cc6e107e98cf12f7763fb0,
        squared(0xf274097e48cc6e107e98cf12f7763fb0) ^ 0xf274097e48cc6e107e98cf12f7763fb0
            == 0xce36ab4e39d4afb07a6443bcb58fe8e1,
        squared(0xce36ab4e39d4afb07a6443bcb58fe8e1) ^ 0xce36ab4e39d4afb07a6443bcb58fe8e1
            == 0x40dc2e11d682b14e851b3cba16c7f3bf,
        squared(0x40dc2e11d682b14e851b3cba16c7f3bf) ^ 0x40dc2e11d682b14e851b3cba16c7f3bf
            == 0x70e431e6e47e73a4b942ae90184de97e,
        squared(0x70e431e6e47e73a4b942ae90184de97e) ^ 0x70e431e6e47e73a4b942ae90184de97e
            == 0xde8e85903b8694e31c787e67a5b42d6c,
        squared(0xde8e85903b8694e31c787e67a5b42d6c) ^ 0xde8e85903b8694e31c787e67a5b42d6c
            == 0xc3537b5de604c7f4e013f13aeebe83f8,
        squared(0xc3537b5de604c7f4e013f13aeebe83f8) ^ 0xc3537b5de604c7f4e013f13aeebe83f8
            == 0x25c08fc97b561cac122bbc37147be197,
        squared(0x25c08fc97b561cac122bbc37147be197) ^ 0x25c08fc97b561cac122bbc37147be197
            == 0x301a3badd50488f4db68541eeee9543c,
        squared(0x301a3badd50488f4db68541eeee9543c) ^ 0x301a3badd50488f4db68541eeee9543c
            == 0xfa5f8b337c6c7cbeb0cb080e1e127312,
        squared(0xfa5f8b337c6c7cbeb0cb080e1e127312) ^ 0xfa5f8b337c6c7cbeb0cb080e1e127312
            == 0xb78b077c9f75e57b73254cb0c98417eb,
        squared(0xb78b077c9f75e57b73254cb0c98417eb) ^ 0xb78b077c9f75e57b73254cb0c98417eb
            == 0xf344e03685c462ea4f45ef7c6c6c9a9c,
        squared(0xf344e03685c462ea4f45ef7c6c6c9a9c) ^ 0xf344e03685c462ea4f45ef7c6c6c9a9c
            == 0xca82887c7d93e6f793cb4356431f4141,
        squared(0xca82887c7d93e6f793cb4356431f4141) ^ 0xca82887c7d93e6f793cb4356431f4141
            == 0x187a1a048c5c355941d807b3f55964f4,
        squared(0x187a1a048c5c355941d807b3f55964f4) ^ 0x187a1a048c5c355941d807b3f55964f4
            == 0xaeb183982895780dfd71c84072b6e7a3,
        squared(0xaeb183982895780dfd71c84072b6e7a3) ^ 0xaeb183982895780dfd71c84072b6e7a3
            == 0x0c6fcd3fba6f0ecfd594c2a9ec639bf8,
        squared(0x0c6fcd3fba6f0ecfd594c2a9ec639bf8) ^ 0x0c6fcd3fba6f0ecfd594c2a9ec639bf8
            == 0x74c4cb2d735efa86f912918786a35593,
        squared(0x74c4cb2d735efa86f912918786a35593) ^ 0x74c4cb2d735efa86f912918786a35593
            == 0xc2dc7270a1068fae509509059f4fdbcc,
        squared(0xc2dc7270a1068fae509509059f4fdbcc) ^ 0xc2dc7270a1068fae509509059f4fdbcc
            == 0x61e92ddb4851649ccd47131d2502686f,
        squared(0x61e92ddb4851649ccd47131d2502686f) ^ 0x61e92ddb4851649ccd47131d2502686f
            == 0x5d14b08b7c4a719e989ee494551317bc,
        squared(0x5d14b08b7c4a719e989ee494551317bc) ^ 0x5d14b08b7c4a719e989ee494551317bc
            == 0xc2637e8c737bd3df4b37b647bfa03a78,
        squared(0xc2637e8c737bd3df4b37b647bfa03a78) ^ 0xc2637e8c737bd3df4b37b647bfa03a78
            == 0x60301508f6e22a70e7f33a358f56274c,
        squared(0x60301508f6e22a70e7f33a358f56274c) ^ 0x60301508f6e22a70e7f33a358f56274c
            == 0x5827db0d7c510e8a86e1853fb495d92a,
        squared(0x5827db0d7c510e8a86e1853fb495d92a) ^ 0x5827db0d7c510e8a86e1853fb495d92a
            == 0xcef199ce281b22e2014933a9ce593a8a,
        squared(0xcef199ce281b22e2014933a9ce593a8a) ^ 0xcef199ce281b22e2014933a9ce593a8a
            == 0x5577a2294b70fd0d6cdd86b1d52ac08d,
        squared(0x5577a2294b70fd0d6cdd86b1d52ac08d) ^ 0x5577a2294b70fd0d6cdd86b1d52ac08d
            == 0xbeda12b0d57a85436e9d69de871dadd3,
        squared(0xbeda12b0d57a85436e9d69de871dadd3) ^ 0xbeda12b0d57a85436e9d69de871dadd3
            == 0xda0b473d44048f3e1175a0720bb39f24,
        squared(0xda0b473d44048f3e1175a0720bb39f24) ^ 0xda0b473d44048f3e1175a0720bb39f24
            == 0xcfd6717f7aed28056940ed26a1cf3fc7,
        squared(0xcfd6717f7aed28056940ed26a1cf3fc7) ^ 0xcfd6717f7aed28056940ed26a1cf3fc7
            == 0x40955c19c531ec30e5b63846995a737a,
        squared(0x40955c19c531ec30e5b63846995a737a) ^ 0x40955c19c531ec30e5b63846995a737a
            == 0x64a556f21ec15a4a1c02b2ae09edf906,
        squared(0x64a556f21ec15a4a1c02b2ae09edf906) ^ 0x64a556f21ec15a4a1c02b2ae09edf906
            == 0x01a68209a6823702b0c656708878aff8,
        squared(0x01a68209a6823702b0c656708878aff8) ^ 0x01a68209a6823702b0c656708878aff8
            == 0x44020450758a036626cb812e5dc6f8a4,
        squared(0x44020450758a036626cb812e5dc6f8a4) ^ 0x44020450758a036626cb812e5dc6f8a4
            == 0x386656093df3f038d44c32e60a17dee0,
        squared(0x386656093df3f038d44c32e60a17dee0) ^ 0x386656093df3f038d44c32e60a17dee0
            == 0xd3bc203dc59b856966141a437041312e,
        squared(0xd3bc203dc59b856966141a437041312e) ^ 0xd3bc203dc59b856966141a437041312e
            == 0xf210539fd8dd2772cbc26e38bdbd6c62,
        squared(0xf210539fd8dd2772cbc26e38bdbd6c62) ^ 0xf210539fd8dd2772cbc26e38bdbd6c62
            == 0x8b49849339334e30987a355cbf0c842b,
        squared(0x8b49849339334e30987a355cbf0c842b) ^ 0x8b49849339334e30987a355cbf0c842b
            == 0x295ac0b1f4731af9676aac9fa4b20b09,
        squared(0x295ac0b1f4731af9676aac9fa4b20b09) ^ 0x295ac0b1f4731af9676aac9fa4b20b09
            == 0x00000000000000000000000000000001,
{
}

/// The element has trace one: `127` applications of `x -> x^2 + x` add up its conjugates.
pub proof fn lemma_trace_is_one()
    ensures
        artin_schreier(BinaryField128bGhash(0x02000000000000000000000000000000), 127) == BinaryField128bGhash(1),
{
    lemma_images();
    lemma_step(0, 0x02000000000000000000000000000000, 0x001c0000000000000000000000000000);
    lemma_step(1, 0x001c0000000000000000000000000000, 0x001caeb0000000000000000000000000);
    lemma_step(2, 0x001caeb0000000000000000000000000, 0x001c0023f78f5b000000000000000000);
    lemma_step(3, 0x001c0023f78f5b000000000000000000, 0x001cae93f78d45b021caeb23d45b0000);
    lemma_step(4, 0x001cae93f78d45b021caeb23d45b0000, 0x041d50445445040551101359ac8f5b00);
    lemma_step(5, 0x041d50445445040551101359ac8f5b00, 0x1d6cff7ba2486d3cea382bfbb5ba53f7);
    lemma_step(6, 0x1d6cff7ba2486d3cea382bfbb5ba53f7, 0xe715bfa0a62cf001713d3f75e18ab452);
    lemma_step(7, 0xe715bfa0a62cf001713d3f75e18ab452, 0x54ff3525d3713933f3524aaa8f9ab080);
    lemma_step(8, 0x54ff3525d3713933f3524aaa8f9ab080, 0xfea1240850c069a98696e06b70df6d23);
    lemma_step(9, 0xfea1240850c069a98696e06b70df6d23, 0xbe3ab99910b05c2464bf013429ea8130);
    lemma_step(10, 0xbe3ab99910b05c2464bf013429ea8130, 0xda8444336ad73f73e7dd0e78b7598129);
    lemma_step(11, 0xda8444336ad73f73e7dd0e78b7598129, 0x9a6cdd1a12f1b3a2ed3d22d0477978ac);
    lemma_step(12, 0x9a6cdd1a12f1b3a2ed3d22d0477978ac, 0xaaeb9dd208c2467e781f1c350b81f287);
    lemma_step(13, 0xaaeb9dd208c2467e781f1c350b81f287, 0x405c13fd678c767359b3ee2024e36357);
    lemma_step(14, 0x405c13fd678c767359b3ee2024e36357, 0x21158848b668704e3b69539fd1809fe1);
    lemma_step(15, 0x21158848b668704e3b69539fd1809fe1, 0x38d713df46a560f83b0e5e557bdd9142);
    lemma_step(16, 0x38d713df46a560f83b0e5e557bdd9142, 0x877b2e60d2436dca5404dbf956f78a88);
    lemma_step(17, 0x877b2e60d2436dca5404dbf956f78a88, 0x5c8ae629b4a054a27004fc7d53ad4973);
    lemma_step(18, 0x5c8ae629b4a054a27004fc7d53ad4973, 0x971b05ce479e7c9732526424bcbf8652);
    lemma_step(19, 0x971b05ce479e7c9732526424bcbf8652, 0xdff4b0915b50e3230dc84dd73e3acada);
    lemma_step(20, 0xdff4b0915b50e3230dc84dd73e3acada, 0xc3a5c3821020f5b9dccfbfb8c0e7915a);
    lemma_step(21, 0xc3a5c3821020f5b9dccfbfb8c0e7915a, 0x204d4709e7cf72e50bcdf786a232ee06);
    lemma_step(22, 0x204d4709e7cf72e50bcdf786a232ee06, 0x3c004e67c831139de90b69a31f514beb);
    lemma_step(23, 0x3c004e67c831139de90b69a31f514beb, 0xdaf14e2a87d6315a799ce3258aae7097);
    lemma_step(24, 0xdaf14e2a87d6315a799ce3258aae7097, 0xdb4724f5887d0ab6f31a9a1f0421f101);
    lemma_step(25, 0xdb4724f5887d0ab6f31a9a1f0421f101, 0x9a115f58dd62283512c05c2972dfb433);
    lemma_step(26, 0x9a115f58dd62283512c05c2972dfb433, 0xffc988d71011fa9d19f963620a0d32a6);
    lemma_step(27, 0xffc988d71011fa9d19f963620a0d32a6, 0xfe8a4cf0e5fdd3729ebde49f07f40dd4);
    lemma_step(28, 0xfe8a4cf0e5fdd3729ebde49f07f40dd4, 0xbf53ea75e876b90c3a74b3913234a089);
    lemma_step(29, 0xbf53ea75e876b90c3a74b3913234a089, 0xca340ad522a51bd1b2ba57ce0c73d811);
    lemma_step(30, 0xca340ad522a51bd1b2ba57ce0c73d811, 0x1ceedce110457470acd5963cf941fac8);
    lemma_step(31, 0x1ceedce110457470acd5963cf941fac8, 0xf6250a754fcadda77e9cfec04f7f4188);
    lemma_step(32, 0xf6250a754fcadda77e9cfec04f7f4188, 0xc21f5fd239486e5835cb7860416ac272);
    lemma_step(33, 0xc21f5fd239486e5835cb7860416ac272, 0x7512a3b4f00a4f469f853dee56ca15e9);
    lemma_step(34, 0x7512a3b4f00a4f469f853dee56ca15e9, 0xd7b0669a2be34849a5914e7e0cf83ef2);
    lemma_step(35, 0xd7b0669a2be34849a5914e7e0cf83ef2, 0xae697c915dfa39c39ab1b5ad58642eee);
    lemma_step(36, 0xae697c915dfa39c39ab1b5ad58642eee, 0x188b74ddda7a3a1d55eda963e65ed948);
    lemma_step(37, 0x188b74ddda7a3a1d55eda963e65ed948, 0xaf7bc3dd7d623006152f70e90fc3673f);
    lemma_step(38, 0xaf7bc3dd7d623006152f70e90fc3673f, 0x594b0ffadad07a7ad7474ef280d6796f);
    lemma_step(39, 0x594b0ffadad07a7ad7474ef280d6796f, 0xde114cb4e184278b83b228ec5d41a1de);
    lemma_step(40, 0xde114cb4e184278b83b228ec5d41a1de, 0x82b88e3fbc5720803e45f09f0f8a078e);
    lemma_step(41, 0x82b88e3fbc5720803e45f09f0f8a078e, 0x45d3e4cf02f9d1dd4ca84d3213be97bd);
    lemma_step(42, 0x45d3e4cf02f9d1dd4ca84d3213be97bd, 0x2d5d953fb6f14ff24f9a02086505c8e3);
    lemma_step(43, 0x2d5d953fb6f14ff24f9a02086505c8e3, 0x08370a6df900ffba0acc29966e45b4f4);
    lemma_step(44, 0x08370a6df900ffba0acc29966e45b4f4, 0x29b1cbd6de97fbb214df39ac2b5d9938);
    lemma_step(45, 0x29b1cbd6de97fbb214df39ac2b5d9938, 0x15c5c12d48a482a70c17653d6264c46a);
    lemma_step(46, 0x15c5c12d48a482a70c17653d6264c46a, 0x9a4b78e6ec30b2c949f0a57cf04b06c5);
    lemma_step(47, 0x9a4b78e6ec30b2c949f0a57cf04b06c5, 0xeede7eb762ca01de99422e1aa96ad7f4);
    lemma_step(48, 0xeede7eb762ca01de99422e1aa96ad7f4, 0x281a7215a611517bb336a982f8d18b19);
    lemma_step(49, 0x281a7215a611517bb336a982f8d18b19, 0x50dfd3d70b4c9eab301a7f0c4f19430d);
    lemma_step(50, 0x50dfd3d70b4c9eab301a7f0c4f19430d, 0xa2f6ce912baba310031c27dc3393b83f);
    lemma_step(51, 0xa2f6ce912baba310031c27dc3393b83f, 0x7cc4ee84b433b5c5396199a1a8482b03);
    lemma_step(52, 0x7cc4ee84b433b5c5396199a1a8482b03, 0xbb1c42de72ff39972e531059ffd396c7);
    lemma_step(53, 0xbb1c42de72ff39972e531059ffd396c7, 0xc713fd6301ca34709231417504a19a50);
    lemma_step(54, 0xc713fd6301ca34709231417504a19a50, 0x3cfc7dd213f64ffa928f96aad69f740f);
    lemma_step(55, 0x3cfc7dd213f64ffa928f96aad69f740f, 0xcf633f3d90fc3ea2462bf69b988f7d88);
    lemma_step(56, 0xcf633f3d90fc3ea2462bf69b988f7d88, 0x445655e175c1cdf14040b47c3d51f78b);
    lemma_step(57, 0x445655e175c1cdf14040b47c3d51f78b, 0x2c2eb885cf0d742ca6cf15d3f1589871);
    lemma_step(58, 0x2c2eb885cf0d742ca6cf15d3f1589871, 0x5d88df5fb4fdedf768e52dae536ab9ce);
    lemma_step(59, 0x5d88df5fb4fdedf768e52dae536ab9ce, 0x97de6aa7ac8f75ab2abb3bf69337cc49);
    lemma_step(60, 0x97de6aa7ac8f75ab2abb3bf69337cc49, 0xde583344e635f6779e2fd5c220b33334);
    lemma_step(61, 0xde583344e635f6779e2fd5c220b33334, 0x83a8e1d32eb7de283c41031b04d0c390);
    lemma_step(62, 0x83a8e1d32eb7de283c41031b04d0c390, 0x44400c39821ceaf40bde03d9487baf37);
    lemma_step(63, 0x44400c39821ceaf40bde03d9487baf37, 0x3c7d2d6dabab01d3d982b80783d98d6a);
    lemma_step(64, 0x3c7d2d6dabab01d3d982b80783d98d6a, 0xdf86af5cdbd644d266ff161dc326adbb);
    lemma_step(65, 0xdf86af5cdbd644d266ff161dc326adbb, 0xd79830462de19b1a22882f6dff2ec9bd);
    lemma_step(66, 0xd79830462de19b1a22882f6dff2ec9bd, 0xee5616c4b2bcf52542c1879fcb343c6f);
    lemma_step(67, 0xee5616c4b2bcf52542c1879fcb343c6f, 0x79f6bba97fec0c234bbbf014ed91299c);
    lemma_step(68, 0x79f6bba97fec0c234bbbf014ed91299c, 0xa3dfdfa35294f07edfea34a5c0627361);
    lemma_step(69, 0xa3dfdfa35294f07edfea34a5c0627361, 0x2c3897e54b8c6afc7ad76ffafe6db6a5);
    lemma_step(70, 0x2c3897e54b8c6afc7ad76ffafe6db6a5, 0x0cce7c1112199b477cf99211f48ef10a);
    lemma_step(71, 0x0cce7c1112199b477cf99211f48ef10a, 0x3007b2f691ad1dc1acf57423c5dc8ba5);
    lemma_step(72, 0x3007b2f691ad1dc1acf57423c5dc8ba5, 0xef57ed2fdd8a3889bb40d0442b877e3d);
    lemma_step(73, 0xef57ed2fdd8a3889bb40d0442b877e3d, 0x2d3100ef09bf1f9ba113738f84328f7a);
    lemma_step(74, 0x2d3100ef09bf1f9ba113738f84328f7a, 0x5c059a6d1c91d8e5c06706a0686dff6b);
    lemma_step(75, 0x5c059a6d1c91d8e5c06706a0686dff6b, 0xd2b586ae7853d9d27ab6555f2bd34be1);
    lemma_step(76, 0xd2b586ae7853d9d27ab6555f2bd34be1, 0xf2ce906ca30d3f21b43bf1e82df83ea3);
    lemma_step(77, 0xf2ce906ca30d3f21b43bf1e82df83ea3, 0x9eeb0ea4b1062ef26ef18d9d98857370);
    lemma_step(78, 0x9eeb0ea4b1062ef26ef18d9d98857370, 0xe638d4fedad8bbf07436c7e2ba075f0b);
    lemma_step(79, 0xe638d4fedad8bbf07436c7e2ba075f0b, 0x55466b03b596ef712587d114d322611f);
    lemma_step(80, 0x55466b03b596ef712587d114d322611f, 0xaea85170abccecd92754985740028ff5);
    lemma_step(81, 0xaea85170abccecd92754985740028ff5, 0x5d32bda81d0116efc82601c885ceddca);
    lemma_step(82, 0x5d32bda81d0116efc82601c885ceddca, 0xd34720836f14bb6f2600511b59d80e9d);
    lemma_step(83, 0xd34720836f14bb6f2600511b59d80e9d, 0xe2c05a6a623478bb706a8f0821dd1cb8);
    lemma_step(84, 0xe2c05a6a623478bb706a8f0821dd1cb8, 0x59f5fe26f6b7372d1a754d23ea6e34f2);
    lemma_step(85, 0x59f5fe26f6b7372d1a754d23ea6e34f2, 0x8eddc8ebe648256f6f7e089e7e9750f9);
    lemma_step(86, 0x8eddc8ebe648256f6f7e089e7e9750f9, 0x710dc3a177e3eb4bdc4e18497b6a52f4);
    lemma_step(87, 0x710dc3a177e3eb4bdc4e18497b6a52f4, 0xcbdafaebc41b278728cba2bde53d5189);
    lemma_step(88, 0xcbdafaebc41b278728cba2bde53d5189, 0x5ce8be5988e8eda4c4aa03b5e2f6cf7c);
    lemma_step(89, 0x5ce8be5988e8eda4c4aa03b5e2f6cf7c, 0xd26377fef8497ed37145db4a37b70a64);
    lemma_step(90, 0xd26377fef8497ed37145db4a37b70a64, 0xf274097e48cc6e107e98cf12f7763fb0);
    lemma_step(91, 0xf274097e48cc6e107e98cf12f7763fb0, 0xce36ab4e39d4afb07a6443bcb58fe8e1);
    lemma_step(92, 0xce36ab4e39d4afb07a6443bcb58fe8e1, 0x40dc2e11d682b14e851b3cba16c7f3bf);
    lemma_step(93, 0x40dc2e11d682b14e851b3cba16c7f3bf, 0x70e431e6e47e73a4b942ae90184de97e);
    lemma_step(94, 0x70e431e6e47e73a4b942ae90184de97e, 0xde8e85903b8694e31c787e67a5b42d6c);
    lemma_step(95, 0xde8e85903b8694e31c787e67a5b42d6c, 0xc3537b5de604c7f4e013f13aeebe83f8);
    lemma_step(96, 0xc3537b5de604c7f4e013f13aeebe83f8, 0x25c08fc97b561cac122bbc37147be197);
    lemma_step(97, 0x25c08fc97b561cac122bbc37147be197, 0x301a3badd50488f4db68541eeee9543c);
    lemma_step(98, 0x301a3badd50488f4db68541eeee9543c, 0xfa5f8b337c6c7cbeb0cb080e1e127312);
    lemma_step(99, 0xfa5f8b337c6c7cbeb0cb080e1e127312, 0xb78b077c9f75e57b73254cb0c98417eb);
    lemma_step(100, 0xb78b077c9f75e57b73254cb0c98417eb, 0xf344e03685c462ea4f45ef7c6c6c9a9c);
    lemma_step(101, 0xf344e03685c462ea4f45ef7c6c6c9a9c, 0xca82887c7d93e6f793cb4356431f4141);
    lemma_step(102, 0xca82887c7d93e6f793cb4356431f4141, 0x187a1a048c5c355941d807b3f55964f4);
    lemma_step(103, 0x187a1a048c5c355941d807b3f55964f4, 0xaeb183982895780dfd71c84072b6e7a3);
    lemma_step(104, 0xaeb183982895780dfd71c84072b6e7a3, 0x0c6fcd3fba6f0ecfd594c2a9ec639bf8);
    lemma_step(105, 0x0c6fcd3fba6f0ecfd594c2a9ec639bf8, 0x74c4cb2d735efa86f912918786a35593);
    lemma_step(106, 0x74c4cb2d735efa86f912918786a35593, 0xc2dc7270a1068fae509509059f4fdbcc);
    lemma_step(107, 0xc2dc7270a1068fae509509059f4fdbcc, 0x61e92ddb4851649ccd47131d2502686f);
    lemma_step(108, 0x61e92ddb4851649ccd47131d2502686f, 0x5d14b08b7c4a719e989ee494551317bc);
    lemma_step(109, 0x5d14b08b7c4a719e989ee494551317bc, 0xc2637e8c737bd3df4b37b647bfa03a78);
    lemma_step(110, 0xc2637e8c737bd3df4b37b647bfa03a78, 0x60301508f6e22a70e7f33a358f56274c);
    lemma_step(111, 0x60301508f6e22a70e7f33a358f56274c, 0x5827db0d7c510e8a86e1853fb495d92a);
    lemma_step(112, 0x5827db0d7c510e8a86e1853fb495d92a, 0xcef199ce281b22e2014933a9ce593a8a);
    lemma_step(113, 0xcef199ce281b22e2014933a9ce593a8a, 0x5577a2294b70fd0d6cdd86b1d52ac08d);
    lemma_step(114, 0x5577a2294b70fd0d6cdd86b1d52ac08d, 0xbeda12b0d57a85436e9d69de871dadd3);
    lemma_step(115, 0xbeda12b0d57a85436e9d69de871dadd3, 0xda0b473d44048f3e1175a0720bb39f24);
    lemma_step(116, 0xda0b473d44048f3e1175a0720bb39f24, 0xcfd6717f7aed28056940ed26a1cf3fc7);
    lemma_step(117, 0xcfd6717f7aed28056940ed26a1cf3fc7, 0x40955c19c531ec30e5b63846995a737a);
    lemma_step(118, 0x40955c19c531ec30e5b63846995a737a, 0x64a556f21ec15a4a1c02b2ae09edf906);
    lemma_step(119, 0x64a556f21ec15a4a1c02b2ae09edf906, 0x01a68209a6823702b0c656708878aff8);
    lemma_step(120, 0x01a68209a6823702b0c656708878aff8, 0x44020450758a036626cb812e5dc6f8a4);
    lemma_step(121, 0x44020450758a036626cb812e5dc6f8a4, 0x386656093df3f038d44c32e60a17dee0);
    lemma_step(122, 0x386656093df3f038d44c32e60a17dee0, 0xd3bc203dc59b856966141a437041312e);
    lemma_step(123, 0xd3bc203dc59b856966141a437041312e, 0xf210539fd8dd2772cbc26e38bdbd6c62);
    lemma_step(124, 0xf210539fd8dd2772cbc26e38bdbd6c62, 0x8b49849339334e30987a355cbf0c842b);
    lemma_step(125, 0x8b49849339334e30987a355cbf0c842b, 0x295ac0b1f4731af9676aac9fa4b20b09);
    lemma_step(126, 0x295ac0b1f4731af9676aac9fa4b20b09, 0x00000000000000000000000000000001);
}

} // verus!
