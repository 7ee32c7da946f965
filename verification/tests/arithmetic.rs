use binius64::field::frobenius::invert;
use binius64::field::ghash::BinaryField128bGhash;
use binius64::ghash::aarch64::{self, Poly64x2};
use binius64::ghash::soft64;
use binius64::ghash::{INV_X, ONE, X};
use binius64::ghash_sq;
use binius64::hash::blake3_neon::{compress_block, handles_lanes};
use binius64::rijndael::vmull;
use rand::rngs::StdRng;
use rand::{Rng, SeedableRng};

fn random(rng: &mut StdRng) -> u128 {
    (rng.next_u64() as u128) << 64 | rng.next_u64() as u128
}

/// Multiplication bit by bit, reducing by the field's polynomial.
fn reference_mul(x: u128, y: u128) -> u128 {
    let mut acc = 0;
    let mut shifted = x;
    for i in 0..128 {
        if (y >> i) & 1 == 1 {
            acc ^= shifted;
        }
        let carry = shifted >> 127;
        shifted <<= 1;
        if carry == 1 {
            shifted ^= 0x87;
        }
    }
    acc
}

#[test]
fn products_have_their_exact_values() {
    assert_eq!(soft64::mul(X, 1 << 127), 0x87);
    assert_eq!(soft64::mul(0x1234, ONE), 0x1234);
    assert_eq!(soft64::mul(3, 3), 5);
    assert_eq!(soft64::square(1 << 64), 0x87);
    assert_eq!(soft64::mul(X, INV_X), ONE);
}

#[test]
fn every_multiplication_agrees_with_the_bitwise_one() {
    let mut rng = StdRng::seed_from_u64(0);
    for _ in 0..200 {
        let (x, y) = (random(&mut rng), random(&mut rng));
        let want = reference_mul(x, y);
        assert_eq!(soft64::mul(x, y), want);
        assert_eq!(soft64::reduce(soft64::mul_wide(x, y)), want);
        let (p, q) = (Poly64x2::new(x), Poly64x2::new(y));
        assert_eq!(aarch64::mul_schoolbook(p, q).to_u128(), want);
        assert_eq!(aarch64::mul_karatsuba(p, q).to_u128(), want);
        assert_eq!(soft64::square(x), reference_mul(x, x));
        assert_eq!(aarch64::square(p).to_u128(), reference_mul(x, x));
    }
}

#[test]
fn multiplying_by_the_generator_and_back_changes_nothing() {
    let mut rng = StdRng::seed_from_u64(1);
    for _ in 0..50 {
        let x = random(&mut rng);
        assert_eq!(soft64::mul_inv_x(soft64::mul_x(x)), x);
        assert_eq!(soft64::mul_x(x), reference_mul(x, X));
        assert_eq!(aarch64::mul_x(Poly64x2::new(x)).to_u128(), soft64::mul_x(x));
        // Multiplying before or after the reduction gives one value.
        let wide = soft64::mul_wide(x, X);
        assert_eq!(
            soft64::reduce(soft64::mul_x_wide(wide)),
            soft64::mul_x(soft64::reduce(wide))
        );
    }
}

#[test]
fn reduction_is_additive_on_wide_products() {
    let mut rng = StdRng::seed_from_u64(2);
    let (a, b, c) = (random(&mut rng), random(&mut rng), random(&mut rng));
    let (left, right) = (soft64::mul_wide(a, b), soft64::mul_wide(a, c));
    let mut sum = [0u64; 4];
    for (s, (l, r)) in sum.iter_mut().zip(left.iter().zip(&right)) {
        *s = l ^ r;
    }
    assert_eq!(soft64::reduce(sum), soft64::mul(a, b ^ c));
}

#[test]
fn lanes_are_swapped_and_added() {
    let x = Poly64x2::new(0x0000_0000_0000_0001_0000_0000_0000_0002);
    assert_eq!(x.swap().to_u128(), 0x0000_0000_0000_0002_0000_0000_0000_0001);
    assert_eq!(x.xor(x).to_u128(), 0);
}

/// Multiplication in the quadratic extension, through the base field.
fn reference_sq(x: [u128; 2], y: [u128; 2]) -> [u128; 2] {
    ghash_sq::soft64::mul_sliced(x, y)
}

#[test]
fn the_extension_is_a_field_of_two_components() {
    let mut rng = StdRng::seed_from_u64(3);
    for _ in 0..50 {
        let x = [random(&mut rng), random(&mut rng)];
        let y = [random(&mut rng), random(&mut rng)];
        let z = [random(&mut rng), random(&mut rng)];
        let xy = reference_sq(x, y);
        assert_eq!(xy, reference_sq(y, x));
        assert_eq!(reference_sq(xy, z), reference_sq(x, reference_sq(y, z)));
        assert_eq!(reference_sq(x, [1, 0]), x);
        assert_eq!(
            reference_sq(x, [y[0] ^ z[0], y[1] ^ z[1]]),
            {
                let (a, b) = (reference_sq(x, y), reference_sq(x, z));
                [a[0] ^ b[0], a[1] ^ b[1]]
            }
        );
        // The base field multiplies componentwise.
        assert_eq!(
            reference_sq(x, [y[0], 0]),
            [soft64::mul(x[0], y[0]), soft64::mul(x[1], y[0])]
        );
        assert_eq!(ghash_sq::soft64::square_sliced(x), reference_sq(x, x));
        assert_eq!(
            ghash_sq::soft64::reduce_sliced(ghash_sq::soft64::mul_wide_sliced(x, y)),
            xy
        );
        let lanes = |v: [u128; 2]| [Poly64x2::new(v[0]), Poly64x2::new(v[1])];
        let got = ghash_sq::aarch64::mul_sliced(lanes(x), lanes(y));
        assert_eq!([got[0].to_u128(), got[1].to_u128()], xy);
        let got = ghash_sq::aarch64::square_sliced(lanes(x));
        assert_eq!(
            [got[0].to_u128(), got[1].to_u128()],
            reference_sq(x, x)
        );
        let wide = ghash_sq::aarch64::mul_wide_sliced(lanes(x), lanes(y));
        let got = ghash_sq::aarch64::reduce_sliced(wide);
        assert_eq!([got[0].to_u128(), got[1].to_u128()], xy);
    }
}

#[test]
fn bytes_multiply_in_the_rijndael_field() {
    assert_eq!(vmull::mul_byte(0x57, 0x83), 0xc1);
    assert_eq!(vmull::mul_byte(0x53, 0xca), 0x01);
    let a: [u8; 16] = [
        0, 1, 2, 0x57, 0x53, 0x80, 0xff, 0x10, 3, 5, 7, 9, 11, 13, 17, 19,
    ];
    let b: [u8; 16] = [
        7, 7, 0x80, 0x83, 0xca, 2, 0xff, 0x10, 3, 5, 7, 9, 11, 13, 17, 19,
    ];
    let c = vmull::mul(a, b);
    assert_eq!(c[..8], [0, 7, 0x1b, 0xc1, 1, 0x1b, 0x13, 0x1b]);
    for i in 0..16 {
        assert_eq!(c[i], vmull::mul_byte(a[i], b[i]));
    }
}

#[test]
fn a_power_inverts_an_element() {
    let mut rng = StdRng::seed_from_u64(4);
    let a = BinaryField128bGhash(random(&mut rng));
    let inverse = invert(a, 127);
    assert_eq!(soft64::mul(a.0, inverse.0), ONE);
}

#[test]
fn a_block_compresses_to_the_known_hash() {
    // The hash of the empty message: one empty block that starts, ends and roots the tree.
    let iv = [
        0x6a09e667u32,
        0xbb67ae85,
        0x3c6ef372,
        0xa54ff53a,
        0x510e527f,
        0x9b05688c,
        0x1f83d9ab,
        0x5be0cd19,
    ];
    let want = [
        0xaf, 0x13, 0x49, 0xb9, 0xf5, 0xf9, 0xa1, 0xa6, 0xa0, 0x40, 0x4d, 0xea, 0x36, 0xdc, 0xc9,
        0x49, 0x9b, 0xcb, 0x25, 0xc9, 0xad, 0xc1, 0x12, 0xb7, 0xcc, 0x9a, 0x93, 0xca, 0xe4, 0x1f,
        0x32, 0x62,
    ];
    assert!(handles_lanes(4));
    let mut cv = [[0u32; 4]; 8];
    for (word, init) in cv.iter_mut().zip(iv) {
        *word = [init; 4];
    }
    let mut block = [[0u32; 4]; 16];
    // A lane of its own: another message in lane 2.
    block[0][2] = 1;
    compress_block::<4>(&mut cv, &block, 0, 0, 11);
    for lane in [0usize, 1, 3] {
        let bytes: Vec<u8> = cv.iter().flat_map(|w| w[lane].to_le_bytes()).collect();
        assert_eq!(bytes, want, "lane {lane}");
    }
    let other: Vec<u8> = cv.iter().flat_map(|w| w[2].to_le_bytes()).collect();
    assert_ne!(other, want);
}

#[test]
fn lane_counts_are_whole_registers() {
    assert!(!handles_lanes(0));
    assert!(!handles_lanes(3));
    assert!(handles_lanes(8));
    assert!(handles_lanes(16));
    assert!(!handles_lanes(20));
    let mut cv = [[7u32; 16]; 8];
    let mut single = [[7u32; 4]; 8];
    let block = [[9u32; 16]; 16];
    let small = [[9u32; 4]; 16];
    compress_block::<16>(&mut cv, &block, 3, 64, 1);
    compress_block::<4>(&mut single, &small, 3, 64, 1);
    for (wide, narrow) in cv.iter().zip(&single) {
        assert!(wide.iter().all(|w| *w == narrow[0]));
    }
}
