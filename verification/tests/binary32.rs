//! The arithmetic against the processor's own.

use softmax_rows::binary32::F32;

fn same(bits: u32, expected: f32) -> bool {
    if expected.is_nan() {
        F32::from_bits(bits).is_nan()
    } else {
        bits == expected.to_bits()
    }
}

fn check_pair(a: u32, b: u32) {
    let (x, y) = (f32::from_bits(a), f32::from_bits(b));
    let (p, q) = (F32::from_bits(a), F32::from_bits(b));
    assert!(same(p.add(q).to_bits(), x + y), "{a:#x} + {b:#x}");
    assert!(same(p.sub(q).to_bits(), x - y), "{a:#x} - {b:#x}");
    assert!(same(p.mul(q).to_bits(), x * y), "{a:#x} * {b:#x}");
    assert!(same(p.div(q).to_bits(), x / y), "{a:#x} / {b:#x}");
    assert_eq!(p.gt(q), x > y, "{a:#x} > {b:#x}");
    let larger = p.max(q);
    if x.is_nan() && y.is_nan() {
        assert!(larger.is_nan());
    } else {
        assert_eq!(f32::from_bits(larger.to_bits()), x.max(y), "max {a:#x} {b:#x}");
    }
}

const EDGES: [u32; 22] = [
    0, 1, 2, 3, 0x007f_fffe, 0x007f_ffff, 0x0080_0000, 0x0080_0001, 0x00ff_ffff, 0x3f7f_ffff,
    0x3f80_0000, 0x3f80_0001, 0x3fc0_0000, 0x4b7f_ffff, 0x4b80_0000, 0x7f00_0000, 0x7f7f_fffe,
    0x7f7f_ffff, 0x7f80_0000, 0x7f80_0001, 0x7fc0_0000, 0x7fff_ffff,
];

#[test]
fn arithmetic_at_the_edges() {
    for &a in EDGES.iter() {
        for &b in EDGES.iter() {
            for signs in 0u32..4 {
                check_pair(a | ((signs & 1) << 31), b | ((signs >> 1) << 31));
            }
        }
    }
}

#[test]
fn arithmetic_on_scattered_patterns() {
    let mut state: u64 = 0x9e37_79b9_7f4a_7c15;
    let mut previous: u32 = 0x3f80_0000;
    for round in 0..200_000u32 {
        state = state.wrapping_mul(6364136223846793005).wrapping_add(1442695040888963407);
        let a = (state >> 32) as u32;
        check_pair(a, previous);
        // Neighbours in exponent cancel and carry more often.
        let close = (a & 0x807f_ffff) | (previous.wrapping_add((round % 5) << 23) & 0x7f80_0000);
        check_pair(close, previous);
        previous = a;
    }
}
