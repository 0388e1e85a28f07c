use mastering_dsp::single::{Single, NAN};

/// Patterns at the edges of every range, of both signs.
fn edges() -> Vec<u32> {
    let mut v: Vec<u32> = Vec::new();
    for m in [
        0x0000_0000u32, 0x0000_0001, 0x0000_0002, 0x0000_0003, 0x007f_fffe, 0x007f_ffff, 0x0080_0000,
        0x0080_0001, 0x00ff_ffff, 0x0100_0000, 0x0100_0001, 0x017f_ffff, 0x3eff_ffff, 0x3f00_0000,
        0x3f00_0001, 0x3f7f_ffff, 0x3f80_0000, 0x3f80_0001, 0x3fff_ffff, 0x4000_0000, 0x4049_0fdb,
        0x4b00_0000, 0x4b7f_ffff, 0x4b80_0000, 0x7e7f_ffff, 0x7f00_0000, 0x7f7f_fffe, 0x7f7f_ffff,
        0x7f80_0000, 0x7f80_0001, 0x7fc0_0000, 0x7fff_ffff,
    ] {
        v.push(m);
        v.push(m | 0x8000_0000);
    }
    v
}

/// Pseudo-random patterns, the same in every run.
fn scattered(n: usize, mask: u32, base: u32) -> Vec<u32> {
    let mut state: u64 = 0x9e37_79b9_7f4a_7c15;
    let mut v: Vec<u32> = Vec::new();
    for _ in 0..n {
        state ^= state << 13;
        state ^= state >> 7;
        state ^= state << 17;
        v.push(((state >> 16) as u32 & mask) | base);
    }
    v
}

fn same(got: Single, want: f32) -> bool {
    if want.is_nan() { got.to_bits() == NAN } else { got.to_bits() == want.to_bits() }
}

fn agree(a: u32, b: u32) {
    let (x, y) = (Single::from_bits(a), Single::from_bits(b));
    let (p, q) = (f32::from_bits(a), f32::from_bits(b));
    assert!(same(x + y, p + q), "{a:#x} + {b:#x}");
    assert!(same(x - y, p - q), "{a:#x} - {b:#x}");
    assert!(same(x * y, p * q), "{a:#x} * {b:#x}");
    assert!(same(x / y, p / q), "{a:#x} / {b:#x}");
    assert_eq!(x.ge(y), p >= q, "{a:#x} >= {b:#x}");
    assert!(same(x.sqrt(), p.sqrt()), "sqrt {a:#x}");
    assert_eq!(x.neg().to_bits(), (-p).to_bits());
}

#[test]
fn arithmetic_agrees_at_the_edges() {
    let v = edges();
    for &a in &v {
        for &b in &v {
            agree(a, b);
        }
    }
}

#[test]
fn arithmetic_agrees_on_scattered_patterns() {
    let v = scattered(400_000, 0xffff_ffff, 0);
    for w in v.chunks(2) {
        agree(w[0], w[1]);
    }
}

#[test]
fn arithmetic_agrees_near_one() {
    let v = scattered(400_000, 0x83ff_ffff, 0x3c00_0000);
    for w in v.chunks(2) {
        agree(w[0], w[1]);
    }
}

#[test]
fn arithmetic_agrees_on_subnormals() {
    let v = scattered(200_000, 0x81ff_ffff, 0);
    for w in v.chunks(2) {
        agree(w[0], w[1]);
        agree(w[0], (w[1] & 0x83ff_ffff) | 0x3c00_0000);
    }
}
