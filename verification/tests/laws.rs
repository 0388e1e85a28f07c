use mastering_dsp::biquad::{Biquad, FilterKind, History, Transfer};
use mastering_dsp::elementary::Elementary;
use mastering_dsp::single::Single;
use mastering_dsp::{Engine, BLOCK_SIZE};

fn s(x: f32) -> Single {
    Single::from_bits(x.to_bits())
}

fn f(x: Single) -> f32 {
    f32::from_bits(x.to_bits())
}

struct Desk;

impl Elementary for Desk {
    fn sin(&self, x: Single) -> Single {
        s(f(x).sin())
    }
    fn cos(&self, x: Single) -> Single {
        s(f(x).cos())
    }
    fn exp(&self, x: Single) -> Single {
        s(f(x).exp())
    }
    fn powf(&self, base: Single, x: Single) -> Single {
        s(f(base).powf(f(x)))
    }
}

fn desk() -> Engine {
    Engine::new(&Desk, s(48000.0))
}

fn left(i: usize) -> Single {
    s((i as f32 * 0.37).sin() * 0.7)
}

fn right(i: usize) -> Single {
    s((i as f32 * 0.11).cos() * 0.4)
}

/// The taps in double precision.
fn taps(kind: FilterKind, cos_w: f32, sin_w: f32, q: f32, a: f32) -> [f64; 6] {
    let t = Transfer::design(kind, s(cos_w), s(sin_w), s(q), s(a));
    [t.b0, t.b1, t.b2, t.a0, t.a1, t.a2].map(|x| f(x) as f64)
}

fn close(x: f64, y: f64) -> bool {
    (x - y).abs() < 1e-5 * (1.0 + y.abs())
}

const W: f32 = 0.3;

#[test]
fn exchanged_channels_come_out_exchanged() {
    let mut a = desk();
    let mut b = desk();
    for e in [&mut a, &mut b] {
        e.set_param(&Desk, 0, s(4.0));
        e.set_param(&Desk, 3, s(1.6));
        e.set_param(&Desk, 5, s(1.0));
    }
    for block in 0..3 {
        for i in 0..BLOCK_SIZE {
            let t = block * BLOCK_SIZE + i;
            a.in_l[i] = left(t);
            a.in_r[i] = right(t);
            b.in_l[i] = right(t);
            b.in_r[i] = left(t);
        }
        a.process_block(BLOCK_SIZE);
        b.process_block(BLOCK_SIZE);
        for i in 0..BLOCK_SIZE {
            assert_eq!(f(a.out_l[i]), f(b.out_r[i]));
            assert_eq!(f(a.out_r[i]), f(b.out_l[i]));
        }
    }
}

fn twice(h: History) -> History {
    History { x1: h.x1 + h.x1, x2: h.x2 + h.x2, y1: h.y1 + h.y1, y2: h.y2 + h.y2 }
}

#[test]
fn doubled_signals_come_out_doubled() {
    let mut a = desk().chain.low_eq;
    let mut b = a;
    for i in 0..200 {
        let (l, r) = (left(i), right(i));
        let (yl, yr) = a.tick(l, r);
        let (zl, zr) = b.tick(l + l, r + r);
        assert_eq!(f(zl), 2.0 * f(yl));
        assert_eq!(f(zr), 2.0 * f(yr));
        assert_eq!(format!("{:?}", b.left), format!("{:?}", twice(a.left)));
    }
    let mut silent = Biquad::default();
    silent.coefficients = a.coefficients;
    let (l, r) = silent.tick(s(0.0), s(0.0));
    assert_eq!((f(l), f(r)), (0.0, 0.0));
    assert_eq!(f(silent.left.y1), 0.0);
}

#[test]
fn neutral_writes_change_nothing_in_a_new_engine() {
    let fresh = format!("{:?}", desk().chain);
    for id in 0..9 {
        let mut e = desk();
        e.set_param(&Desk, id, s(if id == 3 { 1.0 } else { 0.0 }));
        assert_eq!(fresh, format!("{:?}", e.chain), "parameter {id}");
    }
}

#[test]
fn equal_settings_make_equal_sections() {
    for kind in [FilterKind::LowShelf, FilterKind::HighShelf] {
        let (mut b, mut c) = (Biquad::default(), Biquad::default());
        b.set(&Desk, kind, s(500.0), s(0.3), s(5.0), s(44100.0));
        c.set(&Desk, kind, s(500.0), s(4.0), s(5.0), s(44100.0));
        assert_eq!(format!("{b:?}"), format!("{c:?}"));
    }
    for kind in [FilterKind::LowPass, FilterKind::HighPass, FilterKind::AllPass] {
        let (mut b, mut c) = (Biquad::default(), Biquad::default());
        b.set(&Desk, kind, s(500.0), s(0.7), s(-9.0), s(44100.0));
        c.set(&Desk, kind, s(500.0), s(0.7), s(12.0), s(44100.0));
        assert_eq!(format!("{b:?}"), format!("{c:?}"));
    }
}

#[test]
fn new_equalizers_are_nearly_neutral() {
    for fs in [22050.0, 44100.0, 48000.0, 96000.0, 192000.0] {
        let e = Engine::new(&Desk, s(fs));
        for b in [e.chain.low_eq, e.chain.mid_eq, e.chain.high_eq] {
            let c = b.coefficients;
            assert!((f(c.b0) - 1.0).abs() <= 1.0 / 4194304.0);
            assert_eq!(f(c.b1), f(c.a1));
            assert_eq!(c.b2.to_bits(), c.a2.to_bits());
        }
        let c = e.chain.low.third.coefficients;
        assert!((f(c.b2) - 1.0).abs() <= 1.0 / 4194304.0);
        assert_eq!(c.b0.to_bits(), c.a2.to_bits());
        for (b, sign) in [
            (e.chain.low.first, 2.0),
            (e.chain.mid.first, -2.0),
            (e.chain.mid.third, 2.0),
            (e.chain.high.first, -2.0),
            (e.chain.high.third, -2.0),
        ] {
            let c = b.coefficients;
            assert_eq!(f(c.b1), sign * f(c.b0));
            assert_eq!(c.b0.to_bits(), c.b2.to_bits());
        }
    }
}

#[test]
fn nearly_neutral_sections_follow_their_input() {
    let mut b = desk().chain.mid_eq;
    let c = b.coefficients;
    let (a1, a2) = (f(c.a1) as f64, f(c.a2) as f64);
    for i in 0..500 {
        let h = b.left;
        let x = f(left(i)) as f64;
        let (y, _) = b.tick(left(i), right(i));
        let (x1, x2, y1, y2) =
            (f(h.x1) as f64, f(h.x2) as f64, f(h.y1) as f64, f(h.y2) as f64);
        let carried = (a1 * (y1 - x1)).abs() + (a2 * (y2 - x2)).abs();
        let effort = (f(c.b0) as f64 * x).abs()
            + (f(c.b1) as f64 * x1).abs()
            + (f(c.b2) as f64 * x2).abs()
            + (a1 * y1).abs()
            + (a2 * y2).abs();
        assert!((f(y) as f64 - x).abs() <= carried + effort / 1048576.0);
    }
}

#[test]
fn sides_of_a_crossover_point_sum_to_an_all_pass() {
    let q = std::f32::consts::FRAC_1_SQRT_2;
    let low = taps(FilterKind::LowPass, W.cos(), W.sin(), q, 1.0);
    let high = taps(FilterKind::HighPass, W.cos(), W.sin(), q, 1.0);
    let all = taps(FilterKind::AllPass, W.cos(), W.sin(), q, 1.0);
    let product = |x: &[f64], y: &[f64]| {
        let mut out = [0.0; 5];
        for i in 0..3 {
            for j in 0..3 {
                out[i + j] += x[i] * y[j];
            }
        }
        out
    };
    let l = product(&low[0..3], &low[0..3]);
    let h = product(&high[0..3], &high[0..3]);
    let a = product(&all[0..3], &all[3..6]);
    for i in 0..5 {
        assert!(close(l[i] + h[i], a[i]));
    }
}

#[test]
fn boost_and_cut_undo_each_other() {
    for kind in [FilterKind::LowShelf, FilterKind::Peaking, FilterKind::HighShelf] {
        let p = taps(kind, W.cos(), W.sin(), 0.9, 1.5);
        let m = taps(kind, W.cos(), W.sin(), 0.9, 1.0 / 1.5);
        for i in 0..3 {
            assert!(close(m[i] / m[3], p[3 + i] / p[0]));
            assert!(close(m[3 + i] / m[3], p[i] / p[0]));
        }
    }
}

#[test]
fn filters_have_their_gains() {
    let a = 1.5f32;
    let gain = (a * a) as f64;
    let at_constant = |t: [f64; 6]| (t[0] + t[1] + t[2]) / (t[3] + t[4] + t[5]);
    let at_half_rate = |t: [f64; 6]| (t[0] - t[1] + t[2]) / (t[3] - t[4] + t[5]);
    let t = |kind| taps(kind, 0.5, 0.75f32.sqrt(), 0.9, a);
    for (kind, low, high) in [
        (FilterKind::LowPass, 1.0, 0.0),
        (FilterKind::HighPass, 0.0, 1.0),
        (FilterKind::AllPass, 1.0, 1.0),
        (FilterKind::Peaking, 1.0, 1.0),
        (FilterKind::LowShelf, gain, 1.0),
        (FilterKind::HighShelf, 1.0, gain),
    ] {
        assert!(close(at_constant(t(kind)), low));
        assert!(close(at_half_rate(t(kind)), high));
    }
    let p = t(FilterKind::Peaking);
    let c = 0.5;
    assert!(close((p[0] + p[2]) * c + p[1], 0.0));
    assert!(close((p[3] + p[5]) * c + p[4], 0.0));
    assert!(close((p[0] - p[2]) / (p[3] - p[5]), gain));
}

#[test]
fn sections_are_stable() {
    for fs in [44100.0, 48000.0, 96000.0, 192000.0] {
        for g in [-24.0, -6.0, 0.0, 6.0, 24.0] {
            let mut e = Engine::new(&Desk, s(fs));
            for id in 0..3 {
                e.set_param(&Desk, id, s(g));
            }
            let c = e.chain;
            for b in [
                c.low_eq, c.mid_eq, c.high_eq, c.low.first, c.low.third, c.mid.first, c.mid.third,
                c.high.first, c.high.third,
            ] {
                let (a1, a2) = (f(b.coefficients.a1), f(b.coefficients.a2));
                assert!(a2.abs() < 1.0 && a1.abs() < 1.0 + a2);
            }
        }
    }
}

#[test]
fn sections_are_stable_at_the_edge_of_the_range() {
    // The shapes at the smallest sine and the largest cosine in range.
    let cos_w = f32::from_bits(1.0f32.to_bits() - (1 << 7));
    let sin_w = 1.0 / 256.0;
    assert_eq!(1.0 - cos_w, 1.0 / 131072.0);
    for kind in [
        FilterKind::LowShelf,
        FilterKind::Peaking,
        FilterKind::HighShelf,
        FilterKind::LowPass,
        FilterKind::HighPass,
        FilterKind::AllPass,
    ] {
        for c in [cos_w, -cos_w] {
            for q in [0.0625, 0.1, 0.7, 10.0, 16.0] {
                for a in [0.25, 1.0, 4.0] {
                    let t = Transfer::design(kind, s(c), s(sin_w), s(q), s(a)).normalize();
                    let (a1, a2) = (f(t.a1), f(t.a2));
                    assert!(a2.abs() < 1.0 && a1.abs() as f64 - (a2 as f64) < 1.0);
                }
            }
        }
    }
}

#[test]
fn host_answers_are_in_range() {
    for fs in [44100.0f32, 48000.0, 96000.0, 192000.0] {
        for f0 in [120.0f32, 200.0, 1200.0, 2000.0, 8000.0] {
            let w = 2.0 * std::f32::consts::PI * f0 / fs;
            let (c, n) = (f(Desk.cos(s(w))), f(Desk.sin(s(w))));
            assert!(1.0 - c.abs() >= 1.0 / 131072.0);
            assert!((1.0 / 256.0..=1.0).contains(&n));
        }
    }
    for g in [-24.0f32, 0.0, 24.0] {
        assert!((0.25..=4.0).contains(&f(Desk.powf(s(10.0), s(g / 40.0)))));
    }
}

#[test]
fn equalizer_taps_are_close_to_exact() {
    let (sin_w, cos_w) = std::hint::black_box(0.157f32).sin_cos();
    for gain in [-24.0f32, -3.0, 0.0, 3.0, 24.0] {
        let a = f(Desk.powf(s(10.0), s(gain / 40.0)));
        let (c, n, m) = (cos_w as f64, sin_w as f64, a as f64);
        let (p, d, t) = (m + 1.0, m - 1.0, 2.0 * m.sqrt() * (n / 2.0 * 2.0f64.sqrt()));
        let alpha = n / (2.0 * 0.9f32 as f64);
        let low = [
            m * (p - d * c + t),
            2.0 * m * (d - p * c),
            m * (p - d * c - t),
            p + d * c + t,
            -2.0 * (d + p * c),
            p + d * c - t,
        ];
        let high = [
            m * (p + d * c + t),
            -2.0 * m * (d + p * c),
            m * (p + d * c - t),
            p - d * c + t,
            2.0 * (d - p * c),
            p - d * c - t,
        ];
        let peak = [
            1.0 + alpha * m,
            -2.0 * c,
            1.0 - alpha * m,
            1.0 + alpha / m,
            -2.0 * c,
            1.0 - alpha / m,
        ];
        for (kind, exact) in [
            (FilterKind::LowShelf, low),
            (FilterKind::HighShelf, high),
            (FilterKind::Peaking, peak),
        ] {
            let computed = taps(kind, cos_w, sin_w, 0.9, a);
            for i in 0..6 {
                assert!((computed[i] - exact[i]).abs() <= 1.0 / 32768.0);
            }
        }
    }
}

#[test]
fn silence_stays_silent() {
    let mut e = desk();
    for _ in 0..20 {
        e.process_block(BLOCK_SIZE);
        for i in 0..BLOCK_SIZE {
            assert_eq!(f(e.out_l[i]), 0.0);
            assert_eq!(f(e.out_r[i]), 0.0);
        }
    }
}

#[test]
fn output_gain_is_the_last_stage() {
    for g in [0.5f32, 3.7, -2.0, 0.0, -0.0] {
        let (mut a, mut b) = (desk(), desk());
        for e in [&mut a, &mut b] {
            e.set_param(&Desk, 1, s(-7.0));
            e.set_param(&Desk, 5, s(1.0));
        }
        b.chain.out_gain_lin.target = s(g);
        b.chain.out_gain_lin.current = s(g);
        for block in 0..3 {
            for e in [&mut a, &mut b] {
                for i in 0..BLOCK_SIZE {
                    e.in_l[i] = left(block * BLOCK_SIZE + i);
                    e.in_r[i] = right(block * BLOCK_SIZE + i);
                }
                e.process_block(BLOCK_SIZE);
            }
            for i in 0..BLOCK_SIZE {
                assert_eq!(f(b.out_l[i]), f(a.out_l[i]) * g);
                assert_eq!(f(b.out_r[i]), f(a.out_r[i]) * g);
            }
        }
        b.chain.out_gain_lin = a.chain.out_gain_lin;
        assert_eq!(format!("{:?}", a.chain), format!("{:?}", b.chain));
    }
}

#[test]
fn products_double_from_the_smallest_normal_number() {
    // Rounds down to the smallest normal number, from just above it.
    let (c, x) = (s(1.5 + f32::EPSILON), Single::from_bits(5592405));
    assert_eq!(f(c * x), f32::MIN_POSITIVE);
    assert_eq!(f(c * (x + x)), 2.0 * f(c * x));
    // From just below it, the doubled product is another one.
    let (c, x) = (s(1.0 - f32::EPSILON / 2.0), s(f32::MIN_POSITIVE));
    assert_eq!(f(c * x), f32::MIN_POSITIVE);
    assert!(f(c * (x + x)) < 2.0 * f(c * x));
}

#[test]
fn crossover_responses_sum_to_the_all_passes() {
    // Low squared times the upper all-pass, and high squared times both upper
    // sides squared, in double precision.
    type C = (f64, f64);
    let mul = |x: C, y: C| (x.0 * y.0 - x.1 * y.1, x.0 * y.1 + x.1 * y.0);
    let div = |x: C, y: C| {
        let n = y.0 * y.0 + y.1 * y.1;
        ((x.0 * y.0 + x.1 * y.1) / n, (x.1 * y.0 - x.0 * y.1) / n)
    };
    let section = |kind: usize, f0: f64, z: C| {
        let w = 2.0 * std::f64::consts::PI * f0 / 48000.0;
        let (c, al) = (w.cos(), w.sin() / 2f64.sqrt());
        let b = [
            [(1.0 - c) / 2.0, 1.0 - c, (1.0 - c) / 2.0],
            [(1.0 + c) / 2.0, -1.0 - c, (1.0 + c) / 2.0],
            [1.0 - al, -2.0 * c, 1.0 + al],
        ][kind];
        let a = [1.0 + al, -2.0 * c, 1.0 - al];
        let at = |k: [f64; 3]| {
            let z2 = mul(z, z);
            (k[0] + k[1] * z.0 + k[2] * z2.0, k[1] * z.1 + k[2] * z2.1)
        };
        div(at(b), at(a))
    };
    for i in 0..50 {
        let (im, re) = (std::f64::consts::PI * i as f64 / 50.0).sin_cos();
        let z = (re, -im);
        let [l1, h1, a1] = [0, 1, 2].map(|k| section(k, 200.0, z));
        let [l2, h2, a2] = [0, 1, 2].map(|k| section(k, 2000.0, z));
        let low = mul(mul(l1, l1), a2);
        let mid = mul(mul(h1, h1), mul(l2, l2));
        let high = mul(mul(h1, h1), mul(h2, h2));
        let total = (low.0 + mid.0 + high.0, low.1 + mid.1 + high.1);
        let both = mul(a1, a2);
        assert!((total.0 - both.0).abs() < 1e-9 && (total.1 - both.1).abs() < 1e-9);
        assert!((total.0 * total.0 + total.1 * total.1 - 1.0).abs() < 1e-9);
    }
}
