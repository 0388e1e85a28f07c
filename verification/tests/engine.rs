use mastering_dsp::biquad::{Biquad, Coefficients, FilterKind, Transfer};
use mastering_dsp::chain::Change;
use mastering_dsp::elementary::Elementary;
use mastering_dsp::single::Single;
use mastering_dsp::smoother::Smoother;
use mastering_dsp::{constants, engine, Engine, BLOCK_SIZE};

fn s(x: f32) -> Single {
    Single::from_bits(x.to_bits())
}

fn f(x: Single) -> f32 {
    f32::from_bits(x.to_bits())
}

struct Host;

impl Elementary for Host {
    fn sin(&self, x: Single) -> Single {
        s(f(x).sin())
    }
    fn cos(&self, x: Single) -> Single {
        s(f(x).cos())
    }
    fn exp(&self, x: Single) -> Single {
        s(f(x).exp())
    }
    fn powf(&self, base: Single, x: Single) -> Single {
        s(f(base).powf(f(x)))
    }
}

/// A host whose answers are fixed, so that results do not depend on the
/// platform.
struct Fixed;

impl Elementary for Fixed {
    fn sin(&self, _x: Single) -> Single {
        s(0.25)
    }
    fn cos(&self, _x: Single) -> Single {
        s(0.5)
    }
    fn exp(&self, _x: Single) -> Single {
        s(0.75)
    }
    fn powf(&self, base: Single, x: Single) -> Single {
        s(f(base) + f(x))
    }
}

fn started() -> Engine {
    Engine::new(&Host, s(48000.0))
}

fn fill(e: &mut Engine, block: usize) {
    for i in 0..BLOCK_SIZE {
        let t = (block * BLOCK_SIZE + i) as f32;
        e.in_l[i] = s((t * 0.137).sin() * 0.5 + (t * 0.0411).cos() * 0.3);
        e.in_r[i] = s((t * 0.0713).sin() * 0.6 - (t * 0.9).cos() * 0.1);
    }
}

fn same_outputs(a: &Engine, b: &Engine) -> bool {
    (0..BLOCK_SIZE).all(|i| {
        a.out_l[i].to_bits() == b.out_l[i].to_bits() && a.out_r[i].to_bits() == b.out_r[i].to_bits()
    })
}

/// Width=1 must reconstruct the input identically. Any drift means the M/S
/// matrix is broken.
#[test]
fn ms_identity_at_width_one() {
    let mut e = Engine::new(&Host, s(48000.0));
    // All EQ flat, multiband off, width=1, gain 0 dB: identity.
    for i in 0..BLOCK_SIZE {
        let t = i as f32 / 48000.0;
        let l = (2.0 * std::f32::consts::PI * 440.0 * t).sin();
        let r = (2.0 * std::f32::consts::PI * 660.0 * t).sin();
        e.in_l[i] = s(l);
        e.in_r[i] = s(r);
    }
    e.process_block(BLOCK_SIZE);
    for i in 0..BLOCK_SIZE {
        let dl = (f(e.out_l[i]) - f(e.in_l[i])).abs();
        let dr = (f(e.out_r[i]) - f(e.in_r[i])).abs();
        assert!(dl < 1e-3, "L drift at {i}: {dl}");
        assert!(dr < 1e-3, "R drift at {i}: {dr}");
    }
}

/// Multiband bypass must be bit-identical to running without the multiband
/// path: the dry/wet blend at wet=0 should pass the signal through.
#[test]
fn multiband_bypass_is_transparent() {
    let mut e = Engine::new(&Host, s(48000.0));
    for i in 0..BLOCK_SIZE {
        let v = ((i as f32) * 0.137).sin() * 0.5;
        e.in_l[i] = s(v);
        e.in_r[i] = s(v);
    }
    e.process_block(BLOCK_SIZE);
    for i in 0..BLOCK_SIZE {
        let d = (f(e.out_l[i]) - f(e.in_l[i])).abs();
        assert!(d < 1e-3, "bypass not transparent at {i}: {d}");
    }
}

#[test]
fn bypass_is_bit_identical_to_no_crossover() {
    let mut e = started();
    e.set_param(&Host, 0, s(3.0));
    e.set_param(&Host, 3, s(1.4));
    e.set_param(&Host, 4, s(-6.0));
    let (mut width, mut gain) = (e.chain.width, e.chain.out_gain_lin);
    let (mut low, mut mid, mut high) = (e.chain.low_eq, e.chain.mid_eq, e.chain.high_eq);
    for block in 0..4 {
        fill(&mut e, block);
        e.process_block(BLOCK_SIZE);
        for i in 0..BLOCK_SIZE {
            let (il, ir) = (e.in_l[i], e.in_r[i]);
            let m = s(0.5) * (il + ir);
            let side = s(0.5) * (il - ir) * width.tick();
            let (l, r) = low.tick(m + side, m - side);
            let (l, r) = mid.tick(l, r);
            let (l, r) = high.tick(l, r);
            let g = gain.tick();
            assert_eq!(e.out_l[i].to_bits(), (l * g).to_bits());
            assert_eq!(e.out_r[i].to_bits(), (r * g).to_bits());
        }
    }
}

#[test]
fn crossover_stays_warm_while_off() {
    let mut off = started();
    let mut on = started();
    on.set_param(&Host, 5, s(1.0));
    on.set_param(&Host, 7, s(-12.0));
    for block in 0..3 {
        fill(&mut off, block);
        fill(&mut on, block);
        off.process_block(BLOCK_SIZE);
        on.process_block(BLOCK_SIZE);
    }
    assert!(!same_outputs(&off, &on));
    assert_eq!(format!("{:?}", off.chain.low), format!("{:?}", on.chain.low));
    assert_eq!(format!("{:?}", off.chain.mid), format!("{:?}", on.chain.mid));
    assert_eq!(format!("{:?}", off.chain.high), format!("{:?}", on.chain.high));
}

#[test]
fn neutral_settings_last() {
    let mut e = started();
    for block in 0..3 {
        fill(&mut e, block);
        e.process_block(BLOCK_SIZE);
    }
    assert_eq!(f(e.chain.width.current), 1.0);
    assert_eq!(f(e.chain.mb_wet.current), 0.0);
    assert_eq!(f(e.chain.out_gain_lin.current), 1.0);
}

#[test]
fn new_engine_is_silent() {
    let e = started();
    for i in 0..BLOCK_SIZE {
        assert_eq!(e.in_l[i].to_bits(), 0);
        assert_eq!(e.in_r[i].to_bits(), 0);
        assert_eq!(e.out_l[i].to_bits(), 0);
        assert_eq!(e.out_r[i].to_bits(), 0);
    }
    assert_eq!(f(e.sample_rate), 48000.0);
    assert_eq!(f(e.chain.mb_wet.target), 0.0);
    assert_eq!(f(e.chain.mb_low_gain.target), 1.0);
    assert_eq!(f(e.chain.mb_mid_gain.current), 1.0);
    assert_eq!(f(e.chain.mb_high_gain.current), 1.0);
    assert_eq!(f(e.chain.width.coef), 1.0 - (-1.0f32 / (std::hint::black_box(48000.0f32) * 0.02)).exp());
    assert_eq!(f(e.chain.mb_wet.coef), 1.0 - (-1.0f32 / (std::hint::black_box(48000.0f32) * 0.05)).exp());
}

#[test]
fn constants_are_the_nearest_numbers() {
    for (bits, x) in [
        (constants::HALF, 0.5f32),
        (constants::ONE, 1.0),
        (constants::TWO, 2.0),
        (constants::TEN, 10.0),
        (constants::TWENTY, 20.0),
        (constants::FORTY, 40.0),
        (constants::MINUS_ONE, -1.0),
        (constants::MINUS_TWO, -2.0),
        (constants::PI, std::f32::consts::PI),
        (constants::SQRT_2, std::f32::consts::SQRT_2),
        (engine::F_LOW_MID, 200.0),
        (engine::F_MID_HIGH, 2000.0),
        (engine::Q_LR, 0.7071068),
        (engine::F_LOW_SHELF, 120.0),
        (engine::F_PEAK, 1200.0),
        (engine::Q_PEAK, 0.9),
        (engine::F_HIGH_SHELF, 8000.0),
        (engine::T_FAST, 0.02),
        (engine::T_SLOW, 0.05),
    ] {
        assert_eq!(bits, x.to_bits());
    }
}

#[test]
fn partial_blocks_leave_the_rest() {
    let mut e = started();
    fill(&mut e, 0);
    e.process_block(5);
    for i in 0..5 {
        assert!(e.out_l[i].to_bits() != 0);
    }
    for i in 5..BLOCK_SIZE {
        assert_eq!(e.out_l[i].to_bits(), 0);
        assert_eq!(e.out_r[i].to_bits(), 0);
    }
    e.process_block(0);
    assert_eq!(e.out_l[5].to_bits(), 0);
}

#[test]
fn oversized_blocks_are_cut() {
    let mut a = started();
    let mut b = started();
    fill(&mut a, 0);
    fill(&mut b, 0);
    a.process_block(BLOCK_SIZE);
    b.process_block(usize::MAX);
    assert!(same_outputs(&a, &b));
}

#[test]
fn blocks_join() {
    let mut whole = started();
    let mut parts = started();
    whole.set_param(&Host, 5, s(1.0));
    parts.set_param(&Host, 5, s(1.0));
    fill(&mut whole, 0);
    whole.process_block(100);
    for i in 0..40 {
        parts.in_l[i] = whole.in_l[i];
        parts.in_r[i] = whole.in_r[i];
    }
    parts.process_block(40);
    for i in 0..40 {
        assert_eq!(parts.out_l[i].to_bits(), whole.out_l[i].to_bits());
    }
    for i in 0..60 {
        parts.in_l[i] = whole.in_l[40 + i];
        parts.in_r[i] = whole.in_r[40 + i];
    }
    parts.process_block(60);
    for i in 0..60 {
        assert_eq!(parts.out_l[i].to_bits(), whole.out_l[40 + i].to_bits());
        assert_eq!(parts.out_r[i].to_bits(), whole.out_r[40 + i].to_bits());
    }
}

#[test]
fn parameters_reach_their_targets() {
    let mut e = started();
    e.set_param(&Host, 3, s(1.5));
    assert_eq!(f(e.chain.width.target), 1.5);
    assert_eq!(f(e.chain.width.current), 1.0);
    e.set_param(&Host, 4, s(-20.0));
    assert_eq!(f(e.chain.out_gain_lin.target), std::hint::black_box(10f32).powf(-1.0));
    e.set_param(&Host, 6, s(20.0));
    assert_eq!(f(e.chain.mb_low_gain.target), 10.0);
    e.set_param(&Host, 7, s(40.0));
    assert_eq!(f(e.chain.mb_mid_gain.target), 100.0);
    e.set_param(&Host, 8, s(0.0));
    assert_eq!(f(e.chain.mb_high_gain.target), 1.0);
}

#[test]
fn crossover_switch_has_a_threshold() {
    let mut e = started();
    for (v, want) in [
        (1.0, 1.0),
        (0.5, 1.0),
        (0.49999997, 0.0),
        (f32::INFINITY, 1.0),
        (f32::NAN, 0.0),
        (-1.0, 0.0),
        (0.75, 1.0),
        (-0.0, 0.0),
    ] {
        e.set_param(&Host, 5, s(v));
        assert_eq!(f(e.chain.mb_wet.target), want);
    }
}

#[test]
fn equalizer_gains_take_effect_at_once_and_keep_the_past() {
    let mut e = started();
    fill(&mut e, 0);
    e.process_block(BLOCK_SIZE);
    for id in 0..3 {
        let before = [e.chain.low_eq, e.chain.mid_eq, e.chain.high_eq];
        e.set_param(&Host, id, s(6.0));
        let after = [e.chain.low_eq, e.chain.mid_eq, e.chain.high_eq];
        for k in 0..3 {
            assert_eq!(format!("{:?}", before[k].left), format!("{:?}", after[k].left));
            assert_eq!(format!("{:?}", before[k].right), format!("{:?}", after[k].right));
            let changed = format!("{:?}", before[k].coefficients)
                != format!("{:?}", after[k].coefficients);
            assert_eq!(changed, k as u32 == id);
        }
    }
}

#[test]
fn unknown_parameters_are_ignored() {
    let mut e = started();
    let before = format!("{:?}", e.chain);
    e.set_param(&Host, 9, s(1.0));
    e.set_param(&Host, u32::MAX, s(f32::NAN));
    assert_eq!(before, format!("{:?}", e.chain));
    assert!(matches!(e.interpret(&Host, 77, s(1.0)), Change::Ignore));
}

#[test]
fn parameters_hand_the_right_arguments_to_the_host() {
    let e = Engine::new(&Fixed, s(48000.0));
    // This host adds base and exponent.
    let gain = |c: Change| match c {
        Change::OutGain(g) | Change::LowGain(g) | Change::MidGain(g) | Change::HighGain(g) => f(g),
        _ => panic!("not a gain"),
    };
    for id in [4, 6, 7, 8] {
        assert_eq!(gain(e.interpret(&Fixed, id, s(40.0))), 12.0);
    }
    assert_eq!(f(e.chain.width.coef), 0.25);
}

#[test]
fn smoother_steps_by_its_share() {
    let mut x = Smoother::with_decay(s(0.0), s(0.75));
    x.set(s(1.0));
    assert_eq!(f(x.tick()), 0.25);
    assert_eq!(f(x.tick()), 0.4375);
    assert_eq!(f(x.current), 0.4375);
    let y = Smoother::new(&Fixed, s(2.0), s(48000.0), s(0.02));
    assert_eq!((f(y.target), f(y.current), f(y.coef)), (2.0, 2.0, 0.25));
}

#[test]
fn smoother_settles_without_overshoot() {
    let mut x = Smoother::new(&Host, s(1.0), s(48000.0), s(0.02));
    x.set(s(-0.3));
    let mut last = 1.0;
    // 90 ms.
    for _ in 0..4320 {
        let now = f(x.tick());
        assert!(-0.3 <= now && now <= last);
        last = now;
    }
    assert!((last + 0.3).abs() < 0.013 * 1.3);
}

#[test]
fn crossover_share_stays_in_range() {
    let mut e = started();
    for step in 0..40 {
        e.set_param(&Host, 5, s((step % 2) as f32));
        e.process_block(37 + step);
        let w = f(e.chain.mb_wet.current);
        assert!((0.0..=1.0).contains(&w));
    }
}

#[test]
fn section_runs_in_direct_form() {
    let mut b = Biquad::default();
    assert_eq!(f(b.tick(s(1.0), s(2.0)).0), 0.0);
    b = Biquad::default();
    b.coefficients =
        Coefficients { b0: s(2.0), b1: s(3.0), b2: s(5.0), a1: s(0.5), a2: s(0.25) };
    let out: Vec<(f32, f32)> = [(1.0, 0.0), (0.0, 1.0), (0.0, 0.0), (0.0, 0.0)]
        .iter()
        .map(|&(l, r)| b.tick(s(l), s(r)))
        .map(|(l, r)| (f(l), f(r)))
        .collect();
    assert_eq!(out, vec![(2.0, 0.0), (2.0, 2.0), (3.5, 2.0), (-2.25, 3.5)]);
}

#[test]
fn channels_are_independent() {
    let mut a = started().chain.low_eq;
    let mut b = a;
    for i in 0..50 {
        let l = s((i as f32).sin());
        let (ya, _) = a.tick(l, s(0.7));
        let (yb, _) = b.tick(l, s(-(i as f32)));
        assert_eq!(ya.to_bits(), yb.to_bits());
    }
}

fn taps(t: Transfer) -> [f32; 6] {
    [f(t.b0), f(t.b1), f(t.b2), f(t.a0), f(t.a1), f(t.a2)]
}

#[test]
fn transfer_functions_have_exact_values() {
    // cos 0.5, sin 0.25, quality 0.5: alpha 0.25.
    let d = |kind, a| taps(Transfer::design(kind, s(0.5), s(0.25), s(0.5), s(a)));
    assert_eq!(d(FilterKind::LowPass, 9.0), [0.25, 0.5, 0.25, 1.25, -1.0, 0.75]);
    assert_eq!(d(FilterKind::HighPass, 9.0), [0.75, -1.5, 0.75, 1.25, -1.0, 0.75]);
    assert_eq!(d(FilterKind::AllPass, 9.0), [0.75, -1.0, 1.25, 1.25, -1.0, 0.75]);
    assert_eq!(d(FilterKind::Peaking, 2.0), [1.5, -1.0, 0.5, 1.125, -1.0, 0.875]);
    let t = 2.0f32 * 4.0f32.sqrt() * (0.25f32 * 0.5 * std::f32::consts::SQRT_2);
    assert_eq!(
        d(FilterKind::LowShelf, 4.0),
        [4.0 * (3.5 + t), 4.0, 4.0 * (3.5 - t), 6.5 + t, -11.0, 6.5 - t]
    );
    assert_eq!(
        d(FilterKind::HighShelf, 4.0),
        [4.0 * (6.5 + t), -44.0, 4.0 * (6.5 - t), 3.5 + t, 1.0, 3.5 - t]
    );
}

#[test]
fn shelves_ignore_the_quality() {
    for kind in [FilterKind::LowShelf, FilterKind::HighShelf] {
        let a = taps(Transfer::design(kind, s(0.5), s(0.25), s(0.5), s(3.0)));
        let b = taps(Transfer::design(kind, s(0.5), s(0.25), s(7.0), s(3.0)));
        assert_eq!(a, b);
    }
}

#[test]
fn normalization_divides_by_the_first_feedback_tap() {
    let c = Transfer::design(FilterKind::Peaking, s(0.5), s(1.0), s(0.5), s(1.0)).normalize();
    assert_eq!([f(c.b0), f(c.b1), f(c.b2), f(c.a1), f(c.a2)], [1.0, -0.5, 0.0, -0.5, 0.0]);
}

#[test]
fn gainless_bands_are_flat() {
    for kind in [FilterKind::LowShelf, FilterKind::Peaking, FilterKind::HighShelf] {
        for c in [-0.99f32, -0.3, 0.0, 0.1, 0.999] {
            let t = taps(Transfer::design(kind, s(c), s(0.31), s(0.9), s(1.0)));
            assert_eq!(t[0..3], t[3..6]);
        }
    }
}

#[test]
fn passes_cancel_at_their_ends() {
    for c in [-0.99f32, -0.3, 0.1, 0.999] {
        let low = taps(Transfer::design(FilterKind::LowPass, s(c), s(0.31), s(0.7), s(1.0)));
        let high = taps(Transfer::design(FilterKind::HighPass, s(c), s(0.31), s(0.7), s(1.0)));
        let all = taps(Transfer::design(FilterKind::AllPass, s(c), s(0.31), s(0.7), s(1.0)));
        assert_eq!(low[0] - low[1] + low[2], 0.0);
        assert_eq!(high[0] + high[1] + high[2], 0.0);
        assert_eq!(low[3..6], high[3..6]);
        assert_eq!([all[2], all[1], all[0]], [all[3], all[4], all[5]]);
    }
}

#[test]
fn section_takes_its_arguments_from_frequency_and_gain() {
    let mut b = Biquad::default();
    b.set(&Host, FilterKind::Peaking, s(1200.0), s(0.9), s(6.0), s(48000.0));
    let w = 2.0f32 * std::f32::consts::PI * 1200.0 / std::hint::black_box(48000.0);
    let alpha = w.sin() / (2.0 * 0.9);
    let a = std::hint::black_box(10f32).powf(6.0 / 40.0);
    let inv = 1.0 / (1.0 + alpha / a);
    assert_eq!(f(b.coefficients.b0), (1.0 + alpha * a) * inv);
    assert_eq!(f(b.coefficients.b1), (-2.0 * w.cos()) * inv);
    assert_eq!(f(b.coefficients.a2), (1.0 - alpha / a) * inv);
}

#[test]
fn mono_keeps_its_values_at_width_one() {
    let mut e = started();
    for v in [0.1f32, -0.7, 1e-45, 3e-45, 1e30, 1.7e38, 0.0] {
        let m = s(0.5) * (s(v) + s(v));
        let side = s(0.5) * (s(v) - s(v)) * e.chain.width.tick();
        assert_eq!(f(m + side), v);
        assert_eq!(f(m - side), v);
    }
}

#[test]
fn width_one_drifts_by_rounding_only() {
    let mut e = started();
    for i in 0..2000 {
        let l = s((i as f32 * 0.731).sin() * 10f32.powi(i % 7 - 3));
        let r = s((i as f32 * 0.293).cos());
        let m = s(0.5) * (l + r);
        let side = s(0.5) * (l - r) * e.chain.width.tick();
        let louder = f(l).abs().max(f(r).abs());
        assert!((f(m + side) - f(l)).abs() <= louder / 4194304.0);
        assert!((f(m - side) - f(r)).abs() <= louder / 4194304.0);
    }
    // The quiet channel is lost beside a much louder one.
    let (l, r) = (s(1.0), s(1e-12));
    let m = s(0.5) * (l + r);
    let side = s(0.5) * (l - r);
    assert_eq!(f(m - side), 0.0);
}

#[test]
fn bypass_ignores_what_the_crossover_does() {
    // A band gain that overflows leaves the signal alone while nothing is wet.
    let mut e = started();
    e.chain.mb_low_gain = Smoother::with_decay(s(f32::INFINITY), s(0.5));
    e.chain.mb_mid_gain = Smoother::with_decay(s(f32::NAN), s(0.5));
    let mut plain = started();
    for block in 0..3 {
        fill(&mut e, block);
        fill(&mut plain, block);
        e.process_block(BLOCK_SIZE);
        plain.process_block(BLOCK_SIZE);
        assert!(same_outputs(&e, &plain));
    }
    // A negative zero goes around, too.
    let mut e = started();
    let one = s(1.0);
    let zero = s(0.0);
    for b in [&mut e.chain.low_eq, &mut e.chain.mid_eq, &mut e.chain.high_eq] {
        b.coefficients.b0 = one;
        for c in [
            &mut b.coefficients.b1,
            &mut b.coefficients.b2,
            &mut b.coefficients.a1,
            &mut b.coefficients.a2,
        ] {
            *c = s(-0.0);
        }
        for h in [&mut b.left, &mut b.right] {
            h.x1 = one;
            h.x2 = one;
            h.y1 = s(-1.0);
            h.y2 = s(-1.0);
        }
    }
    e.chain.low.third.right.x2 = one;
    e.chain.width = Smoother::with_decay(zero, s(0.5));
    e.in_l[0] = s(-0.0);
    e.in_r[0] = s(-0.0);
    let (mut l, r) = (e.in_l[0], e.in_r[0]);
    let m = s(0.5) * (l + r);
    let side = s(0.5) * (l - r) * zero;
    l = m - side;
    for b in [&mut e.chain.low_eq.clone(), &mut e.chain.mid_eq.clone(), &mut e.chain.high_eq.clone()]
    {
        l = b.tick(l, l).1;
    }
    e.process_block(1);
    assert_eq!(l.to_bits(), 0x8000_0000);
    assert_eq!(e.out_r[0].to_bits(), 0x8000_0000);
}

#[test]
fn fully_wet_bands_sum_flat() {
    // The spectrum of the impulse response, with everything wet.
    let mut e = started();
    e.chain.mb_wet = Smoother::with_decay(s(1.0), s(0.5));
    let n = 64 * BLOCK_SIZE;
    let mut h: Vec<f64> = Vec::new();
    for block in 0..64 {
        for i in 0..BLOCK_SIZE {
            let x = if block == 0 && i == 0 { 1.0 } else { 0.0 };
            e.in_l[i] = s(x);
            e.in_r[i] = s(x);
        }
        e.process_block(BLOCK_SIZE);
        for i in 0..BLOCK_SIZE {
            h.push(f(e.out_l[i]) as f64);
        }
    }
    for step in 0..40 {
        let freq = 30.0 * 1.18f64.powi(step);
        let w = 2.0 * std::f64::consts::PI * freq / 48000.0;
        let (mut re, mut im) = (0.0f64, 0.0f64);
        for k in 0..n {
            re += h[k] * (w * k as f64).cos();
            im += h[k] * (w * k as f64).sin();
        }
        let magnitude = (re * re + im * im).sqrt();
        assert!((magnitude - 1.0).abs() < 0.002, "{freq} Hz: {magnitude}");
    }
}
