//! The chain against the same formulas in the machine's own floats.
use mastering_dsp::elementary::Elementary;
use mastering_dsp::single::Single;
use mastering_dsp::{Engine, BLOCK_SIZE};

fn s(x: f32) -> Single {
    Single::from_bits(x.to_bits())
}

fn f(x: Single) -> f32 {
    f32::from_bits(x.to_bits())
}

struct Machine;

impl Elementary for Machine {
    fn sin(&self, x: Single) -> Single {
        s(f(x).sin())
    }
    fn cos(&self, x: Single) -> Single {
        s(f(x).cos())
    }
    fn exp(&self, x: Single) -> Single {
        s(f(x).exp())
    }
    fn powf(&self, base: Single, x: Single) -> Single {
        s(f(base).powf(f(x)))
    }
}

/// Target, current value, share.
struct Slide(f32, f32, f32);

impl Slide {
    fn new(v: f32, fs: f32, tau: f32) -> Slide {
        Slide(v, v, 1.0 - (-1.0 / (fs * tau)).exp())
    }
    fn tick(&mut self) -> f32 {
        self.1 += (self.0 - self.1) * self.2;
        self.1
    }
}

#[derive(Clone, Copy)]
struct Section {
    b: [f32; 3],
    a: [f32; 2],
    x: [[f32; 2]; 2],
    y: [[f32; 2]; 2],
}

impl Section {
    fn new(kind: u32, f0: f32, q: f32, db: f32, fs: f32) -> Section {
        let mut r = Section { b: [0.0; 3], a: [0.0; 2], x: [[0.0; 2]; 2], y: [[0.0; 2]; 2] };
        r.set(kind, f0, q, db, fs);
        r
    }
    fn set(&mut self, kind: u32, f0: f32, q: f32, db: f32, fs: f32) {
        let w = 2.0 * std::f32::consts::PI * f0 / fs;
        let (c, sn) = (w.cos(), w.sin());
        let al = sn / (2.0 * q);
        let a = 10f32.powf(db / 40.0);
        let t = 2.0 * a.sqrt() * (sn * 0.5 * std::f32::consts::SQRT_2);
        let (p, m) = (a + 1.0, a - 1.0);
        let (b, d) = match kind {
            0 => (
                [a * (p - m * c + t), 2.0 * a * (m - p * c), a * (p - m * c - t)],
                [p + m * c + t, -2.0 * (m + p * c), p + m * c - t],
            ),
            1 => (
                [1.0 + al * a, -2.0 * c, 1.0 - al * a],
                [1.0 + al / a, -2.0 * c, 1.0 - al / a],
            ),
            2 => (
                [a * (p + m * c + t), -2.0 * a * (m + p * c), a * (p + m * c - t)],
                [p - m * c + t, 2.0 * (m - p * c), p - m * c - t],
            ),
            3 => (
                [(1.0 - c) * 0.5, 1.0 - c, (1.0 - c) * 0.5],
                [1.0 + al, -2.0 * c, 1.0 - al],
            ),
            4 => (
                [(1.0 + c) * 0.5, -(1.0 + c), (1.0 + c) * 0.5],
                [1.0 + al, -2.0 * c, 1.0 - al],
            ),
            _ => ([1.0 - al, -2.0 * c, 1.0 + al], [1.0 + al, -2.0 * c, 1.0 - al]),
        };
        let inv = 1.0 / d[0];
        self.b = [b[0] * inv, b[1] * inv, b[2] * inv];
        self.a = [d[1] * inv, d[2] * inv];
    }
    fn tick(&mut self, v: [f32; 2]) -> [f32; 2] {
        let mut out = [0.0; 2];
        for ch in 0..2 {
            let (x, y) = (self.x[ch], self.y[ch]);
            out[ch] = self.b[0] * v[ch] + self.b[1] * x[0] + self.b[2] * x[1]
                - self.a[0] * y[0]
                - self.a[1] * y[1];
            self.x[ch] = [v[ch], x[0]];
            self.y[ch] = [out[ch], y[0]];
        }
        out
    }
}

#[test]
fn chain_agrees_with_machine_floats() {
    // Kept from the optimizer, which evaluates constant cosines in its own way.
    let fs = std::hint::black_box(44100.0f32);
    let q = 0.7071068f32;
    let mut e = Engine::new(&Machine, s(fs));
    let mut width = Slide::new(1.0, fs, 0.02);
    let mut gain = Slide::new(1.0, fs, 0.02);
    let mut wet = Slide::new(0.0, fs, 0.05);
    let mut band_gain = [
        Slide::new(1.0, fs, 0.05),
        Slide::new(1.0, fs, 0.05),
        Slide::new(1.0, fs, 0.05),
    ];
    let mut eq = [
        Section::new(0, 120.0, q, 0.0, fs),
        Section::new(1, 1200.0, 0.9, 0.0, fs),
        Section::new(2, 8000.0, q, 0.0, fs),
    ];
    let pair = |k1, f1, k2, f2| {
        [
            Section::new(k1, f1, q, 0.0, fs),
            Section::new(k1, f1, q, 0.0, fs),
            Section::new(k2, f2, q, 0.0, fs),
            Section::new(k2, f2, q, 0.0, fs),
        ]
    };
    let mut bands = [
        pair(3, 200.0, 5, 2000.0)[..3].to_vec(),
        pair(4, 200.0, 3, 2000.0).to_vec(),
        pair(4, 200.0, 4, 2000.0).to_vec(),
    ];
    let writes: [(usize, u32, f32); 9] = [
        (1, 3, 1.7),
        (2, 0, 5.5),
        (3, 5, 1.0),
        (4, 1, -9.0),
        (5, 6, 3.0),
        (6, 2, 2.25),
        (7, 7, -4.5),
        (9, 8, 1.5),
        (11, 4, -3.0),
    ];
    for block in 0..24 {
        for &(at, id, v) in &writes {
            if at == block {
                e.set_param(&Machine, id, s(v));
                match id {
                    0 => eq[0].set(0, 120.0, q, v, fs),
                    1 => eq[1].set(1, 1200.0, 0.9, v, fs),
                    2 => eq[2].set(2, 8000.0, q, v, fs),
                    3 => width.0 = v,
                    4 => gain.0 = 10f32.powf(v / 20.0),
                    5 => wet.0 = 1.0,
                    _ => band_gain[id as usize - 6].0 = 10f32.powf(v / 20.0),
                }
            }
        }
        for i in 0..BLOCK_SIZE {
            let t = (block * BLOCK_SIZE + i) as f32;
            e.in_l[i] = s((t * 0.0313).sin() * 0.8 + (t * 1.7).cos() * 0.05);
            e.in_r[i] = s((t * 0.0513).cos() * 0.4 - (t * 0.31).sin() * 0.3);
        }
        e.process_block(BLOCK_SIZE);
        for i in 0..BLOCK_SIZE {
            let (il, ir) = (f(e.in_l[i]), f(e.in_r[i]));
            let m = 0.5 * (il + ir);
            let side = 0.5 * (il - ir) * width.tick();
            let mut v = [m + side, m - side];
            for b in eq.iter_mut() {
                v = b.tick(v);
            }
            let k = wet.tick();
            let g: Vec<f32> = band_gain.iter_mut().map(|x| x.tick()).collect();
            let mut parts: Vec<[f32; 2]> = Vec::new();
            for band in bands.iter_mut() {
                let mut u = v;
                for b in band.iter_mut() {
                    u = b.tick(u);
                }
                parts.push(u);
            }
            let out_gain = gain.tick();
            let got = [e.out_l[i].to_bits(), e.out_r[i].to_bits()];
            for ch in 0..2 {
                let mix = parts[0][ch] * g[0] + parts[1][ch] * g[1] + parts[2][ch] * g[2];
                let blend = if k == 0.0 { v[ch] } else { v[ch] * (1.0 - k) + mix * k };
                let want = blend * out_gain;
                assert_eq!(got[ch], want.to_bits(), "block {block} frame {i} channel {ch}");
            }
        }
    }
}
