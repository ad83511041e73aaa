use dft::{transform, Operation, Plan, RealBuffer};
use num_complex::Complex64;

fn c(re: f64, im: f64) -> Complex64 {
    Complex64::new(re, im)
}

/// Every component of `a` is within `tol` of the matching component of `b`.
fn assert_close(a: &[Complex64], b: &[Complex64], tol: f64) {
    assert_eq!(a.len(), b.len());
    for i in 0..a.len() {
        assert!(
            (a[i].re - b[i].re).abs() < tol && (a[i].im - b[i].im).abs() < tol,
            "bin {}: {} vs {}",
            i,
            a[i],
            b[i]
        );
    }
}

/// Deterministic sample data in [-0.5, 0.5), from a linear congruential
/// generator.
fn sample_reals(n: usize) -> Vec<f64> {
    let mut state: u64 = 0x2545f4914f6cdd1d;
    let mut out = Vec::new();
    for _ in 0..n {
        state = state
            .wrapping_mul(6364136223846793005)
            .wrapping_add(1442695040888963407);
        out.push((state >> 11) as f64 / (1u64 << 53) as f64 - 0.5);
    }
    out
}

fn sample_complex(n: usize) -> Vec<Complex64> {
    let raw = sample_reals(2 * n);
    (0..n).map(|i| c(raw[2 * i], raw[2 * i + 1])).collect()
}

/// Pack a real sequence into the pairwise complex layout of `RealBuffer`.
fn pack_reals(raw: &[f64]) -> RealBuffer {
    assert!(raw.len() % 2 == 0);
    let pairs = (0..raw.len() / 2).map(|i| c(raw[2 * i], raw[2 * i + 1])).collect();
    RealBuffer { pairs }
}

/// The defining sum of the transform, directly: entry `k` is the sum of
/// `x[t]` times `exp(sign * 2 pi i k t / n)`.
fn reference_dft(x: &[Complex64], sign: f64) -> Vec<Complex64> {
    let n = x.len();
    let mut out = Vec::new();
    for k in 0..n {
        let mut acc = c(0.0, 0.0);
        for t in 0..n {
            let angle = sign * 2.0 * std::f64::consts::PI * (k * t % n) as f64 / n as f64;
            acc += x[t] * c(angle.cos(), angle.sin());
        }
        out.push(acc);
    }
    out
}

#[test]
fn complex_forward_1() {
    let mut data = vec![c(1.0, -2.0)];
    transform(&mut data, &Plan::new(Operation::Forward, 1));
    assert_eq!(data, vec![c(1.0, -2.0)]);
}

#[test]
fn complex_forward_2() {
    let mut data = vec![c(1.0, -2.0), c(3.0, -4.0)];
    transform(&mut data, &Plan::new(Operation::Forward, 2));
    assert_eq!(data, vec![c(4.0, -6.0), c(-2.0, 2.0)]);
}

#[test]
fn complex_forward_4() {
    // two butterfly stages; the second stage's twiddles are 1 and -i
    let mut data = vec![c(1.0, 0.0), c(2.0, 0.0), c(3.0, 0.0), c(4.0, 0.0)];
    transform(&mut data, &Plan::new(Operation::Forward, 4));
    let expected = vec![c(10.0, 0.0), c(-2.0, 2.0), c(-2.0, 0.0), c(-2.0, -2.0)];
    assert_close(&data, &expected, 1e-14);
}

#[test]
fn complex_forward_128() {
    let mut data = sample_complex(128);
    let expected = reference_dft(&data, -1.0);
    transform(&mut data, &Plan::new(Operation::Forward, 128));
    assert_close(&data, &expected, 1e-10);
}

#[test]
fn complex_forward_real_256() {
    let raw = sample_reals(256);
    let as_complex: Vec<Complex64> = raw.iter().map(|&re| c(re, 0.0)).collect();
    let mut data = as_complex;
    transform(&mut data, &Plan::new(Operation::Forward, 256));

    // the complex engine applied to real-valued data agrees with the real
    // engine's unpacked spectrum
    let mut packed = pack_reals(&raw);
    transform(&mut packed, &Plan::new(Operation::Forward, 256));
    assert_close(&data, &dft::unpack(&packed), 1e-13);
}

#[test]
fn complex_inverse_128() {
    let original = sample_complex(128);
    let mut data = original.clone();
    transform(&mut data, &Plan::new(Operation::Forward, 128));
    transform(&mut data, &Plan::new(Operation::Inverse, 128));
    assert_close(&data, &original, 1e-14);
}

#[test]
fn real_forward_2() {
    let mut data = pack_reals(&[1.0, -2.0]);
    transform(&mut data, &Plan::new(Operation::Forward, 2));
    assert_eq!(dft::unpack(&data), vec![c(-1.0, 0.0), c(3.0, 0.0)]);
}

#[test]
fn real_forward_4() {
    let mut data = pack_reals(&[1.0, -2.0, 3.0, -4.0]);
    transform(&mut data, &Plan::new(Operation::Forward, 4));
    assert_eq!(
        dft::unpack(&data),
        vec![c(-2.0, 0.0), c(-2.0, -2.0), c(10.0, 0.0), c(-2.0, 2.0)]
    );
}

#[test]
fn real_forward_256() {
    let raw = sample_reals(256);
    let as_complex: Vec<Complex64> = raw.iter().map(|&re| c(re, 0.0)).collect();
    let expected = reference_dft(&as_complex, -1.0);

    let mut packed = pack_reals(&raw);
    transform(&mut packed, &Plan::new(Operation::Forward, 256));

    // the packed layout holds the positive-frequency half of the spectrum:
    // slot zero carries the two purely real bins, the others bin k itself
    assert!((packed.pairs[0].re - expected[0].re).abs() < 1e-10);
    assert!((packed.pairs[0].im - expected[128].re).abs() < 1e-10);
    for k in 1..128 {
        assert!((packed.pairs[k].re - expected[k].re).abs() < 1e-10);
        assert!((packed.pairs[k].im - expected[k].im).abs() < 1e-10);
    }
    assert_close(&dft::unpack(&packed), &expected, 1e-10);
}

#[test]
fn real_forward_512() {
    let raw = sample_reals(512);
    let as_complex: Vec<Complex64> = raw.iter().map(|&re| c(re, 0.0)).collect();
    let expected = reference_dft(&as_complex, -1.0);

    let mut packed = pack_reals(&raw);
    transform(&mut packed, &Plan::new(Operation::Forward, 512));
    assert_close(&dft::unpack(&packed), &expected, 1e-9);

    // the backward operation undoes the forward one up to the half-length
    // factor that the unnormalized inverse leaves in place
    let mut back = RealBuffer { pairs: packed.pairs.clone() };
    transform(&mut back, &Plan::new(Operation::Backward, 512));
    let scaled: Vec<Complex64> = pack_reals(&raw).pairs.iter().map(|&v| v * 256.0).collect();
    assert_close(&back.pairs, &scaled, 1e-11);
}

#[test]
fn real_inverse_256() {
    let raw = sample_reals(256);
    let mut data = pack_reals(&raw);
    transform(&mut data, &Plan::new(Operation::Forward, 256));
    transform(&mut data, &Plan::new(Operation::Inverse, 256));
    assert_close(&data.pairs, &pack_reals(&raw).pairs, 1e-14);
}

#[test]
fn real_inverse_512() {
    let raw = sample_reals(512);
    let mut data = pack_reals(&raw);
    transform(&mut data, &Plan::new(Operation::Forward, 512));
    transform(&mut data, &Plan::new(Operation::Inverse, 512));
    assert_close(&data.pairs, &pack_reals(&raw).pairs, 1e-14);
}

#[test]
fn unpack() {
    let data = pack_reals(&[1.0, 2.0, 3.0, 4.0]);
    assert_eq!(
        dft::unpack(&data),
        vec![c(1.0, 0.0), c(3.0, 4.0), c(2.0, 0.0), c(3.0, -4.0)]
    );

    let data = pack_reals(&[1.0, 2.0, 3.0, 4.0, 5.0, 6.0, 7.0, 8.0]);
    assert_eq!(
        dft::unpack(&data),
        vec![
            c(1.0, 0.0),
            c(3.0, 4.0),
            c(5.0, 6.0),
            c(7.0, 8.0),
            c(2.0, 0.0),
            c(7.0, -8.0),
            c(5.0, -6.0),
            c(3.0, -4.0),
        ]
    );
}

#[test]
fn round_trip_inverse() {
    let original = sample_complex(64);
    let mut data = original.clone();
    transform(&mut data, &Plan::new(Operation::Forward, 64));
    transform(&mut data, &Plan::new(Operation::Inverse, 64));
    assert_close(&data, &original, 1e-12);
}

#[test]
fn backward_is_unnormalized() {
    let original = sample_complex(32);
    let mut data = original.clone();
    transform(&mut data, &Plan::new(Operation::Forward, 32));
    transform(&mut data, &Plan::new(Operation::Backward, 32));
    let scaled: Vec<Complex64> = original.iter().map(|&v| v * 32.0).collect();
    assert_close(&data, &scaled, 1e-12);
}

#[test]
fn forward_is_linear() {
    let x = sample_complex(16);
    let y: Vec<Complex64> = sample_complex(32)[16..].to_vec();
    let a = 2.5;
    let b = -1.25;

    let mut mixed: Vec<Complex64> = (0..16).map(|i| x[i] * a + y[i] * b).collect();
    transform(&mut mixed, &Plan::new(Operation::Forward, 16));

    let mut fx = x.clone();
    transform(&mut fx, &Plan::new(Operation::Forward, 16));
    let mut fy = y.clone();
    transform(&mut fy, &Plan::new(Operation::Forward, 16));
    let expected: Vec<Complex64> = (0..16).map(|i| fx[i] * a + fy[i] * b).collect();
    assert_close(&mixed, &expected, 1e-12);
}

#[test]
fn forward_identity_size_1() {
    let mut data = vec![c(1.0, -2.0)];
    transform(&mut data, &Plan::new(Operation::Forward, 1));
    assert_eq!(data, vec![c(1.0, -2.0)]);
}

#[test]
fn unpacked_spectrum_is_conjugate_symmetric() {
    let raw = sample_reals(32);
    let mut packed = pack_reals(&raw);
    transform(&mut packed, &Plan::new(Operation::Forward, 32));
    let spectrum = dft::unpack(&packed);
    for k in 1..16 {
        let mirrored = spectrum[32 - k];
        let expected = spectrum[k].conj();
        assert!((mirrored.re - expected.re).abs() < 1e-15);
        assert!((mirrored.im - expected.im).abs() < 1e-15);
    }
}

#[test]
fn rearrange_twice_restores_order() {
    let original = sample_complex(16);
    let mut data = original.clone();
    dft::complex::rearrange(&mut data);
    assert_ne!(data, original);
    dft::complex::rearrange(&mut data);
    assert_eq!(data, original);
}

#[test]
fn same_plan_same_results() {
    let original = sample_complex(8);
    let mut first = original.clone();
    let mut second = original.clone();
    transform(&mut first, &Plan::new(Operation::Forward, 8));
    transform(&mut second, &Plan::new(Operation::Forward, 8));
    assert_eq!(first, second);
}
