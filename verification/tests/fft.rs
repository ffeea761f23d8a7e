use phase_vocoder::fft::{pow2, power_of_two, stage_count, Butterfly, FftPlan};
use std::f64::consts::PI;

fn transform(plan: &FftPlan, real: &mut Vec<f64>, imag: &mut Vec<f64>, inverse: bool) {
    let sample = plan.size();
    for butterfly in plan.butterflies().iter() {
        let n = butterfly.upper;
        let m = butterfly.lower;
        let a_real = real[n];
        let a_imag = imag[n];
        let b_real = real[m];
        let b_imag = imag[m];
        let angle = 2.0 * PI * butterfly.twiddle as f64 / sample as f64;
        let c_real = angle.cos();
        let c_imag = if inverse { angle.sin() } else { -angle.sin() };
        real[n] = a_real + b_real;
        imag[n] = a_imag + b_imag;
        if butterfly.rotate {
            real[m] = (a_real - b_real) * c_real - (a_imag - b_imag) * c_imag;
            imag[m] = (a_imag - b_imag) * c_real + (a_real - b_real) * c_imag;
        } else {
            real[m] = a_real - b_real;
            imag[m] = a_imag - b_imag;
        }
    }
    plan.reorder(real);
    plan.reorder(imag);
    if inverse {
        for k in 0..sample {
            real[k] /= sample as f64;
            imag[k] /= sample as f64;
        }
    }
}

fn naive(real: &Vec<f64>, imag: &Vec<f64>) -> (Vec<f64>, Vec<f64>) {
    let n = real.len();
    let mut out_real = vec![0.0; n];
    let mut out_imag = vec![0.0; n];
    for k in 0..n {
        for t in 0..n {
            let angle = -2.0 * PI * (k * t % n) as f64 / n as f64;
            out_real[k] += real[t] * angle.cos() - imag[t] * angle.sin();
            out_imag[k] += real[t] * angle.sin() + imag[t] * angle.cos();
        }
    }
    (out_real, out_imag)
}

fn signal() -> Vec<f64> {
    vec![
        0.0, 0.5, -0.2, 0.88, -0.025, 0.0, -0.33456, 0.1, 0.023, 0.92, -0.132, 0.03, 0.5223,
        0.056, -0.618234, 0.2294,
    ]
}

#[test]
fn fft_test() {
    let sample = 16;
    let given = signal();
    let mut real = given.clone();
    let mut image: Vec<f64> = vec![0.0; real.len()];
    let plan = FftPlan::new(sample).unwrap();

    // FFT
    transform(&plan, &mut real, &mut image, false);
    // IFFT
    transform(&plan, &mut real, &mut image, true);

    println!("{:?}", real);
    for k in 0..sample {
        assert!((real[k] - given[k]).abs() < 1e-12);
        assert!(image[k].abs() < 1e-12);
    }
}

#[test]
fn transform_agrees_with_the_definition() {
    let plan = FftPlan::new(16).unwrap();
    let mut real = signal();
    let mut imag: Vec<f64> = (0..16).map(|k| 0.25 * k as f64 - 1.0).collect();
    let (want_real, want_imag) = naive(&real, &imag);
    transform(&plan, &mut real, &mut imag, false);
    for k in 0..16 {
        assert!((real[k] - want_real[k]).abs() < 1e-9);
        assert!((imag[k] - want_imag[k]).abs() < 1e-9);
    }
}

#[test]
fn transform_of_an_impulse_is_flat() {
    let plan = FftPlan::new(8).unwrap();
    let mut real = vec![1.0, 0.0, 0.0, 0.0, 0.0, 0.0, 0.0, 0.0];
    let mut imag = vec![0.0; 8];
    transform(&plan, &mut real, &mut imag, false);
    for k in 0..8 {
        assert!((real[k] - 1.0).abs() < 1e-12);
        assert!(imag[k].abs() < 1e-12);
    }
}

#[test]
fn transform_is_linear_in_scale() {
    let plan = FftPlan::new(16).unwrap();
    let mut real = signal();
    let mut imag = vec![0.0; 16];
    let mut scaled_real: Vec<f64> = signal().iter().map(|x| 3.0 * x).collect();
    let mut scaled_imag = vec![0.0; 16];
    transform(&plan, &mut real, &mut imag, false);
    transform(&plan, &mut scaled_real, &mut scaled_imag, false);
    for k in 0..16 {
        assert!((scaled_real[k] - 3.0 * real[k]).abs() < 1e-9);
        assert!((scaled_imag[k] - 3.0 * imag[k]).abs() < 1e-9);
    }
}

#[test]
fn round_trip_for_every_small_length() {
    let mut sample = 2;
    while sample <= 256 {
        let plan = FftPlan::new(sample).unwrap();
        let given_real: Vec<f64> = (0..sample).map(|k| ((k * 7 + 3) % 11) as f64 - 5.0).collect();
        let given_imag: Vec<f64> = (0..sample).map(|k| ((k * 5 + 1) % 13) as f64 - 6.0).collect();
        let mut real = given_real.clone();
        let mut imag = given_imag.clone();
        transform(&plan, &mut real, &mut imag, false);
        transform(&plan, &mut real, &mut imag, true);
        for k in 0..sample {
            assert!((real[k] - given_real[k]).abs() < 1e-9);
            assert!((imag[k] - given_imag[k]).abs() < 1e-9);
        }
        sample *= 2;
    }
}

#[test]
fn pow2_values() {
    assert_eq!(pow2(0), 1);
    assert_eq!(pow2(1), 2);
    assert_eq!(pow2(2), 4);
    assert_eq!(pow2(10), 1024);
    assert_eq!(pow2(13), 8192);
    let top = (usize::BITS - 1) as usize;
    assert_eq!(pow2(top), usize::MAX / 2 + 1);
}

#[test]
fn stage_count_is_the_floor_of_the_logarithm() {
    assert_eq!(stage_count(0), 0);
    assert_eq!(stage_count(1), 0);
    assert_eq!(stage_count(2), 1);
    assert_eq!(stage_count(3), 1);
    assert_eq!(stage_count(4), 2);
    assert_eq!(stage_count(16), 4);
    assert_eq!(stage_count(17), 4);
    assert_eq!(stage_count(8192), 13);
    assert_eq!(stage_count(usize::MAX), (usize::BITS - 1) as usize);
}

#[test]
fn power_of_two_tells_powers_from_the_rest() {
    assert!(!power_of_two(0));
    assert!(power_of_two(1));
    assert!(power_of_two(2));
    assert!(!power_of_two(3));
    assert!(power_of_two(4096));
    assert!(!power_of_two(4097));
    assert!(!power_of_two(6));
    assert!(power_of_two(usize::MAX / 2 + 1));
    assert!(!power_of_two(usize::MAX));
}

#[test]
fn plan_is_refused_unless_the_length_is_a_power_of_two() {
    assert!(FftPlan::new(0).is_none());
    assert!(FftPlan::new(1).is_none());
    assert!(FftPlan::new(3).is_none());
    assert!(FftPlan::new(12).is_none());
    assert!(FftPlan::new(2).is_some());
    assert!(FftPlan::new(1024).is_some());
}

#[test]
fn plan_knows_its_length() {
    let plan = FftPlan::new(32).unwrap();
    assert_eq!(plan.size(), 32);
    assert_eq!(plan.stages(), 5);
    assert_eq!(plan.butterflies().len(), 5 * 16);
    assert_eq!(plan.reversal().len(), 32);
}

#[test]
fn schedule_of_eight() {
    let plan = FftPlan::new(8).unwrap();
    let want = vec![
        Butterfly { upper: 0, lower: 4, twiddle: 0, rotate: true },
        Butterfly { upper: 1, lower: 5, twiddle: 1, rotate: true },
        Butterfly { upper: 2, lower: 6, twiddle: 2, rotate: true },
        Butterfly { upper: 3, lower: 7, twiddle: 3, rotate: true },
        Butterfly { upper: 0, lower: 2, twiddle: 0, rotate: true },
        Butterfly { upper: 1, lower: 3, twiddle: 2, rotate: true },
        Butterfly { upper: 4, lower: 6, twiddle: 0, rotate: true },
        Butterfly { upper: 5, lower: 7, twiddle: 2, rotate: true },
        Butterfly { upper: 0, lower: 1, twiddle: 0, rotate: false },
        Butterfly { upper: 2, lower: 3, twiddle: 0, rotate: false },
        Butterfly { upper: 4, lower: 5, twiddle: 0, rotate: false },
        Butterfly { upper: 6, lower: 7, twiddle: 0, rotate: false },
    ];
    assert_eq!(plan.butterflies(), &want);
}

#[test]
fn schedule_of_two() {
    let plan = FftPlan::new(2).unwrap();
    let want = vec![Butterfly { upper: 0, lower: 1, twiddle: 0, rotate: false }];
    assert_eq!(plan.butterflies(), &want);
    assert_eq!(plan.reversal(), &vec![0, 1]);
}

#[test]
fn every_stage_touches_every_entry_once() {
    let plan = FftPlan::new(64).unwrap();
    let list = plan.butterflies();
    for stage in 0..6 {
        let mut seen = vec![false; 64];
        for butterfly in &list[stage * 32..(stage + 1) * 32] {
            assert!(butterfly.upper < butterfly.lower);
            assert!(butterfly.lower < 64);
            assert!(butterfly.twiddle < 32);
            assert!(!seen[butterfly.upper]);
            assert!(!seen[butterfly.lower]);
            seen[butterfly.upper] = true;
            seen[butterfly.lower] = true;
        }
        assert!(seen.iter().all(|s| *s));
    }
}

#[test]
fn reversal_of_eight() {
    let plan = FftPlan::new(8).unwrap();
    assert_eq!(plan.reversal(), &vec![0, 4, 2, 6, 1, 5, 3, 7]);
}

#[test]
fn reversal_of_sixteen() {
    let plan = FftPlan::new(16).unwrap();
    assert_eq!(
        plan.reversal(),
        &vec![0, 8, 4, 12, 2, 10, 6, 14, 1, 9, 5, 13, 3, 11, 7, 15]
    );
}

#[test]
fn reorder_reads_the_index_backwards() {
    let plan = FftPlan::new(8).unwrap();
    let mut buffer = vec!['a', 'b', 'c', 'd', 'e', 'f', 'g', 'h'];
    plan.reorder(&mut buffer);
    assert_eq!(buffer, vec!['a', 'e', 'c', 'g', 'b', 'f', 'd', 'h']);
}

#[test]
fn reorder_twice_changes_nothing() {
    let plan = FftPlan::new(128).unwrap();
    let given: Vec<usize> = (0..128).map(|k| k * k + 1).collect();
    let mut buffer = given.clone();
    plan.reorder(&mut buffer);
    assert_ne!(buffer, given);
    plan.reorder(&mut buffer);
    assert_eq!(buffer, given);
}

#[test]
fn reorder_leaves_what_lies_beyond_the_transform() {
    let plan = FftPlan::new(4).unwrap();
    let mut buffer = vec![10, 11, 12, 13, 14, 15];
    plan.reorder(&mut buffer);
    assert_eq!(buffer, vec![10, 12, 11, 13, 14, 15]);
}
