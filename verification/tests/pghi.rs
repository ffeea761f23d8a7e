use phase_vocoder::pghi::{peak, PhaseIntegrator, Step};

fn anchored(step: &Step) -> Option<usize> {
    match *step {
        Step::Initial { bin } => Some(bin),
        Step::Random { bin } => Some(bin),
        Step::Time { bin } => Some(bin),
        Step::Up { from } => Some(from + 1),
        Step::Down { from } => Some(from - 1),
        Step::EdgeUp { .. } => None,
        Step::EdgeDown { .. } => None,
    }
}

fn read(step: &Step) -> Option<usize> {
    match *step {
        Step::Up { from } => Some(from),
        Step::Down { from } => Some(from),
        Step::EdgeUp { bin } => Some(bin),
        Step::EdgeDown { bin } => Some(bin),
        _ => None,
    }
}

fn check_complete(steps: &Vec<Step>, bins: usize) {
    let mut has_phase = vec![false; bins];
    for step in steps {
        if let Some(bin) = read(step) {
            assert!(has_phase[bin]);
        }
        if let Some(bin) = anchored(step) {
            assert!(!has_phase[bin]);
            has_phase[bin] = true;
        }
    }
    assert!(has_phase.iter().all(|b| *b));
}

#[test]
fn first_two_frames_take_the_time_derivative() {
    let mut integrator = PhaseIntegrator::new();
    let current = vec![3, 1, 4, 1];
    let nothing = Vec::new();
    let want = vec![
        Step::Initial { bin: 0 },
        Step::Initial { bin: 1 },
        Step::Initial { bin: 2 },
        Step::Initial { bin: 3 },
    ];
    assert_eq!(integrator.integrate(0, &nothing, &current, 0), want);
    assert_eq!(integrator.integrate(1, &current, &current, 0), want);
}

#[test]
fn propagation_in_time_and_edge_corrections() {
    let mut integrator = PhaseIntegrator::new();
    let previous = vec![5, 1, 9, 3];
    let current = vec![2, 8, 0, 6];
    let steps = integrator.integrate(2, &previous, &current, 1);
    let want = vec![
        Step::Random { bin: 2 },
        Step::Time { bin: 0 },
        Step::Time { bin: 3 },
        Step::EdgeUp { bin: 3 },
        Step::EdgeDown { bin: 0 },
        Step::Time { bin: 1 },
    ];
    assert_eq!(steps, want);
    check_complete(&steps, 4);
}

#[test]
fn propagation_along_the_frequency_axis() {
    let mut integrator = PhaseIntegrator::new();
    let previous = vec![0, 0, 7, 0, 0];
    let current = vec![3, 5, 9, 4, 1];
    let steps = integrator.integrate(7, &previous, &current, 0);
    let want = vec![
        Step::Time { bin: 2 },
        Step::Up { from: 2 },
        Step::Down { from: 2 },
        Step::Down { from: 1 },
        Step::Up { from: 3 },
        Step::EdgeDown { bin: 0 },
        Step::EdgeUp { bin: 4 },
    ];
    assert_eq!(steps, want);
    check_complete(&steps, 5);
}

#[test]
fn equal_magnitudes_are_taken_from_the_top_bin_down() {
    let mut integrator = PhaseIntegrator::new();
    let previous = vec![4, 4];
    let current = vec![1, 1];
    let steps = integrator.integrate(2, &previous, &current, 0);
    let want = vec![
        Step::Time { bin: 1 },
        Step::Time { bin: 0 },
        Step::EdgeUp { bin: 1 },
        Step::EdgeDown { bin: 0 },
    ];
    assert_eq!(steps, want);
}

#[test]
fn silent_frame_is_random_throughout() {
    let mut integrator = PhaseIntegrator::new();
    let previous = vec![9, 9, 9];
    let current = vec![0, 0, 0];
    let steps = integrator.integrate(3, &previous, &current, 0);
    let want = vec![Step::Random { bin: 0 }, Step::Random { bin: 1 }, Step::Random { bin: 2 }];
    assert_eq!(steps, want);
}

#[test]
fn magnitude_at_the_tolerance_is_not_significant() {
    let mut integrator = PhaseIntegrator::new();
    let previous = vec![1, 1, 1];
    let current = vec![5, 6, 5];
    let steps = integrator.integrate(2, &previous, &current, 5);
    let want = vec![
        Step::Random { bin: 0 },
        Step::Random { bin: 2 },
        Step::Time { bin: 1 },
    ];
    assert_eq!(steps, want);
    check_complete(&steps, 3);
}

#[test]
fn frame_without_bins_has_no_steps() {
    let mut integrator = PhaseIntegrator::new();
    let nothing: Vec<u64> = Vec::new();
    assert_eq!(integrator.integrate(0, &nothing, &nothing, 0), Vec::new());
    assert_eq!(integrator.integrate(5, &nothing, &nothing, 0), Vec::new());
}

#[test]
fn single_bin_corrects_itself_upwards() {
    let mut integrator = PhaseIntegrator::new();
    let steps = integrator.integrate(2, &vec![1], &vec![2], 0);
    assert_eq!(steps, vec![Step::Time { bin: 0 }, Step::EdgeUp { bin: 0 }]);
}

#[test]
fn every_bin_receives_its_phase_exactly_once() {
    let mut integrator = PhaseIntegrator::new();
    let mut state: u64 = 99;
    let mut previous: Vec<u64> = vec![0; 64];
    for frame in 0..40usize {
        let mut current = Vec::new();
        for _ in 0..64 {
            state = state.wrapping_mul(6364136223846793005).wrapping_add(1442695040888963407);
            current.push((state >> 40) % 17);
        }
        let tolerance = peak(&current).max(peak(&previous)) / 4;
        let steps = integrator.integrate(frame, &previous, &current, tolerance);
        check_complete(&steps, 64);
        for step in &steps {
            match *step {
                Step::Initial { .. } => assert!(frame < 2),
                Step::Random { bin } => assert!(frame >= 2 && current[bin] <= tolerance),
                Step::Time { bin } => assert!(frame >= 2 && current[bin] > tolerance),
                Step::Up { from } => assert!(current[from + 1] > tolerance),
                Step::Down { from } => assert!(current[from - 1] > tolerance),
                Step::EdgeUp { bin } => assert_eq!(bin, 63),
                Step::EdgeDown { bin } => assert_eq!(bin, 0),
            }
        }
        previous = current;
    }
}

#[test]
fn integrator_starts_each_frame_afresh() {
    let mut used = PhaseIntegrator::new();
    let previous = vec![0, 0, 7, 0, 0];
    let current = vec![3, 5, 9, 4, 1];
    used.integrate(2, &previous, &current, 0);
    used.integrate(3, &current, &previous, 2);
    let mut fresh = PhaseIntegrator::new();
    assert_eq!(
        used.integrate(4, &previous, &current, 0),
        fresh.integrate(4, &previous, &current, 0)
    );
}

#[test]
fn peak_is_the_greatest_magnitude() {
    assert_eq!(peak(&vec![]), 0);
    assert_eq!(peak(&vec![7]), 7);
    assert_eq!(peak(&vec![3, 9, 2, 9, 1]), 9);
    assert_eq!(peak(&vec![0, 0]), 0);
    assert_eq!(peak(&vec![1, u64::MAX, 5]), u64::MAX);
}
