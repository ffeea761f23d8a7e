use phase_vocoder::command::{ConfigError, Mode, DEFAULT_FRAME_SIZE};
use phase_vocoder::framing::Framing;

#[test]
fn default_frame_size() {
    assert_eq!(DEFAULT_FRAME_SIZE, 4096);
}

#[test]
fn modes_differ() {
    assert_eq!(Mode::TimeStretch, Mode::TimeStretch);
    assert_ne!(Mode::TimeStretch, Mode::PitchShift);
    assert_eq!(Mode::PitchShift.clone(), Mode::PitchShift);
}

#[test]
fn frame_size_must_be_a_power_of_two() {
    for frame_size in [0usize, 3, 5, 6, 100, 4095, 4097] {
        let refused = Framing::new(Mode::TimeStretch, frame_size, 512, 44100, 88200);
        assert_eq!(refused.err(), Some(ConfigError::FrameSize));
    }
    for frame_size in [1usize, 2, 4, 1024, 4096] {
        assert!(Framing::new(Mode::TimeStretch, frame_size, 512, 44100, 88200).is_ok());
    }
}

#[test]
fn frame_size_is_looked_at_first() {
    let refused = Framing::new(Mode::PitchShift, 6, 0, 10, 10);
    assert_eq!(refused.err(), Some(ConfigError::FrameSize));
}

#[test]
fn hop_of_zero_is_refused() {
    let refused = Framing::new(Mode::PitchShift, 4096, 0, 44100, 44100);
    assert_eq!(refused.err(), Some(ConfigError::ZeroHop));
}

#[test]
fn lengths_must_fit() {
    let half = usize::MAX / 2 + 1;
    let refused = Framing::new(Mode::TimeStretch, half, 1, 10, 10);
    assert_eq!(refused.err(), Some(ConfigError::TooLarge));
    let refused = Framing::new(Mode::TimeStretch, 4, usize::MAX / 8 + 1, 10, 10);
    assert_eq!(refused.err(), Some(ConfigError::TooLarge));
    let refused = Framing::new(Mode::TimeStretch, half / 2, 1, 16, 10);
    assert_eq!(refused.err(), Some(ConfigError::TooLarge));
    assert!(Framing::new(Mode::TimeStretch, half / 2, 1, 7, 10).is_ok());
    assert!(Framing::new(Mode::TimeStretch, 4, usize::MAX / 8, usize::MAX, usize::MAX).is_ok());
}

#[test]
fn lengths_of_a_stretch_by_two() {
    let framing = Framing::new(Mode::TimeStretch, 4096, 512, 44100, 88200).unwrap();
    assert_eq!(framing.mode(), Mode::TimeStretch);
    assert_eq!(framing.frame_size(), 4096);
    assert_eq!(framing.fft_size(), 8192);
    assert_eq!(framing.analysis_hop(), 512);
    assert_eq!(framing.synthesis_hop(), 1024);
    assert_eq!(framing.frame_count(), 86);
    assert_eq!(framing.output_len(), 88200);
    assert_eq!(framing.resampled_len(), 4096);
}

#[test]
fn frames_lie_a_hop_apart() {
    let framing = Framing::new(Mode::TimeStretch, 4096, 512, 44100, 88200).unwrap();
    assert_eq!(framing.analysis_offset(0), 0);
    assert_eq!(framing.analysis_offset(1), 512);
    assert_eq!(framing.analysis_offset(85), 43520);
    assert_eq!(framing.synthesis_offset(0), 0);
    assert_eq!(framing.synthesis_offset(1), 1024);
    assert_eq!(framing.synthesis_offset(85), 87040);
}

#[test]
fn pitch_shift_places_frames_where_it_took_them() {
    let framing = Framing::new(Mode::PitchShift, 4096, 512, 44100, 44100).unwrap();
    assert_eq!(framing.mode(), Mode::PitchShift);
    assert_eq!(framing.synthesis_offset(3), 1536);
    assert_eq!(framing.synthesis_offset(85), framing.analysis_offset(85));
}

#[test]
fn frame_at_the_end_takes_what_is_there() {
    let framing = Framing::new(Mode::TimeStretch, 4096, 512, 44100, 88200).unwrap();
    assert_eq!(framing.analysis_extent(0), 4096);
    assert_eq!(framing.analysis_extent(78), 4096);
    assert_eq!(framing.analysis_extent(79), 44100 - 79 * 512);
    assert_eq!(framing.analysis_extent(85), 580);
}

#[test]
fn frame_is_cut_where_the_output_ends() {
    let framing = Framing::new(Mode::TimeStretch, 4096, 512, 44100, 88200).unwrap();
    assert_eq!(framing.synthesis_extent(0, 8192), 4096);
    assert_eq!(framing.synthesis_extent(82, 8192), 4096);
    assert_eq!(framing.synthesis_extent(83, 8192), 88200 - 83 * 1024);
    assert_eq!(framing.synthesis_extent(85, 8192), 1160);
}

#[test]
fn frame_beyond_the_output_adds_nothing() {
    let framing = Framing::new(Mode::TimeStretch, 16, 1, 100, 50).unwrap();
    assert_eq!(framing.synthesis_offset(12), 48);
    assert_eq!(framing.synthesis_extent(12, 32), 2);
    assert_eq!(framing.synthesis_offset(13), 52);
    assert_eq!(framing.synthesis_extent(13, 32), 0);
    assert_eq!(framing.synthesis_extent(99, 32), 0);
}

#[test]
fn short_frame_adds_what_it_has() {
    let framing = Framing::new(Mode::PitchShift, 4096, 256, 44100, 44100).unwrap();
    assert_eq!(framing.resampled_len(), 2048);
    assert_eq!(framing.synthesis_extent(0, 2048), 2048);
    assert_eq!(framing.synthesis_extent(0, 0), 0);
}

#[test]
fn signal_shorter_than_a_hop_has_no_frame() {
    let framing = Framing::new(Mode::TimeStretch, 4096, 1024, 1000, 2000).unwrap();
    assert_eq!(framing.frame_count(), 0);
}

#[test]
fn small_frames_have_no_synthesis_hop() {
    let framing = Framing::new(Mode::TimeStretch, 2, 1, 10, 10).unwrap();
    assert_eq!(framing.synthesis_hop(), 0);
    assert_eq!(framing.fft_size(), 4);
    assert_eq!(framing.synthesis_offset(9), 0);
    let framing = Framing::new(Mode::TimeStretch, 4, 1, 10, 10).unwrap();
    assert_eq!(framing.synthesis_hop(), 1);
}

#[test]
fn stretch_by_two_places_frames_over_twice_the_length() {
    let input_len = 44100;
    let framing = Framing::new(Mode::TimeStretch, 4096, 512, input_len, 2 * input_len).unwrap();
    let placed = framing.frame_count() * framing.synthesis_hop();
    assert!(placed <= 2 * input_len);
    assert!(2 * input_len - placed < 4096);
    let last = framing.frame_count() - 1;
    assert!(framing.synthesis_offset(last) + framing.synthesis_extent(last, 8192) <= 2 * input_len);
}

#[test]
fn pitch_shift_by_two_keeps_the_length() {
    let input_len = 44100;
    let framing = Framing::new(Mode::PitchShift, 4096, 512, input_len, input_len).unwrap();
    let placed = framing.frame_count() * framing.analysis_hop();
    assert!(placed <= input_len);
    assert!(input_len - placed < 512);
    assert_eq!(framing.output_len(), input_len);
    assert_eq!(framing.resampled_len(), framing.fft_size() / 2);
}

#[test]
fn frames_leave_less_than_a_hop() {
    for input_len in [0usize, 1, 511, 512, 513, 44100, 1 << 20] {
        for hop in [1usize, 3, 512, 1000] {
            let framing = Framing::new(Mode::TimeStretch, 1024, hop, input_len, input_len).unwrap();
            let frames = framing.frame_count();
            assert!(frames * hop <= input_len);
            assert!(input_len < (frames + 1) * hop);
            if frames > 0 {
                assert!(framing.analysis_offset(frames - 1) + hop <= input_len);
            }
        }
    }
}

#[test]
fn centering_swaps_the_halves() {
    let framing = Framing::new(Mode::TimeStretch, 4, 1, 10, 10).unwrap();
    let mut buffer = vec![1, 2, 3, 4, 0, 0, 0, 0];
    framing.center(&mut buffer);
    assert_eq!(buffer, vec![0, 0, 0, 0, 1, 2, 3, 4]);
    let mut turned_by_std = vec![1, 2, 3, 4, 0, 0, 0, 0];
    turned_by_std.rotate_right(4);
    assert_eq!(buffer, turned_by_std);
    let mut buffer = vec!['a', 'b', 'c', 'd', 'e', 'f', 'g', 'h'];
    framing.center(&mut buffer);
    assert_eq!(buffer, vec!['e', 'f', 'g', 'h', 'a', 'b', 'c', 'd']);
}

#[test]
fn centering_twice_changes_nothing() {
    let framing = Framing::new(Mode::PitchShift, 64, 8, 1000, 1000).unwrap();
    let given: Vec<usize> = (0..128).map(|k| 3 * k + 1).collect();
    let mut buffer = given.clone();
    framing.center(&mut buffer);
    assert_ne!(buffer, given);
    let mut left = given.clone();
    left.rotate_left(64);
    assert_eq!(buffer, left);
    framing.center(&mut buffer);
    assert_eq!(buffer, given);
}

#[test]
fn centering_a_frame_of_one_sample() {
    let framing = Framing::new(Mode::TimeStretch, 1, 1, 10, 10).unwrap();
    let mut buffer = vec![7, 0];
    framing.center(&mut buffer);
    assert_eq!(buffer, vec![0, 7]);
}
