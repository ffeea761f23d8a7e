use phase_vocoder::read::wav_parse;
use phase_vocoder::write::{data_size, wav_header, wav_image};

#[test]
fn header_bytes() {
    let head = wav_header(8, 44100, 16);
    let want: Vec<u8> = vec![
        b'R', b'I', b'F', b'F', 44, 0, 0, 0, b'W', b'A', b'V', b'E', b'f', b'm', b't', b' ', 16,
        0, 0, 0, 1, 0, 1, 0, 0x44, 0xac, 0, 0, 0x88, 0x58, 0x01, 0, 2, 0, 16, 0, b'd', b'a', b't',
        b'a', 8, 0, 0, 0,
    ];
    assert_eq!(head, want);
}

#[test]
fn header_has_forty_four_bytes() {
    assert_eq!(wav_header(0, 0, 0).len(), 44);
    assert_eq!(wav_header(123456789, 96000, 8).len(), 44);
}

#[test]
fn header_of_eight_bits() {
    let head = wav_header(0x01020304, 8000, 8);
    assert_eq!(&head[4..8], &[0x28, 0x03, 0x02, 0x01]);
    assert_eq!(&head[24..28], &[0x40, 0x1f, 0, 0]);
    assert_eq!(&head[28..32], &[0x40, 0x1f, 0, 0]);
    assert_eq!(&head[32..34], &[1, 0]);
    assert_eq!(&head[34..36], &[8, 0]);
    assert_eq!(&head[40..44], &[0x04, 0x03, 0x02, 0x01]);
}

#[test]
fn header_keeps_the_low_bytes_of_a_number() {
    let head = wav_header(0, 0x1_2345, 0x1_0010);
    assert_eq!(&head[24..28], &[0x45, 0x23, 0x01, 0]);
    assert_eq!(&head[34..36], &[0x10, 0]);
    assert_eq!(&head[32..34], &[0x02, 0x20]);
}

#[test]
fn bits_below_eight_make_no_bytes_per_sample() {
    let head = wav_header(0, 44100, 7);
    assert_eq!(&head[28..32], &[0, 0, 0, 0]);
    assert_eq!(&head[32..34], &[0, 0]);
    assert_eq!(&head[34..36], &[7, 0]);
}

#[test]
fn image_of_sixteen_bits() {
    let image = wav_image(&vec![0, 1, -1, 32767, -32768, 0x1234], 12, 44100, 16);
    assert_eq!(image.len(), 44 + 12);
    assert_eq!(&image[..44], &wav_header(12, 44100, 16)[..]);
    assert_eq!(
        &image[44..],
        &[0x00, 0x00, 0x01, 0x00, 0xff, 0xff, 0xff, 0x7f, 0x00, 0x80, 0x34, 0x12]
    );
}

#[test]
fn image_of_eight_bits() {
    let image = wav_image(&vec![0, 127, 128, 255], 4, 22050, 8);
    assert_eq!(image.len(), 48);
    assert_eq!(&image[44..], &[0, 127, 128, 255]);
}

#[test]
fn image_without_samples_is_the_header() {
    assert_eq!(wav_image(&Vec::new(), 0, 44100, 16), wav_header(0, 44100, 16));
}

#[test]
fn image_says_the_size_it_is_given() {
    let image = wav_image(&vec![5, 6], 1000, 44100, 16);
    assert_eq!(image.len(), 48);
    assert_eq!(&image[40..44], &[0xe8, 0x03, 0, 0]);
}

#[test]
fn what_is_written_is_read_back() {
    let samples: Vec<i16> = vec![0, -5, 300, 32767, -32768, 17, -1];
    let image = wav_image(&samples, 14, 48000, 16);
    let wave = wav_parse(&image).unwrap();
    assert_eq!(wave.file_type, "RIFF");
    assert_eq!(wave.riff_type, "WAVE");
    assert_eq!(wave.format_str, "fmt ");
    assert_eq!(wave.data_str, "data");
    assert_eq!(wave.compression_code, "Linear PCM");
    assert_eq!(wave.channels, "Monaural");
    assert_eq!(wave.sample_rate, 48000);
    assert_eq!(wave.bytes_per_second, 96000);
    assert_eq!(wave.block_align, 2);
    assert_eq!(wave.bits_per_sample, 16);
    assert_eq!(wave.chunk_data_size, 14);
    assert_eq!(wave.riff_chunk_size, 50);
    assert_eq!(wave.file_size, 72);
    assert_eq!(wave.sample_data, samples);
}

#[test]
fn what_is_written_in_bytes_is_read_back() {
    let samples: Vec<i16> = vec![0, 1, 200, 255, 128];
    let image = wav_image(&samples, 5, 8000, 8);
    let wave = wav_parse(&image).unwrap();
    assert_eq!(wave.bits_per_sample, 8);
    assert_eq!(wave.sample_data, samples);
}

#[test]
fn data_size_counts_whole_seconds() {
    assert_eq!(data_size(44100, 16, 1, 44100), Some(88200));
    assert_eq!(data_size(44100, 16, 1, 44099), Some(0));
    assert_eq!(data_size(44100, 16, 1, 3 * 44100 + 17), Some(3 * 88200));
    assert_eq!(data_size(8000, 8, 2, 16000), Some(32000));
    assert_eq!(data_size(8000, 7, 1, 16000), Some(0));
    assert_eq!(data_size(1, 8, 1, 5), Some(5));
}

#[test]
fn data_size_of_no_sample_rate_is_refused() {
    assert_eq!(data_size(0, 16, 1, 44100), None);
    assert_eq!(data_size(0, 0, 0, 0), None);
}

#[test]
fn data_size_that_does_not_fit_is_refused() {
    assert_eq!(data_size(usize::MAX, 16, 1, 0), None);
    assert_eq!(data_size(usize::MAX / 2, 8, 3, 0), None);
    assert_eq!(data_size(2, 16, 1, usize::MAX), None);
    assert_eq!(data_size(2, 8, 1, usize::MAX), Some(usize::MAX - 1));
    assert_eq!(data_size(2, 8, 1, usize::MAX - 1), Some(usize::MAX - 1));
    assert_eq!(data_size(usize::MAX, 8, 1, 0), Some(0));
}
