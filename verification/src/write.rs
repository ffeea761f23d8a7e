//! Encoding of a RIFF/WAVE image: the 44 bytes of the header and the PCM
//! samples, one channel, no compression.

use crate::read::{describes, field_of, little_endian, pcm16, samples_of, tags_valid, Wave};
use vstd::arithmetic::div_mod::lemma_breakdown;
use vstd::prelude::*;
use vstd::utf8::{
    decode_utf8, encode_utf8, encode_utf8_decode_utf8, encode_utf8_valid_utf8,
    is_ascii_chars_encode_utf8, valid_utf8,
};

verus! {

/// The `count` low bytes of `value`, least significant first.
pub open spec fn low_bytes(value: nat, count: nat) -> Seq<u8>
    decreases count,
{
    if count == 0 {
        Seq::empty()
    } else {
        seq![(value % 256) as u8] + low_bytes(value / 256, (count - 1) as nat)
    }
}

/// The bytes of `RIFF`.
pub open spec fn riff_tag() -> Seq<u8> {
    seq![0x52u8, 0x49u8, 0x46u8, 0x46u8]
}

/// The bytes of `WAVE`.
pub open spec fn wave_tag() -> Seq<u8> {
    seq![0x57u8, 0x41u8, 0x56u8, 0x45u8]
}

/// The bytes of `fmt `.
pub open spec fn fmt_tag() -> Seq<u8> {
    seq![0x66u8, 0x6du8, 0x74u8, 0x20u8]
}

/// The bytes of `data`.
pub open spec fn data_tag() -> Seq<u8> {
    seq![0x64u8, 0x61u8, 0x74u8, 0x61u8]
}

/// The header of an image whose data chunk is said to hold `size` bytes, at
/// `fs` samples per second and `bit` bits per sample: the tag `RIFF`, the
/// length of what follows these eight bytes, the tags `WAVE` and `fmt `, the
/// length 16 of the format chunk, compression code 1, one channel, the sample
/// rate, the bytes per second, the bytes per sample, the bits per sample, the
/// tag `data` and the length of the data. Every number stands with its low
/// byte first and keeps as many low bytes as its field has.
pub open spec fn header_image(size: nat, fs: nat, bit: nat) -> Seq<u8> {
    riff_tag() + low_bytes(size + 36, 4) + wave_tag() + fmt_tag() + low_bytes(16, 4) + low_bytes(
        1,
        2,
    ) + low_bytes(1, 2) + low_bytes(fs, 4) + low_bytes(fs * (bit / 8), 4) + low_bytes(bit / 8, 2)
        + low_bytes(bit, 2) + data_tag() + low_bytes(size, 4)
}

/// The bytes of one sample at `bit` bits per sample: the sample itself at
/// eight bits, else its two bytes in two's complement, the low one first.
pub open spec fn sample_image(sample: i16, bit: nat) -> Seq<u8> {
    if bit == 8 {
        seq![sample as u8]
    } else if sample >= 0 {
        low_bytes(sample as nat, 2)
    } else {
        low_bytes((sample + 65536) as nat, 2)
    }
}

/// The bytes of the first `upto` samples, one after the other.
pub open spec fn body_image(samples: Seq<i16>, bit: nat, upto: int) -> Seq<u8>
    decreases upto,
{
    if upto <= 0 {
        Seq::empty()
    } else {
        body_image(samples, bit, upto - 1) + sample_image(samples[upto - 1], bit)
    }
}

/// Whether every sample fits the width: at eight bits a sample is a byte.
pub open spec fn fits_width(samples: Seq<i16>, bit: nat) -> bool {
    bit == 8 ==> forall|i: int| 0 <= i < samples.len() ==> 0 <= #[trigger] samples[i] <= 255
}

/// Appends the `count` low bytes of `value` to `bytes`.
fn push_low_bytes(bytes: &mut Vec<u8>, value: usize, count: usize)
    ensures
        final(bytes)@ == old(bytes)@ + low_bytes(value as nat, count as nat),
{
    let mut rest: usize = value;
    let mut i: usize = 0;
    proof {
        assert(bytes@ =~= old(bytes)@ + Seq::<u8>::empty());
    }
    while i < count
        invariant
            i <= count,
            old(bytes)@ + low_bytes(value as nat, count as nat) == bytes@ + low_bytes(
                rest as nat,
                (count - i) as nat,
            ),
        decreases count - i,
    {
        let ghost before = bytes@;
        bytes.push((rest % 256) as u8);
        proof {
            let next = low_bytes((rest / 256) as nat, (count - i - 1) as nat);
            assert(before + (seq![(rest % 256) as u8] + next) =~= bytes@ + next);
        }
        rest = rest / 256;
        i += 1;
    }
    proof {
        assert(bytes@ + Seq::<u8>::empty() =~= bytes@);
    }
}

/// Appends the four bytes of a tag to `bytes`.
fn push_tag(bytes: &mut Vec<u8>, a: u8, b: u8, c: u8, d: u8)
    ensures
        final(bytes)@ == old(bytes)@ + seq![a, b, c, d],
{
    bytes.push(a);
    bytes.push(b);
    bytes.push(c);
    bytes.push(d);
    proof {
        assert(bytes@ =~= old(bytes)@ + seq![a, b, c, d]);
    }
}

/// The header of an image: see [`header_image`].
pub fn wav_header(size: usize, fs: usize, bit: usize) -> (head: Vec<u8>)
    requires
        size + 44 <= usize::MAX,
        fs * (bit / 8) <= usize::MAX,
    ensures
        head@ == header_image(size as nat, fs as nat, bit as nat),
        head@.len() == 44,
{
    let mut head: Vec<u8> = Vec::new();
    let filesize: usize = 44 + size;
    // Chunk ID
    push_tag(&mut head, 0x52, 0x49, 0x46, 0x46);
    // Chunk Data Size
    push_low_bytes(&mut head, filesize - 8, 4);
    // RIFF Type
    push_tag(&mut head, 0x57, 0x41, 0x56, 0x45);
    // Chunk ID
    push_tag(&mut head, 0x66, 0x6d, 0x74, 0x20);
    // Chunk Data Size
    push_low_bytes(&mut head, 16, 4);
    // Compression Code
    push_low_bytes(&mut head, 1, 2);
    // Number of channels
    push_low_bytes(&mut head, 1, 2);
    // Sample rate
    push_low_bytes(&mut head, fs, 4);
    // Average bytes per second
    push_low_bytes(&mut head, fs * (bit / 8), 4);
    // Block align
    push_low_bytes(&mut head, bit / 8, 2);
    // Significant bits per sample
    push_low_bytes(&mut head, bit, 2);
    // Chunk ID
    push_tag(&mut head, 0x64, 0x61, 0x74, 0x61);
    // chunk size
    push_low_bytes(&mut head, size, 4);
    proof {
        lemma_low_bytes_len(size as nat + 36, 4);
        lemma_low_bytes_len(16, 4);
        lemma_low_bytes_len(1, 2);
        lemma_low_bytes_len(fs as nat, 4);
        lemma_low_bytes_len((fs * (bit / 8)) as nat, 4);
        lemma_low_bytes_len((bit / 8) as nat, 2);
        lemma_low_bytes_len(bit as nat, 2);
        lemma_low_bytes_len(size as nat, 4);
    }
    head
}

/// `low_bytes` gives as many bytes as it is asked for.
pub proof fn lemma_low_bytes_len(value: nat, count: nat)
    ensures
        low_bytes(value, count).len() == count,
    decreases count,
{
    if count > 0 {
        lemma_low_bytes_len(value / 256, (count - 1) as nat);
    }
}

/// Appends the bytes of one sample to `bytes`.
fn push_sample(bytes: &mut Vec<u8>, sample: i16, bit: usize)
    requires
        bit == 8 ==> 0 <= sample <= 255,
    ensures
        final(bytes)@ == old(bytes)@ + sample_image(sample, bit as nat),
{
    if bit == 8 {
        bytes.push(sample as u8);
        proof {
            assert(bytes@ =~= old(bytes)@ + seq![sample as u8]);
        }
    } else if sample >= 0 {
        push_low_bytes(bytes, sample as usize, 2);
    } else {
        let lifted: i32 = sample as i32 + 65536;
        push_low_bytes(bytes, lifted as usize, 2);
    }
}

/// The image of a recording: the header, then the samples one after the
/// other.
///
/// `size` is what the header says of the length of the data; it is written
/// as given, whatever the number of the samples.
pub fn wav_image(samples: &Vec<i16>, size: usize, fs: usize, bit: usize) -> (image: Vec<u8>)
    requires
        size + 44 <= usize::MAX,
        fs * (bit / 8) <= usize::MAX,
        fits_width(samples@, bit as nat),
    ensures
        image@ == header_image(size as nat, fs as nat, bit as nat) + body_image(
            samples@,
            bit as nat,
            samples.len() as int,
        ),
{
    let mut image = wav_header(size, fs, bit);
    let ghost head = image@;
    let mut i: usize = 0;
    proof {
        assert(image@ =~= head + body_image(samples@, bit as nat, 0));
    }
    while i < samples.len()
        invariant
            i <= samples.len(),
            fits_width(samples@, bit as nat),
            image@ == head + body_image(samples@, bit as nat, i as int),
        decreases samples.len() - i,
    {
        let ghost before = image@;
        push_sample(&mut image, samples[i], bit);
        proof {
            let body = body_image(samples@, bit as nat, i as int);
            let one = sample_image(samples@[i as int], bit as nat);
            assert(before + one =~= head + (body + one));
        }
        i += 1;
    }
    image
}

/// The number of bytes that the whole seconds of a recording take: the
/// samples of a second, times the bytes of a sample, times the channels,
/// times the seconds that `samples` samples fill.
pub open spec fn seconds_size(fs: nat, bit: nat, channels: nat, samples: nat) -> nat {
    fs * (bit / 8) * channels * (samples / fs)
}

/// The number of bytes that the whole seconds of a recording take; `None`
/// where the sample rate is zero or where a product on the way does not fit
/// the machine word.
pub fn data_size(fs: usize, bit: usize, channels: usize, samples: usize) -> (size: Option<usize>)
    ensures
        size is Some <==> fs > 0 && fs * (bit / 8) <= usize::MAX && fs * (bit / 8) * channels
            <= usize::MAX && seconds_size(fs as nat, bit as nat, channels as nat, samples as nat)
            <= usize::MAX,
        size matches Some(n) ==> n == seconds_size(
            fs as nat,
            bit as nat,
            channels as nat,
            samples as nat,
        ),
{
    if fs == 0 {
        return None;
    }
    let second = match fs.checked_mul(bit / 8) {
        Some(n) => n,
        None => {
            return None;
        },
    };
    let all = match second.checked_mul(channels) {
        Some(n) => n,
        None => {
            return None;
        },
    };
    all.checked_mul(samples / fs)
}

/// Two low bytes spell what is left of a number after division by 65536.
proof fn lemma_low_bytes_pair(value: nat)
    ensures
        low_bytes(value, 2).len() == 2,
        little_endian(low_bytes(value, 2)) == value % 0x1_0000,
        low_bytes(value, 2)[0] == value % 256,
        low_bytes(value, 2)[1] == value / 256 % 256,
{
    reveal_with_fuel(low_bytes, 3);
    reveal_with_fuel(little_endian, 3);
    let bytes = low_bytes(value, 2);
    assert(bytes =~= seq![(value % 256) as u8, (value / 256 % 256) as u8]);
    assert(bytes.drop_first() =~= seq![(value / 256 % 256) as u8]);
    assert(bytes.drop_first().drop_first() =~= Seq::<u8>::empty());
    lemma_breakdown(value as int, 256, 256);
}

/// Four low bytes spell what is left of a number after division by two to
/// the thirty-second.
proof fn lemma_low_bytes_word(value: nat)
    ensures
        low_bytes(value, 4).len() == 4,
        little_endian(low_bytes(value, 4)) == value % 0x1_0000_0000,
{
    reveal_with_fuel(low_bytes, 3);
    let bytes = low_bytes(value, 4);
    let upper = low_bytes(value / 256 / 256, 2);
    lemma_low_bytes_pair(value / 256 / 256);
    lemma_low_bytes_len(value, 4);
    let middle = seq![(value / 256 % 256) as u8] + upper;
    assert(bytes =~= seq![(value % 256) as u8] + middle);
    assert(bytes.drop_first() =~= middle);
    assert(middle.drop_first() =~= upper);
    assert(little_endian(middle) == middle.first() + 256 * little_endian(middle.drop_first()));
    assert(little_endian(bytes) == bytes.first() + 256 * little_endian(bytes.drop_first()));
    lemma_breakdown((value / 256) as int, 256, 0x1_0000);
    lemma_breakdown(value as int, 256, 0x100_0000);
}

/// A tag of four ASCII characters is UTF-8 and spells those characters.
proof fn lemma_tag(bytes: Seq<u8>, text: Seq<char>)
    requires
        text.len() == 4,
        bytes.len() == 4,
        forall|i: int| 0 <= i < 4 ==> '\0' <= #[trigger] text[i] <= '\u{7f}',
        forall|i: int| 0 <= i < 4 ==> #[trigger] bytes[i] == text[i] as u8,
    ensures
        valid_utf8(bytes),
        decode_utf8(bytes) == text,
{
    is_ascii_chars_encode_utf8(text);
    assert(encode_utf8(text) =~= bytes);
    encode_utf8_valid_utf8(text);
    encode_utf8_decode_utf8(text);
}

/// The bytes of the samples, one by one.
proof fn lemma_body_image(samples: Seq<i16>, bit: nat, upto: int)
    requires
        0 <= upto <= samples.len(),
        fits_width(samples, bit),
    ensures
        bit == 8 ==> body_image(samples, bit, upto).len() == upto,
        bit == 8 ==> forall|k: int|
            0 <= k < upto ==> #[trigger] body_image(samples, bit, upto)[k] == samples[k],
        bit != 8 ==> body_image(samples, bit, upto).len() == 2 * upto,
        bit != 8 ==> forall|k: int|
            0 <= k < upto ==> pcm16(
                body_image(samples, bit, upto)[2 * k],
                body_image(samples, bit, upto)[2 * k + 1],
            ) == #[trigger] samples[k],
    decreases upto,
{
    if upto > 0 {
        lemma_body_image(samples, bit, upto - 1);
        let before = body_image(samples, bit, upto - 1);
        let sample = samples[upto - 1];
        let one = sample_image(sample, bit);
        let all = body_image(samples, bit, upto);
        assert(all == before + one);
        if bit == 8 {
            assert forall|k: int| 0 <= k < upto implies #[trigger] all[k] == samples[k] by {
                if k < upto - 1 {
                    assert(all[k] == before[k]);
                } else {
                    assert(all[k] == one[0]);
                }
            }
        } else {
            let lifted = if sample >= 0 {
                sample as nat
            } else {
                (sample + 65536) as nat
            };
            lemma_low_bytes_pair(lifted);
            assert(one == low_bytes(lifted, 2));
            assert forall|k: int| 0 <= k < upto implies pcm16(all[2 * k], all[2 * k + 1])
                == #[trigger] samples[k] by {
                if k < upto - 1 {
                    assert(all[2 * k] == before[2 * k]);
                    assert(all[2 * k + 1] == before[2 * k + 1]);
                    assert(pcm16(before[2 * k], before[2 * k + 1]) == samples[k]);
                } else {
                    assert(all[2 * k] == one[0]);
                    assert(all[2 * k + 1] == one[1]);
                }
            }
        }
    }
}

/// A field that ends inside the header is cut from the header alone.
proof fn lemma_field_of_head(head: Seq<u8>, body: Seq<u8>, start: int, len: int)
    requires
        0 <= start,
        0 <= len,
        start + len <= head.len(),
    ensures
        field_of(head + body, start, len) == head.subrange(start, start + len),
{
    assert(field_of(head + body, start, len) =~= head.subrange(start, start + len));
}

/// The header has 44 bytes, and its four tags stand where an image has them.
proof fn lemma_header_tags(size: nat, fs: nat, bit: nat)
    ensures
        header_image(size, fs, bit).len() == 44,
        header_image(size, fs, bit).subrange(0, 4) == riff_tag(),
        header_image(size, fs, bit).subrange(8, 12) == wave_tag(),
        header_image(size, fs, bit).subrange(12, 16) == fmt_tag(),
        header_image(size, fs, bit).subrange(36, 40) == data_tag(),
{
    let head = header_image(size, fs, bit);
    lemma_header_lengths(size, fs, bit);
    assert(head.subrange(0, 4) =~= riff_tag());
    assert(head.subrange(8, 12) =~= wave_tag());
    assert(head.subrange(12, 16) =~= fmt_tag());
    assert(head.subrange(36, 40) =~= data_tag());
}

/// The numbers of the header stand where an image has them.
proof fn lemma_header_numbers(size: nat, fs: nat, bit: nat)
    ensures
        header_image(size, fs, bit).len() == 44,
        header_image(size, fs, bit).subrange(4, 8) == low_bytes(size + 36, 4),
        header_image(size, fs, bit).subrange(16, 20) == low_bytes(16, 4),
        header_image(size, fs, bit).subrange(20, 22) == low_bytes(1, 2),
        header_image(size, fs, bit).subrange(22, 24) == low_bytes(1, 2),
        header_image(size, fs, bit).subrange(24, 28) == low_bytes(fs, 4),
        header_image(size, fs, bit).subrange(28, 32) == low_bytes(fs * (bit / 8), 4),
        header_image(size, fs, bit).subrange(32, 34) == low_bytes(bit / 8, 2),
        header_image(size, fs, bit).subrange(34, 36) == low_bytes(bit, 2),
        header_image(size, fs, bit).subrange(40, 44) == low_bytes(size, 4),
{
    let head = header_image(size, fs, bit);
    lemma_header_lengths(size, fs, bit);
    assert(head.subrange(4, 8) =~= low_bytes(size + 36, 4));
    assert(head.subrange(16, 20) =~= low_bytes(16, 4));
    assert(head.subrange(20, 22) =~= low_bytes(1, 2));
    assert(head.subrange(22, 24) =~= low_bytes(1, 2));
    assert(head.subrange(24, 28) =~= low_bytes(fs, 4));
    assert(head.subrange(28, 32) =~= low_bytes(fs * (bit / 8), 4));
    assert(head.subrange(32, 34) =~= low_bytes(bit / 8, 2));
    assert(head.subrange(34, 36) =~= low_bytes(bit, 2));
    assert(head.subrange(40, 44) =~= low_bytes(size, 4));
}

/// The lengths of the parts of the header.
proof fn lemma_header_lengths(size: nat, fs: nat, bit: nat)
    ensures
        header_image(size, fs, bit).len() == 44,
        low_bytes(size + 36, 4).len() == 4,
        low_bytes(16, 4).len() == 4,
        low_bytes(1, 2).len() == 2,
        low_bytes(fs, 4).len() == 4,
        low_bytes(fs * (bit / 8), 4).len() == 4,
        low_bytes(bit / 8, 2).len() == 2,
        low_bytes(bit, 2).len() == 2,
        low_bytes(size, 4).len() == 4,
{
    lemma_low_bytes_len(size + 36, 4);
    lemma_low_bytes_len(16, 4);
    lemma_low_bytes_len(1, 2);
    lemma_low_bytes_len(fs, 4);
    lemma_low_bytes_len(fs * (bit / 8), 4);
    lemma_low_bytes_len(bit / 8, 2);
    lemma_low_bytes_len(bit, 2);
    lemma_low_bytes_len(size, 4);
}

/// The four tags of a header are UTF-8 and spell `RIFF`, `WAVE`, `fmt ` and
/// `data`.
proof fn lemma_tags()
    ensures
        valid_utf8(riff_tag()) && decode_utf8(riff_tag()) == "RIFF"@,
        valid_utf8(wave_tag()) && decode_utf8(wave_tag()) == "WAVE"@,
        valid_utf8(fmt_tag()) && decode_utf8(fmt_tag()) == "fmt "@,
        valid_utf8(data_tag()) && decode_utf8(data_tag()) == "data"@,
{
    reveal_strlit("RIFF");
    reveal_strlit("WAVE");
    reveal_strlit("fmt ");
    reveal_strlit("data");
    lemma_tag(riff_tag(), "RIFF"@);
    lemma_tag(wave_tag(), "WAVE"@);
    lemma_tag(fmt_tag(), "fmt "@);
    lemma_tag(data_tag(), "data"@);
}

/// What is written is accepted: an image that begins with a header has the
/// length of a header at least, and its four tags are UTF-8. It is what
/// `wav_parse` asks of an image that it reads.
pub proof fn lemma_written_is_accepted(body: Seq<u8>, size: nat, fs: nat, bit: nat)
    ensures
        (header_image(size, fs, bit) + body).len() >= 44,
        tags_valid(header_image(size, fs, bit) + body),
{
    let head = header_image(size, fs, bit);
    lemma_header_tags(size, fs, bit);
    lemma_field_of_head(head, body, 0, 4);
    lemma_field_of_head(head, body, 8, 4);
    lemma_field_of_head(head, body, 12, 4);
    lemma_field_of_head(head, body, 36, 4);
    lemma_tags();
}

/// The header that is written is read back: an image that begins with a
/// header has the four tags of an image, and whatever it is read as has the
/// tags and the codes of a recording of one channel without compression, and
/// the numbers that the header was made from, as far as their fields hold
/// them.
pub proof fn lemma_written_header_is_read(wave: Wave, body: Seq<u8>, size: nat, fs: nat, bit: nat)
    requires
        describes(wave, header_image(size, fs, bit) + body),
    ensures
        tags_valid(header_image(size, fs, bit) + body),
        wave.file_type@ == "RIFF"@,
        wave.riff_type@ == "WAVE"@,
        wave.format_str@ == "fmt "@,
        wave.data_str@ == "data"@,
        wave.compression_code@ == "Linear PCM"@,
        wave.channels@ == "Monaural"@,
        wave.format_data_size == 16,
        wave.riff_chunk_size == (size + 36) % 0x1_0000_0000,
        wave.chunk_data_size == size % 0x1_0000_0000,
        wave.sample_rate == fs % 0x1_0000_0000,
        wave.bytes_per_second == (fs * (bit / 8)) % 0x1_0000_0000,
        wave.block_align == (bit / 8) % 0x1_0000,
        wave.bits_per_sample == bit % 0x1_0000,
{
    let head = header_image(size, fs, bit);
    lemma_header_tags(size, fs, bit);
    lemma_header_numbers(size, fs, bit);
    lemma_field_of_head(head, body, 0, 4);
    lemma_field_of_head(head, body, 4, 4);
    lemma_field_of_head(head, body, 8, 4);
    lemma_field_of_head(head, body, 12, 4);
    lemma_field_of_head(head, body, 16, 4);
    lemma_field_of_head(head, body, 20, 2);
    lemma_field_of_head(head, body, 22, 2);
    lemma_field_of_head(head, body, 24, 4);
    lemma_field_of_head(head, body, 28, 4);
    lemma_field_of_head(head, body, 32, 2);
    lemma_field_of_head(head, body, 34, 2);
    lemma_field_of_head(head, body, 36, 4);
    lemma_field_of_head(head, body, 40, 4);
    lemma_tags();
    lemma_low_bytes_word(size + 36);
    lemma_low_bytes_word(16);
    lemma_low_bytes_pair(1);
    lemma_low_bytes_word(fs);
    lemma_low_bytes_word(fs * (bit / 8));
    lemma_low_bytes_pair(bit / 8);
    lemma_low_bytes_pair(bit);
    lemma_low_bytes_word(size);
}

/// The samples that are written are read back.
pub proof fn lemma_written_samples_are_read(samples: Seq<i16>, bit: nat)
    requires
        fits_width(samples, bit),
    ensures
        samples_of(bit, body_image(samples, bit, samples.len() as int)) == samples,
{
    lemma_body_image(samples, bit, samples.len() as int);
    assert(samples_of(bit, body_image(samples, bit, samples.len() as int)) =~= samples);
}

/// What is written is read back: an image made of a header and of samples
/// passes for an image, and whatever it is read as has the samples that were
/// written and the bits per sample that they were written with.
pub proof fn lemma_written_is_read(wave: Wave, samples: Seq<i16>, size: nat, fs: nat, bit: nat)
    requires
        fits_width(samples, bit),
        bit < 0x1_0000,
        describes(
            wave,
            header_image(size, fs, bit) + body_image(samples, bit, samples.len() as int),
        ),
    ensures
        tags_valid(header_image(size, fs, bit) + body_image(samples, bit, samples.len() as int)),
        wave.bits_per_sample == bit,
        wave.sample_data@ == samples,
{
    let head = header_image(size, fs, bit);
    let body = body_image(samples, bit, samples.len() as int);
    lemma_written_header_is_read(wave, body, size, fs, bit);
    lemma_written_samples_are_read(samples, bit);
    lemma_header_lengths(size, fs, bit);
    lemma_samples_follow(wave, head, body);
}

/// The samples of an image are read from what follows its header.
proof fn lemma_samples_follow(wave: Wave, head: Seq<u8>, body: Seq<u8>)
    requires
        head.len() == 44,
        describes(wave, head + body),
    ensures
        wave.sample_data@ == samples_of(wave.bits_per_sample as nat, body),
{
    assert((head + body).subrange(44, (head + body).len() as int) =~= body);
}

/// What is read can be written: samples read at eight bits are bytes.
pub proof fn lemma_read_fits(bit: nat, data: Seq<u8>)
    ensures
        fits_width(samples_of(bit, data), bit),
{
}

/// What is read is written back: the samples read from some bytes are
/// written as those bytes. At more than eight bits a byte without a partner
/// is not read, and so not written.
pub proof fn lemma_read_is_written(bit: nat, data: Seq<u8>, upto: int)
    requires
        0 <= upto <= samples_of(bit, data).len(),
    ensures
        body_image(samples_of(bit, data), bit, upto) == data.take(
            if bit == 8 {
                upto
            } else {
                2 * upto
            },
        ),
    decreases upto,
{
    let samples = samples_of(bit, data);
    if upto > 0 {
        lemma_read_is_written(bit, data, upto - 1);
        let sample = samples[upto - 1];
        if bit == 8 {
            assert(sample == data[upto - 1] as i16);
            assert(sample_image(sample, bit) =~= seq![data[upto - 1]]);
            assert(data.take(upto - 1) + seq![data[upto - 1]] =~= data.take(upto));
        } else {
            let low = data[2 * (upto - 1)];
            let high = data[2 * (upto - 1) + 1];
            assert(sample == pcm16(low, high) as i16);
            let lifted = (low + 256 * high) as nat;
            lemma_low_bytes_pair(lifted);
            assert(sample_image(sample, bit) =~= seq![low, high]);
            assert(data.take(2 * (upto - 1)) + seq![low, high] =~= data.take(2 * upto));
        }
    } else {
        assert(body_image(samples, bit, upto) =~= data.take(0));
    }
}

} // verus!
