//! Decoding of a RIFF/WAVE image held in memory: the 44 bytes of the header
//! and the PCM samples that follow them.

use core::num::ParseIntError;
use std::string::FromUtf8Error;
use vstd::prelude::*;
use vstd::string::StringExecFns;
use vstd::utf8::{decode_utf8, valid_utf8};

verus! {

/// The error of `usize::from_str_radix`, carried as it comes.
#[verifier::external_type_specification]
#[verifier::external_body]
pub struct ExParseIntError(ParseIntError);

/// The error of `String::from_utf8`, carried as it comes.
#[verifier::external_type_specification]
#[verifier::external_body]
pub struct ExFromUtf8Error(FromUtf8Error);

/// The error of the input and output of `std`, carried as it comes.
#[verifier::external_type_specification]
#[verifier::external_body]
pub struct ExIoError(std::io::Error);

/// Why an image could not be read.
#[derive(Debug)]
pub enum WaveParseError {
    /// The image could not be had from its source, or ends before its
    /// header does.
    IoError(std::io::Error),
    /// A tag of the header is not UTF-8.
    FromUtf8Error(FromUtf8Error),
    /// A number of the header does not fit the machine word.
    ParseIntError(ParseIntError),
}

pub type WaveResult<T> = Result<T, WaveParseError>;

impl WaveParseError {
    /// What went wrong, in words.
    pub open spec fn spec_message(self) -> Seq<char> {
        match self {
            WaveParseError::IoError(_) => "failed to open file"@,
            WaveParseError::FromUtf8Error(_) => "failed to convert bytes to utf-8 string"@,
            WaveParseError::ParseIntError(_) => "failed to convert string to hexadecimal integer"@,
        }
    }

    /// What went wrong, in words.
    pub fn message(&self) -> (text: String)
        ensures
            text@ == self.spec_message(),
    {
        match self {
            WaveParseError::IoError(_) => "failed to open file".to_string(),
            WaveParseError::FromUtf8Error(_) => "failed to convert bytes to utf-8 string".to_string(),
            WaveParseError::ParseIntError(_) => "failed to convert string to hexadecimal integer".to_string(),
        }
    }
}

/// The number that `bytes` spell, least significant byte first.
pub open spec fn little_endian(bytes: Seq<u8>) -> nat
    decreases bytes.len(),
{
    if bytes.len() == 0 {
        0
    } else {
        bytes.first() as nat + 256 * little_endian(bytes.drop_first())
    }
}

/// The number that `bytes` spell, most significant byte first.
pub open spec fn big_endian(bytes: Seq<u8>) -> nat
    decreases bytes.len(),
{
    if bytes.len() == 0 {
        0
    } else {
        256 * big_endian(bytes.drop_last()) + bytes.last() as nat
    }
}

/// The upper-case hexadecimal digit of a value below sixteen.
pub open spec fn hex_digit(value: int) -> char {
    if value == 0 {
        '0'
    } else if value == 1 {
        '1'
    } else if value == 2 {
        '2'
    } else if value == 3 {
        '3'
    } else if value == 4 {
        '4'
    } else if value == 5 {
        '5'
    } else if value == 6 {
        '6'
    } else if value == 7 {
        '7'
    } else if value == 8 {
        '8'
    } else if value == 9 {
        '9'
    } else if value == 10 {
        'A'
    } else if value == 11 {
        'B'
    } else if value == 12 {
        'C'
    } else if value == 13 {
        'D'
    } else if value == 14 {
        'E'
    } else {
        'F'
    }
}

/// Whether `digit` is one of `0` to `9` and `A` to `F`.
pub open spec fn is_hex_digit(digit: char) -> bool {
    exists|value: int| 0 <= value < 16 && digit == #[trigger] hex_digit(value)
}

/// The value of an upper-case hexadecimal digit.
pub open spec fn digit_value(digit: char) -> nat {
    if digit == '0' {
        0
    } else if digit == '1' {
        1
    } else if digit == '2' {
        2
    } else if digit == '3' {
        3
    } else if digit == '4' {
        4
    } else if digit == '5' {
        5
    } else if digit == '6' {
        6
    } else if digit == '7' {
        7
    } else if digit == '8' {
        8
    } else if digit == '9' {
        9
    } else if digit == 'A' {
        10
    } else if digit == 'B' {
        11
    } else if digit == 'C' {
        12
    } else if digit == 'D' {
        13
    } else if digit == 'E' {
        14
    } else {
        15
    }
}

/// The number that a string of hexadecimal digits spells.
pub open spec fn hex_value(digits: Seq<char>) -> nat
    decreases digits.len(),
{
    if digits.len() == 0 {
        0
    } else {
        16 * hex_value(digits.drop_last()) + digit_value(digits.last())
    }
}

/// `format!` with `{:02X}` on a byte: its two upper-case hexadecimal digits,
/// the high one first.
#[verifier::external_body]
fn hex_pair(byte: u8) -> (digits: String)
    ensures
        digits@ == seq![hex_digit(byte as int / 16), hex_digit(byte as int % 16)],
{
    format!("{:02X}", byte)
}

/// `usize::from_str_radix` with radix 16, on a string of hexadecimal digits:
/// the number that they spell, if there is at least one digit and the number
/// fits a `usize`; an error if not.
#[verifier::external_body]
fn parse_hex(digits: &str) -> (number: Result<usize, ParseIntError>)
    requires
        forall|i: int| 0 <= i < digits@.len() ==> is_hex_digit(#[trigger] digits@[i]),
    ensures
        match number {
            Ok(n) => digits@.len() > 0 && n == hex_value(digits@),
            Err(_) => digits@.len() == 0 || hex_value(digits@) > usize::MAX,
        },
{
    usize::from_str_radix(digits, 16)
}

/// Two digits appended to a string of digits make room for one more byte.
proof fn lemma_hex_value_pair(digits: Seq<char>, byte: u8)
    ensures
        hex_value(digits + seq![hex_digit(byte as int / 16), hex_digit(byte as int % 16)]) == 256
            * hex_value(digits) + byte,
{
    let high = hex_digit(byte as int / 16);
    let low = hex_digit(byte as int % 16);
    let longer = digits.push(high);
    let longest = longer.push(low);
    assert(digits + seq![high, low] =~= longest);
    assert(longest.drop_last() =~= longer);
    assert(longer.drop_last() =~= digits);
    lemma_digit_value(byte as int / 16);
    lemma_digit_value(byte as int % 16);
    assert(hex_value(longer) == 16 * hex_value(digits) + digit_value(high));
    assert(hex_value(longest) == 16 * hex_value(longer) + digit_value(low));
}

/// A digit has the value that it was made from.
proof fn lemma_digit_value(value: int)
    requires
        0 <= value < 16,
    ensures
        digit_value(hex_digit(value)) == value,
{
}

/// Read from the other end, the bytes spell the same number in the other
/// order.
pub proof fn lemma_big_endian_reverse(bytes: Seq<u8>)
    ensures
        big_endian(bytes.reverse()) == little_endian(bytes),
    decreases bytes.len(),
{
    if bytes.len() > 0 {
        lemma_big_endian_reverse(bytes.drop_first());
        assert(bytes.reverse().drop_last() =~= bytes.drop_first().reverse());
    }
}

/// Reverses `bytes` in place.
fn reverse(bytes: &mut Vec<u8>)
    ensures
        final(bytes)@ == old(bytes)@.reverse(),
{
    let n: usize = bytes.len();
    let mut i: usize = 0;
    while i < n / 2
        invariant
            n == bytes.len(),
            n == old(bytes).len(),
            i <= n / 2,
            forall|k: int| 0 <= k < i ==> bytes@[k] == old(bytes)@[n - 1 - k],
            forall|k: int| 0 <= k < i ==> bytes@[n - 1 - k] == old(bytes)@[k],
            forall|k: int| i <= k < n - i ==> bytes@[k] == old(bytes)@[k],
        decreases n / 2 - i,
    {
        let low = bytes[i];
        let high = bytes[n - 1 - i];
        bytes.set(i, high);
        bytes.set(n - 1 - i, low);
        i += 1;
    }
    assert(bytes@ =~= old(bytes)@.reverse());
}

/// The number that `bytes` spell, least significant byte first. The bytes are
/// left in reverse order.
///
/// The number is read from its hexadecimal spelling, most significant digit
/// first; it is refused when there is no byte, or when the number does not
/// fit a `usize`.
pub fn byte_vec_to_num(bytes: &mut Vec<u8>) -> (number: Result<usize, ParseIntError>)
    ensures
        final(bytes)@ == old(bytes)@.reverse(),
        number is Ok <==> old(bytes)@.len() > 0 && little_endian(old(bytes)@) <= usize::MAX,
        number matches Ok(n) ==> n == little_endian(old(bytes)@),
{
    // reverse byte vector from little-endian
    reverse(bytes);
    let mut hexadecimal = String::new();
    let mut i: usize = 0;
    while i < bytes.len()
        invariant
            i <= bytes.len(),
            hexadecimal@.len() == 2 * i,
            hex_value(hexadecimal@) == big_endian(bytes@.take(i as int)),
            forall|k: int| 0 <= k < hexadecimal@.len() ==> is_hex_digit(#[trigger] hexadecimal@[k]),
        decreases bytes.len() - i,
    {
        let pair = hex_pair(bytes[i]);
        let ghost before = hexadecimal@;
        hexadecimal.append(pair.as_str());
        proof {
            let byte = bytes@[i as int];
            lemma_hex_value_pair(before, byte);
            assert(bytes@.take(i + 1).drop_last() =~= bytes@.take(i as int));
            assert forall|k: int| 0 <= k < hexadecimal@.len() implies is_hex_digit(
                #[trigger] hexadecimal@[k],
            ) by {
                if k < before.len() {
                    assert(hexadecimal@[k] == before[k]);
                } else if k == before.len() {
                    assert(hexadecimal@[k] == hex_digit(byte as int / 16));
                } else {
                    assert(hexadecimal@[k] == hex_digit(byte as int % 16));
                }
            }
        }
        i += 1;
    }
    proof {
        assert(bytes@.take(bytes.len() as int) =~= bytes@);
        lemma_big_endian_reverse(old(bytes)@);
    }
    parse_hex(hexadecimal.as_str())
}

/// What a RIFF/WAVE image says of itself, and the samples it carries.
#[derive(Clone, Debug)]
pub struct Wave {
    pub file_type: String,
    pub riff_chunk_size: usize,
    pub riff_type: String,
    pub format_str: String,
    pub format_data_size: usize,
    pub compression_code: String,
    pub channels: String,
    pub sample_rate: usize,
    pub bytes_per_second: usize,
    pub block_align: usize,
    pub bits_per_sample: usize,
    pub data_str: String,
    pub chunk_data_size: usize,
    /// The two chunk sizes and the eight bytes that neither counts. Each
    /// size may take all of its four bytes, so that the sum can pass what a
    /// machine word of 32 bits holds; 64 bits hold it on every machine.
    pub file_size: u64,
    /// The samples as the image holds them: 0 to 255 where a sample has eight
    /// bits, -32768 to 32767 where it has sixteen.
    pub sample_data: Vec<i16>,
}

/// The length of the header.
pub const HEADER_LEN: usize = 44;

/// The name of a compression code.
pub open spec fn compression_name(code: nat) -> Seq<char> {
    if code == 1 {
        "Linear PCM"@
    } else if code == 2 {
        "MS-ADPCM"@
    } else if code == 5 {
        "IBM CSVD"@
    } else {
        "Unkown wave format"@
    }
}

/// The name of a channel count.
pub open spec fn channels_name(count: nat) -> Seq<char> {
    if count == 1 {
        "Monaural"@
    } else {
        "Stereo"@
    }
}

/// The sixteen-bit sample that two bytes spell, low byte first, in two's
/// complement.
pub open spec fn pcm16(low: u8, high: u8) -> int {
    if high < 128 {
        low + 256 * high
    } else {
        low + 256 * high - 65536
    }
}

/// The samples that `data` holds at `bits` bits per sample: one per byte at
/// eight bits, else one per pair of bytes; a last byte without a partner is
/// left out.
pub open spec fn samples_of(bits: nat, data: Seq<u8>) -> Seq<i16> {
    if bits == 8 {
        Seq::new(data.len(), |k: int| data[k] as i16)
    } else {
        Seq::new(data.len() / 2, |k: int| pcm16(data[2 * k], data[2 * k + 1]) as i16)
    }
}

/// The bytes of `image` from `start` on, `len` of them.
pub open spec fn field_of(image: Seq<u8>, start: int, len: int) -> Seq<u8> {
    image.subrange(start, start + len)
}

/// Whether the four tags of the header are UTF-8.
pub open spec fn tags_valid(image: Seq<u8>) -> bool {
    &&& valid_utf8(field_of(image, 0, 4))
    &&& valid_utf8(field_of(image, 8, 4))
    &&& valid_utf8(field_of(image, 12, 4))
    &&& valid_utf8(field_of(image, 36, 4))
}

/// Whether `wave` is what `image` says.
pub open spec fn describes(wave: Wave, image: Seq<u8>) -> bool {
    &&& wave.file_type@ == decode_utf8(field_of(image, 0, 4))
    &&& wave.riff_chunk_size == little_endian(field_of(image, 4, 4))
    &&& wave.riff_type@ == decode_utf8(field_of(image, 8, 4))
    &&& wave.format_str@ == decode_utf8(field_of(image, 12, 4))
    &&& wave.format_data_size == little_endian(field_of(image, 16, 4))
    &&& wave.compression_code@ == compression_name(little_endian(field_of(image, 20, 2)))
    &&& wave.channels@ == channels_name(little_endian(field_of(image, 22, 2)))
    &&& wave.sample_rate == little_endian(field_of(image, 24, 4))
    &&& wave.bytes_per_second == little_endian(field_of(image, 28, 4))
    &&& wave.block_align == little_endian(field_of(image, 32, 2))
    &&& wave.bits_per_sample == little_endian(field_of(image, 34, 2))
    &&& wave.data_str@ == decode_utf8(field_of(image, 36, 4))
    &&& wave.chunk_data_size == little_endian(field_of(image, 40, 4))
    &&& wave.file_size == wave.riff_chunk_size + wave.chunk_data_size + 8
    &&& wave.sample_data@ == samples_of(
        wave.bits_per_sample as nat,
        image.subrange(44, image.len() as int),
    )
}

/// `String::from_utf8`: the text that the bytes encode, if they are UTF-8;
/// an error if they are not.
#[verifier::external_body]
fn text_from_utf8(bytes: Vec<u8>) -> (text: Result<String, FromUtf8Error>)
    ensures
        match text {
            Ok(s) => valid_utf8(bytes@) && s@ == decode_utf8(bytes@),
            Err(_) => !valid_utf8(bytes@),
        },
{
    String::from_utf8(bytes)
}

/// `std::io::Error::from` on `std::io::ErrorKind::UnexpectedEof`: the error
/// of an input that ends before what was to be read from it. Nothing is
/// claimed of it.
#[verifier::external_body]
fn unexpected_end() -> std::io::Error {
    std::io::Error::from(std::io::ErrorKind::UnexpectedEof)
}

/// Up to four bytes spell a number below two to the thirty-second.
proof fn lemma_little_endian_word(bytes: Seq<u8>)
    requires
        bytes.len() <= 4,
    ensures
        little_endian(bytes) <= 0xffff_ffff,
    decreases bytes.len(),
{
    reveal_with_fuel(little_endian, 5);
}

/// A copy of `len` bytes of `image`, from `start` on.
fn field(image: &Vec<u8>, start: usize, len: usize) -> (bytes: Vec<u8>)
    requires
        start + len <= image.len(),
    ensures
        bytes@ == field_of(image@, start as int, len as int),
{
    let mut bytes: Vec<u8> = Vec::new();
    let mut i: usize = 0;
    while i < len
        invariant
            i <= len,
            start + len <= image.len(),
            bytes@ == image@.subrange(start as int, start + i),
        decreases len - i,
    {
        bytes.push(image[start + i]);
        proof {
            assert(bytes@ =~= image@.subrange(start as int, start + i + 1));
        }
        i += 1;
    }
    bytes
}

/// The tag of four bytes at `start`.
fn tag(image: &Vec<u8>, start: usize) -> (text: WaveResult<String>)
    requires
        start + 4 <= image.len(),
    ensures
        match text {
            Ok(s) => valid_utf8(field_of(image@, start as int, 4)) && s@ == decode_utf8(
                field_of(image@, start as int, 4),
            ),
            Err(e) => !valid_utf8(field_of(image@, start as int, 4)) && e is FromUtf8Error,
        },
{
    match text_from_utf8(field(image, start, 4)) {
        Ok(s) => Ok(s),
        Err(e) => Err(WaveParseError::FromUtf8Error(e)),
    }
}

/// The number that the `len` bytes at `start` spell, low byte first.
fn number(image: &Vec<u8>, start: usize, len: usize) -> (value: WaveResult<usize>)
    requires
        0 < len <= 4,
        start + len <= image.len(),
    ensures
        value matches Ok(n) && n == little_endian(field_of(image@, start as int, len as int)),
{
    let mut bytes = field(image, start, len);
    proof {
        lemma_little_endian_word(bytes@);
    }
    match byte_vec_to_num(&mut bytes) {
        Ok(n) => Ok(n),
        Err(e) => Err(WaveParseError::ParseIntError(e)),
    }
}

/// The samples that follow the header.
fn samples(image: &Vec<u8>, bits: usize) -> (data: Vec<i16>)
    requires
        image.len() >= 44,
    ensures
        data@ == samples_of(bits as nat, image@.subrange(44, image.len() as int)),
{
    let ghost raw = image@.subrange(44, image.len() as int);
    let mut data: Vec<i16> = Vec::new();
    if bits == 8 {
        let mut i: usize = HEADER_LEN;
        while i < image.len()
            invariant
                44 <= i <= image.len(),
                raw == image@.subrange(44, image.len() as int),
                data@ == Seq::new((i - 44) as nat, |k: int| raw[k] as i16),
            decreases image.len() - i,
        {
            data.push(image[i] as i16);
            proof {
                assert(data@ =~= Seq::new((i + 1 - 44) as nat, |k: int| raw[k] as i16));
            }
            i += 1;
        }
    } else {
        let count: usize = (image.len() - HEADER_LEN) / 2;
        let mut k: usize = 0;
        while k < count
            invariant
                k <= count,
                image.len() >= 44,
                count == (image.len() - 44) / 2,
                raw == image@.subrange(44, image.len() as int),
                data@ == Seq::new(k as nat, |j: int| pcm16(raw[2 * j], raw[2 * j + 1]) as i16),
            decreases count - k,
        {
            let low: u8 = image[HEADER_LEN + 2 * k];
            let high: u8 = image[HEADER_LEN + 2 * k + 1];
            let sample: i16 = if high < 128 {
                low as i16 + 256 * (high as i16)
            } else {
                low as i16 + 256 * (high as i16 - 256)
            };
            data.push(sample);
            proof {
                assert(raw[2 * k] == low);
                assert(raw[2 * k + 1] == high);
                assert(data@ =~= Seq::new(
                    (k + 1) as nat,
                    |j: int| pcm16(raw[2 * j], raw[2 * j + 1]) as i16,
                ));
            }
            k += 1;
        }
    }
    data
}

/// Reads a RIFF/WAVE image: the header of 44 bytes, then the samples.
///
/// An image that ends before its header does is refused as an input that
/// ends too early. An image with its header is refused when one of the four
/// tags of the header (`RIFF`, `WAVE`, `fmt `, `data` in an image that is
/// what it should be) is not UTF-8. What the tags say is not checked.
pub fn wav_parse(image: &Vec<u8>) -> (wave: WaveResult<Wave>)
    ensures
        wave is Ok <==> image.len() >= 44 && tags_valid(image@),
        wave matches Ok(w) ==> describes(w, image@),
        wave matches Err(e) ==> (e is IoError <==> image.len() < 44) && (e is FromUtf8Error
            <==> image.len() >= 44),
{
    if image.len() < HEADER_LEN {
        return Err(WaveParseError::IoError(unexpected_end()));
    }
    let file_type = tag(image, 0)?;
    let riff_chunk_size = number(image, 4, 4)?;
    let riff_type = tag(image, 8)?;
    let format_str = tag(image, 12)?;
    let format_data_size = number(image, 16, 4)?;
    let compression_code = match number(image, 20, 2)? {
        1 => "Linear PCM".to_string(),
        2 => "MS-ADPCM".to_string(),
        5 => "IBM CSVD".to_string(),
        _ => "Unkown wave format".to_string(),
    };
    let channels_num = number(image, 22, 2)?;
    let channels = if channels_num == 1 {
        "Monaural".to_string()
    } else {
        "Stereo".to_string()
    };
    let sample_rate = number(image, 24, 4)?;
    let bytes_per_second = number(image, 28, 4)?;
    let block_align = number(image, 32, 2)?;
    let bits_per_sample = number(image, 34, 2)?;
    let data_str = tag(image, 36)?;
    let chunk_data_size = number(image, 40, 4)?;
    proof {
        lemma_little_endian_word(field_of(image@, 4, 4));
        lemma_little_endian_word(field_of(image@, 40, 4));
    }
    let file_size: u64 = riff_chunk_size as u64 + chunk_data_size as u64 + 8;
    let sample_data = samples(image, bits_per_sample);
    Ok(
        Wave {
            file_type,
            riff_chunk_size,
            riff_type,
            format_str,
            format_data_size,
            compression_code,
            channels,
            sample_rate,
            bytes_per_second,
            block_align,
            bits_per_sample,
            data_str,
            chunk_data_size,
            file_size,
            sample_data,
        },
    )
}

} // verus!
