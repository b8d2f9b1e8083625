//! The passage to read aloud, and whether a recording of it is of use.

use vstd::prelude::*;

verus! {

/// Text the user reads aloud. Plain words with no names or numbers, so the
/// word error rate measures the variant rather than the model's spelling.
pub const PASSAGE: &'static str = "Speech recognition runs on this computer without sending your voice \
anywhere. Please read these sentences at your normal pace and volume. Each installed build \
will transcribe the recording, and the fastest one that gets the words right will be \
recommended.";

/// Samples per second of a recording.
pub const SAMPLE_RATE: u32 = 16_000;

/// A recording has one channel.
pub const CHANNELS: u16 = 1;

/// A sample is kept in so many bits.
pub const BITS_PER_SAMPLE: u16 = 16;

/// More samples do not fit in a WAV file, whose sizes have 32 bits.
pub const MAX_WAV_SAMPLES: usize = 2_147_483_629;

/// A shorter recording cannot hold the passage.
pub const MIN_RECORDING_SECS: u32 = 3;

/// The bits of 0.005 as an IEEE 754 binary32 number. A recording whose root
/// mean square is below it is treated as silence (roughly -46 dBFS).
pub const MIN_RMS_BITS: u32 = 0x3ba3_d70a;

/// Why a recording is of no use.
#[derive(Clone, Copy, Debug, PartialEq, Eq, Structural)]
pub enum RecordingError {
    /// It has only so many samples.
    TooShort(usize),
    /// Nothing can be heard on it.
    Silent,
}

/// Whether the bits are those of no number.
pub open spec fn is_nan(bits: u32) -> bool {
    bits % 0x8000_0000 > 0x7f80_0000
}

/// The place of a number among the binary32 numbers, by its bits: those with
/// the sign bit go down below zero, and both zeros share a place.
pub open spec fn place(bits: u32) -> int {
    if bits < 0x8000_0000 {
        bits as int
    } else {
        0x8000_0000 - bits
    }
}

/// Whether the number with the bits `a` is less than the one with the bits
/// `b`, which it never is where one of them is no number.
pub open spec fn less_than(a: u32, b: u32) -> bool {
    !is_nan(a) && !is_nan(b) && place(a) < place(b)
}

/// Whether the number with the bits `a` is less than the one with the bits `b`.
pub fn is_less(a: u32, b: u32) -> (r: bool)
    ensures
        r == less_than(a, b),
        a <= 0x7f80_0000 && b <= 0x7f80_0000 ==> r == (a < b),
{
    let sign: u32 = 0x8000_0000;
    let infinity: u32 = 0x7f80_0000;
    if a % sign > infinity || b % sign > infinity {
        false
    } else if a < sign {
        b < sign && a < b
    } else if b < sign {
        a > sign || b > 0
    } else {
        a > b
    }
}

/// Whether a recording of so many samples, with a root mean square of the
/// given binary32 bits, is of use: it must be long enough, and not silent.
pub fn check_recording(samples: usize, rms_bits: u32) -> (r: Result<(), RecordingError>)
    ensures
        r == (if samples < MIN_RECORDING_SECS * SAMPLE_RATE {
            Err(RecordingError::TooShort(samples))
        } else if less_than(rms_bits, MIN_RMS_BITS) {
            Err(RecordingError::Silent)
        } else {
            Ok(())
        }),
        samples < 48_000 ==> r == Err::<(), RecordingError>(RecordingError::TooShort(samples)),
        samples >= 48_000 && rms_bits < 0x3ba3_d70a ==> r == Err::<(), RecordingError>(
            RecordingError::Silent,
        ),
        samples >= 48_000 && 0x3ba3_d70a <= rms_bits < 0x8000_0000 ==> r == Ok::<
            (),
            RecordingError,
        >(()),
        samples >= 48_000 && 0x8000_0000 <= rms_bits <= 0xff80_0000 ==> r == Err::<
            (),
            RecordingError,
        >(RecordingError::Silent),
        samples >= 48_000 && 0xff80_0000 < rms_bits ==> r == Ok::<(), RecordingError>(()),
{
    if samples < (MIN_RECORDING_SECS * SAMPLE_RATE) as usize {
        Err(RecordingError::TooShort(samples))
    } else if is_less(rms_bits, MIN_RMS_BITS) {
        Err(RecordingError::Silent)
    } else {
        Ok(())
    }
}

/// What `hound` finds in the header of a WAV file: the length in frames and
/// the sample rate, or why the bytes are no WAV file.
pub uninterp spec fn wav_header(bytes: Seq<u8>) -> Result<(u32, u32), Seq<char>>;

/// Trusted: `hound::WavReader::new` reads the header of a WAV file, of which
/// `duration` gives the length in frames and `spec` the sample rate, or says
/// what is wrong with it. What it finds depends on the bytes alone.
#[verifier::external_body]
fn read_wav_header(bytes: &[u8]) -> (r: Result<(u32, u32), String>)
    ensures
        wav_header(bytes@) == (match r {
            Ok(header) => Ok(header),
            Err(reason) => Err(reason@),
        }),
{
    match hound::WavReader::new(bytes) {
        Ok(reader) => Ok((reader.duration(), reader.spec().sample_rate)),
        Err(e) => Err(e.to_string()),
    }
}

/// How long a recording is, as a fraction of seconds.
#[derive(Clone, Copy, Debug, PartialEq, Eq, Structural)]
pub struct WavLength {
    pub frames: u32,
    pub sample_rate: u32,
}

/// How long the recording in a WAV file is, or why it cannot be read as one.
pub fn wav_length(bytes: &[u8]) -> (r: Result<WavLength, String>)
    ensures
        r is Ok <==> wav_header(bytes@) is Ok,
        r matches Ok(length) ==> wav_header(bytes@)->Ok_0 == (length.frames, length.sample_rate),
        r matches Err(reason) ==> wav_header(bytes@)->Err_0 == reason@,
{
    match read_wav_header(bytes) {
        Ok((frames, sample_rate)) => Ok(WavLength { frames, sample_rate }),
        Err(reason) => Err(reason),
    }
}

/// The WAV file that `hound` makes of integer samples.
pub uninterp spec fn wav_file(
    samples: Seq<i16>,
    channels: u16,
    sample_rate: u32,
    bits_per_sample: u16,
) -> Seq<u8>;

/// Trusted: `hound::WavWriter` writes the samples, one by one, into a WAV file
/// in memory. With one channel, samples of their own width and sizes that fit
/// in the file it succeeds, and the header that it finalizes says how many
/// samples there are and at which rate. What it writes depends on the samples
/// and the format alone.
#[verifier::external_body]
fn write_wav_file(
    samples: &[i16],
    channels: u16,
    sample_rate: u32,
    bits_per_sample: u16,
) -> (r: Result<Vec<u8>, String>)
    requires
        channels == 1,
        bits_per_sample == 16,
        0 < sample_rate <= 0x7fff_ffff,
        samples.len() <= MAX_WAV_SAMPLES,
    ensures
        r is Ok,
        r->Ok_0@ == wav_file(samples@, channels, sample_rate, bits_per_sample),
        wav_header(r->Ok_0@) is Ok,
        wav_header(r->Ok_0@)->Ok_0 == (samples@.len() as u32, sample_rate),
{
    let sample_format = hound::SampleFormat::Int;
    let spec = hound::WavSpec { channels, sample_rate, bits_per_sample, sample_format };
    let mut file = std::io::Cursor::new(Vec::new());
    let mut writer = hound::WavWriter::new(&mut file, spec).map_err(|e| e.to_string())?;
    for sample in samples {
        writer.write_sample(*sample).map_err(|e| e.to_string())?;
    }
    writer.finalize().map_err(|e| e.to_string())?;
    Ok(file.into_inner())
}

/// The WAV file of a recording: one channel, at the sample rate of
/// recordings. Read back, it is as long as the recording.
pub fn encode_wav(samples: &[i16]) -> (r: Result<Vec<u8>, String>)
    requires
        samples.len() <= MAX_WAV_SAMPLES,
    ensures
        r is Ok,
        r->Ok_0@ == wav_file(samples@, CHANNELS, SAMPLE_RATE, BITS_PER_SAMPLE),
        wav_header(r->Ok_0@) is Ok,
        wav_header(r->Ok_0@)->Ok_0 == (samples@.len() as u32, SAMPLE_RATE),
        r->Ok_0@ == wav_file(samples@, 1, 16_000, 16),
        wav_header(r->Ok_0@)->Ok_0 == (samples@.len() as u32, 16_000u32),
{
    write_wav_file(samples, CHANNELS, SAMPLE_RATE, BITS_PER_SAMPLE)
}

/// The order of the binary32 numbers by their bits: without the sign bit they go
/// up, with it they go down; a number with it comes before every number without,
/// but for the two zeros, which are equal. What is no number, with or without
/// the sign bit beyond infinity, comes before nothing and after nothing.
pub proof fn law_less_than(a: u32, b: u32)
    ensures
        a <= 0x7f80_0000 && b <= 0x7f80_0000 ==> (less_than(a, b) <==> a < b),
        0x8000_0000 <= a <= 0xff80_0000 && 0x8000_0000 <= b <= 0xff80_0000 ==> (less_than(a, b)
            <==> a > b),
        0x8000_0000 <= a <= 0xff80_0000 && b <= 0x7f80_0000 ==> (less_than(a, b) <==> !(a
            == 0x8000_0000 && b == 0)),
        a <= 0x7f80_0000 && 0x8000_0000 <= b <= 0xff80_0000 ==> !less_than(a, b),
        0x7f80_0000 < a < 0x8000_0000 || a > 0xff80_0000 ==> !less_than(a, b) && !less_than(b, a),
{
}

/// A recording is read aloud for at least three seconds, at sixteen thousand
/// samples a second.
pub proof fn law_least_recording()
    ensures
        MIN_RECORDING_SECS * SAMPLE_RATE == 48_000,
        SAMPLE_RATE == 16_000,
        MIN_RMS_BITS == 0x3ba3_d70a,
        CHANNELS == 1,
        BITS_PER_SAMPLE == 16,
{
}

} // verus!
