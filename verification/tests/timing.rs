use voxtype_benchmark::recording::{
    check_recording, encode_wav, is_less, wav_length, RecordingError, WavLength, MIN_RMS_BITS,
};
use voxtype_benchmark::secs::{median, settle, sort, Median, Secs};

fn secs(x: f64) -> Secs {
    Secs { bits: x.to_bits() }
}

fn all(xs: &[f64]) -> Vec<Secs> {
    xs.iter().map(|&x| secs(x)).collect()
}

fn value(m: Option<Median>) -> Option<f64> {
    m.map(|m| match m {
        Median::Middle(a) => f64::from_bits(a.bits),
        Median::MeanOf(a, b) => (f64::from_bits(a.bits) + f64::from_bits(b.bits)) / 2.0,
    })
}

fn rms(samples: &[f32]) -> f32 {
    if samples.is_empty() {
        return 0.0;
    }
    (samples.iter().map(|s| s * s).sum::<f32>() / samples.len() as f32).sqrt()
}

#[test]
fn median_and_rms() {
    assert_eq!(value(median(&all(&[]))), None);
    assert_eq!(value(median(&all(&[3.0, 1.0, 2.0]))), Some(2.0));
    assert_eq!(value(median(&all(&[4.0, 1.0, 2.0, 3.0]))), Some(2.5));
    assert_eq!(rms(&[]), 0.0);
    assert!(is_less(rms(&vec![0.0; 1000]).to_bits(), MIN_RMS_BITS));
    assert!(is_less(MIN_RMS_BITS, rms(&[0.1, -0.1, 0.1, -0.1]).to_bits()));
}

#[test]
fn median_names_the_middle() {
    assert_eq!(median(&all(&[7.5])), Some(Median::Middle(secs(7.5))));
    assert_eq!(
        median(&all(&[9.0, 0.5])),
        Some(Median::MeanOf(secs(0.5), secs(9.0)))
    );
}

#[test]
fn median_ignores_the_order_of_runs() {
    let a = median(&all(&[5.0, 1.0, 4.0, 4.0, 2.0]));
    let b = median(&all(&[4.0, 2.0, 5.0, 4.0, 1.0]));
    assert_eq!(a, b);
    assert_eq!(value(a), Some(4.0));
}

#[test]
fn times_are_in_total_order() {
    let xs = [
        0.0,
        -0.0,
        1.0,
        -1.0,
        f64::INFINITY,
        f64::NEG_INFINITY,
        f64::NAN,
        -f64::NAN,
        f64::MIN_POSITIVE,
        5e-324,
        -5e-324,
        1.05,
    ];
    for a in xs {
        for b in xs {
            assert_eq!(secs(a).less(secs(b)), a.total_cmp(&b).is_lt(), "{} {}", a, b);
        }
    }
    let mut expected = xs.to_vec();
    expected.sort_by(|a, b| a.total_cmp(b));
    assert_eq!(sort(&all(&xs)), all(&expected));
}

#[test]
fn volume_compares_as_numbers() {
    assert_eq!(MIN_RMS_BITS, 0.005f32.to_bits());
    let xs = [
        0.0f32,
        -0.0,
        1.0,
        -1.0,
        f32::INFINITY,
        f32::NEG_INFINITY,
        f32::NAN,
        -f32::NAN,
        0.005,
        1e-45,
        -1e-45,
    ];
    for a in xs {
        for b in xs {
            assert_eq!(is_less(a.to_bits(), b.to_bits()), a < b, "{} {}", a, b);
        }
    }
}

#[test]
fn recordings_are_checked() {
    let loud = 0.1f32.to_bits();
    let quiet = 0.004f32.to_bits();
    assert_eq!(check_recording(48_000, loud), Ok(()));
    assert_eq!(check_recording(48_000, MIN_RMS_BITS), Ok(()));
    assert_eq!(
        check_recording(47_999, loud),
        Err(RecordingError::TooShort(47_999))
    );
    assert_eq!(check_recording(0, quiet), Err(RecordingError::TooShort(0)));
    assert_eq!(check_recording(48_000, quiet), Err(RecordingError::Silent));
    for n in [0usize, 1, 800, 47_999, 48_000, 48_001, 20_000_000] {
        let short = n as f32 / 16_000f32 < 3.0;
        assert_eq!(check_recording(n, loud).is_err(), short);
    }
}

#[test]
fn a_recording_reads_back_at_its_length() {
    for n in [0usize, 1, 2, 48_000] {
        let samples: Vec<i16> = (0..n).map(|i| (i % 7) as i16 - 3).collect();
        let bytes = encode_wav(&samples).unwrap();
        assert_eq!(bytes.len(), 44 + 2 * n);
        assert_eq!(
            wav_length(&bytes),
            Ok(WavLength { frames: n as u32, sample_rate: 16_000 })
        );
    }
}

#[test]
fn a_recording_keeps_its_samples() {
    let samples: Vec<i16> = vec![0, 1, -1, i16::MAX, i16::MIN, 12_345];
    let bytes = encode_wav(&samples).unwrap();
    let reader = hound::WavReader::new(&bytes[..]).unwrap();
    let spec = reader.spec();
    assert_eq!((spec.channels, spec.sample_rate, spec.bits_per_sample), (1, 16_000, 16));
    assert_eq!(spec.sample_format, hound::SampleFormat::Int);
    let back: Vec<i16> = reader.into_samples::<i16>().map(|s| s.unwrap()).collect();
    assert_eq!(back, samples);
}

#[test]
fn what_is_no_wav_file_is_refused() {
    assert_eq!(
        wav_length(b"not a wav file at all"),
        Err("Ill-formed WAVE file: no RIFF tag found".to_string())
    );
    assert_eq!(wav_length(b""), Err("Failed to read enough bytes.".to_string()));
}

#[test]
fn the_given_mean_counts_for_even_numbers() {
    let mean = secs(2.5);
    assert_eq!(settle(&all(&[]), mean), None);
    assert_eq!(settle(&all(&[3.0, 1.0, 2.0]), mean), Some(secs(2.0)));
    assert_eq!(settle(&all(&[4.0, 1.0, 2.0, 3.0]), mean), Some(mean));
}
