use kotha::wav::{no_audio, read_wav, wrong_rate, WavError, WavSamples};

/// A WAV file with the plain header: format 1 is integers, 3 floating-point numbers.
fn wav(format: u16, channels: u16, rate: u32, bits: u16, data: &[u8]) -> Vec<u8> {
    let align = channels * (bits / 8);
    let mut out = b"RIFF".to_vec();
    out.extend((36 + data.len() as u32).to_le_bytes());
    out.extend(b"WAVEfmt ");
    out.extend(16u32.to_le_bytes());
    out.extend(format.to_le_bytes());
    out.extend(channels.to_le_bytes());
    out.extend(rate.to_le_bytes());
    out.extend((rate * align as u32).to_le_bytes());
    out.extend(align.to_le_bytes());
    out.extend(bits.to_le_bytes());
    out.extend(b"data");
    out.extend((data.len() as u32).to_le_bytes());
    out.extend(data);
    out
}

fn sixteen_bit(samples: &[i16]) -> Vec<u8> {
    samples.iter().flat_map(|s| s.to_le_bytes()).collect()
}

#[test]
fn integer_samples_are_cut_into_frames() {
    let data = sixteen_bit(&[1, -2, 300, -400, i16::MAX, i16::MIN]);
    match read_wav("a.wav", &wav(1, 2, 16000, 16, &data)) {
        Ok(WavSamples::Integers { bits, samples, frames }) => {
            assert_eq!(bits, 16);
            assert_eq!(samples, vec![1, -2, 300, -400, 32767, -32768]);
            assert_eq!(frames, vec![(0, 2), (2, 4), (4, 6)]);
        }
        _ => panic!("stereo integers"),
    }
    match read_wav("a.wav", &wav(1, 1, 16000, 8, &[128, 0, 255])) {
        Ok(WavSamples::Integers { bits, samples, frames }) => {
            assert_eq!(bits, 8);
            assert_eq!(samples, vec![0, -128, 127]);
            assert_eq!(frames, vec![(0, 1), (1, 2), (2, 3)]);
        }
        _ => panic!("mono integers"),
    }
}

#[test]
fn floating_point_samples_keep_their_layout() {
    let data: Vec<u8> = [0.5f32, -0.25].iter().flat_map(|s| s.to_le_bytes()).collect();
    assert!(matches!(
        read_wav("a.wav", &wav(3, 2, 16000, 32, &data)),
        Ok(WavSamples::Floats { channels: 2 })
    ));
}

#[test]
fn a_wrong_rate_is_told_before_anything_else() {
    match read_wav("in.wav", &wav(1, 2, 44100, 16, &[])) {
        Err(WavError::WrongRate(m)) => assert_eq!(
            m,
            "in.wav is 44100 Hz; this spike needs 16000 Hz.\n    Convert it:  ffmpeg -i in.wav \
             -ar 16000 -ac 1 out.wav"
        ),
        _ => panic!("44100 Hz"),
    }
    assert!(wrong_rate("in.wav", 16000).is_none());
}

#[test]
fn a_file_without_samples_is_no_audio() {
    match read_wav("in.wav", &wav(1, 1, 16000, 16, &[])) {
        Err(WavError::NoAudio(m)) => assert_eq!(m, "in.wav contains no audio"),
        _ => panic!("no samples"),
    }
    assert_eq!(no_audio("in.wav", 0).as_deref(), Some("in.wav contains no audio"));
    assert!(no_audio("in.wav", 1).is_none());
}

#[test]
fn damaged_files_are_refused() {
    let data = sixteen_bit(&[1, 2, 3, 4]);
    let good = wav(1, 2, 16000, 16, &data);
    // Not a WAV file, a header that is cut off, samples that are cut off.
    for bytes in [&b""[..], &b"OggS"[..], &good[..30], &good[..good.len() - 1]] {
        assert!(matches!(read_wav("a.wav", bytes), Err(WavError::Unreadable(_))));
    }
    // No channels, and a frame that is not complete.
    assert!(matches!(read_wav("a.wav", &wav(1, 0, 16000, 16, &[])), Err(WavError::Unreadable(_))));
    assert!(matches!(
        read_wav("a.wav", &wav(1, 2, 16000, 16, &data[..6])),
        Err(WavError::Unreadable(_))
    ));
}
