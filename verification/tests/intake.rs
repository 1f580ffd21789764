use kotha::capture::{
    block_requests, level_chunk, meter_verdict, pick_config, wanted_block, InputConfig, Meter,
    MeterVerdict, SampleKind,
};
use kotha::chunks::cut;
use kotha::intake::Intake;
use kotha::mel::{frame_start, padded, HOP, N_FFT, N_FRAMES, PAD};
use kotha::segment::{Segmenter, FRAME, N_SAMPLES, SAMPLE_RATE};
use rubato::audioadapter_buffers::direct::InterleavedSlice;
use rubato::audioadapter_buffers::owned::InterleavedOwned;
use rubato::{Fft, FixedSync, Resampler};

fn to_16k(intake: &mut Intake<f32>, resampler: &mut Option<Fft<f32>>, channels: usize, block: &[f32]) {
    intake.downmix(block, |f: &[f32]| f.iter().sum::<f32>() / channels as f32);
    match resampler.as_mut() {
        None => intake.pass_through(),
        Some(r) => loop {
            let need = r.input_frames_next();
            let Some(taken) = intake.take_input(need) else { break };
            let input = InterleavedSlice::new(&taken, 1, need).unwrap();
            let mut out = InterleavedOwned::<f32>::new(0.0, 1, r.output_frames_max());
            let (_, written) = r.process_into_buffer(&input, &mut out, None).unwrap();
            intake.accept(&out.take_data(), written);
        },
    }
}

#[test]
fn live_resampling_preserves_duration() {
    for (rate, channels) in [(48_000usize, 1usize), (44_100, 2), (16_000, 1)] {
        let mut intake: Intake<f32> = Intake::new(rate as u32, channels);
        let mut resampler = if intake.native() {
            None
        } else {
            Some(
                Fft::<f32>::new(rate, SAMPLE_RATE as usize, 1024, 1, FixedSync::Input)
                    .expect("cannot resample"),
            )
        };
        let block = vec![0.25f32; rate * channels];
        for chunk in block.chunks(rate * channels / 10) {
            to_16k(&mut intake, &mut resampler, channels, chunk);
        }
        let got = intake.ready_len();
        let want = SAMPLE_RATE as usize;
        assert!(
            got <= want && got + 2048 >= want,
            "{rate} Hz x{channels}: 1 s became {got} samples at 16 kHz, want ~{want}"
        );
    }
}

#[test]
fn every_instant_becomes_one_sample() {
    let mut intake: Intake<i32> = Intake::new(SAMPLE_RATE, 3);
    assert!(intake.native());
    intake.downmix(&[1, 2, 3, 10, 20, 30, 7], |f: &[i32]| f.iter().sum::<i32>());
    assert_eq!(intake.ready_len(), 0);
    intake.pass_through();
    assert_eq!(intake.ready_len(), 3);
    assert!(!Intake::<i32>::new(48_000, 1).native());
}

#[test]
fn no_sample_is_lost_between_blocks() {
    let mut intake: Intake<u32> = Intake::new(SAMPLE_RATE, 1);
    let mut seg: Segmenter<u32> = Segmenter::new();
    let mut seen: Vec<u32> = Vec::new();
    let mut fed = 0u32;
    for size in [1usize, 100, 255, 256, 257, 1000, 3] {
        let block: Vec<u32> = (fed..fed + size as u32).collect();
        fed += size as u32;
        intake.downmix(&block, |f: &[u32]| f[0]);
        intake.pass_through();
        let n = intake.frames_ready();
        for k in 0..n {
            seen.extend(intake.frame(k));
        }
        assert!(intake.feed(&vec![false; n], &mut seg).is_empty());
        assert!(intake.ready_len() < FRAME);
    }
    let whole = (fed as usize / FRAME) * FRAME;
    assert_eq!(seen, (0..whole as u32).collect::<Vec<u32>>());
    assert_eq!(intake.ready_len(), fed as usize - whole);
}

#[test]
fn feeding_hands_frames_to_the_segmenter() {
    let mut intake: Intake<u8> = Intake::new(SAMPLE_RATE, 1);
    let mut seg: Segmenter<u8> = Segmenter::new();
    intake.downmix(&vec![1u8; 70 * FRAME + 9], |f: &[u8]| f[0]);
    intake.pass_through();
    let voiced: Vec<bool> = (0..70).map(|k| k < 30).collect();
    let out = intake.feed(&voiced, &mut seg);
    assert_eq!(out.len(), 1);
    assert_eq!(out[0].len(), (30 + 38) * FRAME);
    assert_eq!(intake.ready_len(), 9);
}

#[test]
fn the_converter_gets_what_it_asks_for() {
    let mut intake: Intake<i32> = Intake::new(44_100, 1);
    intake.downmix(&[1, 2, 3, 4, 5], |f: &[i32]| f[0]);
    assert_eq!(intake.take_input(6), None);
    assert_eq!(intake.take_input(2), Some(vec![1, 2]));
    assert_eq!(intake.take_input(3), Some(vec![3, 4, 5]));
    assert_eq!(intake.take_input(0), Some(vec![]));
    intake.accept(&[7, 8, 9], 2);
    assert_eq!(intake.ready_len(), 2);
    intake.accept(&[7], 5);
    assert_eq!(intake.ready_len(), 3);
}

#[test]
fn lengths_are_cut_evenly() {
    assert_eq!(cut(7, 3), vec![(0, 3), (3, 6), (6, 7)]);
    assert_eq!(cut(6, 3), vec![(0, 3), (3, 6)]);
    assert_eq!(cut(2, 3), vec![(0, 2)]);
    assert_eq!(cut(0, 3), vec![]);
    assert_eq!(cut(usize::MAX, usize::MAX), vec![(0, usize::MAX)]);
}

#[test]
fn windows_are_padded_and_reflected() {
    let samples: Vec<i32> = (0..1000).collect();
    let p = padded(&samples, -1);
    assert_eq!(p.len(), N_SAMPLES + N_FFT);
    assert_eq!(p[0], 200);
    assert_eq!(p[199], 1);
    assert_eq!(p[200], 0);
    assert_eq!(p[1199], 999);
    assert_eq!(p[1200], -1);

    let full: Vec<i32> = (0..N_SAMPLES as i32 + 5).collect();
    let p = padded(&full, -1);
    let last = N_SAMPLES as i32 - 1;
    assert_eq!(p[PAD + N_SAMPLES - 1], last);
    assert_eq!(p[PAD + N_SAMPLES], last - 1);
    assert_eq!(p[PAD + N_SAMPLES + PAD - 1], last - 200);
    assert_eq!(frame_start(0), 0);
    assert_eq!(frame_start(N_FRAMES - 1), 2999 * HOP);
    assert!(frame_start(N_FRAMES - 1) + N_FFT <= p.len());
}

#[test]
fn the_input_with_the_fewest_channels_is_picked() {
    let c = |kind, min_rate, max_rate, channels| InputConfig { kind, min_rate, max_rate, channels };
    assert_eq!(pick_config(&vec![]), None);
    assert_eq!(
        pick_config(&vec![
            c(SampleKind::F32, 44_100, 48_000, 1),
            c(SampleKind::Other, 8_000, 48_000, 1),
            c(SampleKind::I16, 8_000, 48_000, 2),
            c(SampleKind::F32, 16_000, 16_000, 1),
            c(SampleKind::I16, 8_000, 48_000, 1),
        ]),
        Some(3)
    );
    assert_eq!(pick_config(&vec![c(SampleKind::F32, 44_100, 48_000, 1)]), None);
}

#[test]
fn small_blocks_are_asked_for() {
    assert_eq!(wanted_block(48_000, Some((64, 4096))), Some(480));
    assert_eq!(wanted_block(48_000, Some((512, 4096))), Some(512));
    assert_eq!(wanted_block(48_000, Some((1, 256))), Some(256));
    assert_eq!(wanted_block(48_000, None), None);
    assert_eq!(block_requests(16_000, Some((1, 9999))), vec![Some(160), None]);
    assert_eq!(block_requests(16_000, None), vec![None]);
}

#[test]
fn the_meter_is_independent_of_the_block_size() {
    assert_eq!(level_chunk(48_000, 2), 3200);
    assert_eq!(level_chunk(10, 1), 1);
    let rms = |w: &[f32]| (w.iter().map(|v| v * v).sum::<f32>() / w.len() as f32).sqrt();
    let stream: Vec<f32> = (0..10_007).map(|i| (i % 997) as f32 / 1000.0).collect();
    let want: Vec<f32> = stream.chunks_exact(1600).map(rms).collect();
    assert_eq!(want.len(), 6);
    for size in [1usize, 512, 1600, 1601, 5000, 20_000] {
        let mut meter: Meter<f32> = Meter::new(1600);
        let mut levels = Vec::new();
        for block in stream.chunks(size) {
            levels.extend(meter.feed(block, rms));
        }
        assert_eq!(levels, want, "blocks of {size}");
    }
}

#[test]
fn the_meter_takes_whole_windows_in_order() {
    let mut meter: Meter<u32> = Meter::new(3);
    let sum = |w: &[u32]| w.to_vec();
    assert_eq!(meter.feed(&[1, 2], sum), Vec::<Vec<u32>>::new());
    assert_eq!(meter.feed(&[3, 4, 5, 6, 7], sum), vec![vec![1, 2, 3], vec![4, 5, 6]]);
    assert_eq!(meter.feed(&[], sum), Vec::<Vec<u32>>::new());
    assert_eq!(meter.feed(&[8, 9], sum), vec![vec![7, 8, 9]]);
    let mut one: Meter<u32> = Meter::new(1);
    assert_eq!(one.feed(&[5, 6], sum), vec![vec![5], vec![6]]);
}

#[test]
fn a_dead_microphone_is_told_from_a_quiet_user() {
    assert!(meter_verdict(0, true) == MeterVerdict::NoAudio);
    assert!(meter_verdict(0, false) == MeterVerdict::NoAudio);
    assert!(meter_verdict(9, true) == MeterVerdict::OnlySilence);
    assert!(meter_verdict(9, false) == MeterVerdict::Fine);
}
