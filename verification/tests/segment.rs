use kotha::segment::{
    Segmenter, FRAME, HANGOVER, MAX_SAMPLES, MIN_VOICED, N_SAMPLES, ONSET, PREROLL,
};

struct Fake {
    seg: Segmenter<f32>,
}

impl Fake {
    fn push(&mut self, n: usize, voiced: bool) -> Vec<Vec<f32>> {
        let frame: Vec<f32> = (0..FRAME)
            .map(|i| if voiced { if i % 8 < 4 { 0.4 } else { -0.4 } } else { 0.0 })
            .collect();
        let mut out = Vec::new();
        for _ in 0..n {
            if let Some(u) = self.seg.push_forced(&frame, voiced) {
                out.push(u);
            }
        }
        out
    }
}

#[test]
fn live_cuts_on_silence_and_keeps_the_preroll() {
    let mut f = Fake { seg: Segmenter::new() };

    assert!(f.push(50, false).is_empty());

    assert!(f.push(60, true).is_empty(), "must not cut mid-speech");
    let out = f.push(HANGOVER, false);
    assert_eq!(out.len(), 1, "one utterance should have closed");

    let n = out[0].len();
    assert!(n > 60 * FRAME, "pre-roll missing: {n} <= {}", 60 * FRAME);
    assert!(n <= (60 + HANGOVER) * FRAME + PREROLL, "utterance too long: {n}");
}

#[test]
fn live_discards_a_blip_too_short_to_be_speech() {
    let mut f = Fake { seg: Segmenter::new() };
    f.push(10, false);
    assert!(ONSET < 5 && 5 < MIN_VOICED);
    f.push(5, true);
    assert!(f.push(HANGOVER, false).is_empty(), "a 80 ms blip was transcribed");
}

#[test]
fn live_cuts_before_whispers_window() {
    let mut f = Fake { seg: Segmenter::new() };
    let out = f.push(MAX_SAMPLES / FRAME + 10, true);
    assert!(!out.is_empty(), "a monologue was never cut");
    for u in &out {
        assert!(u.len() <= N_SAMPLES, "chunk exceeds Whisper's window: {} > {N_SAMPLES}", u.len());
    }
}

#[test]
fn utterances_are_stretches_of_the_stream() {
    let mut seg: Segmenter<u32> = Segmenter::new();
    let mut stream: Vec<u32> = Vec::new();
    let mut cuts: Vec<(usize, Vec<u32>)> = Vec::new();
    let plan = [(20, false), (30, true), (45, false), (2, true), (5, false), (25, true), (40, false)];
    let mut next = 0u32;
    for (n, voiced) in plan {
        for _ in 0..n {
            let frame: Vec<u32> = (next..next + FRAME as u32).collect();
            next += FRAME as u32;
            stream.extend(&frame);
            if let Some(u) = seg.push_forced(&frame, voiced) {
                cuts.push((stream.len(), u));
            }
        }
    }
    assert_eq!(cuts.len(), 2);
    let mut last_end = 0;
    for (end, u) in &cuts {
        let start = end - u.len();
        assert!(start >= last_end, "two utterances overlap");
        assert_eq!(&stream[start..*end], &u[..]);
        last_end = *end;
    }
    // Sixteen frames before the onset's last, the speech, and the hangover.
    assert_eq!(cuts[0].1.len(), (16 - ONSET + 30 + HANGOVER) * FRAME);
}

#[test]
fn flushing_takes_what_is_open() {
    let mut f = Fake { seg: Segmenter::new() };
    assert!(f.seg.flush().is_none());
    f.push(ONSET - 1, true);
    assert!(!f.seg.is_speaking());
    f.push(1, true);
    assert!(f.seg.is_speaking());
    assert!(f.seg.flush().is_none(), "three voiced frames are not speech");
    assert!(!f.seg.is_speaking());

    f.push(MIN_VOICED, true);
    let tail = f.seg.flush().expect("the tail was thrown away");
    assert_eq!(tail.len(), MIN_VOICED * FRAME);
    assert!(f.seg.close().is_none());
}

#[test]
fn a_short_pause_does_not_cut() {
    let mut f = Fake { seg: Segmenter::new() };
    f.push(30, true);
    assert!(f.push(HANGOVER - 1, false).is_empty());
    assert!(f.push(1, true).is_empty());
    assert!(f.push(HANGOVER - 1, false).is_empty());
    assert_eq!(f.push(1, false).len(), 1);
}

#[test]
fn silence_alone_produces_nothing() {
    let mut f = Fake { seg: Segmenter::new() };
    assert!(f.push(2000, false).is_empty());
    // Clicks shorter than the onset do not open an utterance either.
    for _ in 0..50 {
        assert!(f.push(ONSET - 1, true).is_empty());
        assert!(f.push(1, false).is_empty());
        assert!(!f.seg.is_speaking());
    }
}
