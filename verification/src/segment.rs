//! Cuts a stream of frames into utterances on silence.

use std::collections::VecDeque;
use vstd::prelude::*;

verus! {

/// The rate that the model hears, in samples per second.
pub const SAMPLE_RATE: u32 = 16000;

/// The model's window in samples: thirty seconds.
pub const N_SAMPLES: usize = 480000;

/// Samples per frame: 16 ms.
pub const FRAME: usize = 256;

/// Consecutive voiced frames that open an utterance.
pub const ONSET: usize = 3;

/// Consecutive unvoiced frames that close an utterance.
pub const HANGOVER: usize = 38;

/// Samples kept from before the onset: sixteen frames.
pub const PREROLL: usize = 4096;

/// An utterance with fewer voiced frames than this is discarded as noise.
pub const MIN_VOICED: usize = 19;

/// An utterance is closed once it holds this many samples: five seconds less than the window.
pub const MAX_SAMPLES: usize = 400000;

/// What the segmenter holds between two frames.
#[verifier::ext_equal]
pub struct SegState<T> {
    /// The most recent audio, while no utterance is open.
    pub preroll: Seq<T>,
    /// The audio of the open utterance.
    pub current: Seq<T>,
    pub onset_run: nat,
    pub silence: nat,
    pub voiced: nat,
    pub speaking: bool,
}

/// A frame and whether it is voiced.
pub type Frame<T> = (Seq<T>, bool);

/// No utterance open and no audio held.
pub open spec fn idle<T>() -> SegState<T> {
    SegState {
        preroll: seq![],
        current: seq![],
        onset_run: 0,
        silence: 0,
        voiced: 0,
        speaking: false,
    }
}

/// The last `n` elements, or all where there are fewer.
pub open spec fn last_of<T>(s: Seq<T>, n: nat) -> Seq<T> {
    if s.len() > n {
        s.skip(s.len() - n)
    } else {
        s
    }
}

/// The open utterance ended: handed out where enough of it was voiced, and dropped otherwise.
pub open spec fn closed<T>(s: SegState<T>) -> (SegState<T>, Option<Seq<T>>) {
    (
        idle(),
        if s.voiced >= MIN_VOICED {
            Some(s.current)
        } else {
            None
        },
    )
}

/// One frame further.
pub open spec fn pushed<T>(s: SegState<T>, frame: Seq<T>, voiced: bool) -> (
    SegState<T>,
    Option<Seq<T>>,
) {
    if !s.speaking {
        let ring = last_of(s.preroll + frame, PREROLL as nat);
        let run = if voiced {
            s.onset_run + 1
        } else {
            0
        };
        if run >= ONSET {
            (
                SegState {
                    preroll: seq![],
                    current: ring,
                    onset_run: run,
                    silence: 0,
                    voiced: run,
                    speaking: true,
                },
                None,
            )
        } else {
            (SegState { preroll: ring, onset_run: run, ..s }, None)
        }
    } else {
        let next = SegState {
            current: s.current + frame,
            voiced: if voiced {
                s.voiced + 1
            } else {
                s.voiced
            },
            silence: if voiced {
                0
            } else {
                s.silence + 1
            },
            ..s
        };
        if next.silence >= HANGOVER || next.current.len() >= MAX_SAMPLES {
            closed(next)
        } else {
            (next, None)
        }
    }
}

/// All the frames, one after the other, and the utterances that they complete.
pub open spec fn fed<T>(from: SegState<T>, frames: Seq<Frame<T>>) -> (
    SegState<T>,
    Seq<Seq<T>>,
)
    decreases frames.len(),
{
    if frames.len() == 0 {
        (from, seq![])
    } else {
        let (s, done) = fed(from, frames.drop_last());
        let (next, out) = pushed(s, frames.last().0, frames.last().1);
        (
            next,
            match out {
                Some(u) => done.push(u),
                None => done,
            },
        )
    }
}

/// What holds between any two frames.
pub open spec fn seg_inv<T>(s: SegState<T>) -> bool {
    if s.speaking {
        &&& s.preroll == Seq::<T>::empty()
        &&& s.silence < HANGOVER
        &&& s.current.len() < MAX_SAMPLES
        &&& s.voiced * FRAME <= s.current.len()
        &&& s.onset_run == ONSET
        &&& s.voiced >= ONSET
    } else {
        &&& s.current == Seq::<T>::empty()
        &&& s.silence == 0
        &&& s.voiced == 0
        &&& s.onset_run < ONSET
        &&& s.preroll.len() <= PREROLL
        &&& s.onset_run * FRAME <= s.preroll.len()
    }
}

/// The segmentation state machine, on samples of any kind.
pub struct Segmenter<T> {
    preroll: VecDeque<T>,
    current: Vec<T>,
    onset_run: usize,
    silence: usize,
    voiced: usize,
    speaking: bool,
}

impl<T> View for Segmenter<T> {
    type V = SegState<T>;

    closed spec fn view(&self) -> SegState<T> {
        SegState {
            preroll: self.preroll@,
            current: self.current@,
            onset_run: self.onset_run as nat,
            silence: self.silence as nat,
            voiced: self.voiced as nat,
            speaking: self.speaking,
        }
    }
}

impl<T: Copy> Segmenter<T> {
    pub open spec fn wf(self) -> bool {
        seg_inv(self@)
    }

    pub fn new() -> (r: Self)
        ensures
            r.wf(),
            r@ == idle::<T>(),
    {
        let r = Segmenter {
            preroll: VecDeque::new(),
            current: Vec::new(),
            onset_run: 0,
            silence: 0,
            voiced: 0,
            speaking: false,
        };
        assert(r@ =~= idle::<T>());
        r
    }

    /// Takes exactly one frame, with the voicing decision made. Returns an utterance when one ends.
    pub fn push_forced(&mut self, frame: &[T], voiced: bool) -> (r: Option<Vec<T>>)
        requires
            old(self).wf(),
            frame@.len() == FRAME,
        ensures
            final(self).wf(),
            final(self)@ == pushed(old(self)@, frame@, voiced).0,
            r.is_some() == pushed(old(self)@, frame@, voiced).1.is_some(),
            r.is_some() ==> r.unwrap()@ == pushed(old(self)@, frame@, voiced).1.unwrap(),
    {
        let ghost before = self@;
        if !self.speaking {
            for i in 0..frame.len()
                invariant
                    self.preroll@ == before.preroll + frame@.take(i as int),
                    self.current@ == before.current,
                    self.onset_run == before.onset_run,
                    self.silence == before.silence,
                    self.voiced == before.voiced,
                    self.speaking == before.speaking,
            {
                self.preroll.push_back(frame[i]);
                assert(frame@.take(i as int).push(frame@[i as int]) =~= frame@.take(i + 1));
            }
            let ghost whole = before.preroll + frame@;
            assert(frame@.take(frame@.len() as int) =~= frame@);
            assert(self.preroll@ == whole);
            assert(whole.skip(0) =~= whole);
            while self.preroll.len() > PREROLL
                invariant
                    self.preroll@.len() <= whole.len(),
                    whole.len() >= PREROLL ==> self.preroll@.len() >= PREROLL,
                    whole.len() < PREROLL ==> self.preroll@.len() == whole.len(),
                    self.preroll@ == whole.skip(whole.len() - self.preroll@.len()),
                    self.current@ == before.current,
                    self.onset_run == before.onset_run,
                    self.silence == before.silence,
                    self.voiced == before.voiced,
                    self.speaking == before.speaking,
                decreases self.preroll@.len(),
            {
                let _ = self.preroll.pop_front();
                assert(self.preroll@ =~= whole.skip(whole.len() - self.preroll@.len()));
            }
            assert(self.preroll@ =~= last_of(whole, PREROLL as nat));
            self.onset_run = if voiced {
                self.onset_run + 1
            } else {
                0
            };
            if self.onset_run >= ONSET {
                let ghost ring = self.preroll@;
                while self.preroll.len() > 0
                    invariant
                        self.preroll@.len() <= ring.len(),
                        self.current@ + self.preroll@ == ring,
                        self.onset_run >= ONSET,
                        self.onset_run == before.onset_run + 1,
                        self.speaking == before.speaking,
                        self.silence == before.silence,
                        self.voiced == before.voiced,
                    decreases self.preroll@.len(),
                {
                    let ghost rest = self.preroll@;
                    let ghost had = self.current@;
                    match self.preroll.pop_front() {
                        Some(x) => {
                            self.current.push(x);
                            assert(had.push(rest[0]) + rest.skip(1) =~= had + rest);
                            assert(self.preroll@ =~= rest.skip(1));
                        },
                        None => {},
                    }
                }
                assert(self.current@ =~= ring);
                self.speaking = true;
                self.silence = 0;
                self.voiced = self.onset_run;
            }
            assert(self@ =~= pushed(before, frame@, voiced).0);
            return None;
        }
        for i in 0..frame.len()
            invariant
                self.current@ == before.current + frame@.take(i as int),
                self.preroll@ == before.preroll,
                self.onset_run == before.onset_run,
                self.silence == before.silence,
                self.voiced == before.voiced,
                self.speaking == before.speaking,
        {
            self.current.push(frame[i]);
            assert(frame@.take(i as int).push(frame@[i as int]) =~= frame@.take(i + 1));
        }
        assert(frame@.take(frame@.len() as int) =~= frame@);
        if voiced {
            self.voiced = self.voiced + 1;
            self.silence = 0;
        } else {
            self.silence = self.silence + 1;
        }
        let ghost next = self@;
        if self.silence >= HANGOVER || self.current.len() >= MAX_SAMPLES {
            let out = self.close();
            assert(closed(next) == pushed(before, frame@, voiced));
            return out;
        }
        assert(self@ =~= pushed(before, frame@, voiced).0);
        None
    }

    /// Whether an utterance is open right now.
    pub fn is_speaking(&self) -> (r: bool)
        ensures
            r == self@.speaking,
    {
        self.speaking
    }

    /// Ends the open utterance early, where one is open.
    pub fn flush(&mut self) -> (r: Option<Vec<T>>)
        ensures
            final(self).wf(),
            final(self)@ == closed(old(self)@).0,
            r.is_some() == closed(old(self)@).1.is_some(),
            r.is_some() ==> r.unwrap()@ == closed(old(self)@).1.unwrap(),
    {
        self.close()
    }

    /// Ends the open utterance: the audio where enough of it was voiced, else nothing.
    pub fn close(&mut self) -> (r: Option<Vec<T>>)
        ensures
            final(self).wf(),
            final(self)@ == closed(old(self)@).0,
            r.is_some() == closed(old(self)@).1.is_some(),
            r.is_some() ==> r.unwrap()@ == closed(old(self)@).1.unwrap(),
    {
        let mut audio: Vec<T> = Vec::new();
        core::mem::swap(&mut audio, &mut self.current);
        let voiced: usize = self.voiced;
        self.speaking = false;
        self.onset_run = 0;
        self.silence = 0;
        self.voiced = 0;
        self.preroll.clear();
        assert(self@ =~= idle::<T>());
        if voiced >= MIN_VOICED {
            Some(audio)
        } else {
            None
        }
    }
}

/// The samples of the frames, one frame after the other.
pub open spec fn audio<T>(frames: Seq<Frame<T>>) -> Seq<T>
    decreases frames.len(),
{
    if frames.len() == 0 {
        seq![]
    } else {
        audio(frames.drop_last()) + frames.last().0
    }
}

/// How many of the frames are voiced.
pub open spec fn voiced_count<T>(frames: Seq<Frame<T>>) -> nat
    decreases frames.len(),
{
    if frames.len() == 0 {
        0
    } else {
        voiced_count(frames.drop_last()) + if frames.last().1 {
            1nat
        } else {
            0
        }
    }
}

/// Every frame has its full length.
pub open spec fn whole_frames<T>(frames: Seq<Frame<T>>) -> bool {
    forall|i: int| 0 <= i < frames.len() ==> (#[trigger] frames[i]).0.len() == FRAME
}

/// The audio that the segmenter holds on to.
pub open spec fn held<T>(s: SegState<T>) -> Seq<T> {
    if s.speaking {
        s.current
    } else {
        s.preroll
    }
}

/// For each utterance the frames that it is made of: the first, and the one after the last.
pub open spec fn spans<T>(frames: Seq<Frame<T>>) -> Seq<(int, int)>
    decreases frames.len(),
{
    if frames.len() == 0 {
        seq![]
    } else {
        let rest = frames.drop_last();
        let s = fed(idle(), rest).0;
        match pushed(s, frames.last().0, frames.last().1).1 {
            Some(u) => spans(rest).push((frames.len() - u.len() / FRAME as nat, frames.len() as int)),
            None => spans(rest),
        }
    }
}

/// The frames of a span are a voiced stretch of the stream whose audio is `u`.
pub open spec fn is_utterance<T>(frames: Seq<Frame<T>>, span: (int, int), u: Seq<T>) -> bool {
    &&& 0 <= span.0 < span.1 <= frames.len()
    &&& u == audio(frames.subrange(span.0, span.1))
    &&& voiced_count(frames.subrange(span.0, span.1)) >= MIN_VOICED
    &&& u.len() < MAX_SAMPLES + FRAME
}

proof fn lemma_audio_len<T>(frames: Seq<Frame<T>>)
    requires
        whole_frames(frames),
    ensures
        audio(frames).len() == frames.len() * FRAME,
    decreases frames.len(),
{
    if frames.len() > 0 {
        let rest = frames.drop_last();
        assert forall|i: int| 0 <= i < rest.len() implies (#[trigger] rest[i]).0.len() == FRAME by {
            assert(rest[i] == frames[i]);
        }
        lemma_audio_len(rest);
        assert(frames[frames.len() - 1].0.len() == FRAME);
    }
}

proof fn lemma_audio_front<T>(frames: Seq<Frame<T>>)
    requires
        frames.len() > 0,
    ensures
        audio(frames) == frames[0].0 + audio(frames.skip(1)),
    decreases frames.len(),
{
    if frames.len() == 1 {
        assert(audio(frames.drop_last()) =~= seq![]);
        assert(audio(frames.skip(1)) =~= seq![]);
        assert(audio(frames) =~= frames[0].0 + audio(frames.skip(1)));
    } else {
        lemma_audio_front(frames.drop_last());
        assert(frames.skip(1).drop_last() =~= frames.drop_last().skip(1));
        assert(audio(frames) =~= frames[0].0 + audio(frames.skip(1)));
    }
}

proof fn lemma_count_all<T>(frames: Seq<Frame<T>>, n: int)
    requires
        0 <= n <= frames.len(),
        forall|i: int| frames.len() - n <= i < frames.len() ==> (#[trigger] frames[i]).1,
    ensures
        voiced_count(frames) >= n,
    decreases n,
{
    if n > 0 {
        assert(frames[frames.len() - 1].1);
        let rest = frames.drop_last();
        assert forall|i: int| rest.len() - (n - 1) <= i < rest.len() implies (
        #[trigger] rest[i]).1 by {
            assert(rest[i] == frames[i]);
        }
        lemma_count_all(rest, n - 1);
    }
}

/// How many frames of audio are held.
spec fn held_frames<T>(s: SegState<T>) -> int {
    held(s).len() as int / FRAME as int
}

/// What holds of the segmenter after the frames, told in frames.
spec fn traced<T>(frames: Seq<Frame<T>>) -> bool {
    let (s, out) = fed(idle(), frames);
    let sp = spans(frames);
    let m = held_frames(s);
    let n = frames.len() as int;
    &&& seg_inv(s)
    &&& held(s).len() == m * FRAME
    &&& 0 <= m <= n
    &&& held(s) == audio(frames.skip(n - m))
    &&& s.speaking ==> m > 0 && s.voiced <= voiced_count(frames.skip(n - m))
    &&& !s.speaking ==> s.onset_run <= m && forall|i: int|
        n - s.onset_run <= i < n ==> (#[trigger] frames[i]).1
    &&& sp.len() == out.len()
    &&& forall|k: int| 0 <= k < sp.len() ==> is_utterance(frames, #[trigger] sp[k], out[k])
    &&& forall|k: int| 0 <= k < sp.len() ==> (#[trigger] sp[k]).1 <= n - m
    &&& forall|j: int, k: int| 0 <= j < k < sp.len() ==> (#[trigger] sp[j]).1 <= (#[trigger] sp[k]).0
}

proof fn lemma_traced<T>(frames: Seq<Frame<T>>)
    requires
        whole_frames(frames),
    ensures
        traced(frames),
    decreases frames.len(),
{
    if frames.len() == 0 {
        assert(fed(idle::<T>(), frames) == (idle::<T>(), Seq::<Seq<T>>::empty()));
        assert(spans(frames).len() == 0);
        assert(frames.skip(0).len() == 0);
        assert(audio(frames.skip(0)) =~= seq![]);
    } else {
        let rest = frames.drop_last();
        let (frame, voiced) = frames.last();
        assert forall|i: int| 0 <= i < rest.len() implies (#[trigger] rest[i]).0.len() == FRAME by {
            assert(rest[i] == frames[i]);
        }
        lemma_traced(rest);
        assert(frames[frames.len() - 1].0.len() == FRAME);
        let (s, done) = fed(idle(), rest);
        let (next, u) = pushed(s, frame, voiced);
        assert(fed(idle(), frames).0 == next);
        let n = frames.len() as int;
        let m = held_frames(s);
        let before = rest.skip(n - 1 - m);
        let now = frames.skip(n - 1 - m);
        assert(now.drop_last() =~= before);
        assert(now.last() == frames.last());
        assert(audio(now) == held(s) + frame);
        assert(voiced_count(now) == voiced_count(before) + if voiced {
            1nat
        } else {
            0
        });
        lemma_later_spans(frames);
        if !s.speaking {
            let ring = last_of(s.preroll + frame, PREROLL as nat);
            let run = if voiced {
                s.onset_run + 1
            } else {
                0
            };
            assert forall|i: int| n - run <= i < n implies (#[trigger] frames[i]).1 by {
                if i < n - 1 {
                    assert(rest[i].1);
                    assert(rest[i] == frames[i]);
                }
            }
            let kept = if m + 1 > 16 {
                m
            } else {
                m + 1
            };
            if m + 1 > 16 {
                lemma_audio_front(now);
                assert(now[0] == frames[n - 1 - m]);
                assert(now.skip(1) =~= frames.skip(n - m));
                assert(ring =~= audio(now.skip(1)));
            } else {
                assert(ring == audio(now));
            }
            assert(ring == audio(frames.skip(n - kept)));
            assert(ring.len() == kept * FRAME);
            assert(held(next) == ring);
            assert(held_frames(next) == kept);
            if run >= ONSET {
                let tail = frames.skip(n - kept);
                assert forall|i: int| tail.len() - run <= i < tail.len() implies (
                #[trigger] tail[i]).1 by {
                    assert(tail[i] == frames[n - kept + i]);
                }
                lemma_count_all(tail, run as int);
            }
            assert(u.is_none());
        } else {
            let current = s.current + frame;
            assert(current.len() == (m + 1) * FRAME);
            match u {
                Some(whole) => {
                    assert(whole == current);
                    assert(whole.len() / FRAME as nat == m + 1);
                    let span = (n - whole.len() / FRAME as nat, n);
                    assert(frames.subrange(n - 1 - m, n) =~= now);
                    assert(is_utterance(frames, span, whole));
                    assert(spans(frames) == spans(rest).push(span));
                    assert(frames.skip(n).len() == 0);
                    assert(audio(frames.skip(n)) =~= seq![]);
                    assert(held(next) =~= seq![]);
                    assert(fed(idle(), frames).1 == done.push(whole));
                },
                None => {
                    if next.speaking {
                        assert(held_frames(next) == m + 1);
                    } else {
                        assert(frames.skip(n).len() == 0);
                        assert(audio(frames.skip(n)) =~= seq![]);
                        assert(held(next) =~= seq![]);
                        assert(held_frames(next) == 0);
                    }
                },
            }
        }
    }
}

/// A later frame changes nothing of the spans that are complete.
proof fn lemma_later_spans<T>(frames: Seq<Frame<T>>)
    requires
        frames.len() > 0,
    ensures
        forall|span: (int, int), u: Seq<T>|
            #[trigger] is_utterance(frames.drop_last(), span, u) ==> is_utterance(frames, span, u),
{
    assert forall|span: (int, int), u: Seq<T>|
        #[trigger] is_utterance(frames.drop_last(), span, u) implies is_utterance(
        frames,
        span,
        u,
    ) by {
        assert(frames.drop_last().subrange(span.0, span.1) =~= frames.subrange(span.0, span.1));
    }
}

/// Every utterance is a contiguous stretch of the stream, with enough voice in it and short enough
/// for the model's window; the stretches follow one another without overlap.
pub proof fn law_utterances_are_stretches_of_the_stream<T>(frames: Seq<Frame<T>>)
    requires
        whole_frames(frames),
    ensures
        spans(frames).len() == fed(idle(), frames).1.len(),
        forall|k: int|
            0 <= k < spans(frames).len() ==> {
                &&& is_utterance(frames, #[trigger] spans(frames)[k], fed(idle(), frames).1[k])
                &&& fed(idle(), frames).1[k].len() <= N_SAMPLES
            },
        forall|j: int, k: int|
            0 <= j < k < spans(frames).len() ==> (#[trigger] spans(frames)[j]).1 <= (
            #[trigger] spans(frames)[k]).0,
{
    lemma_traced(frames);
    let out = fed(idle(), frames).1;
    assert forall|k: int| 0 <= k < spans(frames).len() implies {
        &&& is_utterance(frames, #[trigger] spans(frames)[k], out[k])
        &&& out[k].len() <= N_SAMPLES
    } by {
        assert(is_utterance(frames, spans(frames)[k], out[k]));
    }
}

/// An utterance holds as many frames of audio as its span says, and at least one.
pub proof fn law_utterance_is_not_empty<T>(frames: Seq<Frame<T>>, span: (int, int), u: Seq<T>)
    requires
        whole_frames(frames),
        is_utterance(frames, span, u),
    ensures
        u.len() == (span.1 - span.0) * FRAME,
        u.len() > 0,
{
    let part = frames.subrange(span.0, span.1);
    assert forall|i: int| 0 <= i < part.len() implies (#[trigger] part[i]).0.len() == FRAME by {
        assert(part[i] == frames[span.0 + i]);
    }
    lemma_audio_len(part);
}

/// It makes no difference in how many parts the frames arrive: two batches one after the other are
/// one batch.
pub proof fn law_batches_do_not_matter<T>(
    from: SegState<T>,
    a: Seq<Frame<T>>,
    b: Seq<Frame<T>>,
)
    ensures
        fed(from, a + b).0 == fed(fed(from, a).0, b).0,
        fed(from, a + b).1 == fed(from, a).1 + fed(fed(from, a).0, b).1,
    decreases b.len(),
{
    let mid = fed(from, a).0;
    if b.len() == 0 {
        assert(a + b =~= a);
        assert(fed(mid, b) == (mid, Seq::<Seq<T>>::empty()));
        assert(fed(from, a).1 + fed(mid, b).1 =~= fed(from, a).1);
    } else {
        let fewer = b.drop_last();
        law_batches_do_not_matter(from, a, fewer);
        assert((a + b).drop_last() =~= a + fewer);
        assert((a + b).last() == b.last());
        assert(fed(from, a + b).1 =~= fed(from, a).1 + fed(mid, b).1);
    }
}

/// What closed the utterance on a span: it is full, or its last frames are a pause.
pub open spec fn ended_by_pause_or_length<T>(
    frames: Seq<Frame<T>>,
    span: (int, int),
    u: Seq<T>,
) -> bool {
    ||| u.len() >= MAX_SAMPLES
    ||| {
        &&& 0 <= span.0
        &&& span.0 + HANGOVER <= span.1 <= frames.len()
        &&& forall|i: int| span.1 - HANGOVER <= i < span.1 ==> !(#[trigger] frames[i]).1
    }
}

/// The silence that is counted is there: the last frames of an open utterance are unvoiced.
spec fn silence_traced<T>(frames: Seq<Frame<T>>) -> bool {
    let s = fed(idle(), frames).0;
    let n = frames.len() as int;
    s.speaking ==> {
        &&& s.silence <= n
        &&& s.silence * FRAME <= s.current.len()
        &&& forall|i: int| n - s.silence <= i < n ==> !(#[trigger] frames[i]).1
    }
}

proof fn lemma_silence_traced<T>(frames: Seq<Frame<T>>)
    requires
        whole_frames(frames),
    ensures
        silence_traced(frames),
    decreases frames.len(),
{
    if frames.len() > 0 {
        let rest = frames.drop_last();
        assert forall|i: int| 0 <= i < rest.len() implies (#[trigger] rest[i]).0.len() == FRAME by {
            assert(rest[i] == frames[i]);
        }
        lemma_silence_traced(rest);
        let s = fed(idle(), rest).0;
        let (frame, voiced) = frames.last();
        assert(frames[frames.len() - 1].0.len() == FRAME);
        let next = pushed(s, frame, voiced).0;
        assert(fed(idle(), frames).0 == next);
        let n = frames.len() as int;
        if next.speaking {
            assert forall|i: int| n - next.silence <= i < n implies !(#[trigger] frames[i]).1 by {
                if i < n - 1 {
                    assert(!rest[i].1);
                    assert(rest[i] == frames[i]);
                }
            }
        }
    }
}

/// An utterance that comes out while the stream runs either ends in a pause of the hangover's
/// length or is full.
pub proof fn law_utterances_end_in_a_pause_or_are_full<T>(frames: Seq<Frame<T>>)
    requires
        whole_frames(frames),
    ensures
        spans(frames).len() == fed(idle(), frames).1.len(),
        forall|k: int|
            0 <= k < spans(frames).len() ==> ended_by_pause_or_length(
                frames,
                #[trigger] spans(frames)[k],
                fed(idle(), frames).1[k],
            ),
    decreases frames.len(),
{
    if frames.len() == 0 {
        assert(spans(frames).len() == 0);
    } else {
        let rest = frames.drop_last();
        assert forall|i: int| 0 <= i < rest.len() implies (#[trigger] rest[i]).0.len() == FRAME by {
            assert(rest[i] == frames[i]);
        }
        law_utterances_end_in_a_pause_or_are_full(rest);
        lemma_silence_traced(rest);
        let (s, done) = fed(idle(), rest);
        let (frame, voiced) = frames.last();
        assert(frames[frames.len() - 1].0.len() == FRAME);
        let n = frames.len() as int;
        let out = fed(idle(), frames).1;
        assert forall|k: int| 0 <= k < spans(frames).len() implies ended_by_pause_or_length(
            frames,
            #[trigger] spans(frames)[k],
            out[k],
        ) by {
            if k < spans(rest).len() {
                let span = spans(rest)[k];
                assert(spans(frames)[k] == span && out[k] == done[k]);
                assert(ended_by_pause_or_length(rest, span, done[k]));
                if done[k].len() < MAX_SAMPLES {
                    assert forall|i: int| span.1 - HANGOVER <= i < span.1 implies !(
                    #[trigger] frames[i]).1 by {
                        assert(!rest[i].1);
                        assert(rest[i] == frames[i]);
                    }
                }
            } else {
                let u = out[k];
                lemma_traced(frames);
                assert(is_utterance(frames, spans(frames)[k], u));
                assert(u == s.current + frame);
                if u.len() < MAX_SAMPLES {
                    assert(!voiced && s.silence + 1 >= HANGOVER);
                    assert forall|i: int| n - HANGOVER <= i < n implies !(
                    #[trigger] frames[i]).1 by {
                        if i < n - 1 {
                            assert(!rest[i].1);
                            assert(rest[i] == frames[i]);
                        }
                    }
                    assert(u.len() >= HANGOVER * FRAME);
                    assert(u.len() / FRAME as nat >= HANGOVER);
                }
            }
        }
    }
}

/// Whatever is still held when the stream stops is the end of the stream: flushing hands out a
/// stretch that no utterance before it overlaps.
pub proof fn law_flush_hands_out_the_tail<T>(frames: Seq<Frame<T>>)
    requires
        whole_frames(frames),
        closed(fed(idle(), frames).0).1.is_some(),
    ensures
        exists|from: int|
            {
                &&& #[trigger] is_utterance(
                    frames,
                    (from, frames.len() as int),
                    closed(fed(idle(), frames).0).1.unwrap(),
                )
                &&& forall|k: int|
                    0 <= k < spans(frames).len() ==> (#[trigger] spans(frames)[k]).1 <= from
            },
{
    lemma_traced(frames);
    let s = fed(idle(), frames).0;
    let from = frames.len() - held_frames(s);
    assert(frames.subrange(from, frames.len() as int) =~= frames.skip(from));
    assert(closed(s).1.unwrap() == s.current);
    assert forall|k: int| 0 <= k < spans(frames).len() implies (
    #[trigger] spans(frames)[k]).1 <= from by {}
    assert(is_utterance(frames, (from, frames.len() as int), s.current));
}

/// Unvoiced frames alone produce nothing.
pub proof fn law_silence_produces_nothing<T>(frames: Seq<Frame<T>>)
    requires
        forall|i: int| 0 <= i < frames.len() ==> !(#[trigger] frames[i]).1,
    ensures
        fed(idle(), frames).1.len() == 0,
        !fed(idle(), frames).0.speaking,
        fed(idle(), frames).0.onset_run == 0,
    decreases frames.len(),
{
    if frames.len() > 0 {
        let rest = frames.drop_last();
        assert forall|i: int| 0 <= i < rest.len() implies !(#[trigger] rest[i]).1 by {
            assert(rest[i] == frames[i]);
        }
        law_silence_produces_nothing(rest);
        assert(!frames[frames.len() - 1].1);
    }
}

/// The third voiced frame in a row opens an utterance, which begins with the audio from before the
/// onset: all of it, or its last sixteen frames.
pub proof fn law_onset_keeps_the_preroll<T>(s: SegState<T>, frame: Seq<T>)
    requires
        seg_inv(s),
        !s.speaking,
        s.onset_run == ONSET - 1,
        frame.len() == FRAME,
    ensures
        pushed(s, frame, true).1.is_none(),
        pushed(s, frame, true).0.speaking,
        pushed(s, frame, true).0.current == last_of(s.preroll + frame, PREROLL as nat),
        pushed(s, frame, true).0.current.len() >= ONSET * FRAME,
        pushed(s, frame, true).0.voiced == ONSET,
{
}

/// An utterance that is open is cut by the frame that fills it, whatever is said: a stream that
/// never pauses is cut all the same.
pub proof fn law_open_utterance_is_bounded<T>(s: SegState<T>, frame: Seq<T>, voiced: bool)
    requires
        seg_inv(s),
        s.speaking,
        frame.len() == FRAME,
        s.current.len() + FRAME >= MAX_SAMPLES,
    ensures
        pushed(s, frame, voiced).0 == idle::<T>(),
        pushed(s, frame, voiced).1.is_some() == (s.voiced + (if voiced {
            1int
        } else {
            0
        }) >= MIN_VOICED),
{
}

/// A pause of the hangover's length closes an open utterance.
pub proof fn law_pause_closes<T>(s: SegState<T>, frame: Seq<T>)
    requires
        s.speaking,
        s.silence == HANGOVER - 1,
    ensures
        pushed(s, frame, false).0 == idle::<T>(),
        pushed(s, frame, false).1 == if s.voiced >= MIN_VOICED {
            Some(s.current + frame)
        } else {
            None
        },
{
}

/// The three frames before position `i` are voiced.
pub open spec fn three_voiced<T>(frames: Seq<Frame<T>>, i: int) -> bool {
    3 <= i <= frames.len() && frames[i - 1].1 && frames[i - 2].1 && frames[i - 3].1
}

/// An utterance of `head` frames, followed by the first `k` of `frames`, has reached its end: these
/// end in a pause of 38 frames, or it is twenty-five seconds long.
pub open spec fn at_its_end<T>(head: int, frames: Seq<Frame<T>>, k: int) -> bool {
    ||| 38 <= k <= frames.len() && forall|i: int| k - 38 <= i < k ==> !(#[trigger] frames[i]).1
    ||| (head + k) * 256 >= 400000
}

/// How many frames of a stream an utterance begins with that opens at its end: sixteen, or all.
pub open spec fn run_up<T>(frames: Seq<Frame<T>>) -> int {
    if frames.len() < 16 {
        frames.len() as int
    } else {
        16
    }
}

/// Before the first three voiced frames in a row nothing is open, and the recent audio is held.
proof fn lemma_waiting<T>(lead: Seq<Frame<T>>)
    requires
        whole_frames(lead),
        forall|i: int| 3 <= i <= lead.len() ==> !#[trigger] three_voiced(lead, i),
    ensures
        ({
            let (s, out) = fed(idle(), lead);
            let n = lead.len() as int;
            &&& seg_inv(s)
            &&& !s.speaking
            &&& out.len() == 0
            &&& s.preroll == audio(lead.skip(n - run_up(lead)))
            &&& s.onset_run <= n
            &&& forall|i: int| n - s.onset_run <= i < n ==> (#[trigger] lead[i]).1
            &&& s.onset_run < n ==> !lead[n - 1 - s.onset_run].1
        }),
    decreases lead.len(),
{
    let n = lead.len() as int;
    lemma_traced(lead);
    if n == 0 {
        assert(lead.skip(0) =~= lead);
        assert(audio(lead) =~= seq![]);
        assert(fed(idle::<T>(), lead).0.preroll =~= audio(lead));
    } else {
        let rest = lead.drop_last();
        lemma_whole(lead);
        assert forall|i: int| 3 <= i <= rest.len() implies !#[trigger] three_voiced(rest, i) by {
            assert(!three_voiced(lead, i));
        }
        lemma_waiting(rest);
        lemma_ring(lead);
        let s = fed(idle(), rest).0;
        let (frame, voiced) = lead.last();
        assert(!three_voiced(lead, n));
        if voiced && s.onset_run + 1 >= ONSET {
            assert(rest[n - 2].1 && rest[n - 3].1);
            assert(lead[n - 1].1 && lead[n - 2].1 && lead[n - 3].1);
        }
        let next = pushed(s, frame, voiced).0;
        assert(fed(idle(), lead).0 == next);
        assert forall|i: int| n - next.onset_run <= i < n implies (#[trigger] lead[i]).1 by {
            if i < n - 1 {
                assert(rest[i].1);
            }
        }
    }
}

proof fn lemma_whole<T>(frames: Seq<Frame<T>>)
    requires
        whole_frames(frames),
        frames.len() > 0,
    ensures
        whole_frames(frames.drop_last()),
        frames.last().0.len() == FRAME,
{
    let rest = frames.drop_last();
    assert forall|i: int| 0 <= i < rest.len() implies (#[trigger] rest[i]).0.len() == FRAME by {
        assert(rest[i] == frames[i]);
    }
    assert(frames[frames.len() - 1].0.len() == FRAME);
}

/// The last sixteen frames of audio, carried one frame further.
proof fn lemma_ring<T>(lead: Seq<Frame<T>>)
    requires
        whole_frames(lead),
        lead.len() > 0,
    ensures
        ({
            let rest = lead.drop_last();
            last_of(
                audio(rest.skip(rest.len() - run_up(rest))) + lead.last().0,
                PREROLL as nat,
            ) == audio(lead.skip(lead.len() - run_up(lead)))
        }),
{
    let rest = lead.drop_last();
    let n = lead.len() as int;
    let m = run_up(rest);
    let before = rest.skip(n - 1 - m);
    let now = lead.skip(n - 1 - m);
    assert(now.drop_last() =~= before);
    assert(now.last() == lead.last());
    assert(audio(now) == audio(before) + lead.last().0);
    assert forall|i: int| 0 <= i < now.len() implies (#[trigger] now[i]).0.len() == FRAME by {
        assert(now[i] == lead[n - 1 - m + i]);
    }
    lemma_audio_len(now);
    if m == 16 {
        lemma_audio_front(now);
        assert(now[0].0.len() == FRAME);
        assert(now.skip(1) =~= lead.skip(n - 16));
        assert(last_of(audio(now), PREROLL as nat) =~= audio(now.skip(1)));
    }
}

/// While an utterance is open the segmenter holds all of it, knows how many of its frames are
/// voiced, and counts exactly the unvoiced frames since the last voiced one.
proof fn lemma_open<T>(lead: Seq<Frame<T>>, more: Seq<Frame<T>>)
    requires
        whole_frames(lead),
        whole_frames(more),
        three_voiced(lead, lead.len() as int),
        forall|i: int| 3 <= i < lead.len() ==> !#[trigger] three_voiced(lead, i),
        forall|k: int| 1 <= k <= more.len() ==> !#[trigger] at_its_end(run_up(lead), more, k),
    ensures
        ({
            let (s, out) = fed(idle(), lead + more);
            let n = more.len() as int;
            &&& seg_inv(s)
            &&& s.speaking
            &&& out.len() == 0
            &&& s.current == audio(lead.skip(lead.len() - run_up(lead))) + audio(more)
            &&& s.current.len() == (run_up(lead) + n) * FRAME
            &&& s.voiced == 3 + voiced_count(more)
            &&& s.silence <= n
            &&& forall|i: int| n - s.silence <= i < n ==> !(#[trigger] more[i]).1
            &&& s.silence < n ==> more[n - 1 - s.silence].1
        }),
    decreases more.len(),
{
    let n = more.len() as int;
    let head = lead.skip(lead.len() - run_up(lead));
    assert forall|i: int| 0 <= i < head.len() implies (#[trigger] head[i]).0.len() == FRAME by {
        assert(head[i] == lead[lead.len() - run_up(lead) + i]);
    }
    lemma_audio_len(head);
    if n == 0 {
        let rest = lead.drop_last();
        lemma_whole(lead);
        assert forall|i: int| 3 <= i <= rest.len() implies !#[trigger] three_voiced(rest, i) by {
            assert(!three_voiced(lead, i));
        }
        lemma_waiting(rest);
        lemma_ring(lead);
        let s = fed(idle(), rest).0;
        assert(lead[lead.len() - 2].1 && lead[lead.len() - 3].1);
        assert(s.onset_run == 2) by {
            if s.onset_run < 2 {
                assert(!rest[rest.len() - 1 - s.onset_run].1);
            }
        }
        assert(lead + more =~= lead);
        assert(audio(more) =~= seq![]);
        assert(fed(idle(), lead).0 == pushed(s, lead.last().0, true).0);
        assert(audio(head) + audio(more) =~= audio(head));
    } else {
        let fewer = more.drop_last();
        lemma_whole(more);
        assert forall|k: int| 1 <= k <= fewer.len() implies !#[trigger] at_its_end(
            run_up(lead),
            fewer,
            k,
        ) by {
            assert(!at_its_end(run_up(lead), more, k));
            if 38 <= k && forall|i: int| k - 38 <= i < k ==> !(#[trigger] fewer[i]).1 {
                assert forall|i: int| k - 38 <= i < k implies !(#[trigger] more[i]).1 by {
                    assert(!fewer[i].1);
                }
            }
        }
        lemma_open(lead, fewer);
        let s = fed(idle(), lead + fewer).0;
        let (frame, voiced) = more.last();
        assert((lead + more).drop_last() =~= lead + fewer);
        assert((lead + more).last() == more.last());
        lemma_silence_grows(more, s.silence as int);
        assert(!at_its_end(run_up(lead), more, n));
        let next = pushed(s, frame, voiced).0;
        assert(s.current + frame =~= audio(head) + audio(more));
        assert(s.voiced + (if voiced {
            1int
        } else {
            0
        }) == 3 + voiced_count(more));
        assert(fed(idle(), lead + more).0 == next);
    }
}

/// One frame more: what is known of the unvoiced frames at the end.
proof fn lemma_silence_grows<T>(more: Seq<Frame<T>>, silence: int)
    requires
        more.len() > 0,
        0 <= silence <= more.len() - 1,
        forall|i: int|
            more.len() - 1 - silence <= i < more.len() - 1 ==> !(#[trigger] more.drop_last()[i]).1,
        silence < more.len() - 1 ==> more.drop_last()[more.len() - 2 - silence].1,
    ensures
        !more.last().1 ==> forall|i: int|
            more.len() - 1 - silence <= i < more.len() ==> !(#[trigger] more[i]).1,
        silence < more.len() - 1 ==> more[more.len() - 2 - silence].1,
{
    let fewer = more.drop_last();
    assert forall|i: int|
        !more.last().1 && more.len() - 1 - silence <= i < more.len() implies !(
    #[trigger] more[i]).1 by {
        if i < more.len() - 1 {
            assert(!fewer[i].1);
        }
    }
}

/// Before three voiced frames in a row nothing opens, nothing comes out, and there is nothing to
/// flush.
pub proof fn law_nothing_opens_before_three_voiced_frames<T>(lead: Seq<Frame<T>>)
    requires
        whole_frames(lead),
        forall|i: int| 3 <= i <= lead.len() ==> !#[trigger] three_voiced(lead, i),
    ensures
        !fed(idle(), lead).0.speaking,
        fed(idle(), lead).1.len() == 0,
        closed(fed(idle(), lead).0) == (idle::<T>(), None::<Seq<T>>),
{
    lemma_waiting(lead);
}

/// The first three voiced frames in a row open an utterance, and it stays open, with nothing coming
/// out, for as long as there is no pause of 38 frames in it and it is not twenty-five seconds long.
/// A flush then hands out all of it, the run-up of up to sixteen frames in front, where nineteen of
/// its frames or more are voiced from the three on; and begins afresh.
pub proof fn law_utterance_stays_open<T>(lead: Seq<Frame<T>>, more: Seq<Frame<T>>)
    requires
        whole_frames(lead),
        whole_frames(more),
        three_voiced(lead, lead.len() as int),
        forall|i: int| 3 <= i < lead.len() ==> !#[trigger] three_voiced(lead, i),
        forall|k: int| 1 <= k <= more.len() ==> !#[trigger] at_its_end(run_up(lead), more, k),
    ensures
        fed(idle(), lead + more).0.speaking,
        fed(idle(), lead + more).1.len() == 0,
        closed(fed(idle(), lead + more).0).0 == idle::<T>(),
        closed(fed(idle(), lead + more).0).1 == if 3 + voiced_count(more) >= 19 {
            Some(audio(lead.skip(lead.len() - run_up(lead)) + more))
        } else {
            None
        },
{
    lemma_open(lead, more);
    lemma_audio_of_two(lead.skip(lead.len() - run_up(lead)), more);
}

/// An utterance ends at the first frame that makes a pause of 38 frames, or fills twenty-five
/// seconds: all of it comes out there and then where nineteen of its frames or more are voiced,
/// nothing comes out otherwise, and either way the segmenter begins afresh.
pub proof fn law_utterance_comes_out_at_its_end<T>(lead: Seq<Frame<T>>, more: Seq<Frame<T>>)
    requires
        whole_frames(lead),
        whole_frames(more),
        three_voiced(lead, lead.len() as int),
        forall|i: int| 3 <= i < lead.len() ==> !#[trigger] three_voiced(lead, i),
        more.len() > 0,
        at_its_end(run_up(lead), more, more.len() as int),
        forall|k: int| 1 <= k < more.len() ==> !#[trigger] at_its_end(run_up(lead), more, k),
    ensures
        fed(idle(), lead + more).0 == idle::<T>(),
        fed(idle(), lead + more).1 == if 3 + voiced_count(more) >= 19 {
            seq![audio(lead.skip(lead.len() - run_up(lead)) + more)]
        } else {
            seq![]
        },
{
    let n = more.len() as int;
    let head = lead.skip(lead.len() - run_up(lead));
    let fewer = more.drop_last();
    lemma_whole(more);
    assert forall|k: int| 1 <= k <= fewer.len() implies !#[trigger] at_its_end(
        run_up(lead),
        fewer,
        k,
    ) by {
        assert(!at_its_end(run_up(lead), more, k));
        if 38 <= k && forall|i: int| k - 38 <= i < k ==> !(#[trigger] fewer[i]).1 {
            assert forall|i: int| k - 38 <= i < k implies !(#[trigger] more[i]).1 by {
                assert(!fewer[i].1);
            }
        }
    }
    lemma_open(lead, fewer);
    lemma_audio_of_two(head, more);
    let (s, out) = fed(idle(), lead + fewer);
    let (frame, voiced) = more.last();
    assert((lead + more).drop_last() =~= lead + fewer);
    assert((lead + more).last() == more.last());
    lemma_silence_grows(more, s.silence as int);
    assert(s.current + frame =~= audio(head) + audio(more));
    if (run_up(lead) + n) * 256 < 400000 {
        assert(!more[n - 1].1);
        if s.silence < 37 {
            assert(more[n - 2 - s.silence].1);
        }
        assert(s.silence + 1 >= HANGOVER);
    }
    let last = pushed(s, frame, voiced);
    assert(last.0 == idle::<T>());
    assert(fed(idle(), lead + more).0 == last.0);
    if 3 + voiced_count(more) >= 19 {
        assert(last.1 == Some(audio(head + more)));
        assert(fed(idle(), lead + more).1 =~= seq![audio(head + more)]);
    } else {
        assert(last.1.is_none());
        assert(fed(idle(), lead + more).1 =~= seq![]);
    }
}

proof fn lemma_audio_of_two<T>(a: Seq<Frame<T>>, b: Seq<Frame<T>>)
    ensures
        audio(a + b) == audio(a) + audio(b),
    decreases b.len(),
{
    if b.len() == 0 {
        assert(a + b =~= a);
        assert(audio(a) + audio(b) =~= audio(a));
    } else {
        assert((a + b).drop_last() =~= a + b.drop_last());
        lemma_audio_of_two(a, b.drop_last());
        assert(audio(a + b) =~= audio(a) + audio(b));
    }
}

/// The audio of the frames is their samples, in order: frame `i` stands at `i` times its length.
pub proof fn law_audio_is_every_sample<T>(frames: Seq<Frame<T>>, i: int, k: int)
    requires
        whole_frames(frames),
        0 <= i < frames.len(),
        0 <= k < FRAME,
    ensures
        audio(frames).len() == frames.len() * FRAME,
        audio(frames)[i * FRAME + k] == frames[i].0[k],
    decreases frames.len(),
{
    lemma_audio_len(frames);
    lemma_whole(frames);
    lemma_audio_len(frames.drop_last());
    if i < frames.len() - 1 {
        law_audio_is_every_sample(frames.drop_last(), i, k);
    }
}

/// After any frames that leave an utterance open, the silence that is counted is exactly the
/// unvoiced frames at the end of the stream, since the last voiced one.
pub proof fn law_silence_is_counted_exactly<T>(frames: Seq<Frame<T>>)
    requires
        whole_frames(frames),
    ensures
        ({
            let s = fed(idle(), frames).0;
            let n = frames.len() as int;
            s.speaking ==> {
                &&& s.silence < n
                &&& frames[n - 1 - s.silence].1
                &&& forall|i: int| n - s.silence <= i < n ==> !(#[trigger] frames[i]).1
            }
        }),
    decreases frames.len(),
{
    if frames.len() > 0 {
        let rest = frames.drop_last();
        lemma_whole(frames);
        law_silence_is_counted_exactly(rest);
        lemma_traced(rest);
        let s = fed(idle(), rest).0;
        let (frame, voiced) = frames.last();
        let next = pushed(s, frame, voiced).0;
        assert(fed(idle(), frames).0 == next);
        let n = frames.len() as int;
        if next.speaking {
            assert forall|i: int| n - next.silence <= i < n implies !(#[trigger] frames[i]).1 by {
                if i < n - 1 {
                    assert(!rest[i].1);
                }
            }
        }
    }
}

/// Every pause closes a chunk. Whatever came before, 38 unvoiced frames in a row leave nothing open;
/// and where an utterance was open that a flush would have handed out, it is handed out by then,
/// beginning with what was held of it, and nothing else is.
pub proof fn law_every_pause_closes<T>(frames: Seq<Frame<T>>, pause: Seq<Frame<T>>)
    requires
        whole_frames(frames),
        whole_frames(pause),
        pause.len() == 38,
        forall|i: int| 0 <= i < pause.len() ==> !(#[trigger] pause[i]).1,
    ensures
        !fed(idle(), frames + pause).0.speaking,
        ({
            let done = fed(idle(), frames).1;
            match closed(fed(idle(), frames).0).1 {
                Some(u) => exists|more: Seq<T>|
                    fed(idle(), frames + pause).1 == done.push(#[trigger] (u + more)),
                None => fed(idle(), frames + pause).1 == done,
            }
        }),
{
    let all = frames + pause;
    assert forall|i: int| 0 <= i < all.len() implies (#[trigger] all[i]).0.len() == FRAME by {
        if i >= frames.len() {
            assert(all[i] == pause[i - frames.len()]);
        }
    }
    lemma_traced(frames);
    lemma_traced(all);
    lemma_pause(frames, pause);
}

/// What `k` unvoiced frames can have made of a segmenter.
spec fn paused<T>(
    s: SegState<T>,
    done: Seq<Seq<T>>,
    k: nat,
    t: SegState<T>,
    out: Seq<Seq<T>>,
) -> bool {
    if t.speaking {
        &&& s.speaking
        &&& out == done
        &&& t.voiced == s.voiced
        &&& t.silence == s.silence + k
        &&& exists|more: Seq<T>| t.current == #[trigger] (s.current + more)
    } else {
        match closed(s).1 {
            Some(u) => exists|more: Seq<T>| out == done.push(#[trigger] (u + more)),
            None => out == done,
        }
    }
}

/// One unvoiced frame more.
proof fn lemma_paused<T>(
    s: SegState<T>,
    done: Seq<Seq<T>>,
    k: nat,
    t: SegState<T>,
    out: Seq<Seq<T>>,
    frame: Seq<T>,
)
    requires
        paused(s, done, k, t, out),
    ensures
        paused(
            s,
            done,
            k + 1,
            pushed(t, frame, false).0,
            match pushed(t, frame, false).1 {
                Some(u) => out.push(u),
                None => out,
            },
        ),
{
    if t.speaking {
        let more = choose|more: Seq<T>| t.current == #[trigger] (s.current + more);
        let longer = s.current + (more + frame);
        assert(t.current + frame =~= longer);
        let (next, u) = pushed(t, frame, false);
        if next.speaking {
            assert(next.current == longer);
            assert(paused(s, done, k + 1, next, out));
        } else if s.voiced >= MIN_VOICED {
            assert(u == Some(longer));
            assert(closed(s).1 == Some(s.current));
            let had = closed(s).1.unwrap();
            assert(had == s.current);
            assert(out.push(longer) == done.push(had + (more + frame)));
            assert(exists|m: Seq<T>| out.push(longer) == done.push(#[trigger] (had + m)));
            assert(paused(s, done, k + 1, next, out.push(longer)));
        } else {
            assert(u.is_none());
            assert(paused(s, done, k + 1, next, out));
        }
    } else {
        assert(pushed(t, frame, false).1.is_none());
        assert(!pushed(t, frame, false).0.speaking);
        assert(paused(s, done, k + 1, pushed(t, frame, false).0, out));
    }
}

/// What an unbroken pause leads to.
proof fn lemma_pause<T>(frames: Seq<Frame<T>>, pause: Seq<Frame<T>>)
    requires
        seg_inv(fed(idle(), frames).0),
        forall|i: int| 0 <= i < pause.len() ==> !(#[trigger] pause[i]).1,
    ensures
        paused(
            fed(idle(), frames).0,
            fed(idle(), frames).1,
            pause.len(),
            fed(idle(), frames + pause).0,
            fed(idle(), frames + pause).1,
        ),
    decreases pause.len(),
{
    let (s, done) = fed(idle(), frames);
    if pause.len() == 0 {
        assert(frames + pause =~= frames);
        assert(s.current =~= s.current + Seq::<T>::empty());
    } else {
        let fewer = pause.drop_last();
        assert forall|i: int| 0 <= i < fewer.len() implies !(#[trigger] fewer[i]).1 by {
            assert(!pause[i].1);
        }
        lemma_pause(frames, fewer);
        let (m, had) = fed(idle(), frames + fewer);
        assert((frames + pause).drop_last() =~= frames + fewer);
        assert((frames + pause).last() == pause.last());
        assert(!pause[pause.len() - 1].1);
        lemma_paused(s, done, fewer.len(), m, had, pause.last().0);
    }
}

/// A stream is fed frame by frame: each frame meets what the ones before it left, and what it
/// completes comes out after what they completed.
pub proof fn law_frame_by_frame<T>(
    from: SegState<T>,
    frames: Seq<Frame<T>>,
    frame: Seq<T>,
    voiced: bool,
)
    ensures
        ({
            let (s, done) = fed(from, frames);
            let (next, u) = pushed(s, frame, voiced);
            let (t, out) = fed(from, frames.push((frame, voiced)));
            &&& t == next
            &&& out == done + (match u {
                Some(audio) => seq![audio],
                None => seq![],
            })
        }),
{
    let all = frames.push((frame, voiced));
    let (s, done) = fed(from, frames);
    assert(all.drop_last() =~= frames);
    match pushed(s, frame, voiced).1 {
        Some(u) => {
            assert(done.push(u) =~= done + seq![u]);
        },
        None => {
            assert(done =~= done + Seq::<Seq<T>>::empty());
        },
    }
}

/// A flush of a segmenter in which nothing is open hands out nothing; and whatever was held, the
/// segmenter begins afresh.
pub proof fn law_flush_begins_afresh<T>(s: SegState<T>)
    requires
        seg_inv(s),
    ensures
        closed(s).0 == idle::<T>(),
        !s.speaking ==> closed(s).1.is_none(),
        s.speaking ==> (closed(s).1 == Some(s.current) || closed(s).1.is_none()),
{
}

/// The voiced frames are counted one by one.
pub proof fn law_voiced_frames_are_counted<T>(frames: Seq<Frame<T>>, frame: Frame<T>)
    ensures
        voiced_count(Seq::<Frame<T>>::empty()) == 0,
        voiced_count(frames.push(frame)) == voiced_count(frames) + if frame.1 {
            1int
        } else {
            0
        },
{
    assert(frames.push(frame).drop_last() =~= frames);
}

/// A frame is 256 samples, and a stream of whole frames is one in which each is.
pub proof fn law_whole_frames<T>(frames: Seq<Frame<T>>)
    ensures
        whole_frames(frames) <==> forall|i: int|
            0 <= i < frames.len() ==> (#[trigger] frames[i]).0.len() == 256,
{
}

/// The figures in time: a frame is sixteen milliseconds, a pause three fifths of a second and no
/// frame more, the run-up a quarter of a second, and an utterance is cut five seconds before the
/// model's window is full.
pub proof fn law_figures_in_time()
    ensures
        SAMPLE_RATE == 16000,
        FRAME * 1000 == 16 * SAMPLE_RATE,
        (HANGOVER - 1) * FRAME * 10 < 6 * SAMPLE_RATE <= HANGOVER * FRAME * 10,
        PREROLL == 16 * FRAME,
        MAX_SAMPLES == N_SAMPLES - 5 * SAMPLE_RATE,
        N_SAMPLES == 30 * SAMPLE_RATE,
        ONSET == 3,
        MIN_VOICED == 19,
{
}

} // verus!
