//! Device audio in, 16 kHz mono frames out.
//!
//! Samples of any kind: averaging the channels of one sampling instant, converting the rate, and
//! deciding whether a frame is voiced are the caller's. What is done here is that no sample is
//! dropped, repeated or moved on the way.

use crate::chunks;
use crate::segment;
use crate::segment::{Segmenter, FRAME, SAMPLE_RATE};
use vstd::prelude::*;

verus! {

/// The whole frames at the front of `samples`, each with its voicing decision.
pub open spec fn frames_of<T>(samples: Seq<T>, voiced: Seq<bool>) -> Seq<segment::Frame<T>> {
    Seq::new(
        voiced.len(),
        |k: int| (samples.subrange(k * FRAME, k * FRAME + FRAME), voiced[k]),
    )
}

/// `value` is one that `mean` gives for the part of `block` that `span` marks.
pub open spec fn mean_of<T, F: Fn(&[T]) -> T>(
    mean: F,
    block: Seq<T>,
    span: (int, int),
    value: T,
) -> bool {
    exists|part: &[T]|
        part@ == block.subrange(span.0, span.1) && #[trigger] call_ensures(mean, (part,), value)
}

/// `out` holds, for each sampling instant of a block, the value that `mean` gives for it.
pub open spec fn mixed<T, F: Fn(&[T]) -> T>(
    mean: F,
    block: Seq<T>,
    channels: nat,
    out: Seq<T>,
) -> bool {
    let cuts = chunks::pieces(0, block.len(), channels);
    &&& out.len() == cuts.len()
    &&& forall|k: int| 0 <= k < cuts.len() ==> mean_of(mean, block, #[trigger] cuts[k], out[k])
}

/// Buffers between the microphone and the segmenter.
pub struct Intake<T> {
    channels: usize,
    native: bool,
    at_device_rate: Vec<T>,
    at_16k: Vec<T>,
}

impl<T: Copy> Intake<T> {
    /// How many channels the device interleaves.
    pub closed spec fn channel_count(self) -> nat {
        self.channels as nat
    }

    /// The device's rate is the model's: nothing is resampled.
    pub closed spec fn is_native(self) -> bool {
        self.native
    }

    /// Mono samples at the device's rate, not yet converted.
    pub closed spec fn waiting(self) -> Seq<T> {
        self.at_device_rate@
    }

    /// Samples at 16 kHz, not yet in a frame.
    pub closed spec fn ready(self) -> Seq<T> {
        self.at_16k@
    }

    /// The two intakes are set up for the same device.
    pub open spec fn same_device(self, other: Self) -> bool {
        self.channel_count() == other.channel_count() && self.is_native() == other.is_native()
    }

    pub fn new(in_rate: u32, channels: usize) -> (r: Self)
        ensures
            r.channel_count() == channels,
            r.is_native() == (in_rate == SAMPLE_RATE),
            r.waiting() == Seq::<T>::empty(),
            r.ready() == Seq::<T>::empty(),
    {
        Intake {
            channels,
            native: in_rate == SAMPLE_RATE,
            at_device_rate: Vec::new(),
            at_16k: Vec::new(),
        }
    }

    /// Whether the device already delivers 16 kHz.
    pub fn native(&self) -> (r: bool)
        ensures
            r == self.is_native(),
    {
        self.native
    }

    /// How many samples at 16 kHz are not yet in a frame.
    pub fn ready_len(&self) -> (r: usize)
        ensures
            r == self.ready().len(),
    {
        self.at_16k.len()
    }

    /// Takes one interleaved block: each sampling instant becomes the one value that `mean` gives.
    pub fn downmix<F: Fn(&[T]) -> T>(&mut self, block: &[T], mean: F)
        requires
            old(self).channel_count() > 0,
            forall|piece: &[T]| #[trigger] call_requires(mean, (piece,)),
        ensures
            final(self).same_device(*old(self)),
            final(self).ready() == old(self).ready(),
            final(self).waiting().len() >= old(self).waiting().len(),
            final(self).waiting().take(old(self).waiting().len() as int) == old(self).waiting(),
            mixed(
                mean,
                block@,
                old(self).channel_count(),
                final(self).waiting().skip(old(self).waiting().len() as int),
            ),
    {
        let ghost before = *self;
        let ghost n0 = before.waiting().len() as int;
        let ghost cuts = chunks::pieces(0, block@.len(), before.channel_count());
        let spans = chunks::cut(block.len(), self.channels);
        for k in 0..spans.len()
            invariant
                forall|piece: &[T]| #[trigger] call_requires(mean, (piece,)),
                self.same_device(before),
                self.ready() == before.ready(),
                n0 == before.waiting().len(),
                self.waiting().len() == n0 + k,
                self.waiting().take(n0) == before.waiting(),
                cuts == chunks::pieces(0, block@.len(), before.channel_count()),
                spans@.len() == cuts.len(),
                forall|j: int|
                    0 <= j < spans@.len() ==> {
                        &&& (#[trigger] spans@[j]).0 == cuts[j].0
                        &&& spans@[j].1 == cuts[j].1
                        &&& spans@[j].0 < spans@[j].1 <= block@.len()
                    },
                forall|j: int|
                    0 <= j < k ==> mean_of(
                        mean,
                        block@,
                        #[trigger] cuts[j],
                        self.waiting()[n0 + j],
                    ),
        {
            let (from, to) = spans[k];
            let part: &[T] = vstd::slice::slice_subrange(block, from, to);
            let ghost had = self.waiting();
            let value = mean(part);
            self.at_device_rate.push(value);
            proof {
                assert(self.waiting() == had.push(value));
                assert(self.waiting().take(n0) =~= had.take(n0));
                assert(spans@[k as int].0 == cuts[k as int].0);
                assert(mean_of(mean, block@, cuts[k as int], value));
            }
        }
    }

    /// Moves everything on as it is: the device's rate is the model's.
    pub fn pass_through(&mut self)
        ensures
            final(self).same_device(*old(self)),
            final(self).waiting() == Seq::<T>::empty(),
            final(self).ready() == old(self).ready() + old(self).waiting(),
    {
        self.at_16k.append(&mut self.at_device_rate);
    }

    /// The next `need` samples for the rate converter, where that many are waiting.
    pub fn take_input(&mut self, need: usize) -> (r: Option<Vec<T>>)
        ensures
            final(self).same_device(*old(self)),
            final(self).ready() == old(self).ready(),
            r.is_some() == (old(self).waiting().len() >= need),
            r.is_some() ==> {
                &&& r.unwrap()@ == old(self).waiting().take(need as int)
                &&& final(self).waiting() == old(self).waiting().skip(need as int)
            },
            r.is_none() ==> final(self).waiting() == old(self).waiting(),
    {
        if self.at_device_rate.len() < need {
            return None;
        }
        let ghost all = self.at_device_rate@;
        let rest: Vec<T> = self.at_device_rate.split_off(need);
        let mut head: Vec<T> = rest;
        core::mem::swap(&mut head, &mut self.at_device_rate);
        assert(head@ =~= all.take(need as int));
        assert(self.at_device_rate@ =~= all.skip(need as int));
        Some(head)
    }

    /// Takes what the rate converter wrote: the first `written` of `got`.
    pub fn accept(&mut self, got: &[T], written: usize)
        ensures
            final(self).same_device(*old(self)),
            final(self).waiting() == old(self).waiting(),
            final(self).ready() == old(self).ready() + got@.take(
                if written <= got@.len() {
                    written as int
                } else {
                    got@.len() as int
                },
            ),
    {
        let n: usize = if written <= got.len() {
            written
        } else {
            got.len()
        };
        let ghost before = *self;
        for i in 0..n
            invariant
                n <= got@.len(),
                self.same_device(before),
                self.waiting() == before.waiting(),
                self.ready() == before.ready() + got@.take(i as int),
        {
            self.at_16k.push(got[i]);
            assert(got@.take(i as int).push(got@[i as int]) =~= got@.take(i + 1));
        }
    }

    /// How many whole frames are ready.
    pub fn frames_ready(&self) -> (r: usize)
        ensures
            r == self.ready().len() / FRAME as nat,
    {
        self.at_16k.len() / FRAME
    }

    /// One of the frames that are ready.
    pub fn frame(&self, k: usize) -> (r: Vec<T>)
        requires
            k < self.ready().len() / FRAME as nat,
        ensures
            r@ == self.ready().subrange(k * FRAME, k * FRAME + FRAME),
    {
        let total: usize = self.at_16k.len();
        assert(k * FRAME + FRAME <= total);
        let start: usize = k * FRAME;
        let mut out: Vec<T> = Vec::new();
        for i in 0..FRAME
            invariant
                start == k * FRAME,
                total == self.at_16k@.len(),
                start + FRAME <= self.at_16k@.len(),
                out@ == self.at_16k@.subrange(start as int, start + i),
        {
            out.push(self.at_16k[start + i]);
            assert(self.at_16k@.subrange(start as int, start + i).push(self.at_16k@[start + i])
                =~= self.at_16k@.subrange(start as int, start + i + 1));
        }
        out
    }

    /// Hands every whole frame to the segmenter, with one voicing decision per frame, and returns
    /// the utterances that they complete. The remainder stays for the next block.
    pub fn feed(&mut self, voiced: &Vec<bool>, seg: &mut Segmenter<T>) -> (r: Vec<Vec<T>>)
        requires
            old(seg).wf(),
            voiced@.len() == old(self).ready().len() / FRAME as nat,
        ensures
            final(seg).wf(),
            final(self).same_device(*old(self)),
            final(self).waiting() == old(self).waiting(),
            final(self).ready() == old(self).ready().skip(voiced@.len() * FRAME),
            final(self).ready().len() < FRAME,
            final(seg)@ == segment::fed(old(seg)@, frames_of(old(self).ready(), voiced@)).0,
            r@.len() == segment::fed(old(seg)@, frames_of(old(self).ready(), voiced@)).1.len(),
            forall|k: int|
                0 <= k < r@.len() ==> (#[trigger] r@[k])@ == segment::fed(
                    old(seg)@,
                    frames_of(old(self).ready(), voiced@),
                ).1[k],
    {
        let ghost from = seg@;
        let ghost all = frames_of(self.ready(), voiced@);
        let mut done: Vec<Vec<T>> = Vec::new();
        for k in 0..voiced.len()
            invariant
                seg.wf(),
                self.same_device(*old(self)),
                self.ready() == old(self).ready(),
                self.waiting() == old(self).waiting(),
                voiced@.len() == self.ready().len() / FRAME as nat,
                all == frames_of(self.ready(), voiced@),
                seg@ == segment::fed(from, all.take(k as int)).0,
                done@.len() == segment::fed(from, all.take(k as int)).1.len(),
                forall|j: int|
                    0 <= j < done@.len() ==> (#[trigger] done@[j])@ == segment::fed(
                        from,
                        all.take(k as int),
                    ).1[j],
        {
            proof {
                assert(all.take(k + 1).drop_last() =~= all.take(k as int));
                assert(all.take(k + 1).last() == all[k as int]);
            }
            let frame = self.frame(k);
            match seg.push_forced(frame.as_slice(), voiced[k]) {
                Some(u) => {
                    done.push(u);
                },
                None => {},
            }
        }
        assert(all.take(all.len() as int) =~= all);
        let total: usize = self.at_16k.len();
        assert(voiced@.len() * FRAME <= total);
        let consumed: usize = voiced.len() * FRAME;
        let ghost whole = self.at_16k@;
        let rest: Vec<T> = self.at_16k.split_off(consumed);
        assert(rest@ =~= whole.skip(consumed as int));
        self.at_16k = rest;
        done
    }
}

/// Framing loses nothing: the frames' audio and the remainder are the samples.
pub proof fn law_frames_and_remainder<T>(samples: Seq<T>, voiced: Seq<bool>)
    requires
        voiced.len() * FRAME <= samples.len(),
    ensures
        segment::whole_frames(frames_of(samples, voiced)),
        segment::audio(frames_of(samples, voiced)) + samples.skip(voiced.len() * FRAME) == samples,
    decreases voiced.len(),
{
    let all = frames_of(samples, voiced);
    assert forall|i: int| 0 <= i < all.len() implies (#[trigger] all[i]).0.len() == FRAME by {}
    if voiced.len() == 0 {
        assert(segment::audio(all) =~= seq![]);
        assert(segment::audio(all) + samples.skip(0) =~= samples);
    } else {
        let fewer = voiced.drop_last();
        law_frames_and_remainder(samples, fewer);
        assert(all.drop_last() =~= frames_of(samples, fewer));
        let at = fewer.len() * FRAME as int;
        assert(samples.skip(at) =~= all.last().0 + samples.skip(at + FRAME));
        assert(segment::audio(all) + samples.skip(at + FRAME) =~= segment::audio(
            all.drop_last(),
        ) + samples.skip(at));
    }
}

/// Each frame is the next 256 samples, and carries the voicing decision that was made of it.
pub proof fn law_frames_are_the_samples<T>(samples: Seq<T>, voiced: Seq<bool>, k: int, i: int)
    requires
        0 <= k < voiced.len(),
        voiced.len() * 256 <= samples.len(),
        0 <= i < 256,
    ensures
        frames_of(samples, voiced).len() == voiced.len(),
        frames_of(samples, voiced)[k].0.len() == 256,
        frames_of(samples, voiced)[k].0[i] == samples[k * 256 + i],
        frames_of(samples, voiced)[k].1 == voiced[k],
{
}

/// Each sampling instant of a block becomes one value: what the averaging gives for its samples, one
/// of each channel.
pub proof fn law_one_value_for_each_instant<T, F: Fn(&[T]) -> T>(
    mean: F,
    block: Seq<T>,
    channels: nat,
    out: Seq<T>,
    k: int,
)
    requires
        channels > 0,
        mixed(mean, block, channels, out),
        0 <= k,
        (k + 1) * channels <= block.len(),
    ensures
        k < out.len(),
        exists|part: &[T]|
            part@ == block.subrange(k * channels, (k + 1) * channels) && #[trigger] call_ensures(
                mean,
                (part,),
                out[k],
            ),
{
    chunks::law_pieces_cover(0, block.len(), channels);
    let cuts = chunks::pieces(0, block.len(), channels);
    let n = cuts.len() as int;
    assert((k + 1) * channels == k * channels + channels) by (nonlinear_arith);
    assert(k < n) by {
        if k >= n {
            let last = cuts[n - 1];
            assert(last.0 == (n - 1) * channels);
            assert(last.1 == block.len());
            assert(last.1 - last.0 <= channels);
            assert((n - 1) * channels + channels == n * channels) by (nonlinear_arith);
            assert(n * channels <= k * channels) by (nonlinear_arith)
                requires
                    n <= k,
            ;
        }
    }
    let p = cuts[k];
    assert(p.0 == k * channels);
    assert(p.1 == (k + 1) * channels) by {
        if p.1 < block.len() {
        } else {
            assert(p.1 - p.0 <= channels);
        }
    }
    assert(mean_of(mean, block, cuts[k], out[k]));
}

} // verus!
