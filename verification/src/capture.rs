//! What to ask of the microphone, and the level meter on what it delivers.

use crate::segment::SAMPLE_RATE;
use vstd::prelude::*;

verus! {

/// Capture blocks per second to ask the driver for.
pub const BLOCKS_PER_SEC: u32 = 100;

/// Samples per block when a file stands in for the microphone: a tenth of a second.
pub const FILE_BLOCK: usize = 1600;

/// Levels per second that the meter shows.
pub const LEVELS_PER_SEC: usize = 30;

/// The kinds of sample that a stream can carry.
#[derive(Clone, Copy, PartialEq, Eq, Structural)]
pub enum SampleKind {
    F32,
    I16,
    Other,
}

/// One configuration that a device offers.
#[derive(Clone, Copy)]
pub struct InputConfig {
    pub kind: SampleKind,
    /// The lowest and the highest rate that it can run at.
    pub min_rate: u32,
    pub max_rate: u32,
    pub channels: u16,
}

impl InputConfig {
    /// It carries samples that can be read, at the model's rate.
    pub open spec fn suits(self) -> bool {
        self.kind != SampleKind::Other && self.min_rate <= SAMPLE_RATE <= self.max_rate
    }
}

/// The suitable configuration at `i` has the fewest channels, and is the first that has so few.
pub open spec fn is_pick(configs: Seq<InputConfig>, i: int) -> bool {
    &&& 0 <= i < configs.len()
    &&& configs[i].suits()
    &&& forall|j: int|
        0 <= j < configs.len() && (#[trigger] configs[j]).suits() ==> configs[i].channels
            < configs[j].channels || (configs[i].channels == configs[j].channels && i <= j)
}

/// The configuration that needs no resampling, with the fewest channels; `None` where the device
/// has none at the model's rate.
pub fn pick_config(configs: &Vec<InputConfig>) -> (r: Option<usize>)
    ensures
        match r {
            Some(i) => is_pick(configs@, i as int),
            None => forall|i: int| 0 <= i < configs@.len() ==> !(#[trigger] configs@[i]).suits(),
        },
{
    let mut best: Option<usize> = None;
    for i in 0..configs.len()
        invariant
            match best {
                Some(b) => {
                    &&& b < i
                    &&& configs@[b as int].suits()
                    &&& forall|j: int|
                        0 <= j < i && (#[trigger] configs@[j]).suits()
                            ==> configs@[b as int].channels < configs@[j].channels || (
                        configs@[b as int].channels == configs@[j].channels && b <= j)
                },
                None => forall|j: int| 0 <= j < i ==> !(#[trigger] configs@[j]).suits(),
            },
    {
        let c: InputConfig = configs[i];
        if c.kind != SampleKind::Other && c.min_rate <= SAMPLE_RATE && SAMPLE_RATE <= c.max_rate {
            assert(configs@[i as int].suits());
            match best {
                Some(b) => {
                    if c.channels < configs[b].channels {
                        best = Some(i);
                    }
                },
                None => {
                    best = Some(i);
                },
            }
        } else {
            assert(!configs@[i as int].suits());
        }
    }
    best
}

/// `n` brought into the range from `min` to `max`.
pub open spec fn clamped(n: u32, min: u32, max: u32) -> u32 {
    if n < min {
        min
    } else if n > max {
        max
    } else {
        n
    }
}

/// The block size to request, in frames: ten milliseconds, brought into the range that the device
/// supports. `None` where the device does not say what it supports.
pub fn wanted_block(rate: u32, range: Option<(u32, u32)>) -> (r: Option<u32>)
    requires
        range.is_some() ==> range.unwrap().0 <= range.unwrap().1,
    ensures
        r.is_some() == range.is_some(),
        r.is_some() ==> r.unwrap() == clamped(rate / 100, range.unwrap().0, range.unwrap().1),
{
    match range {
        Some((min, max)) => {
            let frames: u32 = rate / BLOCKS_PER_SEC;
            if frames < min {
                Some(min)
            } else if frames > max {
                Some(max)
            } else {
                Some(frames)
            }
        },
        None => None,
    }
}

/// The block sizes to try, in order: the wanted one where there is one, then the driver's own,
/// which is `None`.
pub fn block_requests(rate: u32, range: Option<(u32, u32)>) -> (r: Vec<Option<u32>>)
    requires
        range.is_some() ==> range.unwrap().0 <= range.unwrap().1,
    ensures
        r@.last().is_none(),
        r@.len() == if range.is_some() {
            2int
        } else {
            1
        },
        range.is_some() ==> r@[0] == Some(clamped(rate / 100, range.unwrap().0, range.unwrap().1)),
{
    let mut out: Vec<Option<u32>> = Vec::new();
    match wanted_block(rate, range) {
        Some(frames) => {
            out.push(Some(frames));
        },
        None => {},
    }
    out.push(None);
    out
}

/// How many interleaved samples make up one level of the meter; at least one.
pub fn level_chunk(rate: u32, channels: usize) -> (r: usize)
    requires
        rate * channels <= usize::MAX,
    ensures
        r > 0,
        r == if rate * channels / 30 >= 1 {
            rate * channels / 30
        } else {
            1
        },
{
    let total: usize = rate as usize * channels;
    let chunk: usize = total / LEVELS_PER_SEC;
    if chunk >= 1 {
        chunk
    } else {
        1
    }
}

/// The whole windows of `size` samples at the front of a stream.
pub open spec fn full_windows<T>(stream: Seq<T>, size: nat) -> Seq<Seq<T>> {
    Seq::new(stream.len() / size, |i: int| stream.subrange(i * size, i * size + size))
}

/// What is left of a stream behind its whole windows.
pub open spec fn left_over<T>(stream: Seq<T>, size: nat) -> Seq<T> {
    stream.skip((stream.len() / size * size) as int)
}

/// `value` is one that `level` gives for the window.
pub open spec fn level_of<T, L, F: Fn(&[T]) -> L>(level: F, window: Seq<T>, value: L) -> bool {
    exists|w: &[T]| w@ == window && #[trigger] call_ensures(level, (w,), value)
}

/// The level meter: the part-filled window, carried from one block into the next.
pub struct Meter<T> {
    chunk: usize,
    pending: Vec<T>,
}

impl<T: Copy> Meter<T> {
    /// Samples per level.
    pub closed spec fn size(self) -> nat {
        self.chunk as nat
    }

    /// The samples since the last level.
    pub closed spec fn waiting(self) -> Seq<T> {
        self.pending@
    }

    pub open spec fn wf(self) -> bool {
        self.waiting().len() < self.size()
    }

    pub fn new(chunk: usize) -> (r: Self)
        requires
            chunk > 0,
        ensures
            r.wf(),
            r.size() == chunk,
            r.waiting() == Seq::<T>::empty(),
    {
        Meter { chunk, pending: Vec::new() }
    }

    /// Takes one block, and returns the level of each window that it completes.
    pub fn feed<L, F: Fn(&[T]) -> L>(&mut self, block: &[T], level: F) -> (r: Vec<L>)
        requires
            old(self).wf(),
            forall|w: &[T]| #[trigger] call_requires(level, (w,)),
        ensures
            final(self).wf(),
            final(self).size() == old(self).size(),
            final(self).waiting() == left_over(old(self).waiting() + block@, old(self).size()),
            r@.len() == full_windows(old(self).waiting() + block@, old(self).size()).len(),
            forall|i: int|
                0 <= i < r@.len() ==> level_of(
                    level,
                    full_windows(old(self).waiting() + block@, old(self).size())[i],
                    #[trigger] r@[i],
                ),
    {
        let ghost size = self.size() as int;
        let ghost had = self.waiting();
        let ghost all = had + block@;
        let mut out: Vec<L> = Vec::new();
        assert(0 * size == 0) by (nonlinear_arith);
        for i in 0..block.len()
            invariant
                forall|w: &[T]| #[trigger] call_requires(level, (w,)),
                self.wf(),
                self.size() == size,
                all == had + block@,
                out@.len() * size + self.waiting().len() == had.len() + i,
                out@.len() * size >= 0,
                self.waiting() == all.subrange(out@.len() * size, had.len() + i),
                forall|k: int|
                    0 <= k < out@.len() ==> level_of(
                        level,
                        all.subrange(k * size, k * size + size),
                        #[trigger] out@[k],
                    ),
        {
            let ghost at = out@.len() * size;
            self.pending.push(block[i]);
            assert(self.waiting() =~= all.subrange(at, had.len() + i + 1));
            if self.pending.len() == self.chunk {
                let value = level(self.pending.as_slice());
                proof {
                    assert((out@.len() + 1) * size == at + size) by (nonlinear_arith)
                        requires
                            at == out@.len() * size,
                    ;
                    assert(level_of(level, all.subrange(at, at + size), value));
                }
                out.push(value);
                self.pending = Vec::new();
                assert(self.waiting() =~= all.subrange(out@.len() * size, had.len() + i + 1));
            }
        }
        proof {
            let n = all.len() as int;
            vstd::arithmetic::div_mod::lemma_fundamental_div_mod_converse(
                n,
                size,
                out@.len() as int,
                self.waiting().len() as int,
            );
            assert(n / size == out@.len());
            assert(self.waiting() =~= left_over(all, size as nat));
        }
        out
    }
}

proof fn lemma_windows<T>(stream: Seq<T>, size: nat)
    requires
        size > 0,
    ensures
        stream.len() == stream.len() / size * size + left_over(stream, size).len(),
        left_over(stream, size).len() < size,
        0 <= stream.len() / size * size <= stream.len(),
{
    let n = stream.len() as int;
    vstd::arithmetic::div_mod::lemma_fundamental_div_mod(n, size as int);
    vstd::arithmetic::div_mod::lemma_mod_bound(n, size as int);
    assert(size as int * (n / size as int) == n / size as int * size as int) by (nonlinear_arith);
    assert(n / size as int * size as int >= 0) by (nonlinear_arith)
        requires
            n >= 0,
            size > 0,
    ;
}

/// Cutting a stream in two changes nothing: the windows of the first part, and then those of what
/// it left over and the second part, are those of the whole.
pub proof fn law_blocks_do_not_matter<T>(a: Seq<T>, b: Seq<T>, size: nat)
    requires
        size > 0,
    ensures
        full_windows(a + b, size) == full_windows(a, size) + full_windows(
            left_over(a, size) + b,
            size,
        ),
        left_over(a + b, size) == left_over(left_over(a, size) + b, size),
{
    let rest = left_over(a, size) + b;
    let whole = a + b;
    let d = size as int;
    let q = a.len() as int / d;
    let p = rest.len() as int / d;
    lemma_windows(a, size);
    lemma_windows(rest, size);
    let tail = left_over(rest, size).len() as int;
    assert((q + p) * d == q * d + p * d) by (nonlinear_arith);
    assert(whole.len() == (q + p) * d + tail);
    vstd::arithmetic::div_mod::lemma_fundamental_div_mod_converse(
        whole.len() as int,
        d,
        q + p,
        tail,
    );
    assert(whole.skip(q * d) =~= rest);
    assert(left_over(whole, size) =~= left_over(rest, size));
    let left = full_windows(whole, size);
    let right = full_windows(a, size) + full_windows(rest, size);
    assert(left.len() == right.len());
    assert forall|i: int| 0 <= i < left.len() implies left[i] == right[i] by {
        if i < q {
            assert(i * d + d <= q * d) by (nonlinear_arith)
                requires
                    i + 1 <= q,
                    d > 0,
            ;
            assert(i * d >= 0) by (nonlinear_arith)
                requires
                    i >= 0,
                    d > 0,
            ;
            assert(whole.subrange(i * d, i * d + d) =~= a.subrange(i * d, i * d + d));
        } else {
            let k = i - q;
            assert(i * d == q * d + k * d) by (nonlinear_arith)
                requires
                    i == q + k,
            ;
            assert(k * d + d <= p * d) by (nonlinear_arith)
                requires
                    k + 1 <= p,
                    d > 0,
            ;
            assert(k * d >= 0) by (nonlinear_arith)
                requires
                    k >= 0,
                    d > 0,
            ;
            assert(whole.subrange(i * d, i * d + d) =~= rest.subrange(k * d, k * d + d));
        }
    }
    assert(left =~= right);
}

/// The blocks one after the other.
pub open spec fn stream_of<T>(blocks: Seq<Seq<T>>) -> Seq<T>
    decreases blocks.len(),
{
    if blocks.len() == 0 {
        seq![]
    } else {
        stream_of(blocks.drop_last()) + blocks.last()
    }
}

/// What a new meter makes of the blocks: the windows that it takes levels of, and what is waiting
/// after the last block.
pub open spec fn metered<T>(blocks: Seq<Seq<T>>, size: nat) -> (Seq<Seq<T>>, Seq<T>)
    decreases blocks.len(),
{
    if blocks.len() == 0 {
        (seq![], seq![])
    } else {
        let (windows, waiting) = metered(blocks.drop_last(), size);
        let now = waiting + blocks.last();
        (windows + full_windows(now, size), left_over(now, size))
    }
}

/// One level per window of audio, whatever size the blocks are: the meter takes its levels of
/// exactly the consecutive windows of the whole stream, as many as it has whole ones.
pub proof fn law_one_level_per_window<T>(blocks: Seq<Seq<T>>, size: nat)
    requires
        size > 0,
    ensures
        metered(blocks, size).0 == full_windows(stream_of(blocks), size),
        metered(blocks, size).1 == left_over(stream_of(blocks), size),
        metered(blocks, size).0.len() == stream_of(blocks).len() / size,
    decreases blocks.len(),
{
    if blocks.len() == 0 {
        assert(0int / size as int == 0) by (nonlinear_arith)
            requires
                size > 0,
        ;
        assert(metered(blocks, size).0 =~= full_windows(stream_of(blocks), size));
        assert(metered(blocks, size).1 =~= left_over(stream_of(blocks), size));
    } else {
        let fewer = blocks.drop_last();
        law_one_level_per_window(fewer, size);
        law_blocks_do_not_matter(stream_of(fewer), blocks.last(), size);
    }
}

/// What the meter has to say when the microphone is done.
#[derive(Clone, Copy, PartialEq, Eq, Structural)]
pub enum MeterVerdict {
    /// The stream never delivered anything.
    NoAudio,
    /// It delivered, and all of it was silence.
    OnlySilence,
    Fine,
}

/// The verdict on a capture of `blocks` blocks, `quiet` where its loudest level was inaudible.
pub fn meter_verdict(blocks: usize, quiet: bool) -> (r: MeterVerdict)
    ensures
        r == MeterVerdict::NoAudio <==> blocks == 0,
        r == MeterVerdict::OnlySilence <==> blocks > 0 && quiet,
        r == MeterVerdict::Fine <==> blocks > 0 && !quiet,
{
    if blocks == 0 {
        MeterVerdict::NoAudio
    } else if quiet {
        MeterVerdict::OnlySilence
    } else {
        MeterVerdict::Fine
    }
}

/// The windows and what is left over are the stream, sample for sample and in order; each window has
/// its full size, and what is left over is less than one.
pub proof fn law_windows_are_the_stream<T>(stream: Seq<T>, size: nat, i: int, k: int)
    requires
        size > 0,
        0 <= i < full_windows(stream, size).len(),
        0 <= k < size,
    ensures
        full_windows(stream, size)[i].len() == size,
        0 <= i * size + k < stream.len(),
        full_windows(stream, size)[i][k] == stream[i * size + k],
        left_over(stream, size).len() < size,
        full_windows(stream, size).len() * size + left_over(stream, size).len() == stream.len(),
        left_over(stream, size) == stream.skip(stream.len() - left_over(stream, size).len()),
{
    lemma_windows(stream, size);
    let n = stream.len() as int / size as int;
    assert(i * size + size <= n * size) by (nonlinear_arith)
        requires
            i + 1 <= n,
            size > 0,
    ;
    assert(i * size >= 0) by (nonlinear_arith)
        requires
            i >= 0,
            size > 0,
    ;
    assert(stream.subrange(i * size, i * size + size)[k] == stream[i * size + k]);
}

/// The configuration that is picked runs at the model's rate with samples that can be read, and none
/// that does so has fewer channels.
pub proof fn law_pick_has_the_fewest_channels(configs: Seq<InputConfig>, i: int, j: int)
    requires
        is_pick(configs, i),
        0 <= j < configs.len(),
        configs[j].kind == SampleKind::F32 || configs[j].kind == SampleKind::I16,
        configs[j].min_rate <= 16000 <= configs[j].max_rate,
    ensures
        0 <= i < configs.len(),
        configs[i].kind == SampleKind::F32 || configs[i].kind == SampleKind::I16,
        configs[i].min_rate <= 16000 <= configs[i].max_rate,
        configs[i].channels <= configs[j].channels,
        configs[i].channels == configs[j].channels ==> i <= j,
{
    assert(configs[j].suits());
}

/// A configuration suits exactly where it carries samples that can be read and can run at the
/// model's rate.
pub proof fn law_what_suits(c: InputConfig)
    ensures
        c.suits() <==> (c.kind == SampleKind::F32 || c.kind == SampleKind::I16) && c.min_rate
            <= 16000 <= c.max_rate,
{
}

/// A number that is in the range stays, and any other goes to the nearer end.
pub proof fn law_clamped_to_the_range(n: u32, min: u32, max: u32)
    requires
        min <= max,
    ensures
        min <= clamped(n, min, max) <= max,
        min <= n <= max ==> clamped(n, min, max) == n,
        n < min ==> clamped(n, min, max) == min,
        n > max ==> clamped(n, min, max) == max,
{
}

/// A level is what the level function gives for the samples of its window.
pub proof fn law_level_is_of_its_window<T, L, F: Fn(&[T]) -> L>(
    level: F,
    window: Seq<T>,
    value: L,
)
    requires
        level_of(level, window, value),
    ensures
        exists|w: &[T]| w@ == window && #[trigger] call_ensures(level, (w,), value),
{
}

} // verus!
