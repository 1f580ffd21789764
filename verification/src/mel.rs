//! Where the frames of a spectrogram come from: a window of audio, padded with silence to the
//! model's length and reflected at both ends.

use crate::segment::N_SAMPLES;
use vstd::prelude::*;

verus! {

/// Samples per Fourier transform.
pub const N_FFT: usize = 400;

/// Samples from one frame to the next.
pub const HOP: usize = 160;

/// Frames per window.
pub const N_FRAMES: usize = 3000;

/// Mel bands.
pub const N_MELS: usize = 80;

/// Frequency bins of one transform, from DC to Nyquist.
pub const N_BINS: usize = 201;

/// Samples reflected at either end.
pub const PAD: usize = 200;

/// `samples` cut or filled up with `zero` to the window's length.
pub open spec fn fitted<T>(samples: Seq<T>, zero: T) -> Seq<T> {
    Seq::new(
        N_SAMPLES as nat,
        |i: int| if i < samples.len() {
            samples[i]
        } else {
            zero
        },
    )
}

/// A window with `PAD` samples mirrored at either end; the end samples themselves are not
/// repeated.
pub open spec fn reflected<T>(window: Seq<T>) -> Seq<T> {
    let n = window.len() as int;
    Seq::new(
        (n + 2 * PAD) as nat,
        |i: int| if i < PAD {
            window[PAD - i]
        } else if i < PAD + n {
            window[i - PAD]
        } else {
            window[2 * n + PAD - 2 - i]
        },
    )
}

/// The padded window that frames are taken from.
pub fn padded<T: Copy>(samples: &[T], zero: T) -> (r: Vec<T>)
    ensures
        r@ == reflected(fitted(samples@, zero)),
        r@.len() == N_SAMPLES + N_FFT,
{
    let ghost window = fitted(samples@, zero);
    let ghost want = reflected(window);
    let mut out: Vec<T> = Vec::new();
    let total: usize = N_SAMPLES + 2 * PAD;
    for i in 0..total
        invariant
            total == N_SAMPLES + 2 * PAD,
            window == fitted(samples@, zero),
            want == reflected(window),
            out@ == want.take(i as int),
    {
        let from: usize = if i < PAD {
            PAD - i
        } else if i < PAD + N_SAMPLES {
            i - PAD
        } else {
            2 * N_SAMPLES + PAD - 2 - i
        };
        let value: T = if from < samples.len() {
            samples[from]
        } else {
            zero
        };
        assert(want[i as int] == window[from as int]);
        out.push(value);
        assert(out@ =~= want.take(i + 1));
    }
    assert(want.take(total as int) =~= want);
    out
}

/// Where frame `j` starts in the padded window.
pub fn frame_start(j: usize) -> (r: usize)
    requires
        j < N_FRAMES,
    ensures
        r == j * HOP,
        r + N_FFT <= N_SAMPLES + N_FFT,
{
    j * HOP
}

/// Frame `j` is centred on sample `j * HOP` of the window: its middle sample is that one.
pub proof fn law_frames_are_centred<T>(window: Seq<T>, j: int)
    requires
        window.len() == N_SAMPLES,
        0 <= j < N_FRAMES,
    ensures
        reflected(window).subrange(j * HOP, j * HOP + N_FFT)[PAD as int] == window[j * HOP],
{
}

/// Around either end the padded window is a mirror image.
pub proof fn law_padding_mirrors<T>(window: Seq<T>, i: int)
    requires
        window.len() == N_SAMPLES,
        0 <= i <= PAD,
    ensures
        reflected(window)[PAD - i] == reflected(window)[PAD + i],
        reflected(window)[PAD + N_SAMPLES - 1 - i] == reflected(window)[PAD + N_SAMPLES - 1 + i],
{
}

/// The padded window is the window, sample for sample, between its two mirrored ends.
pub proof fn law_window_is_in_the_middle<T>(window: Seq<T>, i: int)
    requires
        window.len() == N_SAMPLES,
        0 <= i < N_SAMPLES,
    ensures
        reflected(window).len() == N_SAMPLES + 400,
        reflected(window)[200 + i] == window[i],
{
}

/// The samples are all in the window, as far as it goes, and silence fills the rest.
pub proof fn law_samples_are_in_the_window<T>(samples: Seq<T>, zero: T, i: int)
    requires
        0 <= i < 480000,
    ensures
        fitted(samples, zero).len() == 480000,
        i < samples.len() ==> fitted(samples, zero)[i] == samples[i],
        i >= samples.len() ==> fitted(samples, zero)[i] == zero,
{
}

/// The frames cover the window: one every ten milliseconds, as many as fill thirty seconds, with half
/// a transform mirrored at either end, and a bin for each frequency up to the highest.
pub proof fn law_frames_cover_the_window()
    ensures
        HOP * 100 == crate::segment::SAMPLE_RATE,
        N_FRAMES * HOP == N_SAMPLES,
        N_SAMPLES == 30 * crate::segment::SAMPLE_RATE,
        2 * PAD == N_FFT,
        N_FFT * 40 == crate::segment::SAMPLE_RATE,
        N_BINS == N_FFT / 2 + 1,
        N_MELS == 80,
{
}

} // verus!
