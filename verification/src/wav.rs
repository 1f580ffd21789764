//! Audio files: what a WAV file holds, and what is wrong with one that cannot be used.

use crate::chunks;
use crate::number;
use crate::segment::SAMPLE_RATE;
use vstd::prelude::*;

verus! {

/// The type of the errors that hound reports.
#[verifier::external_type_specification]
#[verifier::external_body]
pub struct ExHoundError(hound::Error);

/// What the header of a WAV file says.
#[derive(Clone, Copy, PartialEq, Eq, Structural)]
pub struct WavHeader {
    /// Samples in a second, of each channel.
    pub rate: u32,
    pub channels: u16,
    /// Bits in a sample.
    pub bits: u16,
    /// Whether the samples are floating-point numbers.
    pub float: bool,
}

/// The header of a WAV file; `None` where the bytes are none that can be read.
pub uninterp spec fn wav_header(bytes: Seq<u8>) -> Option<WavHeader>;

/// The samples of a WAV file whose samples are integers, channel after channel within each frame;
/// `None` where the header or one of the samples cannot be read, or the samples are no integers.
pub uninterp spec fn wav_integers(bytes: Seq<u8>) -> Option<Seq<i32>>;

/// `hound::WavReader::new` and `hound::WavReader::spec`: what the header says, a function of the
/// bytes alone. A file without channels is refused.
#[verifier::external_body]
fn header(bytes: &[u8]) -> (r: Result<WavHeader, hound::Error>)
    ensures
        match r {
            Ok(h) => wav_header(bytes@) == Some(h) && h.channels > 0,
            Err(_) => wav_header(bytes@).is_none(),
        },
{
    let spec = hound::WavReader::new(bytes)?.spec();
    Ok(
        WavHeader {
            rate: spec.sample_rate,
            channels: spec.channels,
            bits: spec.bits_per_sample,
            float: match spec.sample_format {
                hound::SampleFormat::Float => true,
                hound::SampleFormat::Int => false,
            },
        },
    )
}

/// `hound::WavReader::samples`, asked for 32-bit integers until the end or the first error: a
/// function of the bytes alone.
#[verifier::external_body]
fn integers(bytes: &[u8]) -> (r: Result<Vec<i32>, hound::Error>)
    ensures
        match r {
            Ok(samples) => wav_integers(bytes@) == Some(samples@),
            Err(_) => wav_integers(bytes@).is_none(),
        },
{
    hound::WavReader::new(bytes)?.samples::<i32>().collect()
}

/// Why a WAV file cannot be used.
pub enum WavError {
    /// It is not one, or is damaged.
    Unreadable(hound::Error),
    /// Its rate is not the model's, with the complaint.
    WrongRate(String),
    /// There is nothing in it, with the complaint.
    NoAudio(String),
}

/// The samples of a WAV file at the model's rate.
pub enum WavSamples {
    /// Integers of so many bits, and where each frame of them begins and ends.
    Integers { bits: u16, samples: Vec<i32>, frames: Vec<(usize, usize)> },
    /// Floating-point numbers, with so many channels to a frame.
    Floats { channels: u16 },
}

/// What comes of the bytes of a WAV file, given its header and its integer samples.
pub open spec fn reads_wav(
    r: Result<WavSamples, WavError>,
    path: Seq<char>,
    header: Option<WavHeader>,
    integers: Option<Seq<i32>>,
) -> bool {
    match header {
        None => r matches Err(WavError::Unreadable(_)),
        Some(h) => if h.rate != SAMPLE_RATE {
            r matches Err(WavError::WrongRate(m)) && m@ == rate_message(path, h.rate as nat)
        } else if h.float {
            r matches Ok(WavSamples::Floats { channels }) && channels == h.channels
        } else {
            match integers {
                None => r matches Err(WavError::Unreadable(_)),
                Some(all) => if all.len() == 0 {
                    r matches Err(WavError::NoAudio(m)) && m@ == empty_message(path)
                } else {
                    &&& r matches Ok(WavSamples::Integers { bits, samples, frames })
                    &&& bits == h.bits
                    &&& samples@ == all
                    &&& chunks::spans(frames@) == chunks::pieces(0, all.len(), h.channels as nat)
                },
            }
        },
    }
}

/// The samples of a WAV file, from its bytes, cut into frames of one sample for each channel. Where
/// the samples are floating-point numbers, only their layout is read here.
pub fn read_wav(path: &str, bytes: &[u8]) -> (r: Result<WavSamples, WavError>)
    ensures
        reads_wav(r, path@, wav_header(bytes@), wav_integers(bytes@)),
{
    let h: WavHeader = match header(bytes) {
        Ok(h) => h,
        Err(e) => {
            return Err(WavError::Unreadable(e));
        },
    };
    if let Some(complaint) = wrong_rate(path, h.rate) {
        return Err(WavError::WrongRate(complaint));
    }
    if h.float {
        return Ok(WavSamples::Floats { channels: h.channels });
    }
    let samples: Vec<i32> = match integers(bytes) {
        Ok(samples) => samples,
        Err(e) => {
            return Err(WavError::Unreadable(e));
        },
    };
    if let Some(complaint) = no_audio(path, samples.len()) {
        return Err(WavError::NoAudio(complaint));
    }
    let frames = chunks::cut(samples.len(), h.channels as usize);
    Ok(WavSamples::Integers { bits: h.bits, samples, frames })
}

pub open spec fn rate_message(path: Seq<char>, rate: nat) -> Seq<char> {
    path + " is "@ + number::decimal(rate) + " Hz; this spike needs "@ + number::decimal(
        SAMPLE_RATE as nat,
    ) + " Hz.\n    Convert it:  ffmpeg -i in.wav -ar 16000 -ac 1 out.wav"@
}

/// The complaint about a file whose rate is not the model's.
pub fn wrong_rate(path: &str, rate: u32) -> (r: Option<String>)
    ensures
        r.is_some() == (rate != SAMPLE_RATE),
        r.is_some() ==> r.unwrap()@ == rate_message(path@, rate as nat),
{
    if rate == SAMPLE_RATE {
        return None;
    }
    let mut out = path.to_owned();
    out.append(" is ");
    let had = number::to_decimal(rate as u64);
    out.append(had.as_str());
    out.append(" Hz; this spike needs ");
    let want = number::to_decimal(SAMPLE_RATE as u64);
    out.append(want.as_str());
    out.append(" Hz.\n    Convert it:  ffmpeg -i in.wav -ar 16000 -ac 1 out.wav");
    assert(out@ =~= rate_message(path@, rate as nat));
    Some(out)
}

pub open spec fn empty_message(path: Seq<char>) -> Seq<char> {
    path + " contains no audio"@
}

/// The complaint about a file without samples.
pub fn no_audio(path: &str, samples: usize) -> (r: Option<String>)
    ensures
        r.is_some() == (samples == 0),
        r.is_some() ==> r.unwrap()@ == empty_message(path@),
{
    if samples > 0 {
        return None;
    }
    let mut out = path.to_owned();
    out.append(" contains no audio");
    Some(out)
}

/// A sound file comes out whole: where the header can be read, says 16000 samples a second and no
/// floating-point numbers, and there are samples, all of them come out, and frame by frame one of
/// each channel.
pub proof fn law_sound_file_comes_out_whole(
    r: Result<WavSamples, WavError>,
    path: Seq<char>,
    h: WavHeader,
    all: Seq<i32>,
)
    requires
        reads_wav(r, path, Some(h), Some(all)),
        h.rate == 16000,
        !h.float,
        h.channels > 0,
        all.len() > 0,
    ensures
        match r {
            Ok(WavSamples::Integers { bits, samples, frames }) => {
                &&& bits == h.bits
                &&& samples@ == all
                &&& forall|k: int|
                    0 <= k < frames@.len() ==> {
                        &&& (#[trigger] frames@[k]).0 == k * h.channels
                        &&& frames@[k].1 == k * h.channels + h.channels || frames@[k].1 == all.len()
                            && k == frames@.len() - 1
                    }
                &&& frames@.len() > 0
                &&& frames@.last().1 == all.len()
            },
            _ => false,
        },
{
    match r {
        Ok(WavSamples::Integers { bits, samples, frames }) => {
            let c = h.channels as nat;
            let pieces = chunks::pieces(0, all.len(), c);
            chunks::law_pieces_cover(0, all.len(), c);
            assert(chunks::spans(frames@).len() == frames@.len());
            assert forall|k: int| 0 <= k < frames@.len() implies {
                &&& (#[trigger] frames@[k]).0 == k * h.channels
                &&& frames@[k].1 == k * h.channels + h.channels || frames@[k].1 == all.len() && k
                    == frames@.len() - 1
            } by {
                let p = pieces[k];
                assert(chunks::spans(frames@)[k] == p);
                if k < frames@.len() - 1 {
                    let q = pieces[k + 1];
                    assert(q.0 == pieces[k].1);
                    assert(q.0 < q.1 <= all.len());
                }
            }
            let last = pieces[pieces.len() - 1];
            assert(last.1 == all.len());
            assert(chunks::spans(frames@)[frames@.len() - 1] == last);
        },
        _ => {},
    }
}

/// Each fault of a file is told for what it is, in this order: it cannot be read, its rate is not
/// the model's, its samples cannot be read, there are none. A file of floating-point numbers at the
/// right rate is told to be that, with its channels.
pub proof fn law_faults_are_told(
    r: Result<WavSamples, WavError>,
    path: Seq<char>,
    header: Option<WavHeader>,
    integers: Option<Seq<i32>>,
)
    requires
        reads_wav(r, path, header, integers),
    ensures
        header.is_none() ==> r matches Err(WavError::Unreadable(_)),
        header.is_some() && header.unwrap().rate != 16000 ==> r matches Err(WavError::WrongRate(_)),
        header.is_some() && header.unwrap().rate == 16000 && header.unwrap().float ==> (r matches Ok(
            WavSamples::Floats { channels },
        ) && channels == header.unwrap().channels),
        header.is_some() && header.unwrap().rate == 16000 && !header.unwrap().float
            && integers.is_none() ==> r matches Err(WavError::Unreadable(_)),
        header.is_some() && header.unwrap().rate == 16000 && !header.unwrap().float
            && integers.is_some() && integers.unwrap().len() == 0 ==> r matches Err(
            WavError::NoAudio(_),
        ),
{
}

/// A wrong rate is told with the file's name and its rate, and an empty file with its name.
pub proof fn law_complaints_name_the_file(path: Seq<char>, rate: nat)
    ensures
        rate_message(path, rate) == path + " is "@ + number::decimal(rate)
            + " Hz; this spike needs "@ + number::decimal(16000)
            + " Hz.\n    Convert it:  ffmpeg -i in.wav -ar 16000 -ac 1 out.wav"@,
        empty_message(path) == path + " contains no audio"@,
{
}

} // verus!
