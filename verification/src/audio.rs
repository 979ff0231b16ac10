//! Audio: which files can be read as they are, and mixing to one channel.

use vstd::arithmetic::div_mod::lemma_fundamental_div_mod;
use vstd::arithmetic::power2::pow2;
use vstd::prelude::*;

use crate::config::SAMPLE_RATE;
use crate::kernels::sum_from;
use crate::rows::{mean_of, mean_row, Real};

verus! {

/// What the header of a WAV file says.
#[derive(Debug, Clone, Copy, PartialEq, Eq, Structural)]
pub struct WavHeader {
    pub sample_rate: u32,
    pub channels: u16,
}

/// What is to be done with an audio file.
#[derive(Debug, Clone, Copy, PartialEq, Eq, Structural)]
pub enum AudioPlan {
    /// It holds one channel at the model's sample rate.
    Read,
    /// It holds several channels at the model's sample rate.
    Mix { channels: usize },
    /// It must be converted first.
    Convert,
}

/// Why an audio file is refused.
#[derive(Debug, Clone, Copy, PartialEq, Eq, Structural)]
pub enum AudioError {
    /// The converted file is not a WAV file.
    NotWav,
    /// The converted file is at another sample rate.
    WrongRate { sample_rate: u32 },
    /// The file has no channel.
    NoChannels,
}

/// What is to be done with an audio file of a header, if it has one; `converted`
/// tells whether the file was converted before.
pub open spec fn audio_plan(header: Option<WavHeader>, converted: bool) -> Result<
    AudioPlan,
    AudioError,
> {
    match header {
        Some(h) if h.sample_rate == SAMPLE_RATE => if h.channels == 0 {
            Err(AudioError::NoChannels)
        } else if h.channels == 1 {
            Ok(AudioPlan::Read)
        } else {
            Ok(AudioPlan::Mix { channels: h.channels as usize })
        },
        Some(h) if converted => Err(AudioError::WrongRate { sample_rate: h.sample_rate }),
        None if converted => Err(AudioError::NotWav),
        _ => Ok(AudioPlan::Convert),
    }
}

/// Plans the reading of an audio file.  The header is missing where the file is
/// not a WAV file; `converted` tells whether the file was converted before.
pub fn plan_audio(header: Option<WavHeader>, converted: bool) -> (r: Result<AudioPlan, AudioError>)
    ensures
        r == audio_plan(header, converted),
        r == (match header {
            None => if converted {
                Err(AudioError::NotWav)
            } else {
                Ok(AudioPlan::Convert)
            },
            Some(h) => if h.sample_rate != SAMPLE_RATE {
                if converted {
                    Err(AudioError::WrongRate { sample_rate: h.sample_rate })
                } else {
                    Ok(AudioPlan::Convert)
                }
            } else if h.channels == 0 {
                Err(AudioError::NoChannels)
            } else if h.channels == 1 {
                Ok(AudioPlan::Read)
            } else {
                Ok(AudioPlan::Mix { channels: h.channels as usize })
            },
        }),
{
    match header {
        None => if converted {
            Err(AudioError::NotWav)
        } else {
            Ok(AudioPlan::Convert)
        },
        Some(h) => if h.sample_rate != SAMPLE_RATE {
            if converted {
                Err(AudioError::WrongRate { sample_rate: h.sample_rate })
            } else {
                Ok(AudioPlan::Convert)
            }
        } else if h.channels == 0 {
            Err(AudioError::NoChannels)
        } else if h.channels == 1 {
            Ok(AudioPlan::Read)
        } else {
            Ok(AudioPlan::Mix { channels: h.channels as usize })
        },
    }
}

/// The magnitude of full scale for integer samples of `bits` bits.
pub open spec fn scale_of(bits: int) -> int
    decreases bits,
{
    if bits <= 1 {
        1
    } else if bits < 64 {
        2 * scale_of(bits - 1)
    } else {
        i64::MIN as int
    }
}

/// The doubled magnitudes are powers of two.
proof fn lemma_scale_is_power(bits: int)
    requires
        0 <= bits <= 63,
    ensures
        scale_of(bits) == (if bits == 0 {
            1
        } else {
            pow2((bits - 1) as nat) as int
        }),
    decreases bits,
{
    vstd::arithmetic::power2::lemma2_to64();
    if bits >= 2 {
        lemma_scale_is_power(bits - 1);
        vstd::arithmetic::power2::lemma_pow2_unfold((bits - 1) as nat);
    }
}

/// The magnitude of full scale for integer samples of `bits` bits.  That of 64
/// bits is the least number, into which the sign bit turns it.
pub fn full_scale(bits: u16) -> (r: i64)
    requires
        bits <= 64,
    ensures
        r == scale_of(bits as int),
        r == (if bits == 0 {
            1
        } else if bits == 64 {
            i64::MIN as int
        } else {
            pow2((bits - 1) as nat) as int
        }),
{
    if bits == 64 {
        return i64::MIN;
    }
    let mut r: i64 = 1;
    let mut i: u16 = 1;
    proof {
        vstd::arithmetic::power2::lemma2_to64();
        lemma_scale_is_power(bits as int);
    }
    while i < bits
        invariant
            bits <= 63,
            1 <= i,
            i <= bits || bits == 0 && i == 1,
            r == pow2((i - 1) as nat),
        decreases bits - i,
    {
        proof {
            vstd::arithmetic::power2::lemma_pow2_unfold(i as nat);
            vstd::arithmetic::power2::lemma2_to64();
            if i < 62 {
                vstd::arithmetic::power2::lemma_pow2_strictly_increases(i as nat, 62);
            }
            assert(pow2(62) == 0x4000000000000000) by {
                vstd::arithmetic::power2::lemma2_to64_rest();
            }
        }
        r = r * 2;
        i += 1;
    }
    r
}

/// The samples of frame `i`: one for each channel.
pub open spec fn frame_of<R>(samples: Seq<R>, channels: int, i: int) -> Seq<R> {
    samples.subrange(i * channels, i * channels + channels)
}

/// Averages the channels of each frame; samples after the last whole frame go.
pub fn mix_channels<R: Real>(samples: &[R], channels: usize) -> (r: Vec<R>)
    requires
        channels > 0,
    ensures
        r@.len() == samples@.len() / channels as nat,
        forall|i: int|
            0 <= i < r@.len() ==> #[trigger] r@[i] == mean_of(
                frame_of(samples@, channels as int, i),
            ),
{
    let frames = samples.len() / channels;
    let mut r: Vec<R> = Vec::new();
    let mut i: usize = 0;
    let mut at: usize = 0;
    proof {
        lemma_fundamental_div_mod(samples@.len() as int, channels as int);
        assert(frames * channels <= samples@.len()) by (nonlinear_arith)
            requires
                channels * frames + samples@.len() as int % channels as int == samples@.len(),
                0 <= samples@.len() as int % channels as int,
        ;
    }
    while i < frames
        invariant
            i <= frames,
            at == i * channels,
            frames * channels <= samples@.len(),
            samples@.len() <= usize::MAX,
            r@.len() == i,
            forall|k: int|
                0 <= k < i ==> #[trigger] r@[k] == mean_of(
                    frame_of(samples@, channels as int, k),
                ),
        decreases frames - i,
    {
        assert((i + 1) * channels == i * channels + channels) by (nonlinear_arith);
        assert((i + 1) * channels <= frames * channels) by (nonlinear_arith)
            requires
                i < frames,
                0 <= channels,
        ;
        r.push(mean_row(vstd::slice::slice_subrange(samples, at, at + channels)));
        i += 1;
        at += channels;
    }
    r
}

/// Each mixed sample is the mean over the channels of one frame: the samples
/// `i * channels` and those after it, up to the next frame.
pub proof fn law_mixed_sample<R: Real>(samples: Seq<R>, channels: usize, i: int, frame: Seq<R>)
    requires
        channels > 0,
        0 <= i,
        i * channels + channels <= samples.len(),
        frame.len() == channels,
        forall|c: int| 0 <= c < channels ==> #[trigger] frame[c] == samples[i * channels + c],
    ensures
        mean_of(frame_of(samples, channels as int, i)) == sum_from(R::zero_of(), frame).over_of(
            R::count_of(channels),
        ),
{
    assert(0 <= i * channels) by (nonlinear_arith)
        requires
            0 <= i,
            channels > 0,
    ;
    assert(frame =~= frame_of(samples, channels as int, i));
}

/// A file is read as it is exactly where it has one channel at 16,000 samples per
/// second, and mixed where it has more; one without a channel at that rate is
/// refused.  Any other file is converted, and no file twice: what a conversion
/// leaves of the kind is refused, and the refusal tells the rate.
pub proof fn law_audio_is_converted_once(header: Option<WavHeader>, rate: u32, channels: u16)
    ensures
        audio_plan(header, true) != Ok::<AudioPlan, AudioError>(AudioPlan::Convert),
        audio_plan(header, false) == Ok::<AudioPlan, AudioError>(AudioPlan::Convert) <==> (header matches Some(
            h,
        ) ==> h.sample_rate != 16_000),
        audio_plan(header, false) != Ok::<AudioPlan, AudioError>(AudioPlan::Convert) ==> audio_plan(
            header,
            true,
        ) == audio_plan(header, false),
        audio_plan(header, false) == Ok::<AudioPlan, AudioError>(AudioPlan::Convert)
            ==> audio_plan(header, true) is Err,
        audio_plan(header, true) == Ok::<AudioPlan, AudioError>(AudioPlan::Read) <==> header
            == Some(WavHeader { sample_rate: 16_000, channels: 1 }),
        channels >= 2 ==> audio_plan(Some(WavHeader { sample_rate: 16_000, channels }), true)
            == Ok::<AudioPlan, AudioError>(AudioPlan::Mix { channels: channels as usize }),
        audio_plan(Some(WavHeader { sample_rate: 16_000, channels: 0 }), true) == Err::<
            AudioPlan,
            AudioError,
        >(AudioError::NoChannels),
        audio_plan(None, true) == Err::<AudioPlan, AudioError>(AudioError::NotWav),
        rate != 16_000 ==> audio_plan(Some(WavHeader { sample_rate: rate, channels }), true)
            == Err::<AudioPlan, AudioError>(AudioError::WrongRate { sample_rate: rate }),
{
}

/// Each bit of a sample doubles full scale, from one bit up to the most that a
/// number holds.
pub proof fn law_full_scale_doubles(bits: int)
    requires
        1 <= bits < 63,
    ensures
        scale_of(0) == 1,
        scale_of(1) == 1,
        scale_of(bits + 1) == 2 * scale_of(bits),
        scale_of(64) == -2 * scale_of(63),
{
    lemma_scale_is_power(63);
    vstd::arithmetic::power2::lemma2_to64_rest();
}

} // verus!
