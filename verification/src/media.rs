//! What the editor reads out of a clip's container description: which
//! stream is which, the video format, the PCM format of an audio track, and
//! how the audio of a clip is laid out.
use vstd::prelude::*;
use crate::thumbnail::{packed, unpack};

verus! {

/// Frame rate assumed when a clip reports none, or a zero denominator.
pub const DEFAULT_FPS: u32 = 30;

/// Lowest bitrate used when re-encoding video, in bits per second.
pub const MIN_BITRATE: u32 = 1_000_000;

/// Sample rate assumed when an audio track reports none.
pub const DEFAULT_SAMPLE_RATE: u32 = 48000;

/// Channel count assumed when an audio track reports none.
pub const DEFAULT_CHANNELS: u32 = 2;

/// Ordinal, among the audio streams of a clip with a microphone, of the
/// microphone track.
pub const MIC_TRACK: usize = 0;

/// Ordinal, among the audio streams of a clip with a microphone, of the
/// system-sound track.
pub const SYSTEM_TRACK: usize = 1;

/// The major type of a stream of a media file.
#[derive(PartialEq, Eq, Structural, Clone, Copy, Debug)]
pub enum StreamKind {
    Video,
    Audio,
    Other,
}

/// Packs two 32-bit halves into one 64-bit attribute value, `hi` in the
/// upper half (frame sizes and frame rates are stored this way).
pub fn pack2(hi: u32, lo: u32) -> (r: u64)
    ensures
        r == packed(hi as int, lo as int),
{
    let h: u64 = hi as u64;
    let l: u64 = lo as u64;
    assert((h << 32u64) | l == h * 0x1_0000_0000 + l) by (bit_vector)
        requires
            h < 0x1_0000_0000,
            l < 0x1_0000_0000,
    ;
    (h << 32u64) | l
}

/// How many of `kinds` are `kind`.
pub open spec fn count_kind(kinds: Seq<StreamKind>, kind: StreamKind) -> nat
    decreases kinds.len(),
{
    if kinds.len() == 0 {
        0
    } else {
        count_kind(kinds.drop_last(), kind) + if kinds.last() == kind { 1nat } else { 0nat }
    }
}

/// The first stream of the given kind: its index, or `None` when there is
/// none.
pub fn find_stream(kinds: &Vec<StreamKind>, kind: StreamKind) -> (r: Option<u32>)
    requires
        kinds@.len() <= u32::MAX,
    ensures
        match r {
            Some(i) => i < kinds@.len() && kinds@[i as int] == kind && forall|j: int|
                0 <= j < i ==> kinds@[j] != kind,
            None => forall|j: int| 0 <= j < kinds@.len() ==> kinds@[j] != kind,
        },
{
    let mut i: usize = 0;
    while i < kinds.len()
        invariant
            kinds@.len() <= u32::MAX,
            i <= kinds@.len(),
            forall|j: int| 0 <= j < i ==> kinds@[j] != kind,
        decreases kinds.len() - i,
    {
        if kinds[i] == kind {
            return Some(i as u32);
        }
        i = i + 1;
    }
    None
}

/// How many audio streams a clip has.
pub fn count_audio_streams(kinds: &Vec<StreamKind>) -> (n: usize)
    ensures
        n == count_kind(kinds@, StreamKind::Audio),
{
    let mut n: usize = 0;
    let mut i: usize = 0;
    while i < kinds.len()
        invariant
            i <= kinds@.len(),
            n == count_kind(kinds@.take(i as int), StreamKind::Audio),
            n <= i,
        decreases kinds.len() - i,
    {
        assert(kinds@.take(i + 1).drop_last() == kinds@.take(i as int));
        if kinds[i] == StreamKind::Audio {
            n = n + 1;
        }
        i = i + 1;
    }
    assert(kinds@.take(kinds@.len() as int) == kinds@);
    n
}

/// The index of the audio stream with the given ordinal (0 for the first
/// audio stream), or `None` when the clip has no more than `ordinal` audio
/// streams.
pub fn nth_audio_stream(kinds: &Vec<StreamKind>, ordinal: usize) -> (r: Option<u32>)
    requires
        kinds@.len() <= u32::MAX,
    ensures
        r is None <==> count_kind(kinds@, StreamKind::Audio) <= ordinal,
        r matches Some(i) ==> i < kinds@.len() && kinds@[i as int] == StreamKind::Audio
            && count_kind(kinds@.take(i as int), StreamKind::Audio) == ordinal,
{
    let mut seen: usize = 0;
    let mut i: usize = 0;
    while i < kinds.len()
        invariant
            kinds@.len() <= u32::MAX,
            i <= kinds@.len(),
            seen == count_kind(kinds@.take(i as int), StreamKind::Audio),
            seen <= ordinal,
        decreases kinds.len() - i,
    {
        assert(kinds@.take(i + 1).drop_last() == kinds@.take(i as int));
        if kinds[i] == StreamKind::Audio {
            if seen == ordinal {
                proof {
                    lemma_count_kind_prefix(kinds@, StreamKind::Audio, i + 1);
                }
                return Some(i as u32);
            }
            seen = seen + 1;
        }
        i = i + 1;
    }
    assert(kinds@.take(kinds@.len() as int) == kinds@);
    None
}

/// Every prefix holds at most as many streams of a kind as the whole list.
pub proof fn lemma_count_kind_prefix(kinds: Seq<StreamKind>, kind: StreamKind, i: int)
    requires
        0 <= i <= kinds.len(),
    ensures
        count_kind(kinds.take(i), kind) <= count_kind(kinds, kind),
    decreases kinds.len() - i,
{
    if i < kinds.len() {
        lemma_count_kind_prefix(kinds, kind, i + 1);
        assert(kinds.take(i + 1).drop_last() == kinds.take(i));
    } else {
        assert(kinds.take(i) == kinds);
    }
}

/// The video format the exporter encodes with.
#[derive(Clone, Copy, Debug)]
pub struct VideoMeta {
    pub width: u32,
    pub height: u32,
    pub fps: u32,
    pub bitrate: u32,
}

/// Video format from the clip's frame size, frame rate and average bitrate
/// attributes: an absent size reads as 0 x 0, an absent rate as 30/1, a
/// zero denominator as 30 fps; the rate is the integer quotient, at least 1;
/// the bitrate is at least `MIN_BITRATE`.
pub fn video_meta(frame_size: Option<u64>, frame_rate: Option<u64>, avg_bitrate: Option<u32>) -> (m:
    VideoMeta)
    ensures
        ({
            let size = match frame_size {
                Some(v) => v as int,
                None => 0,
            };
            m.width == size / 0x1_0000_0000 && m.height == size % 0x1_0000_0000
        }),
        ({
            let rate = match frame_rate {
                Some(v) => v as int,
                None => packed(DEFAULT_FPS as int, 1),
            };
            let num = rate / 0x1_0000_0000;
            let den = rate % 0x1_0000_0000;
            let fps = if den == 0 { DEFAULT_FPS as int } else { num / den };
            m.fps == if fps >= 1 { fps } else { 1 }
        }),
        ({
            let b = match avg_bitrate {
                Some(b) => b as int,
                None => 0,
            };
            m.bitrate == if b >= MIN_BITRATE { b } else { MIN_BITRATE as int }
        }),
{
    let size = match frame_size {
        Some(v) => v,
        None => pack2(0, 0),
    };
    let (w, h) = unpack(size);
    let rate = match frame_rate {
        Some(v) => v,
        None => pack2(DEFAULT_FPS, 1),
    };
    let (num, den) = unpack(rate);
    let fps = if den == 0 { DEFAULT_FPS } else { num / den };
    let bitrate = match avg_bitrate {
        Some(b) => b,
        None => 0,
    };
    VideoMeta {
        width: w,
        height: h,
        fps: if fps >= 1 { fps } else { 1 },
        bitrate: if bitrate >= MIN_BITRATE { bitrate } else { MIN_BITRATE },
    }
}

/// The format of decoded PCM16 audio of one track.
#[derive(Clone, Copy, Debug)]
pub struct PcmFormat {
    pub sample_rate: u32,
    pub channels: u16,
    /// Bytes per interleaved frame: two per channel, counting at least one channel.
    pub frame_bytes: usize,
}

/// PCM format from a track's sample rate and channel count attributes:
/// 48000 Hz and 2 channels when absent, the count kept to its low 16 bits.
pub fn pcm_format(sample_rate: Option<u32>, channels: Option<u32>) -> (f: PcmFormat)
    ensures
        f.sample_rate == match sample_rate {
            Some(r) => r,
            None => DEFAULT_SAMPLE_RATE,
        },
        f.channels == match channels {
            Some(c) => c % 0x1_0000,
            None => DEFAULT_CHANNELS,
        },
        f.frame_bytes == 2 * (if f.channels == 0 { 1 } else { f.channels as int }),
{
    let sr = match sample_rate {
        Some(r) => r,
        None => DEFAULT_SAMPLE_RATE,
    };
    let c = match channels {
        Some(c) => c,
        None => DEFAULT_CHANNELS,
    };
    let ch: u16 = (c % 0x1_0000) as u16;
    let frame_bytes: usize = if ch == 0 { 2 } else { ch as usize * 2 };
    PcmFormat { sample_rate: sr, channels: ch, frame_bytes }
}

/// A sample rate the AAC encoder accepts.
pub open spec fn aac_rate(r: u32) -> bool {
    r == 44100 || r == 48000
}

/// The rate of the remixed track: the system track's rate if the AAC
/// encoder accepts it, else the microphone's, else 48000 Hz.
pub fn output_rate(system_rate: u32, mic_rate: u32) -> (r: u32)
    ensures
        r == if aac_rate(system_rate) {
            system_rate
        } else if aac_rate(mic_rate) {
            mic_rate
        } else {
            DEFAULT_SAMPLE_RATE
        },
        aac_rate(r),
{
    if system_rate == 44100 || system_rate == 48000 {
        system_rate
    } else if mic_rate == 44100 || mic_rate == 48000 {
        mic_rate
    } else {
        DEFAULT_SAMPLE_RATE
    }
}

/// Frames of a track of `in_frames` frames at `src_rate` once resampled to
/// `out_rate` (zero rates read as one): unchanged when the rates agree,
/// else `in_frames * out_rate / src_rate` rounded down.
pub open spec fn spec_resampled_frames(in_frames: int, src_rate: u32, out_rate: u32) -> int {
    let s = if src_rate == 0 { 1 } else { src_rate as int };
    let o = if out_rate == 0 { 1 } else { out_rate as int };
    if s == o { in_frames } else { in_frames * o / s }
}

/// The frame count of a track resampled from `src_rate` to `out_rate`.
/// `None` when the product `in_frames * out_rate` leaves 64-bit signed
/// arithmetic.
pub fn resampled_frames(in_frames: usize, src_rate: u32, out_rate: u32) -> (r: Option<u64>)
    ensures
        ({
            let s = if src_rate == 0 { 1 } else { src_rate as int };
            let o = if out_rate == 0 { 1 } else { out_rate as int };
            r is None <==> (s != o && in_frames * o > i64::MAX)
        }),
        r matches Some(n) ==> n == spec_resampled_frames(in_frames as int, src_rate, out_rate),
{
    let s: u64 = if src_rate == 0 { 1 } else { src_rate as u64 };
    let o: u64 = if out_rate == 0 { 1 } else { out_rate as u64 };
    if s == o {
        return Some(in_frames as u64);
    }
    proof {
        assert((in_frames as int) * (o as int) <= 0xFFFF_FFFF_FFFF_FFFF * 0xFFFF_FFFF) by (nonlinear_arith)
            requires
                0 <= in_frames <= 0xFFFF_FFFF_FFFF_FFFF,
                0 <= o <= 0xFFFF_FFFF,
        ;
        assert((in_frames as int) * (o as int) >= 0) by (nonlinear_arith)
            requires in_frames >= 0, o >= 0;
    }
    let prod: u128 = (in_frames as u128) * (o as u128);
    if prod > i64::MAX as u128 {
        return None;
    }
    proof {
        assert(prod as int / (s as int) <= prod as int) by (nonlinear_arith)
            requires s >= 1, prod >= 0;
    }
    Some((prod / (s as u128)) as u64)
}

/// How the audio of a clip is presented in the editor.
#[derive(PartialEq, Eq, Structural, Clone, Copy, Debug)]
pub enum AudioLayout {
    /// No audio stream.
    Silent,
    /// One audio stream, played by the video itself; only its waveform is drawn.
    Embedded,
    /// A microphone and a system-sound stream, separated into two tracks
    /// mixed in the editor.
    Split,
}

/// The layout for a clip with `streams` audio streams: with two or more
/// there is a microphone track to separate.
pub fn audio_layout(streams: usize) -> (l: AudioLayout)
    ensures
        l == if streams == 0 {
            AudioLayout::Silent
        } else if streams == 1 {
            AudioLayout::Embedded
        } else {
            AudioLayout::Split
        },
{
    if streams >= 2 {
        AudioLayout::Split
    } else if streams == 1 {
        AudioLayout::Embedded
    } else {
        AudioLayout::Silent
    }
}

} // verus!
