//! 16-bit PCM audio: the canonical 44-byte WAV layout the editor writes for
//! its separated tracks, and the peak envelope it draws as a waveform.
use vstd::prelude::*;

verus! {

/// Number of buckets of the waveform envelope: the logical width the editor draws.
pub const WAVE_BUCKETS: usize = 1600;

/// Number of frames probed, at most, inside one bucket.
pub const PEAK_PROBES: usize = 96;

/// Size of the WAV header that precedes the samples.
pub const WAV_HEADER_LEN: usize = 44;

/// Little-endian bytes of a 16-bit value.
pub open spec fn le16(v: int) -> Seq<u8> {
    seq![(v % 256) as u8, (v / 256 % 256) as u8]
}

/// Little-endian bytes of a 32-bit value.
pub open spec fn le32(v: int) -> Seq<u8> {
    seq![(v % 256) as u8, (v / 0x100 % 256) as u8, (v / 0x1_0000 % 256) as u8, (v / 0x100_0000 % 256) as u8]
}

/// The 16-bit little-endian value stored at `i`.
pub open spec fn read_le16(b: Seq<u8>, i: int) -> int {
    b[i] as int + 256 * b[i + 1] as int
}

/// The 32-bit little-endian value stored at `i`.
pub open spec fn read_le32(b: Seq<u8>, i: int) -> int {
    b[i] as int + 0x100 * b[i + 1] as int + 0x1_0000 * b[i + 2] as int + 0x100_0000 * b[i + 3] as int
}

proof fn lemma_le16_reads_back(v: u16)
    ensures
        le16(v as int)[0] as int + 256 * le16(v as int)[1] as int == v,
{
    assert(v == (v & 0xff) + (v >> 8u16) * 256) by (bit_vector);
    assert(v & 0xff == v % 256) by (bit_vector);
    assert(v >> 8u16 == v / 256) by (bit_vector);
}

proof fn lemma_le32_reads_back(v: u32)
    ensures
        le32(v as int)[0] as int + 0x100 * le32(v as int)[1] as int + 0x1_0000 * le32(v as int)[2] as int
            + 0x100_0000 * le32(v as int)[3] as int == v,
{
    assert(v == (v & 0xff) + ((v >> 8u32) & 0xff) * 0x100 + ((v >> 16u32) & 0xff) * 0x1_0000 + (v >> 24u32)
        * 0x100_0000) by (bit_vector);
    assert(v & 0xff == v % 256) by (bit_vector);
    assert((v >> 8u32) & 0xff == v / 0x100 % 256) by (bit_vector);
    assert((v >> 16u32) & 0xff == v / 0x1_0000 % 256) by (bit_vector);
    assert(v >> 24u32 == v / 0x100_0000 % 256) by (bit_vector);
}

/// The fields of a WAV file as a reader finds them: the `RIFF`/`WAVE`/`fmt `/
/// `data` tags, the RIFF size (36 plus the sample bytes), a 16-byte `fmt `
/// chunk for PCM (format 1), the channel count, the sample rate, the byte
/// rate `sample_rate * channels * 2`, the block alignment `channels * 2`,
/// 16 bits per sample, the data size, and the samples themselves from
/// byte 44.
pub proof fn lemma_wav_header_fields(pcm: Seq<u8>, sample_rate: u32, channels: u16)
    requires
        sample_rate * channels * 2 <= u32::MAX,
        channels * 2 <= u16::MAX,
        recorded_len(pcm) + 36 <= u32::MAX,
    ensures
        ({
            let f = wav_file(pcm, sample_rate as int, channels as int);
            &&& f.len() == 44 + pcm.len()
            &&& f[0] == 0x52 && f[1] == 0x49 && f[2] == 0x46 && f[3] == 0x46
            &&& read_le32(f, 4) == 36 + pcm.len() % 0x1_0000_0000
            &&& f[8] == 0x57 && f[9] == 0x41 && f[10] == 0x56 && f[11] == 0x45
            &&& f[12] == 0x66 && f[13] == 0x6d && f[14] == 0x74 && f[15] == 0x20
            &&& read_le32(f, 16) == 16
            &&& read_le16(f, 20) == 1
            &&& read_le16(f, 22) == channels
            &&& read_le32(f, 24) == sample_rate
            &&& read_le32(f, 28) == sample_rate * channels * 2
            &&& read_le16(f, 32) == channels * 2
            &&& read_le16(f, 34) == 16
            &&& f[36] == 0x64 && f[37] == 0x61 && f[38] == 0x74 && f[39] == 0x61
            &&& read_le32(f, 40) == pcm.len() % 0x1_0000_0000
            &&& f.skip(44) == pcm
        }),
{
    let f = wav_file(pcm, sample_rate as int, channels as int);
    let len = recorded_len(pcm);
    lemma_le32_reads_back((36 + len) as u32);
    lemma_le32_reads_back(16);
    lemma_le16_reads_back(1);
    lemma_le16_reads_back(channels);
    lemma_le32_reads_back(sample_rate);
    lemma_le32_reads_back((sample_rate * channels * 2) as u32);
    lemma_le16_reads_back((channels * 2) as u16);
    lemma_le16_reads_back(16);
    lemma_le32_reads_back(len as u32);
    let h = wav_header(len, sample_rate as int, channels as int);
    assert(h.len() == 44);
    assert(f.skip(44) == pcm);
    assert(forall|i: int| 0 <= i < 44 ==> f[i] == h[i]);
}

/// The header of a PCM16 WAV file holding `data_len` bytes of samples
/// (`RIFF` chunk, `fmt ` chunk of 16 bytes for format 1, then `data`).
pub open spec fn wav_header(data_len: int, sample_rate: int, channels: int) -> Seq<u8> {
    seq![0x52u8, 0x49, 0x46, 0x46]
        + le32(36 + data_len)
        + seq![0x57u8, 0x41, 0x56, 0x45]
        + seq![0x66u8, 0x6d, 0x74, 0x20]
        + le32(16)
        + le16(1)
        + le16(channels)
        + le32(sample_rate)
        + le32(sample_rate * channels * 2)
        + le16(channels * 2)
        + le16(16)
        + seq![0x64u8, 0x61, 0x74, 0x61]
        + le32(data_len)
}

/// The length that the header records for `pcm`: its byte count taken
/// modulo 2^32, as a 32-bit field holds it.
pub open spec fn recorded_len(pcm: Seq<u8>) -> int {
    pcm.len() as int % 0x1_0000_0000
}

/// A whole WAV file: header, then the samples.
pub open spec fn wav_file(pcm: Seq<u8>, sample_rate: int, channels: int) -> Seq<u8> {
    wav_header(recorded_len(pcm), sample_rate, channels) + pcm
}

fn push_le16(out: &mut Vec<u8>, v: u16)
    ensures
        final(out)@ == old(out)@ + le16(v as int),
{
    let lo = (v & 0xff) as u8;
    let hi = (v >> 8u16) as u8;
    assert(v & 0xff == v % 256) by (bit_vector);
    assert(v >> 8u16 == v / 256) by (bit_vector);
    out.push(lo);
    out.push(hi);
}

fn push_le32(out: &mut Vec<u8>, v: u32)
    ensures
        final(out)@ == old(out)@ + le32(v as int),
{
    assert(v & 0xff == v % 256) by (bit_vector);
    assert((v >> 8u32) & 0xff == v / 0x100 % 256) by (bit_vector);
    assert((v >> 16u32) & 0xff == v / 0x1_0000 % 256) by (bit_vector);
    assert(v >> 24u32 == v / 0x100_0000 % 256) by (bit_vector);
    out.push((v & 0xff) as u8);
    out.push(((v >> 8u32) & 0xff) as u8);
    out.push(((v >> 16u32) & 0xff) as u8);
    out.push((v >> 24u32) as u8);
}

fn push_bytes4(out: &mut Vec<u8>, a: u8, b: u8, c: u8, d: u8)
    ensures
        final(out)@ == old(out)@ + seq![a, b, c, d],
{
    out.push(a);
    out.push(b);
    out.push(c);
    out.push(d);
}

/// The bytes of a PCM16 WAV file holding `pcm`, with the given sample rate
/// and channel count: the 44-byte header, then the samples unchanged.
pub fn wav_bytes(pcm: &[u8], sample_rate: u32, channels: u16) -> (out: Vec<u8>)
    requires
        sample_rate * channels * 2 <= u32::MAX,
        channels * 2 <= u16::MAX,
        recorded_len(pcm@) + 36 <= u32::MAX,
    ensures
        out@ == wav_file(pcm@, sample_rate as int, channels as int),
        out@.len() == 44 + pcm@.len(),
        read_le16(out@, 22) == channels,
        read_le32(out@, 24) == sample_rate,
        read_le32(out@, 28) == sample_rate * channels * 2,
        read_le16(out@, 32) == channels * 2,
        read_le32(out@, 40) == pcm@.len() % 0x1_0000_0000,
        out@.skip(44) == pcm@,
{
    proof {
        lemma_wav_header_fields(pcm@, sample_rate, channels);
    }
    let data_len: u32 = ((pcm.len() as u64) % 0x1_0000_0000u64) as u32;
    let byte_rate: u32 = sample_rate * (channels as u32) * 2;
    let block_align: u16 = channels * 2;
    let mut out: Vec<u8> = Vec::new();
    push_bytes4(&mut out, 0x52, 0x49, 0x46, 0x46);
    push_le32(&mut out, 36 + data_len);
    push_bytes4(&mut out, 0x57, 0x41, 0x56, 0x45);
    push_bytes4(&mut out, 0x66, 0x6d, 0x74, 0x20);
    push_le32(&mut out, 16);
    push_le16(&mut out, 1);
    push_le16(&mut out, channels);
    push_le32(&mut out, sample_rate);
    push_le32(&mut out, byte_rate);
    push_le16(&mut out, block_align);
    push_le16(&mut out, 16);
    push_bytes4(&mut out, 0x64, 0x61, 0x74, 0x61);
    push_le32(&mut out, data_len);
    let ghost header = out@;
    assert(header == wav_header(recorded_len(pcm@), sample_rate as int, channels as int));
    let mut i: usize = 0;
    while i < pcm.len()
        invariant
            i <= pcm@.len(),
            out@ == header + pcm@.subrange(0, i as int),
        decreases pcm.len() - i,
    {
        out.push(pcm[i]);
        assert(pcm@.subrange(0, i + 1) == pcm@.subrange(0, i as int).push(pcm@[i as int]));
        i = i + 1;
    }
    assert(pcm@.subrange(0, pcm@.len() as int) == pcm@);
    out
}

/// Magnitude of the signed 16-bit little-endian sample stored at `idx`.
pub open spec fn sample_magnitude(pcm: Seq<u8>, idx: int) -> int {
    let v = read_le16(pcm, idx);
    if v >= 32768 { 65536 - v } else { v }
}

pub open spec fn max_of(a: int, b: int) -> int {
    if a >= b { a } else { b }
}

/// Largest magnitude among the first `c` channels of frame `f`.
pub open spec fn frame_peak(pcm: Seq<u8>, f: int, ch: int, c: int) -> int
    decreases c,
{
    if c <= 0 {
        0
    } else {
        max_of(frame_peak(pcm, f, ch, c - 1), sample_magnitude(pcm, (f * ch + (c - 1)) * 2))
    }
}

/// Largest magnitude over the frames `f, f + stride, ...` below `end`.
pub open spec fn probe_peak(pcm: Seq<u8>, f: int, end: int, stride: int, ch: int) -> int
    decreases end - f,
{
    if f >= end || stride < 1 {
        0
    } else if f + stride >= end {
        frame_peak(pcm, f, ch, ch)
    } else {
        max_of(frame_peak(pcm, f, ch, ch), probe_peak(pcm, f + stride, end, stride, ch))
    }
}

/// Channel count used to read interleaved samples: at least one.
pub open spec fn channel_count(channels: u16) -> int {
    if channels == 0 { 1 } else { channels as int }
}

/// Whole frames in `pcm`.
pub open spec fn frame_count(pcm: Seq<u8>, channels: u16) -> int {
    pcm.len() as int / (channel_count(channels) * 2)
}

/// Frames per bucket: an even share of the frames, at least one.
pub open spec fn bucket_size(frames: int) -> int {
    if frames / (WAVE_BUCKETS as int) == 0 { 1 } else { frames / (WAVE_BUCKETS as int) }
}

/// Peak of bucket `b`: the frames `[b * size, min(b * size + size, frames))`,
/// probed with a stride that keeps the probes to about `PEAK_PROBES`; zero
/// when the bucket starts past the last frame.
pub open spec fn bucket_peak(pcm: Seq<u8>, ch: int, frames: int, size: int, b: int) -> int {
    let start = b * size;
    if start >= frames {
        0
    } else {
        let end = if start + size <= frames { start + size } else { frames };
        let span = end - start;
        let stride = if span > PEAK_PROBES as int { span / (PEAK_PROBES as int) } else { 1 };
        probe_peak(pcm, start, end, stride, ch)
    }
}

/// The waveform envelope of `pcm`: `WAVE_BUCKETS` peak magnitudes, each in
/// `0..=32768` (full scale).
pub open spec fn peak_levels(pcm: Seq<u8>, channels: u16) -> Seq<int> {
    let frames = frame_count(pcm, channels);
    Seq::new(
        WAVE_BUCKETS as nat,
        |b: int| bucket_peak(pcm, channel_count(channels), frames, bucket_size(frames), b),
    )
}

proof fn lemma_frame_index(f: int, c: int, ch: int, frames: int, len: int)
    by (nonlinear_arith)
    requires
        0 <= f < frames,
        0 <= c < ch,
        frames == len / (ch * 2),
        ch >= 1,
        len >= 0,
    ensures
        0 <= (f * ch + c) * 2,
        (f * ch + c) * 2 + 1 < len,
{
    assert(frames * (ch * 2) <= len);
    assert(f * ch + c <= (frames - 1) * ch + ch - 1);
    assert((frames - 1) * ch + ch - 1 == frames * ch - 1);
}

fn frame_peak_exec(pcm: &[u8], f: usize, ch: usize, frames: usize) -> (peak: u32)
    requires
        ch >= 1,
        f < frames,
        frames == pcm@.len() as int / (ch * 2) as int,
    ensures
        peak == frame_peak(pcm@, f as int, ch as int, ch as int),
        peak <= 32768,
{
    let len = pcm.len();
    let mut peak: u32 = 0;
    let mut c: usize = 0;
    proof {
        assert(f * ch <= frames * ch) by (nonlinear_arith)
            requires f < frames;
        assert(frames * (ch * 2) <= pcm@.len()) by (nonlinear_arith)
            requires frames == pcm@.len() as int / (ch * 2) as int, ch >= 1;
    }
    while c < ch
        invariant
            c <= ch,
            ch >= 1,
            f < frames,
            frames == pcm@.len() as int / (ch * 2) as int,
            f * ch <= frames * ch,
            len == pcm@.len(),
            frames * (ch * 2) <= pcm@.len(),
            peak == frame_peak(pcm@, f as int, ch as int, c as int),
            peak <= 32768,
        decreases ch - c,
    {
        proof {
            lemma_frame_index(f as int, c as int, ch as int, frames as int, pcm@.len() as int);
            assert(f * ch + c < pcm@.len());
            assert(f * ch <= f * ch + c);
        }
        let idx: usize = (f * ch + c) * 2;
        let v: u32 = pcm[idx] as u32 + 256 * (pcm[idx + 1] as u32);
        let a: u32 = if v >= 32768 { 65536 - v } else { v };
        if a > peak {
            peak = a;
        }
        c = c + 1;
    }
    peak
}

proof fn lemma_bucket_bounds(b: int, size: int, frames: int)
    requires
        0 <= b < WAVE_BUCKETS,
        frames >= 0,
        size == bucket_size(frames),
    ensures
        size >= 1,
        0 <= b * size,
        b * size + size <= if frames >= WAVE_BUCKETS { frames } else { WAVE_BUCKETS as int },
{
    if frames / 1600 == 0 {
        assert(frames < 1600);
    } else {
        assert(b * size + size <= 1600 * size) by (nonlinear_arith)
            requires b < 1600, size >= 1;
        assert(1600 * (frames / 1600) <= frames) by (nonlinear_arith)
            requires frames >= 0;
        assert(0 <= b * size) by (nonlinear_arith)
            requires b >= 0, size >= 1;
    }
}

fn bucket_peak_exec(pcm: &[u8], ch: usize, frames: usize, size: usize, b: usize) -> (peak: u32)
    requires
        ch >= 1,
        size >= 1,
        frames == pcm@.len() as int / (ch * 2) as int,
        frames * 2 <= usize::MAX,
        0 <= b * size,
        b * size + size <= if frames >= WAVE_BUCKETS { frames as int } else { WAVE_BUCKETS as int },
    ensures
        peak == bucket_peak(pcm@, ch as int, frames as int, size as int, b as int),
        peak <= 32768,
{
    let start: usize = b * size;
    if start >= frames {
        return 0;
    }
    let end: usize = if start + size <= frames { start + size } else { frames };
    let span: usize = end - start;
    let stride: usize = if span > PEAK_PROBES { span / PEAK_PROBES } else { 1 };
    let mut peak: u32 = 0;
    let mut f: usize = start;
    while f < end
        invariant
            ch >= 1,
            start <= f,
            end <= frames,
            frames == pcm@.len() as int / (ch * 2) as int,
            stride >= 1,
            f <= end + stride,
            end + stride <= 2 * frames,
            frames * 2 <= usize::MAX,
            max_of(peak as int, probe_peak(pcm@, f as int, end as int, stride as int, ch as int))
                == probe_peak(pcm@, start as int, end as int, stride as int, ch as int),
            peak <= 32768,
        decreases end + stride - f,
    {
        let p = frame_peak_exec(pcm, f, ch, frames);
        if p > peak {
            peak = p;
        }
        f = f + stride;
    }
    peak
}

/// The waveform envelope of interleaved PCM16 `pcm` with `channels`
/// channels (zero read as one): `WAVE_BUCKETS` peak magnitudes out of
/// 32768. Each bucket covers an even share of the frames and probes at most
/// about `PEAK_PROBES` of them, so the cost does not grow with the clip's
/// length; buckets past the last frame, and all of them when there is no
/// whole frame, are zero.
pub fn peaks_from_pcm(pcm: &[u8], channels: u16) -> (out: Vec<u32>)
    ensures
        out@.len() == WAVE_BUCKETS,
        forall|b: int| 0 <= b < WAVE_BUCKETS ==> #[trigger] out@[b] as int == peak_levels(pcm@, channels)[b],
        forall|b: int| 0 <= b < WAVE_BUCKETS ==> #[trigger] out@[b] <= 32768,
{
    let ch: usize = if channels == 0 { 1 } else { channels as usize };
    let frames: usize = pcm.len() / (ch * 2);
    let size: usize = if frames / WAVE_BUCKETS == 0 { 1 } else { frames / WAVE_BUCKETS };
    let mut out: Vec<u32> = Vec::new();
    let mut b: usize = 0;
    while b < WAVE_BUCKETS
        invariant
            ch as int == channel_count(channels),
            pcm@.len() <= usize::MAX,
            frames as int == frame_count(pcm@, channels),
            size as int == bucket_size(frames as int),
            b <= WAVE_BUCKETS,
            out@.len() == b,
            forall|k: int| 0 <= k < b ==> #[trigger] out@[k] as int == peak_levels(pcm@, channels)[k],
            forall|k: int| 0 <= k < b ==> #[trigger] out@[k] <= 32768,
        decreases WAVE_BUCKETS - b,
    {
        proof {
            lemma_bucket_bounds(b as int, size as int, frames as int);
            assert(frames * (ch * 2) <= pcm@.len()) by (nonlinear_arith)
                requires frames == pcm@.len() as int / (ch * 2) as int, ch >= 1;
            assert(frames * 2 <= frames * (ch * 2)) by (nonlinear_arith)
                requires ch >= 1, frames >= 0;
        }
        let p = bucket_peak_exec(pcm, ch, frames, size, b);
        out.push(p);
        b = b + 1;
    }
    out
}

/// How many frames the probe of a bucket reads: `f, f + stride, ...` below `end`.
pub open spec fn probe_count(f: int, end: int, stride: int) -> int
    decreases end - f,
{
    if f >= end || stride < 1 {
        0
    } else if f + stride >= end {
        1
    } else {
        1 + probe_count(f + stride, end, stride)
    }
}

proof fn lemma_probe_count_bound(f: int, end: int, stride: int)
    requires
        stride >= 1,
        f < end,
    ensures
        (probe_count(f, end, stride) - 1) * stride < end - f,
        probe_count(f, end, stride) >= 1,
    decreases end - f,
{
    if f + stride < end {
        lemma_probe_count_bound(f + stride, end, stride);
        let c = probe_count(f + stride, end, stride);
        assert(probe_count(f, end, stride) == c + 1);
        assert((c + 1 - 1) * stride == (c - 1) * stride + stride) by (nonlinear_arith);
    } else {
        assert(probe_count(f, end, stride) == 1);
        assert((1 - 1) * stride == 0) by (nonlinear_arith);
    }
}

/// The envelope's cost does not grow with the clip: each bucket reads at
/// most `2 * PEAK_PROBES` frames, whatever its length.
pub proof fn lemma_bucket_probes_bounded(frames: int, size: int, b: int)
    requires
        size >= 1,
        b >= 0,
    ensures
        ({
            let start = b * size;
            let end = if start + size <= frames { start + size } else { frames };
            let span = end - start;
            let stride = if span > PEAK_PROBES as int { span / (PEAK_PROBES as int) } else { 1 };
            probe_count(start, end, stride) <= 2 * PEAK_PROBES
        }),
{
    let start = b * size;
    let end = if start + size <= frames { start + size } else { frames };
    let span = end - start;
    let stride = if span > 96 { span / 96 } else { 1 };
    if start < end {
        lemma_probe_count_bound(start, end, stride);
        let c = probe_count(start, end, stride);
        if span > 96 {
            assert(96 * stride > span - 96) by (nonlinear_arith)
                requires stride == span / 96, span > 96;
            assert(c <= 192) by (nonlinear_arith)
                requires (c - 1) * stride < span, 96 * stride > span - 96, stride >= 1, c >= 1;
        } else {
            assert(c - 1 < span);
        }
    }
}

/// What the editor reads back from a WAV file of its own: the channel count
/// from the header, and the envelope of the samples after it; nothing when
/// the file is shorter than a header.
pub open spec fn wav_peaks(bytes: Seq<u8>) -> Option<Seq<int>> {
    if bytes.len() < WAV_HEADER_LEN {
        None
    } else {
        Some(peak_levels(bytes.skip(WAV_HEADER_LEN as int), read_le16(bytes, 22) as u16))
    }
}

/// The waveform envelope of a PCM16 WAV file with the fixed 44-byte header
/// that `wav_bytes` writes: the channel count is read from bytes 22 and 23
/// and the samples from byte 44 on. `None` when the file is shorter than
/// the header.
pub fn peaks_from_wav(bytes: &[u8]) -> (out: Option<Vec<u32>>)
    ensures
        out is None <==> wav_peaks(bytes@) is None,
        out matches Some(v) ==> v@.len() == WAVE_BUCKETS && forall|b: int|
            0 <= b < WAVE_BUCKETS ==> #[trigger] v@[b] as int == wav_peaks(bytes@).unwrap()[b],
{
    if bytes.len() < WAV_HEADER_LEN {
        return None;
    }
    let channels: u16 = bytes[22] as u16 + 256 * (bytes[23] as u16);
    let samples = &bytes[WAV_HEADER_LEN..bytes.len()];
    assert(samples@ == bytes@.skip(WAV_HEADER_LEN as int));
    Some(peaks_from_pcm(samples, channels))
}

/// Reading back a file that `wav_bytes` wrote gives the envelope of the
/// samples that were written, with the channel count that was written.
pub proof fn lemma_wav_peaks_round_trip(pcm: Seq<u8>, sample_rate: u32, channels: u16)
    ensures
        wav_peaks(wav_file(pcm, sample_rate as int, channels as int)) == Some(
            peak_levels(pcm, channels),
        ),
{
    let file = wav_file(pcm, sample_rate as int, channels as int);
    let header = wav_header(recorded_len(pcm), sample_rate as int, channels as int);
    assert(header.len() == 44);
    assert(header[22] == (channels as int % 256) as u8);
    assert(header[23] == (channels as int / 256 % 256) as u8);
    assert(file.skip(44) == pcm);
    assert(file[22] == header[22] && file[23] == header[23]);
    assert(read_le16(file, 22) == channels as int);
}

} // verus!
