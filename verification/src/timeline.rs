//! Cutting a clip's audio to the kept segments. Times are in 100-ns ticks
//! (the unit of media timestamps) and audio positions in frames.
use vstd::prelude::*;

verus! {

/// Media timestamp ticks per second.
pub const TICKS_PER_SECOND: u64 = 10_000_000;

/// Media timestamp ticks per millisecond.
pub const TICKS_PER_MS: i64 = 10_000;

/// One kept segment of the source clip, `[start, end)` in ticks.
#[derive(Clone, Copy, Debug)]
pub struct Span {
    pub start: i64,
    pub end: i64,
}

/// The audio frame at time `t` for a track at `rate` frames per second:
/// `t / 10^7 * rate` rounded half up, and 0 for times at or before zero.
pub open spec fn frame_at(t: int, rate: int) -> int {
    if t <= 0 {
        0
    } else {
        (2 * t * rate + TICKS_PER_SECOND) / (2 * TICKS_PER_SECOND as int)
    }
}

/// The audio frame at time `t` for a track at `rate` frames per second,
/// rounded to the nearest frame (halves up), and 0 for times at or before
/// zero.
pub fn frame_index(t: i64, rate: u32) -> (f: u128)
    ensures
        f == frame_at(t as int, rate as int),
        t <= 0 ==> f == 0,
        t > 0 ==> 2 * f * 10_000_000 <= 2 * t * rate + 10_000_000 < 2 * (f + 1) * 10_000_000,
{
    if t <= 0 {
        0
    } else {
        proof {
            assert(2 * (t as int) * (rate as int) <= 2 * 0x7FFF_FFFF_FFFF_FFFF * 0xFFFF_FFFF) by (nonlinear_arith)
                requires
                    0 < t <= 0x7FFF_FFFF_FFFF_FFFF,
                    0 <= rate <= 0xFFFF_FFFF,
            ;
        }
        let num: u128 = 2 * (t as u128) * (rate as u128) + (TICKS_PER_SECOND as u128);
        let f = num / (2 * (TICKS_PER_SECOND as u128));
        proof {
            assert(2 * f * 10_000_000 <= num < 2 * (f + 1) * 10_000_000) by (nonlinear_arith)
                requires
                    f == num / 20_000_000,
                    num >= 0,
            ;
        }
        f
    }
}

/// Pads a track's decoded PCM with silence up to the position of a sample
/// stamped `t`, so that a track that started late (system sound delivers
/// nothing while silent) stays in step with the video: the PCM must reach
/// frame `frame_at(t, sample_rate)` before the sample's bytes are appended.
/// PCM already past that point is left as it is.
pub fn align_pcm(pcm: &mut Vec<u8>, t: i64, sample_rate: u32, frame_bytes: usize)
    requires
        frame_at(t as int, sample_rate as int) * frame_bytes <= usize::MAX,
    ensures
        final(pcm)@.len() == if old(pcm)@.len() >= frame_at(t as int, sample_rate as int) * frame_bytes {
            old(pcm)@.len() as int
        } else {
            frame_at(t as int, sample_rate as int) * frame_bytes
        },
        final(pcm)@.subrange(0, old(pcm)@.len() as int) == old(pcm)@,
        forall|i: int| old(pcm)@.len() <= i < final(pcm)@.len() ==> #[trigger] final(pcm)@[i] == 0,
{
    let frames = frame_index(t, sample_rate);
    proof {
        assert(frames * frame_bytes >= 0) by (nonlinear_arith)
            requires frames >= 0, frame_bytes >= 0;
        assert(frames * frame_bytes <= 0xFFFF_FFFF_FFFF_FFFF_FFFF_FFFF_FFFF_FFFF) by (nonlinear_arith)
            requires frames * frame_bytes <= usize::MAX, usize::MAX <= 0xFFFF_FFFF_FFFF_FFFF;
    }
    let expected: usize = (frames * (frame_bytes as u128)) as usize;
    let ghost before = pcm@;
    while pcm.len() < expected
        invariant
            pcm@.len() >= before.len(),
            pcm@.len() <= expected || pcm@.len() == before.len(),
            pcm@.subrange(0, before.len() as int) == before,
            forall|i: int| before.len() <= i < pcm@.len() ==> #[trigger] pcm@[i] == 0,
        decreases expected - pcm@.len(),
    {
        pcm.push(0u8);
    }
}

/// Kept length of the first `k` segments: the sum of their spans.
pub open spec fn kept_before(spans: Seq<Span>, k: int) -> int
    decreases k,
{
    if k <= 0 || k > spans.len() {
        0
    } else {
        kept_before(spans, k - 1) + (spans[k - 1].end - spans[k - 1].start)
    }
}

/// The segments' arithmetic fits in 64-bit ticks: each span, each running
/// total of spans, and each segment start minus the total before it.
pub open spec fn ranges_fit(spans: Seq<Span>) -> bool {
    &&& forall|k: int|
        0 <= k <= spans.len() ==> i64::MIN <= #[trigger] kept_before(spans, k) <= i64::MAX
    &&& forall|k: int|
        0 <= k < spans.len() ==> i64::MIN <= #[trigger] spans[k].end - spans[k].start <= i64::MAX
    &&& forall|k: int|
        0 <= k < spans.len() ==> i64::MIN <= #[trigger] spans[k].start - kept_before(spans, k)
            <= i64::MAX
}

/// A kept segment with the shift that moves its samples to the output
/// timeline: a sample at `t` in `[start, end)` goes to `t - offset`.
#[derive(Clone, Copy, Debug)]
pub struct SegmentRange {
    pub start: i64,
    pub end: i64,
    pub offset: i64,
}

/// For each kept segment, its bounds and the shift that places it right
/// after the segments before it: `offset = start - (kept length before it)`,
/// so the kept segments follow each other with no gap. `None` when that
/// arithmetic leaves 64-bit ticks.
pub fn segment_ranges(spans: &Vec<Span>) -> (r: Option<Vec<SegmentRange>>)
    ensures
        r is None <==> !ranges_fit(spans@),
        r is Some <==> (forall|k: int|
            0 <= k <= spans@.len() ==> i64::MIN <= #[trigger] kept_before(spans@, k) <= i64::MAX)
            && (forall|k: int|
            0 <= k < spans@.len() ==> i64::MIN <= #[trigger] spans@[k].end - spans@[k].start <= i64::MAX)
            && (forall|k: int|
            0 <= k < spans@.len() ==> i64::MIN <= #[trigger] spans@[k].start - kept_before(spans@, k)
                <= i64::MAX),
        r matches Some(v) ==> v@.len() == spans@.len() && forall|k: int|
            0 <= k < v@.len() ==> (#[trigger] v@[k]).start == spans@[k].start && v@[k].end
                == spans@[k].end && v@[k].offset == spans@[k].start - kept_before(spans@, k),
        r matches Some(v) ==> v@.len() > 0 ==> v@[0].offset == v@[0].start,
        r matches Some(v) ==> forall|k: int|
            0 < k < v@.len() ==> #[trigger] v@[k].offset == v@[k - 1].offset + (v@[k].start - v@[k
                - 1].end),
{
    let mut r: Vec<SegmentRange> = Vec::new();
    let mut kept: i64 = 0;
    let mut k: usize = 0;
    while k < spans.len()
        invariant
            k <= spans@.len(),
            r@.len() == k,
            kept == kept_before(spans@, k as int),
            forall|j: int|
                0 <= j <= k ==> i64::MIN <= #[trigger] kept_before(spans@, j) <= i64::MAX,
            forall|j: int|
                0 <= j < k ==> i64::MIN <= #[trigger] spans@[j].end - spans@[j].start <= i64::MAX,
            forall|j: int|
                0 <= j < k ==> i64::MIN <= #[trigger] spans@[j].start - kept_before(spans@, j)
                    <= i64::MAX,
            forall|j: int|
                0 <= j < k ==> (#[trigger] r@[j]).start == spans@[j].start && r@[j].end
                    == spans@[j].end && r@[j].offset == spans@[j].start - kept_before(spans@, j),
        decreases spans.len() - k,
    {
        let s = spans[k];
        let offset: i128 = s.start as i128 - kept as i128;
        let span: i128 = s.end as i128 - s.start as i128;
        let next: i128 = kept as i128 + span;
        if offset < i64::MIN as i128 || offset > i64::MAX as i128 || span < i64::MIN as i128 || span
            > i64::MAX as i128 || next < i64::MIN as i128 || next > i64::MAX as i128 {
            proof {
                assert(kept_before(spans@, k + 1) == kept + span);
                let kk = k as int;
                if offset < i64::MIN as i128 || offset > i64::MAX as i128 {
                    assert(!(i64::MIN <= spans@[kk].start - kept_before(spans@, kk) <= i64::MAX));
                } else if span < i64::MIN as i128 || span > i64::MAX as i128 {
                    assert(!(i64::MIN <= spans@[kk].end - spans@[kk].start <= i64::MAX));
                } else {
                    assert(!(i64::MIN <= kept_before(spans@, kk + 1) <= i64::MAX));
                }
            }
            return None;
        }
        r.push(SegmentRange { start: s.start, end: s.end, offset: offset as i64 });
        kept = next as i64;
        k = k + 1;
    }
    Some(r)
}

/// The first range at or after `idx` that has not ended by time `t`, or
/// the number of ranges when all of them have.
pub open spec fn next_range(ranges: Seq<SegmentRange>, idx: int, t: int) -> int
    decreases ranges.len() - idx,
{
    if idx >= ranges.len() || idx < 0 {
        idx
    } else if t >= ranges[idx].end {
        next_range(ranges, idx + 1, t)
    } else {
        idx
    }
}

/// What becomes of one decoded audio sample while cutting a track.
#[derive(PartialEq, Eq, Structural, Clone, Copy, Debug)]
pub enum CutStep {
    /// Every kept segment has ended: stop reading.
    Stop,
    /// The sample lies before the current segment: skip it.
    Drop,
    /// Write the sample at the given output time.
    Keep(i64),
}

/// The step and the range index for the sample at `t`.
pub open spec fn cut_step(ranges: Seq<SegmentRange>, idx: int, t: int) -> CutStep {
    let j = next_range(ranges, idx, t);
    if j >= ranges.len() {
        CutStep::Stop
    } else if t >= ranges[j].start {
        CutStep::Keep((t - ranges[j].offset) as i64)
    } else {
        CutStep::Drop
    }
}

/// The output time of a kept sample fits in 64-bit ticks.
pub open spec fn cut_fits(ranges: Seq<SegmentRange>, idx: int, t: int) -> bool {
    let j = next_range(ranges, idx, t);
    j < ranges.len() && t >= ranges[j].start ==> i64::MIN <= t - ranges[j].offset <= i64::MAX
}

/// Decides the fate of an audio sample stamped `t` when the source track is
/// cut to `ranges` (read in time order, starting at range `idx`): ranges
/// that have ended by `t` are passed over; once all have ended the reading
/// stops; a sample inside the current range is kept, moved to
/// `t - offset`; one before it is dropped. Returns the new range index with
/// the step; `None` when the moved time leaves 64-bit ticks.
pub fn cut_audio_sample(ranges: &Vec<SegmentRange>, idx: usize, t: i64) -> (r: Option<(usize, CutStep)>)
    requires
        idx <= ranges@.len(),
    ensures
        r is None <==> !cut_fits(ranges@, idx as int, t as int),
        r matches Some(p) ==> p.0 == next_range(ranges@, idx as int, t as int) && p.1 == cut_step(
            ranges@,
            idx as int,
            t as int,
        ),
{
    let mut j = idx;
    while j < ranges.len() && t >= ranges[j].end
        invariant
            idx <= j <= ranges@.len(),
            next_range(ranges@, j as int, t as int) == next_range(ranges@, idx as int, t as int),
        decreases ranges.len() - j,
    {
        j = j + 1;
    }
    if j >= ranges.len() {
        Some((j, CutStep::Stop))
    } else if t >= ranges[j].start {
        let moved: i128 = t as i128 - ranges[j].offset as i128;
        if moved < i64::MIN as i128 || moved > i64::MAX as i128 {
            None
        } else {
            Some((j, CutStep::Keep(moved as i64)))
        }
    } else {
        Some((j, CutStep::Drop))
    }
}

/// A kept sample lands right after the kept length of the segments before
/// its own: `kept_before(k) + (t - start_k)`.
pub proof fn lemma_cut_is_gapless(spans: Seq<Span>, ranges: Seq<SegmentRange>, idx: int, t: int)
    requires
        ranges.len() == spans.len(),
        forall|k: int|
            0 <= k < ranges.len() ==> (#[trigger] ranges[k]).start == spans[k].start
                && ranges[k].end == spans[k].end && ranges[k].offset == spans[k].start
                - kept_before(spans, k),
        0 <= idx <= ranges.len(),
        cut_step(ranges, idx, t) is Keep,
        i64::MIN <= t - ranges[next_range(ranges, idx, t)].offset <= i64::MAX,
    ensures
        ({
            let k = next_range(ranges, idx, t);
            &&& 0 <= k < spans.len()
            &&& spans[k].start <= t < spans[k].end
            &&& cut_step(ranges, idx, t) == CutStep::Keep(
                (kept_before(spans, k) + (t - spans[k].start)) as i64,
            )
        }),
{
    lemma_next_range(ranges, idx, t);
}

proof fn lemma_next_range(ranges: Seq<SegmentRange>, idx: int, t: int)
    requires
        0 <= idx <= ranges.len(),
    ensures
        idx <= next_range(ranges, idx, t) <= ranges.len(),
        next_range(ranges, idx, t) < ranges.len() ==> t < ranges[next_range(ranges, idx, t)].end,
    decreases ranges.len() - idx,
{
    if idx < ranges.len() && t >= ranges[idx].end {
        lemma_next_range(ranges, idx + 1, t);
    }
}

/// Frames per written audio chunk: 20 ms worth, at least one.
pub open spec fn block_frames(rate: u32) -> int {
    if rate / 50 == 0 { 1 } else { (rate / 50) as int }
}

/// Duration in ticks of `frames` audio frames at `rate` (a zero rate read
/// as one), rounded down.
pub open spec fn chunk_duration(frames: int, rate: u32) -> int {
    frames * (TICKS_PER_SECOND as int) / (if rate == 0 { 1 } else { rate as int })
}

/// `f`, but no further than `total`.
pub open spec fn clamp_frame(f: int, total: int) -> int {
    if f <= total { f } else { total }
}

/// Splits the frames `[s, e)` into consecutive chunks of `block` frames,
/// the last one shorter if need be: pairs (first frame, frame count).
pub open spec fn split_frames(s: int, e: int, block: int) -> Seq<(int, int)>
    decreases e - s,
{
    if s >= e || block < 1 {
        Seq::empty()
    } else {
        let n = if e - s <= block { e - s } else { block };
        seq![(s, n)] + split_frames(s + n, e, block)
    }
}

/// The chunks of the first `k` kept segments of a remixed track of `total`
/// frames at `rate`: each segment's frames, rounded to the nearest frame and
/// kept within the track, split into blocks, segment after segment.
pub open spec fn chunk_plan(spans: Seq<Span>, k: int, rate: u32, total: int) -> Seq<(int, int)>
    decreases k,
{
    if k <= 0 || k > spans.len() {
        Seq::empty()
    } else {
        chunk_plan(spans, k - 1, rate, total) + split_frames(
            clamp_frame(frame_at(spans[k - 1].start as int, rate as int), total),
            clamp_frame(frame_at(spans[k - 1].end as int, rate as int), total),
            block_frames(rate),
        )
    }
}

/// Total duration of the chunks of a plan.
pub open spec fn plan_duration(plan: Seq<(int, int)>, rate: u32) -> int
    decreases plan.len(),
{
    if plan.len() == 0 {
        0
    } else {
        plan_duration(plan.drop_last(), rate) + chunk_duration(plan.last().1, rate)
    }
}

/// One chunk of the remixed track to write: `frames` stereo frames from
/// `first_frame`, stamped `time` with the given duration, in ticks.
#[derive(Clone, Copy, Debug)]
pub struct AudioChunk {
    pub first_frame: usize,
    pub frames: usize,
    pub time: i64,
    pub duration: i64,
}

proof fn lemma_plan_duration_add(a: Seq<(int, int)>, b: Seq<(int, int)>, rate: u32)
    ensures
        plan_duration(a + b, rate) == plan_duration(a, rate) + plan_duration(b, rate),
    decreases b.len(),
{
    if b.len() > 0 {
        lemma_plan_duration_add(a, b.drop_last(), rate);
        assert((a + b).drop_last() == a + b.drop_last());
    } else {
        assert(a + b == a);
    }
}

proof fn lemma_split_frames_positive(s: int, e: int, block: int)
    requires
        block >= 1,
    ensures
        forall|i: int|
            0 <= i < split_frames(s, e, block).len() ==> 1 <= (#[trigger] split_frames(s, e, block)[i]).1
                <= block,
    decreases e - s,
{
    if s < e {
        let n = if e - s <= block { e - s } else { block };
        lemma_split_frames_positive(s + n, e, block);
        let rest = split_frames(s + n, e, block);
        assert forall|i: int| 0 <= i < split_frames(s, e, block).len() implies 1 <= (
        #[trigger] split_frames(s, e, block)[i]).1 <= block by {
            if i > 0 {
                assert(split_frames(s, e, block)[i] == rest[i - 1]);
            }
        }
    }
}

proof fn lemma_plan_duration_nonneg(plan: Seq<(int, int)>, rate: u32)
    requires
        forall|i: int| 0 <= i < plan.len() ==> (#[trigger] plan[i]).1 >= 0,
    ensures
        plan_duration(plan, rate) >= 0,
    decreases plan.len(),
{
    if plan.len() > 0 {
        lemma_plan_duration_nonneg(plan.drop_last(), rate);
        let d = if rate == 0 { 1 } else { rate as int };
        assert(plan.last().1 * (TICKS_PER_SECOND as int) / d >= 0) by (nonlinear_arith)
            requires
                plan.last().1 >= 0,
                d >= 1,
        ;
    }
}

proof fn lemma_chunk_plan_grows(spans: Seq<Span>, m: int, n: int, rate: u32, total: int)
    requires
        0 <= m <= n <= spans.len(),
    ensures
        plan_duration(chunk_plan(spans, m, rate, total), rate) <= plan_duration(
            chunk_plan(spans, n, rate, total),
            rate,
        ),
    decreases n - m,
{
    if m < n {
        lemma_chunk_plan_grows(spans, m, n - 1, rate, total);
        let seg = split_frames(
            clamp_frame(frame_at(spans[n - 1].start as int, rate as int), total),
            clamp_frame(frame_at(spans[n - 1].end as int, rate as int), total),
            block_frames(rate),
        );
        lemma_split_frames_positive(
            clamp_frame(frame_at(spans[n - 1].start as int, rate as int), total),
            clamp_frame(frame_at(spans[n - 1].end as int, rate as int), total),
            block_frames(rate),
        );
        lemma_plan_duration_nonneg(seg, rate);
        lemma_plan_duration_add(chunk_plan(spans, n - 1, rate, total), seg, rate);
    }
}

proof fn lemma_split_frames_within(s: int, e: int, block: int)
    requires
        block >= 1,
    ensures
        forall|i: int|
            0 <= i < split_frames(s, e, block).len() ==> s <= (#[trigger] split_frames(s, e, block)[i]).0
                && split_frames(s, e, block)[i].0 + split_frames(s, e, block)[i].1 <= e && 1
                <= split_frames(s, e, block)[i].1 <= block,
    decreases e - s,
{
    if s < e {
        let n = if e - s <= block { e - s } else { block };
        lemma_split_frames_within(s + n, e, block);
        let rest = split_frames(s + n, e, block);
        assert forall|i: int| 0 <= i < split_frames(s, e, block).len() implies s <= (
        #[trigger] split_frames(s, e, block)[i]).0 && split_frames(s, e, block)[i].0
            + split_frames(s, e, block)[i].1 <= e && 1 <= split_frames(s, e, block)[i].1 <= block by {
            if i > 0 {
                assert(split_frames(s, e, block)[i] == rest[i - 1]);
            }
        }
    }
}

proof fn lemma_chunk_plan_within(spans: Seq<Span>, k: int, rate: u32, total: int)
    requires
        0 <= k <= spans.len(),
        total >= 0,
    ensures
        forall|i: int|
            0 <= i < chunk_plan(spans, k, rate, total).len() ==> 0 <= (#[trigger] chunk_plan(
                spans,
                k,
                rate,
                total,
            )[i]).0 && chunk_plan(spans, k, rate, total)[i].0 + chunk_plan(spans, k, rate, total)[i].1
                <= total && 1 <= chunk_plan(spans, k, rate, total)[i].1 <= block_frames(rate),
    decreases k,
{
    if k > 0 {
        lemma_chunk_plan_within(spans, k - 1, rate, total);
        let sf = clamp_frame(frame_at(spans[k - 1].start as int, rate as int), total);
        let ef = clamp_frame(frame_at(spans[k - 1].end as int, rate as int), total);
        lemma_split_frames_within(sf, ef, block_frames(rate));
        let front = chunk_plan(spans, k - 1, rate, total);
        let seg = split_frames(sf, ef, block_frames(rate));
        assert(chunk_plan(spans, k, rate, total) == front + seg);
        assert forall|i: int| 0 <= i < (front + seg).len() implies 0 <= (#[trigger] (front + seg)[i]).0
            && (front + seg)[i].0 + (front + seg)[i].1 <= total && 1 <= (front + seg)[i].1 <= block_frames(
            rate,
        ) by {
            if i >= front.len() {
                assert((front + seg)[i] == seg[i - front.len()]);
            } else {
                assert((front + seg)[i] == front[i]);
            }
        }
    }
}

/// Lays out the writing of a remixed stereo track of `frames_total` frames
/// at `rate` cut to `spans`: only the kept segments, one after the other,
/// each split into 20 ms chunks; every chunk lasts its frame count at
/// `rate` (rounded down) and is stamped where the previous one ended, the
/// first at zero.
pub fn plan_remix_chunks(frames_total: usize, rate: u32, spans: &Vec<Span>) -> (r: Option<
    Vec<AudioChunk>,
>)
    ensures
        r is None <==> plan_duration(
            chunk_plan(spans@, spans@.len() as int, rate, frames_total as int),
            rate,
        ) > i64::MAX,
        r matches Some(r) ==> {
            let plan = chunk_plan(spans@, spans@.len() as int, rate, frames_total as int);
            &&& r@.len() == plan.len()
            &&& forall|i: int|
                0 <= i < r@.len() ==> (#[trigger] r@[i]).first_frame == plan[i].0 && r@[i].frames
                    == plan[i].1 && r@[i].duration == chunk_duration(plan[i].1, rate) && r@[i].time
                    == plan_duration(plan.take(i), rate)
            &&& forall|i: int| 0 < i < r@.len() ==> #[trigger] r@[i].time == r@[i - 1].time + r@[i - 1].duration
            &&& r@.len() > 0 ==> r@[0].time == 0
            &&& forall|i: int|
                0 <= i < r@.len() ==> 1 <= (#[trigger] r@[i]).frames <= (if rate / 50 == 0 {
                    1
                } else {
                    rate / 50
                }) && r@[i].first_frame + r@[i].frames <= frames_total && r@[i].duration == r@[i].frames
                    * 10_000_000 / (if rate == 0 { 1 } else { rate as int })
        },
{
    proof {
        lemma_chunk_plan_within(spans@, spans@.len() as int, rate, frames_total as int);
    }
    let ghost plan_all = chunk_plan(spans@, spans@.len() as int, rate, frames_total as int);
    let rate_or_one: u64 = if rate == 0 { 1 } else { rate as u64 };
    let block: usize = if rate / 50 == 0 { 1 } else { (rate / 50) as usize };
    let mut out: Vec<AudioChunk> = Vec::new();
    let mut out_t: i64 = 0;
    let ghost mut done: Seq<(int, int)> = Seq::empty();
    let mut k: usize = 0;
    while k < spans.len()
        invariant
            plan_all == chunk_plan(spans@, spans@.len() as int, rate, frames_total as int),
            rate_or_one as int == (if rate == 0 { 1 } else { rate as int }),
            block as int == block_frames(rate),
            k <= spans@.len(),
            done == chunk_plan(spans@, k as int, rate, frames_total as int),
            out@.len() == done.len(),
            out_t == plan_duration(done, rate),
            forall|i: int|
                0 <= i < out@.len() ==> (#[trigger] out@[i]).first_frame == done[i].0 && out@[i].frames
                    == done[i].1 && out@[i].duration == chunk_duration(done[i].1, rate) && out@[i].time
                    == plan_duration(done.take(i), rate),
        decreases spans.len() - k,
    {
        let span = spans[k];
        let sf = frame_index(span.start, rate);
        let ef = frame_index(span.end, rate);
        let start_f: usize = if sf <= frames_total as u128 { sf as usize } else { frames_total };
        let end_f: usize = if ef <= frames_total as u128 { ef as usize } else { frames_total };
        let ghost seg = split_frames(start_f as int, end_f as int, block as int);
        proof {
            lemma_chunk_plan_grows(spans@, k + 1, spans@.len() as int, rate, frames_total as int);
            assert(chunk_plan(spans@, k + 1, rate, frames_total as int) == done + seg);
        }
        let mut f: usize = start_f;
        while f < end_f
            invariant
                plan_all == chunk_plan(spans@, spans@.len() as int, rate, frames_total as int),
                plan_duration(chunk_plan(spans@, k + 1, rate, frames_total as int), rate)
                    <= plan_duration(plan_all, rate),
                rate_or_one as int == (if rate == 0 { 1 } else { rate as int }),
                block as int == block_frames(rate),
                start_f <= f,
                end_f <= frames_total,
                f <= end_f || start_f >= end_f,
                done + split_frames(f as int, end_f as int, block as int) == chunk_plan(
                    spans@,
                    k + 1,
                    rate,
                    frames_total as int,
                ),
                out@.len() == done.len(),
                out_t == plan_duration(done, rate),
                forall|i: int|
                    0 <= i < out@.len() ==> (#[trigger] out@[i]).first_frame == done[i].0
                        && out@[i].frames == done[i].1 && out@[i].duration == chunk_duration(
                        done[i].1,
                        rate,
                    ) && out@[i].time == plan_duration(done.take(i), rate),
            decreases end_f - f,
        {
            let chunk: usize = if end_f - f <= block { end_f - f } else { block };
            proof {
                assert(chunk * 10_000_000 <= 0x7FFF_FFFF_FFFF_FFFF) by (nonlinear_arith)
                    requires
                        chunk <= block,
                        block <= 0xFFFF_FFFF,
                ;
            }
            let dur: i64 = ((chunk as u64) * 10_000_000u64 / rate_or_one) as i64;
            let ghost x = (f as int, chunk as int);
            let ghost rest = split_frames(f + chunk, end_f as int, block as int);
            let next_t: i128 = out_t as i128 + dur as i128;
            proof {
                assert(split_frames(f as int, end_f as int, block as int) == seq![x] + rest);
                assert(done + split_frames(f as int, end_f as int, block as int) == done.push(x)
                    + rest);
                lemma_split_frames_positive(f + chunk, end_f as int, block as int);
                lemma_plan_duration_nonneg(rest, rate);
                lemma_plan_duration_add(done.push(x), rest, rate);
                assert(done.push(x).drop_last() == done);
                assert(dur == chunk_duration(chunk as int, rate));
                assert(plan_duration(done.push(x), rate) == next_t);
            }
            if next_t > i64::MAX as i128 {
                return None;
            }
            out.push(AudioChunk { first_frame: f, frames: chunk, time: out_t, duration: dur });
            proof {
                assert(done.push(x).take(done.len() as int) == done);
                assert forall|i: int| 0 <= i < done.len() implies done.push(x).take(i) == done.take(i) by {
                    assert(done.push(x).take(i) =~= done.take(i));
                }
                done = done.push(x);
            }
            out_t = next_t as i64;
            f = f + chunk;
        }
        proof {
            assert(split_frames(f as int, end_f as int, block as int) == Seq::<(int, int)>::empty());
            assert(done + Seq::<(int, int)>::empty() == done);
        }
        k = k + 1;
    }
    proof {
        assert forall|i: int| 0 < i < out@.len() implies #[trigger] out@[i].time == out@[i - 1].time
            + out@[i - 1].duration by {
            assert(done.take(i).drop_last() == done.take(i - 1));
            assert(done.take(i).last() == done[i - 1]);
        }
        if out@.len() > 0 {
            assert(done.take(0).len() == 0);
        }
    }
    Some(out)
}

/// The chunks of a kept segment cover its frames exactly: they start at
/// its first frame, each begins where the previous one ends, each holds
/// between one and `block` frames, and together they hold all `e - s`.
pub proof fn lemma_split_frames_cover(s: int, e: int, block: int)
    requires
        block >= 1,
        s < e,
    ensures
        ({
            let c = split_frames(s, e, block);
            &&& c.len() > 0
            &&& c[0].0 == s
            &&& c.last().0 + c.last().1 == e
            &&& forall|i: int| 0 <= i < c.len() ==> 1 <= (#[trigger] c[i]).1 <= block
            &&& forall|i: int| 0 < i < c.len() ==> #[trigger] c[i].0 == c[i - 1].0 + c[i - 1].1
        }),
    decreases e - s,
{
    lemma_split_frames_positive(s, e, block);
    let n = if e - s <= block { e - s } else { block };
    let c = split_frames(s, e, block);
    let rest = split_frames(s + n, e, block);
    assert(c == seq![(s, n)] + rest);
    if s + n < e {
        lemma_split_frames_cover(s + n, e, block);
        assert forall|i: int| 0 < i < c.len() implies #[trigger] c[i].0 == c[i - 1].0 + c[i - 1].1 by {
            if i > 1 {
                assert(c[i] == rest[i - 1]);
                assert(c[i - 1] == rest[i - 2]);
            } else {
                assert(c[1] == rest[0]);
            }
        }
        assert(c.last() == rest.last());
    } else {
        assert(rest.len() == 0);
    }
}

} // verus!
