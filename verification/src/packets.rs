//! The video side of an export: which compressed packets of the source are
//! copied or re-encoded for each kept segment, and how the packets of all
//! segments are joined into one gapless timeline. Times are in 100-ns ticks.
use vstd::prelude::*;
use crate::nal::{extract_param_sets, parameter_sets};
use crate::timeline::TICKS_PER_MS;

verus! {

/// One compressed video sample: its bytes, presentation time, duration,
/// and whether it is a key frame (a clean point to start decoding from).
pub struct Packet {
    pub data: Vec<u8>,
    pub time: i64,
    pub duration: i64,
    pub sync: bool,
}

/// A packet as a value: bytes, times and key-frame flag.
pub struct PacketView {
    pub data: Seq<u8>,
    pub time: int,
    pub duration: int,
    pub sync: bool,
}

impl View for Packet {
    type V = PacketView;

    open spec fn view(&self) -> PacketView {
        PacketView { data: self.data@, time: self.time as int, duration: self.duration as int, sync: self.sync }
    }
}

/// The views of a list of packets.
pub open spec fn packet_views(ps: Seq<Packet>) -> Seq<PacketView> {
    ps.map_values(|p: Packet| p@)
}

/// A packet moved `delta` ticks later.
pub open spec fn shifted(p: PacketView, delta: int) -> PacketView {
    PacketView { data: p.data, time: p.time + delta, duration: p.duration, sync: p.sync }
}

/// Packets moved `delta` ticks later.
pub open spec fn shift_all(ps: Seq<PacketView>, delta: int) -> Seq<PacketView> {
    ps.map_values(|p: PacketView| shifted(p, delta))
}

/// Every packet of `ps` moved by `delta` still has a 64-bit time.
pub open spec fn shift_fits(ps: Seq<PacketView>, delta: int) -> bool {
    forall|i: int| 0 <= i < ps.len() ==> i64::MIN <= #[trigger] ps[i].time + delta <= i64::MAX
}

/// When a list of packets ends: the time of its last packet plus that
/// packet's duration.
pub open spec fn end_of(ps: Seq<PacketView>) -> int {
    ps.last().time + ps.last().duration
}

/// Appends `part` to `all`, every packet moved `delta` ticks later.
pub fn append_shifted(all: &mut Vec<Packet>, part: Vec<Packet>, delta: i64)
    requires
        shift_fits(packet_views(part@), delta as int),
    ensures
        packet_views(final(all)@) == packet_views(old(all)@) + shift_all(
            packet_views(part@),
            delta as int,
        ),
{
    let ghost ps = packet_views(part@);
    let ghost start = packet_views(all@);
    let mut part = part;
    let mut rev: Vec<Packet> = Vec::new();
    while part.len() > 0
        invariant
            packet_views(part@) + packet_views(rev@).reverse() == ps,
        decreases part.len(),
    {
        let p = part.pop().unwrap();
        proof {
            assert(packet_views(rev@.push(p)).reverse() == seq![p@] + packet_views(rev@).reverse());
        }
        rev.push(p);
    }
    while rev.len() > 0
        invariant
            shift_fits(ps, delta as int),
            packet_views(rev@).reverse() == ps.skip(packet_views(all@).len() - start.len()),
            packet_views(all@).len() >= start.len(),
            packet_views(all@).len() - start.len() <= ps.len(),
            packet_views(all@) == start + shift_all(ps, delta as int).take(
                packet_views(all@).len() - start.len(),
            ),
        decreases rev.len(),
    {
        let p = rev.pop().unwrap();
        let ghost n = packet_views(all@).len() - start.len();
        proof {
            assert(packet_views(rev@.push(p)).reverse()[0] == p@);
            assert(ps.skip(n)[0] == p@);
            assert(ps.skip(n).len() == rev@.len() + 1);
            assert(0 <= n < ps.len());
            assert(ps.skip(n)[0] == ps[n]);
            assert(ps[n] == p@);
            assert(i64::MIN <= ps[n].time + delta <= i64::MAX);
        }
        let ghost old_all = all@;
        let q = Packet { data: p.data, time: p.time + delta, duration: p.duration, sync: p.sync };
        assert(q@ == shifted(p@, delta as int));
        all.push(q);
        proof {
            assert(packet_views(all@) =~= packet_views(old_all).push(q@));
            assert(shift_all(ps, delta as int)[n] == shifted(ps[n], delta as int));
            assert(packet_views(all@).len() - start.len() == n + 1);
            assert(ps.skip(n + 1) == ps.skip(n).drop_first());
            assert(shift_all(ps, delta as int).take(n + 1) == shift_all(ps, delta as int).take(n).push(
                shifted(p@, delta as int),
            ));
        }
    }
    proof {
        assert(ps.skip(packet_views(all@).len() - start.len()).len() == 0);
        assert(shift_all(ps, delta as int).take(ps.len() as int) == shift_all(ps, delta as int));
    }
}

/// Tells whether every packet of `part` moved by `delta` keeps a 64-bit time.
pub fn shift_fits_all(part: &Vec<Packet>, delta: i64) -> (b: bool)
    ensures
        b == shift_fits(packet_views(part@), delta as int),
{
    let mut i: usize = 0;
    while i < part.len()
        invariant
            i <= part@.len(),
            forall|j: int| 0 <= j < i ==> i64::MIN <= #[trigger] packet_views(part@)[j].time + delta <= i64::MAX,
        decreases part.len() - i,
    {
        let moved: i128 = part[i].time as i128 + delta as i128;
        if moved < i64::MIN as i128 || moved > i64::MAX as i128 {
            assert(packet_views(part@)[i as int].time == part@[i as int].time);
            return false;
        }
        i = i + 1;
    }
    true
}

/// Why an export cannot be made.
#[derive(PartialEq, Eq, Structural, Clone, Copy, Debug)]
pub enum ExportError {
    /// The edit keeps no segment.
    NoSegments,
    /// The kept segments hold no video packet.
    NoPackets,
    /// Re-encoding the start of a segment produced no frame.
    EmptyBoundary,
}

/// Where part `k` of the export starts on the joined timeline: where the
/// last nonempty part before it ends (each part's packets are stamped from
/// its own start), or zero.
pub open spec fn part_offset(parts: Seq<Seq<PacketView>>, k: int) -> int
    decreases k,
{
    if k <= 0 || k > parts.len() {
        0
    } else if parts[k - 1].len() == 0 {
        part_offset(parts, k - 1)
    } else {
        part_offset(parts, k - 1) + end_of(parts[k - 1])
    }
}

/// The first `k` parts joined: each moved to its offset, one after the other.
pub open spec fn joined_parts(parts: Seq<Seq<PacketView>>, k: int) -> Seq<PacketView>
    decreases k,
{
    if k <= 0 || k > parts.len() {
        Seq::empty()
    } else {
        joined_parts(parts, k - 1) + shift_all(parts[k - 1], part_offset(parts, k - 1))
    }
}

/// Every offset, and every packet time moved by its part's offset, fits in
/// 64-bit ticks.
pub open spec fn parts_fit(parts: Seq<Seq<PacketView>>) -> bool {
    &&& forall|k: int|
        0 <= k <= parts.len() ==> i64::MIN <= #[trigger] part_offset(parts, k) <= i64::MAX
    &&& forall|k: int| 0 <= k < parts.len() ==> shift_fits(#[trigger] parts[k], part_offset(parts, k))
}

/// The joined timeline has no gaps: each part is placed where everything
/// joined before it ends (the end of its last packet), so a part whose
/// packets are stamped from zero starts exactly there.
pub proof fn lemma_join_gapless(parts: Seq<Seq<PacketView>>, k: int)
    requires
        0 <= k <= parts.len(),
    ensures
        joined_parts(parts, k).len() > 0 ==> part_offset(parts, k) == end_of(joined_parts(parts, k)),
        joined_parts(parts, k).len() == 0 ==> part_offset(parts, k) == 0,
    decreases k,
{
    if k > 0 {
        lemma_join_gapless(parts, k - 1);
        let prev = joined_parts(parts, k - 1);
        let moved = shift_all(parts[k - 1], part_offset(parts, k - 1));
        assert(joined_parts(parts, k) == prev + moved);
        if parts[k - 1].len() > 0 {
            assert((prev + moved).last() == moved.last());
            assert(moved.last() == shifted(parts[k - 1].last(), part_offset(parts, k - 1)));
        } else {
            assert(moved.len() == 0);
            assert(prev + moved == prev);
        }
    }
}

/// The views of a list of parts.
pub open spec fn part_views(parts: Seq<Vec<Packet>>) -> Seq<Seq<PacketView>> {
    parts.map_values(|p: Vec<Packet>| packet_views(p@))
}

/// The segments' packets can be joined exactly when every part's offset
/// (the end of the nonempty parts before it) and every packet time moved by
/// its part's offset fit in 64-bit signed ticks.
pub proof fn lemma_parts_fit_explicit(parts: Seq<Vec<Packet>>)
    ensures
        parts_fit(part_views(parts)) <==> (forall|k: int|
            0 <= k <= parts.len() ==> i64::MIN <= #[trigger] part_offset(part_views(parts), k)
                <= i64::MAX) && (forall|k: int, i: int|
            0 <= k < parts.len() && 0 <= i < parts[k]@.len() ==> i64::MIN <= #[trigger] parts[k]@[i].time
                + part_offset(part_views(parts), k) <= i64::MAX),
{
    let pv = part_views(parts);
    assert forall|k: int| 0 <= k < parts.len() implies (shift_fits(#[trigger] pv[k], part_offset(pv, k))
        <==> (forall|i: int|
        0 <= i < parts[k]@.len() ==> i64::MIN <= #[trigger] parts[k]@[i].time + part_offset(pv, k)
            <= i64::MAX)) by {
        assert(pv[k] == packet_views(parts[k]@));
        assert(pv[k].len() == parts[k]@.len());
        assert forall|i: int| 0 <= i < parts[k]@.len() implies #[trigger] pv[k][i].time == parts[k]@[i].time by {
            assert(packet_views(parts[k]@)[i] == parts[k]@[i]@);
        }
        if shift_fits(pv[k], part_offset(pv, k)) {
            assert forall|i: int| 0 <= i < parts[k]@.len() implies i64::MIN <= #[trigger] parts[k]@[i].time
                + part_offset(pv, k) <= i64::MAX by {
                assert(pv[k][i].time == parts[k]@[i].time);
            }
        }
        if forall|i: int|
            0 <= i < parts[k]@.len() ==> i64::MIN <= #[trigger] parts[k]@[i].time + part_offset(pv, k)
                <= i64::MAX {
            assert forall|i: int| 0 <= i < pv[k].len() implies i64::MIN <= #[trigger] pv[k][i].time
                + part_offset(pv, k) <= i64::MAX by {
                assert(pv[k][i].time == parts[k]@[i].time);
            }
        }
    }
    if !parts_fit(pv) {
        if exists|k: int| 0 <= k < parts.len() && !shift_fits(#[trigger] pv[k], part_offset(pv, k)) {
            let k = choose|k: int| 0 <= k < parts.len() && !shift_fits(#[trigger] pv[k], part_offset(pv, k));
            let i = choose|i: int|
                0 <= i < parts[k]@.len() && !(i64::MIN <= #[trigger] parts[k]@[i].time + part_offset(pv, k)
                    <= i64::MAX);
            assert(!(i64::MIN <= parts[k]@[i].time + part_offset(pv, k) <= i64::MAX));
        }
    } else {
        assert forall|k: int, i: int|
            0 <= k < parts.len() && 0 <= i < parts[k]@.len() implies i64::MIN <= #[trigger] parts[k]@[i].time
                + part_offset(pv, k) <= i64::MAX by {
            assert(shift_fits(pv[k], part_offset(pv, k)));
        }
    }
}

/// Tells whether the segments' packets can be joined within 64-bit ticks
/// (`parts_fit`).
pub fn joinable(parts: &Vec<Vec<Packet>>) -> (b: bool)
    ensures
        b == parts_fit(part_views(parts@)),
        b <==> (forall|k: int|
            0 <= k <= parts@.len() ==> i64::MIN <= #[trigger] part_offset(part_views(parts@), k)
                <= i64::MAX) && (forall|k: int, i: int|
            0 <= k < parts@.len() && 0 <= i < parts@[k]@.len() ==> i64::MIN <= #[trigger] parts@[k]@[i].time
                + part_offset(part_views(parts@), k) <= i64::MAX),
{
    proof {
        lemma_parts_fit_explicit(parts@);
    }
    let ghost pv = part_views(parts@);
    let mut offset: i64 = 0;
    let mut k: usize = 0;
    while k < parts.len()
        invariant
            pv == part_views(parts@),
            k <= parts@.len(),
            offset == part_offset(pv, k as int),
            forall|j: int| 0 <= j <= k ==> i64::MIN <= #[trigger] part_offset(pv, j) <= i64::MAX,
            forall|j: int| 0 <= j < k ==> shift_fits(#[trigger] pv[j], part_offset(pv, j)),
        decreases parts.len() - k,
    {
        let part = &parts[k];
        assert(pv[k as int] == packet_views(part@));
        if !shift_fits_all(part, offset) {
            return false;
        }
        if part.len() > 0 {
            let last_t = part[part.len() - 1].time;
            let last_d = part[part.len() - 1].duration;
            let next: i128 = offset as i128 + last_t as i128 + last_d as i128;
            assert(end_of(pv[k as int]) == last_t + last_d);
            if next < i64::MIN as i128 || next > i64::MAX as i128 {
                assert(!(i64::MIN <= part_offset(pv, k + 1) <= i64::MAX));
                return false;
            }
            offset = next as i64;
        }
        k = k + 1;
    }
    true
}

/// Joins the video packets of the kept segments, in order, into one
/// timeline without gaps: each segment's packets start where the previous
/// nonempty segment's last packet ends. No segment at all is
/// `NoSegments`; segments without any packet are `NoPackets`.
pub fn join_segments(parts: Vec<Vec<Packet>>) -> (r: Result<Vec<Packet>, ExportError>)
    requires
        parts_fit(part_views(parts@)),
    ensures
        parts@.len() == 0 ==> r == Err::<Vec<Packet>, ExportError>(ExportError::NoSegments),
        parts@.len() > 0 && joined_parts(part_views(parts@), parts@.len() as int).len() == 0 ==> r
            == Err::<Vec<Packet>, ExportError>(ExportError::NoPackets),
        r is Ok <==> joined_parts(part_views(parts@), parts@.len() as int).len() > 0,
        r matches Ok(v) ==> packet_views(v@) == joined_parts(
            part_views(parts@),
            parts@.len() as int,
        ),
{
    let ghost pv = part_views(parts@);
    let n = parts.len();
    if n == 0 {
        return Err(ExportError::NoSegments);
    }
    let mut parts = parts;
    let mut rev: Vec<Vec<Packet>> = Vec::new();
    while parts.len() > 0
        invariant
            part_views(parts@) + part_views(rev@).reverse() == pv,
        decreases parts.len(),
    {
        let p = parts.pop().unwrap();
        proof {
            assert(part_views(rev@.push(p)).reverse() == seq![packet_views(p@)] + part_views(
                rev@,
            ).reverse());
            assert(part_views(parts@.push(p)) == part_views(parts@).push(packet_views(p@)));
        }
        rev.push(p);
    }
    let mut all: Vec<Packet> = Vec::new();
    let mut offset: i64 = 0;
    let ghost mut k: int = 0;
    while rev.len() > 0
        invariant
            parts_fit(pv),
            0 <= k <= pv.len(),
            part_views(rev@).reverse() == pv.skip(k),
            offset == part_offset(pv, k),
            packet_views(all@) == joined_parts(pv, k),
        decreases rev.len(),
    {
        let part = rev.pop().unwrap();
        proof {
            assert(part_views(rev@.push(part)).reverse()[0] == packet_views(part@));
            assert(pv.skip(k).len() == rev@.len() + 1);
            assert(pv.skip(k)[0] == pv[k]);
            assert(pv[k] == packet_views(part@));
            assert(shift_fits(pv[k], part_offset(pv, k)));
            assert(i64::MIN <= part_offset(pv, k + 1) <= i64::MAX);
        }
        if part.len() > 0 {
            let last_t = part[part.len() - 1].time;
            let last_d = part[part.len() - 1].duration;
            proof {
                assert(end_of(pv[k]) == last_t + last_d);
            }
            append_shifted(&mut all, part, offset);
            offset = offset + last_t + last_d;
        } else {
            proof {
                assert(shift_all(pv[k], offset as int) =~= Seq::<PacketView>::empty());
                assert(packet_views(all@) + Seq::<PacketView>::empty() == packet_views(all@));
            }
        }
        proof {
            assert(pv.skip(k + 1) == pv.skip(k).drop_first());
            assert(part_views(rev@).reverse() == part_views(rev@.push(part)).reverse().drop_first());
            k = k + 1;
        }
    }
    proof {
        assert(pv.skip(k).len() == 0);
        assert(k == pv.len());
    }
    if all.len() == 0 {
        Err(ExportError::NoPackets)
    } else {
        Ok(all)
    }
}

/// The time of the last key frame at or before `t`, searching the list from
/// its end, or zero when there is none.
pub open spec fn key_at_or_before(keys: Seq<i64>, t: int) -> int
    decreases keys.len(),
{
    if keys.len() == 0 {
        0
    } else if keys.last() <= t {
        keys.last() as int
    } else {
        key_at_or_before(keys.drop_last(), t)
    }
}

/// The time of the first key frame after `t`, searching the list from its
/// start, or `default` when there is none.
pub open spec fn key_after(keys: Seq<i64>, t: int, default: int) -> int
    decreases keys.len(),
{
    if keys.len() == 0 {
        default
    } else if keys[0] > t {
        keys[0] as int
    } else {
        key_after(keys.drop_first(), t, default)
    }
}

/// The key frame found for `t` is the last key frame in the list that lies
/// at or before `t`; zero when every key frame lies after `t`.
pub proof fn lemma_key_at_or_before_is_last(keys: Seq<i64>, t: int)
    ensures
        forall|i: int|
            0 <= i < keys.len() && keys[i] <= t && (forall|j: int| i < j < keys.len() ==> keys[j] > t)
                ==> key_at_or_before(keys, t) == #[trigger] keys[i],
        (forall|i: int| 0 <= i < keys.len() ==> keys[i] > t) ==> key_at_or_before(keys, t) == 0,
    decreases keys.len(),
{
    if keys.len() > 0 {
        let n = keys.len() - 1;
        let front = keys.drop_last();
        lemma_key_at_or_before_is_last(front, t);
        assert forall|i: int|
            0 <= i < keys.len() && keys[i] <= t && (forall|j: int| i < j < keys.len() ==> keys[j] > t)
                implies key_at_or_before(keys, t) == #[trigger] keys[i] by {
            if i < n {
                assert(keys[n] > t);
                assert(front[i] == keys[i]);
                assert forall|j: int| i < j < front.len() implies front[j] > t by {
                    assert(front[j] == keys[j]);
                }
            }
        }
        if forall|i: int| 0 <= i < keys.len() ==> keys[i] > t {
            assert(keys[n] > t);
            assert forall|i: int| 0 <= i < front.len() implies front[i] > t by {
                assert(front[i] == keys[i]);
            }
        }
    }
}

/// The next key frame found after `t` is the first key frame in the list
/// that lies after `t`; `default` when none does.
pub proof fn lemma_key_after_is_first(keys: Seq<i64>, t: int, default: int)
    ensures
        forall|i: int|
            0 <= i < keys.len() && keys[i] > t && (forall|j: int| 0 <= j < i ==> keys[j] <= t)
                ==> key_after(keys, t, default) == #[trigger] keys[i],
        (forall|i: int| 0 <= i < keys.len() ==> keys[i] <= t) ==> key_after(keys, t, default) == default,
    decreases keys.len(),
{
    if keys.len() > 0 {
        let rest = keys.drop_first();
        lemma_key_after_is_first(rest, t, default);
        assert forall|i: int|
            0 <= i < keys.len() && keys[i] > t && (forall|j: int| 0 <= j < i ==> keys[j] <= t)
                implies key_after(keys, t, default) == #[trigger] keys[i] by {
            if i > 0 {
                assert(keys[0] <= t);
                assert(rest[i - 1] == keys[i]);
                assert forall|j: int| 0 <= j < i - 1 implies rest[j] <= t by {
                    assert(rest[j] == keys[j + 1]);
                }
            }
        }
        if forall|i: int| 0 <= i < keys.len() ==> keys[i] <= t {
            assert(keys[0] <= t);
            assert forall|i: int| 0 <= i < rest.len() implies rest[i] <= t by {
                assert(rest[i] == keys[i + 1]);
            }
        }
    }
}

/// The key frame a plan starts from: the one it copies from, or the one
/// whose group of pictures it re-encodes.
pub open spec fn plan_key_frame(r: RangePlan) -> int {
    match r {
        RangePlan::Copy { from, .. } => from as int,
        RangePlan::Reencode { key_in, .. } => key_in as int,
    }
}

/// How the video of one kept segment `[start, end)` is produced.
#[derive(PartialEq, Eq, Structural, Clone, Copy, Debug)]
pub enum RangePlan {
    /// The segment starts on a key frame (within a millisecond): copy the
    /// packets of `[from, to)` as they are.
    Copy { from: i64, to: i64 },
    /// The segment starts between key frames: re-encode the group of
    /// pictures from `key_in` up to `next_key`, keeping the frames from
    /// `edit_in` on; then, when `copy_tail`, copy the packets of
    /// `[next_key, end)` after them.
    Reencode { edit_in: i64, key_in: i64, next_key: i64, end: i64, copy_tail: bool },
}

/// The plan for a segment `[start, end)` given the key frame times of the
/// source.
pub open spec fn spec_plan_range(start: i64, end: i64, keys: Seq<i64>) -> RangePlan {
    let key_in = key_at_or_before(keys, start as int);
    let gap = start - key_in;
    if gap >= TICKS_PER_MS || gap <= -TICKS_PER_MS {
        let next_key = key_after(keys, start as int, end as int);
        RangePlan::Reencode {
            edit_in: start,
            key_in: key_in as i64,
            next_key: next_key as i64,
            end,
            copy_tail: next_key < end,
        }
    } else {
        RangePlan::Copy { from: key_in as i64, to: end }
    }
}

/// Decides how to cut the segment `[start, end)` out of the source video:
/// a segment that starts (within a millisecond) on the last key frame at or
/// before its start is copied from that key frame; any other start is cut
/// frame-accurately by re-encoding up to the next key frame, after which
/// the packets are copied again.
pub fn plan_range(start: i64, end: i64, keys: &Vec<i64>) -> (r: RangePlan)
    ensures
        r == spec_plan_range(start, end, keys@),
        forall|i: int|
            0 <= i < keys@.len() && keys@[i] <= start && (forall|j: int|
                i < j < keys@.len() ==> keys@[j] > start) ==> plan_key_frame(r) == #[trigger] keys@[i],
        (forall|i: int| 0 <= i < keys@.len() ==> keys@[i] > start) ==> plan_key_frame(r) == 0,
        r is Copy <==> (start - plan_key_frame(r) < TICKS_PER_MS && plan_key_frame(r) - start
            < TICKS_PER_MS),
        r matches RangePlan::Copy { to, .. } ==> to == end,
        r matches RangePlan::Reencode { edit_in, next_key, end: e, copy_tail, .. } ==> {
            &&& edit_in == start
            &&& e == end
            &&& copy_tail == (next_key < end)
            &&& forall|i: int|
                0 <= i < keys@.len() && keys@[i] > start && (forall|j: int| 0 <= j < i ==> keys@[j] <= start)
                    ==> next_key == #[trigger] keys@[i]
            &&& (forall|i: int| 0 <= i < keys@.len() ==> keys@[i] <= start) ==> next_key == end
        },
{
    proof {
        lemma_key_at_or_before_is_last(keys@, start as int);
        lemma_key_after_is_first(keys@, start as int, end as int);
    }
    let mut i: usize = keys.len();
    let mut key_in: i64 = 0;
    let mut found = false;
    assert(keys@.take(keys@.len() as int) == keys@);
    while i > 0
        invariant
            i <= keys@.len(),
            found ==> i == 0 && key_in == key_at_or_before(keys@, start as int),
            !found ==> key_in == 0 && key_at_or_before(keys@.take(i as int), start as int)
                == key_at_or_before(keys@, start as int),
        decreases i,
    {
        assert(keys@.take(i as int).drop_last() == keys@.take(i - 1));
        if keys[i - 1] <= start {
            assert(keys@.take(i as int).last() == keys@[i - 1]);
            key_in = keys[i - 1];
            found = true;
            i = 0;
        } else {
            i = i - 1;
        }
    }
    proof {
        if !found {
            assert(keys@.take(0).len() == 0);
        }
    }
    assert(key_in == key_at_or_before(keys@, start as int));
    let gap: i128 = start as i128 - key_in as i128;
    if gap >= TICKS_PER_MS as i128 || gap <= -(TICKS_PER_MS as i128) {
        let mut j: usize = 0;
        let mut next_key: i64 = end;
        let mut found_next = false;
        assert(keys@.skip(0) == keys@);
        while j < keys.len()
            invariant
                j <= keys@.len(),
                found_next ==> j == keys@.len() && next_key == key_after(keys@, start as int, end as int),
                !found_next ==> next_key == end && key_after(keys@.skip(j as int), start as int, end as int)
                    == key_after(keys@, start as int, end as int),
            decreases keys.len() - j,
        {
            assert(keys@.skip(j as int).drop_first() == keys@.skip(j + 1));
            if keys[j] > start {
                assert(keys@.skip(j as int)[0] == keys@[j as int]);
                next_key = keys[j];
                found_next = true;
                j = keys.len();
            } else {
                j = j + 1;
            }
        }
        proof {
            if !found_next {
                assert(keys@.skip(j as int).len() == 0);
            }
        }
        assert(next_key == key_after(keys@, start as int, end as int));
        RangePlan::Reencode { edit_in: start, key_in, next_key, end, copy_tail: next_key < end }
    } else {
        RangePlan::Copy { from: key_in, to: end }
    }
}

/// What becomes of one source sample while copying the packets of a range.
#[derive(PartialEq, Eq, Structural, Clone, Copy, Debug)]
pub enum WindowStep {
    /// Before the range: skip it.
    Skip,
    /// At or past a positive end: stop reading.
    Stop,
    /// Inside the range: take it.
    Take,
}

/// Classifies a sample stamped `t` against the copy range `[from, to)`; an
/// end of zero or less means "to the end of the stream".
pub fn window_step(t: i64, from: i64, to: i64) -> (r: WindowStep)
    ensures
        r == if t < from {
            WindowStep::Skip
        } else if t >= to && to > 0 {
            WindowStep::Stop
        } else {
            WindowStep::Take
        },
{
    if t < from {
        WindowStep::Skip
    } else if t >= to && to > 0 {
        WindowStep::Stop
    } else {
        WindowStep::Take
    }
}

/// Restamps a taken packet relative to the first one taken: returns the
/// base (the time of the first packet taken, `t` itself when none was
/// taken yet) and `t` minus that base.
pub fn rebase(base: Option<i64>, t: i64) -> (r: (i64, i64))
    requires
        base matches Some(b) ==> i64::MIN <= t - b <= i64::MAX,
    ensures
        r.0 == match base {
            Some(b) => b,
            None => t,
        },
        r.1 == t - r.0,
{
    match base {
        Some(b) => (b, t - b),
        None => (t, 0),
    }
}

/// What becomes of one source sample while re-encoding the start of a
/// segment.
#[derive(PartialEq, Eq, Structural, Clone, Copy, Debug)]
pub enum BoundaryStep {
    /// Not part of the output: skip it.
    Skip,
    /// The next key frame is reached: stop reading.
    Stop,
    /// Feed it to the encoder stamped with the given time.
    Feed(i64),
}

/// Classifies a decoded frame stamped `t` while re-encoding from the key
/// frame at `key_in` up to `next_key` (when that lies after it) for a
/// segment starting at `edit_in`: frames before `edit_in` are decoded but
/// not kept; the first kept frame is stamped 0 and later ones
/// `t - edit_in`. `started` tells whether a frame was kept already.
pub fn boundary_step(t: i64, key_in: i64, next_key: i64, edit_in: i64, started: bool) -> (r:
    BoundaryStep)
    requires
        t >= edit_in && started ==> i64::MIN <= t - edit_in <= i64::MAX,
    ensures
        r == if t < key_in {
            BoundaryStep::Skip
        } else if t >= next_key && next_key > key_in {
            BoundaryStep::Stop
        } else if t >= edit_in {
            BoundaryStep::Feed(if started { (t - edit_in) as i64 } else { 0 })
        } else {
            BoundaryStep::Skip
        },
{
    if t < key_in {
        BoundaryStep::Skip
    } else if t >= next_key && next_key > key_in {
        BoundaryStep::Stop
    } else if t >= edit_in {
        BoundaryStep::Feed(if started { t - edit_in } else { 0 })
    } else {
        BoundaryStep::Skip
    }
}

/// Where the re-encoded start of a segment ends, so that the copied packets
/// after it can follow on: the end of its last packet; `EmptyBoundary` when
/// the encoder gave no packet.
pub fn boundary_end(boundary: &Vec<Packet>) -> (r: Result<i64, ExportError>)
    requires
        boundary@.len() > 0 ==> i64::MIN <= end_of(packet_views(boundary@)) <= i64::MAX,
    ensures
        boundary@.len() == 0 <==> r == Err::<i64, ExportError>(ExportError::EmptyBoundary),
        r matches Ok(e) ==> e == end_of(packet_views(boundary@)),
{
    if boundary.len() == 0 {
        Err(ExportError::EmptyBoundary)
    } else {
        let last = &boundary[boundary.len() - 1];
        assert(packet_views(boundary@).last() == last@);
        Ok(last.time + last.duration)
    }
}

/// The decoder configuration for the exported video: the sequence header
/// the source format carries when it has one, else the parameter sets
/// found in the first packet, else nothing.
pub fn sequence_header(stored: Option<Vec<u8>>, first_packet: Option<&Vec<u8>>) -> (r: Vec<u8>)
    ensures
        r@ == match stored {
            Some(h) => h@,
            None => match first_packet {
                Some(d) => parameter_sets(d@),
                None => Seq::empty(),
            },
        },
{
    match stored {
        Some(h) => h,
        None => match first_packet {
            Some(d) => extract_param_sets(d.as_slice()),
            None => Vec::new(),
        },
    }
}

/// `s` is in ascending order.
pub open spec fn ascending(s: Seq<i64>) -> bool {
    forall|i: int, j: int| 0 <= i <= j < s.len() ==> s[i] <= s[j]
}

/// Sorts timestamps into ascending order. Frame times come out of the
/// demuxer in decoding order, which is nearly sorted, so each one is
/// inserted by a short backward scan.
pub fn sort_times(times: Vec<i64>) -> (r: Vec<i64>)
    ensures
        ascending(r@),
        r@.to_multiset() == times@.to_multiset(),
{
    broadcast use vstd::seq_lib::group_to_multiset_ensures;
    let mut out: Vec<i64> = Vec::new();
    let mut i: usize = 0;
    while i < times.len()
        invariant
            i <= times@.len(),
            ascending(out@),
            out@.to_multiset() == times@.take(i as int).to_multiset(),
        decreases times.len() - i,
    {
        let x = times[i];
        let mut pos: usize = out.len();
        while pos > 0 && out[pos - 1] > x
            invariant
                pos <= out@.len(),
                forall|k: int| pos <= k < out@.len() ==> out@[k] > x,
            decreases pos,
        {
            pos = pos - 1;
        }
        let ghost before = out@;
        out.insert(pos, x);
        proof {
            assert(times@.take(i + 1) == times@.take(i as int).push(x));
            vstd::seq_lib::to_multiset_insert(before, pos as int, x);
            vstd::seq_lib::to_multiset_build(times@.take(i as int), x);
            assert forall|a: int, b: int| 0 <= a <= b < out@.len() implies out@[a] <= out@[b] by {
                if a < pos && b > pos {
                    assert(before[a] <= before[b - 1]);
                }
                if a < pos && b == pos {
                    assert(before[a] <= before[pos - 1]);
                }
                if a > pos {
                    assert(before[a - 1] <= before[b - 1]);
                }
            }
        }
        i = i + 1;
    }
    assert(times@.take(times@.len() as int) == times@);
    out
}

/// The times of the key frames among decoded samples `(time, is key frame)`,
/// in the order read.
pub open spec fn key_frame_times(samples: Seq<(i64, bool)>) -> Seq<i64>
    decreases samples.len(),
{
    if samples.len() == 0 {
        Seq::empty()
    } else if samples.last().1 {
        key_frame_times(samples.drop_last()).push(samples.last().0)
    } else {
        key_frame_times(samples.drop_last())
    }
}

/// Keeps the times of the samples that are key frames, in order.
pub fn key_times(samples: &Vec<(i64, bool)>) -> (r: Vec<i64>)
    ensures
        r@ == key_frame_times(samples@),
{
    let mut out: Vec<i64> = Vec::new();
    let mut i: usize = 0;
    while i < samples.len()
        invariant
            i <= samples@.len(),
            out@ == key_frame_times(samples@.take(i as int)),
        decreases samples.len() - i,
    {
        assert(samples@.take(i + 1).drop_last() == samples@.take(i as int));
        let (t, sync) = samples[i];
        if sync {
            out.push(t);
        }
        i = i + 1;
    }
    assert(samples@.take(samples@.len() as int) == samples@);
    out
}

} // verus!
