use flashback::media::{
    audio_layout, count_audio_streams, find_stream, nth_audio_stream, output_rate, pack2, pcm_format,
    resampled_frames, video_meta, AudioLayout, StreamKind,
};
use flashback::packets::{
    append_shifted, boundary_end, boundary_step, joinable, join_segments, key_times, plan_range, rebase,
    sequence_header, shift_fits_all, sort_times, window_step, BoundaryStep, ExportError, Packet,
    RangePlan, WindowStep,
};
use flashback::timeline::{
    align_pcm, cut_audio_sample, frame_index, plan_remix_chunks, segment_ranges, CutStep, SegmentRange,
    Span,
};

const SECOND: i64 = 10_000_000;

fn packet(time: i64, duration: i64, sync: bool, tag: u8) -> Packet {
    Packet { data: vec![tag], time, duration, sync }
}

fn times(ps: &[Packet]) -> Vec<(i64, i64, bool, u8)> {
    ps.iter().map(|p| (p.time, p.duration, p.sync, p.data[0])).collect()
}

#[test]
fn streams_are_found_by_kind() {
    let kinds = vec![StreamKind::Video, StreamKind::Audio, StreamKind::Other, StreamKind::Audio];
    assert_eq!(find_stream(&kinds, StreamKind::Video), Some(0));
    assert_eq!(find_stream(&kinds, StreamKind::Audio), Some(1));
    assert_eq!(find_stream(&vec![StreamKind::Other, StreamKind::Audio], StreamKind::Video), None);
    assert_eq!(count_audio_streams(&kinds), 2);
    assert_eq!(nth_audio_stream(&kinds, 0), Some(1));
    assert_eq!(nth_audio_stream(&kinds, 1), Some(3));
    assert_eq!(nth_audio_stream(&kinds, 2), None);
    assert_eq!(count_audio_streams(&vec![]), 0);
}

#[test]
fn audio_layout_by_stream_count() {
    assert_eq!(audio_layout(0), AudioLayout::Silent);
    assert_eq!(audio_layout(1), AudioLayout::Embedded);
    assert_eq!(audio_layout(2), AudioLayout::Split);
    assert_eq!(audio_layout(5), AudioLayout::Split);
}

#[test]
fn video_meta_defaults_and_rounding() {
    let m = video_meta(None, None, None);
    assert_eq!((m.width, m.height, m.fps, m.bitrate), (0, 0, 30, 1_000_000));
    let m = video_meta(Some(pack2(1920, 1080)), Some(pack2(60000, 1001)), Some(8_000_000));
    assert_eq!((m.width, m.height, m.fps, m.bitrate), (1920, 1080, 59, 8_000_000));
    let m = video_meta(None, Some(pack2(60, 0)), Some(500_000));
    assert_eq!((m.fps, m.bitrate), (30, 1_000_000));
    let m = video_meta(None, Some(pack2(1, 2)), None);
    assert_eq!(m.fps, 1);
}

#[test]
fn pcm_format_defaults() {
    let f = pcm_format(None, None);
    assert_eq!((f.sample_rate, f.channels, f.frame_bytes), (48000, 2, 4));
    let f = pcm_format(Some(44100), Some(1));
    assert_eq!((f.sample_rate, f.channels, f.frame_bytes), (44100, 1, 2));
    let f = pcm_format(Some(8000), Some(0));
    assert_eq!((f.channels, f.frame_bytes), (0, 2));
    let f = pcm_format(None, Some(0x1_0006));
    assert_eq!((f.channels, f.frame_bytes), (6, 12));
}

#[test]
fn output_rate_prefers_system_then_mic_then_48k() {
    assert_eq!(output_rate(44100, 48000), 44100);
    assert_eq!(output_rate(22050, 48000), 48000);
    assert_eq!(output_rate(22050, 44100), 44100);
    assert_eq!(output_rate(22050, 16000), 48000);
}

#[test]
fn resampled_frame_counts() {
    assert_eq!(resampled_frames(480, 48000, 48000), Some(480));
    assert_eq!(resampled_frames(441, 44100, 48000), Some(480));
    assert_eq!(resampled_frames(1000, 48000, 44100), Some(918));
    assert_eq!(resampled_frames(10, 0, 1), Some(10));
    assert_eq!(resampled_frames(7, 3, 0), Some(2));
    assert_eq!(resampled_frames(usize::MAX, 44100, 48000), None);
    assert_eq!(resampled_frames(usize::MAX, 48000, 48000), Some(usize::MAX as u64));
}

#[test]
fn frame_index_rounds_to_the_nearest_frame() {
    assert_eq!(frame_index(SECOND, 48000), 48000);
    assert_eq!(frame_index(0, 48000), 0);
    assert_eq!(frame_index(-5 * SECOND, 48000), 0);
    // 0.5 frame rounds up, 0.49 down
    assert_eq!(frame_index(2_500_000, 2), 1);
    assert_eq!(frame_index(2_450_000, 2), 0);
    assert_eq!(frame_index(i64::MAX, u32::MAX), ((2 * (i64::MAX as u128) * (u32::MAX as u128)) + 10_000_000) / 20_000_000);
}

#[test]
fn align_pcm_pads_late_tracks_with_silence() {
    let mut pcm: Vec<u8> = vec![7, 7];
    align_pcm(&mut pcm, SECOND, 2, 4);
    assert_eq!(pcm, vec![7, 7, 0, 0, 0, 0, 0, 0]);
    // already past the sample's position: unchanged
    align_pcm(&mut pcm, 0, 2, 4);
    assert_eq!(pcm.len(), 8);
    align_pcm(&mut pcm, -SECOND, 48000, 4);
    assert_eq!(pcm.len(), 8);
}

#[test]
fn segment_ranges_place_segments_back_to_back() {
    let spans = vec![Span { start: 10, end: 20 }, Span { start: 30, end: 50 }, Span { start: 60, end: 61 }];
    let r = segment_ranges(&spans).unwrap();
    let got: Vec<(i64, i64, i64)> = r.iter().map(|x| (x.start, x.end, x.offset)).collect();
    assert_eq!(got, vec![(10, 20, 10), (30, 50, 20), (60, 61, 30)]);
    assert_eq!(segment_ranges(&vec![]).unwrap().len(), 0);
}

#[test]
fn segment_ranges_refuse_overflowing_spans() {
    let spans = vec![Span { start: i64::MIN, end: i64::MAX }];
    assert!(segment_ranges(&spans).is_none());
}

#[test]
fn cutting_audio_keeps_drops_and_stops() {
    let spans = vec![Span { start: 10, end: 20 }, Span { start: 30, end: 50 }];
    let r = segment_ranges(&spans).unwrap();
    assert_eq!(cut_audio_sample(&r, 0, 5), Some((0, CutStep::Drop)));
    assert_eq!(cut_audio_sample(&r, 0, 10), Some((0, CutStep::Keep(0))));
    assert_eq!(cut_audio_sample(&r, 0, 19), Some((0, CutStep::Keep(9))));
    assert_eq!(cut_audio_sample(&r, 0, 25), Some((1, CutStep::Drop)));
    // gapless: the second segment starts where the first one's 10 ticks end
    assert_eq!(cut_audio_sample(&r, 1, 30), Some((1, CutStep::Keep(10))));
    assert_eq!(cut_audio_sample(&r, 0, 49), Some((1, CutStep::Keep(29))));
    assert_eq!(cut_audio_sample(&r, 1, 50), Some((2, CutStep::Stop)));
}

#[test]
fn cutting_audio_refuses_overflowing_times() {
    let r = vec![SegmentRange { start: 0, end: i64::MAX, offset: -10 }];
    assert_eq!(cut_audio_sample(&r, 0, i64::MAX - 1), None);
    assert_eq!(cut_audio_sample(&r, 0, 5), Some((0, CutStep::Keep(15))));
}

#[test]
fn remixed_chunks_cover_kept_frames_in_sequence() {
    // 100 frames per second: blocks of 2 frames lasting 0.02 s
    let spans = vec![
        Span { start: 0, end: SECOND / 20 },
        Span { start: SECOND, end: SECOND + 3 * SECOND / 100 },
    ];
    let chunks = plan_remix_chunks(1000, 100, &spans).unwrap();
    let got: Vec<(usize, usize, i64, i64)> =
        chunks.iter().map(|c| (c.first_frame, c.frames, c.time, c.duration)).collect();
    assert_eq!(
        got,
        vec![
            (0, 2, 0, 200_000),
            (2, 2, 200_000, 200_000),
            (4, 1, 400_000, 100_000),
            (100, 2, 500_000, 200_000),
            (102, 1, 700_000, 100_000),
        ]
    );
}

#[test]
fn remixed_chunks_stay_inside_the_track() {
    let spans = vec![Span { start: -SECOND, end: 10 * SECOND }, Span { start: 20 * SECOND, end: 30 * SECOND }];
    let chunks = plan_remix_chunks(5, 100, &spans).unwrap();
    let got: Vec<(usize, usize)> = chunks.iter().map(|c| (c.first_frame, c.frames)).collect();
    assert_eq!(got, vec![(0, 2), (2, 2), (4, 1)]);
    assert_eq!(plan_remix_chunks(0, 48000, &spans).unwrap().len(), 0);
}

#[test]
fn remixed_chunks_at_zero_rate_count_one_frame_per_second() {
    let spans = vec![Span { start: 0, end: SECOND }];
    // a zero rate gives frame 0 for every time: nothing to write
    assert_eq!(plan_remix_chunks(10, 0, &spans).unwrap().len(), 0);
}

#[test]
fn plan_range_copies_from_a_key_frame() {
    let keys = vec![0, 2 * SECOND, 4 * SECOND];
    assert_eq!(plan_range(0, SECOND, &keys), RangePlan::Copy { from: 0, to: SECOND });
    // within a millisecond of the key frame
    assert_eq!(plan_range(2 * SECOND + 9_999, 3 * SECOND, &keys), RangePlan::Copy { from: 2 * SECOND, to: 3 * SECOND });
    assert_eq!(plan_range(5, 10, &vec![]), RangePlan::Copy { from: 0, to: 10 });
}

#[test]
fn plan_range_reencodes_a_start_between_key_frames() {
    let keys = vec![0, 2 * SECOND, 4 * SECOND];
    assert_eq!(
        plan_range(SECOND, 3 * SECOND, &keys),
        RangePlan::Reencode { edit_in: SECOND, key_in: 0, next_key: 2 * SECOND, end: 3 * SECOND, copy_tail: true }
    );
    assert_eq!(
        plan_range(2 * SECOND + 10_000, 3 * SECOND, &keys),
        RangePlan::Reencode { edit_in: 2 * SECOND + 10_000, key_in: 2 * SECOND, next_key: 4 * SECOND, end: 3 * SECOND, copy_tail: false }
    );
    // past the last key frame, the segment's end stands in for the next one
    assert_eq!(
        plan_range(5 * SECOND, 6 * SECOND, &keys),
        RangePlan::Reencode { edit_in: 5 * SECOND, key_in: 4 * SECOND, next_key: 6 * SECOND, end: 6 * SECOND, copy_tail: false }
    );
}

#[test]
fn window_steps_and_rebasing() {
    assert_eq!(window_step(5, 10, 20), WindowStep::Skip);
    assert_eq!(window_step(10, 10, 20), WindowStep::Take);
    assert_eq!(window_step(20, 10, 20), WindowStep::Stop);
    assert_eq!(window_step(1_000, 10, 0), WindowStep::Take);
    assert_eq!(rebase(None, 70), (70, 0));
    assert_eq!(rebase(Some(70), 100), (70, 30));
}

#[test]
fn boundary_steps_restamp_from_the_edit_point() {
    assert_eq!(boundary_step(5, 10, 100, 40, false), BoundaryStep::Skip);
    assert_eq!(boundary_step(20, 10, 100, 40, false), BoundaryStep::Skip);
    assert_eq!(boundary_step(45, 10, 100, 40, false), BoundaryStep::Feed(0));
    assert_eq!(boundary_step(60, 10, 100, 40, true), BoundaryStep::Feed(20));
    assert_eq!(boundary_step(100, 10, 100, 40, true), BoundaryStep::Stop);
    // a next key frame not after the start does not stop the reading
    assert_eq!(boundary_step(100, 10, 10, 40, true), BoundaryStep::Feed(60));
}

#[test]
fn boundary_end_of_nothing_is_an_error() {
    assert_eq!(boundary_end(&vec![]), Err(ExportError::EmptyBoundary));
    assert_eq!(boundary_end(&vec![packet(0, 5, true, 1), packet(5, 7, false, 2)]), Ok(12));
}

#[test]
fn shifted_packets_are_appended_in_order() {
    let mut all = vec![packet(0, 10, true, 1)];
    let rest = vec![packet(0, 10, true, 2), packet(10, 10, false, 3)];
    assert!(shift_fits_all(&rest, 10));
    append_shifted(&mut all, rest, 10);
    assert_eq!(times(&all), vec![(0, 10, true, 1), (10, 10, true, 2), (20, 10, false, 3)]);
    assert!(!shift_fits_all(&vec![packet(i64::MAX, 0, false, 0)], 1));
}

#[test]
fn joined_segments_follow_each_other_without_gaps() {
    let parts = vec![
        vec![packet(0, 33, true, 1), packet(33, 33, false, 2)],
        vec![],
        vec![packet(0, 33, true, 3), packet(33, 40, false, 4)],
        vec![packet(0, 1, true, 5)],
    ];
    assert!(joinable(&parts));
    let all = join_segments(parts).unwrap();
    assert_eq!(
        times(&all),
        vec![(0, 33, true, 1), (33, 33, false, 2), (66, 33, true, 3), (99, 40, false, 4), (139, 1, true, 5)]
    );
}

#[test]
fn joining_nothing_is_an_error() {
    assert_eq!(join_segments(vec![]).err(), Some(ExportError::NoSegments));
    assert_eq!(join_segments(vec![vec![], vec![]]).err(), Some(ExportError::NoPackets));
    assert!(!joinable(&vec![vec![packet(0, i64::MAX, true, 0)], vec![packet(1, 0, true, 0)]]));
}

#[test]
fn sequence_header_prefers_the_stored_one() {
    let first: Vec<u8> = vec![0, 0, 1, 0x67, 1, 0, 0, 1, 0x65, 2];
    assert_eq!(sequence_header(Some(vec![9, 9]), Some(&first)), vec![9, 9]);
    assert_eq!(sequence_header(None, Some(&first)), vec![0, 0, 1, 0x67, 1]);
    assert_eq!(sequence_header(None, None), Vec::<u8>::new());
}

#[test]
fn frame_times_are_sorted() {
    assert_eq!(sort_times(vec![0, 666, 333, 1000, 999, 999, -5]), vec![-5, 0, 333, 666, 999, 999, 1000]);
    assert_eq!(sort_times(vec![]), Vec::<i64>::new());
    assert_eq!(sort_times(vec![3, 2, 1]), vec![1, 2, 3]);
}

#[test]
fn key_times_keep_clean_points_in_order() {
    let samples = vec![(0, true), (333, false), (666, false), (1000, true), (900, true)];
    assert_eq!(key_times(&samples), vec![0, 1000, 900]);
    assert_eq!(key_times(&vec![]), Vec::<i64>::new());
}
