use std::hash::{Hash, Hasher};

use flashback::cache::{hex16_string, temp_key, track_file, Track};
use flashback::nal::extract_param_sets;
use flashback::thumbnail::{delivered_size, pack, pack_frame, requested_size, target_size, unpack};
use flashback::wav::{peaks_from_pcm, peaks_from_wav, wav_bytes, WAVE_BUCKETS};

fn le_sample(v: i16) -> [u8; 2] {
    v.to_le_bytes()
}

#[test]
fn param_sets_keep_sps_and_pps_with_their_start_codes() {
    let data: Vec<u8> = vec![
        0, 0, 0, 1, 0x67, 0xAA, 0xBB, // SPS, four-byte start code
        0, 0, 1, 0x68, 0xCC, // PPS, three-byte start code
        0, 0, 0, 1, 0x65, 0x11, 0x22, // IDR slice
    ];
    let out = extract_param_sets(&data);
    assert_eq!(out, vec![0, 0, 0, 1, 0x67, 0xAA, 0xBB, 0, 0, 1, 0x68, 0xCC]);
}

#[test]
fn param_sets_of_a_stream_without_any_are_empty() {
    assert_eq!(extract_param_sets(&[]), Vec::<u8>::new());
    assert_eq!(extract_param_sets(&[0, 0, 1, 0x65, 1, 2, 3]), Vec::<u8>::new());
    assert_eq!(extract_param_sets(&[1, 2, 3, 4, 5]), Vec::<u8>::new());
}

#[test]
fn param_sets_stop_at_a_start_code_without_header() {
    // a trailing start code carries no NAL header byte
    let data: Vec<u8> = vec![0, 0, 1, 0x67, 0x42, 0, 0, 1];
    assert_eq!(extract_param_sets(&data), vec![0, 0, 1, 0x67, 0x42]);
}

#[test]
fn param_sets_read_the_type_from_the_low_five_bits() {
    // 0x27 and 0x28 are SPS and PPS with nal_ref_idc 1
    let data: Vec<u8> = vec![0, 0, 1, 0x27, 9, 0, 0, 1, 0x28, 8, 0, 0, 1, 0x21, 7];
    assert_eq!(extract_param_sets(&data), vec![0, 0, 1, 0x27, 9, 0, 0, 1, 0x28, 8]);
}

#[test]
fn param_sets_extracted_twice_are_unchanged() {
    let streams: Vec<Vec<u8>> = vec![
        vec![0, 0, 0, 1, 0x67, 0xAA, 0, 0, 1, 0x68, 0xCC, 0, 0, 0, 1, 0x65, 0x11],
        // a trailing zero before a three-byte start code moves between units
        vec![0, 0, 1, 0x67, 0, 0, 0, 0, 1, 0x68, 5, 0, 0, 1, 0x41, 9],
        vec![7, 0, 0, 1, 0x27, 0, 0, 1, 0x65, 0, 0, 1, 0x28, 0, 0],
        vec![1, 2, 3],
    ];
    for d in streams {
        let once = extract_param_sets(&d);
        assert!(once.len() <= d.len());
        assert_eq!(extract_param_sets(&once), once);
    }
}

#[test]
fn wav_header_layout() {
    let pcm: Vec<u8> = vec![1, 2, 3, 4];
    let file = wav_bytes(&pcm, 48000, 2);
    let mut expected: Vec<u8> = Vec::new();
    expected.extend_from_slice(b"RIFF");
    expected.extend_from_slice(&40u32.to_le_bytes());
    expected.extend_from_slice(b"WAVE");
    expected.extend_from_slice(b"fmt ");
    expected.extend_from_slice(&16u32.to_le_bytes());
    expected.extend_from_slice(&1u16.to_le_bytes());
    expected.extend_from_slice(&2u16.to_le_bytes());
    expected.extend_from_slice(&48000u32.to_le_bytes());
    expected.extend_from_slice(&192000u32.to_le_bytes());
    expected.extend_from_slice(&4u16.to_le_bytes());
    expected.extend_from_slice(&16u16.to_le_bytes());
    expected.extend_from_slice(b"data");
    expected.extend_from_slice(&4u32.to_le_bytes());
    expected.extend_from_slice(&pcm);
    assert_eq!(file.len(), 48);
    assert_eq!(file, expected);
}

#[test]
fn wav_of_no_samples_is_a_bare_header() {
    let file = wav_bytes(&[], 44100, 1);
    assert_eq!(file.len(), 44);
    assert_eq!(&file[4..8], &36u32.to_le_bytes());
    assert_eq!(&file[40..44], &0u32.to_le_bytes());
}

#[test]
fn peaks_take_the_largest_magnitude_per_bucket() {
    let mut pcm: Vec<u8> = Vec::new();
    for v in [100i16, -200, -32768, 5, 7, 7] {
        pcm.extend_from_slice(&le_sample(v));
    }
    let peaks = peaks_from_pcm(&pcm, 2);
    assert_eq!(peaks.len(), WAVE_BUCKETS);
    assert_eq!(&peaks[..4], &[200, 32768, 7, 0]);
    assert!(peaks[3..].iter().all(|p| *p == 0));
}

#[test]
fn peaks_of_too_little_audio_are_all_zero() {
    assert_eq!(peaks_from_pcm(&[], 2), vec![0u32; WAVE_BUCKETS]);
    // three bytes hold no whole stereo frame
    assert_eq!(peaks_from_pcm(&[1, 2, 3], 2), vec![0u32; WAVE_BUCKETS]);
}

#[test]
fn peaks_read_zero_channels_as_mono() {
    let mut pcm: Vec<u8> = Vec::new();
    for v in [-3i16, 9] {
        pcm.extend_from_slice(&le_sample(v));
    }
    let peaks = peaks_from_pcm(&pcm, 0);
    assert_eq!(&peaks[..3], &[3, 9, 0]);
}

#[test]
fn peaks_share_frames_evenly_between_buckets() {
    // 3200 mono frames: two per bucket; frame k holds k % 1000
    let mut pcm: Vec<u8> = Vec::new();
    for k in 0..3200i16 {
        pcm.extend_from_slice(&le_sample(k % 1000));
    }
    let peaks = peaks_from_pcm(&pcm, 1);
    for b in 0..WAVE_BUCKETS {
        let expected = std::cmp::max((2 * b) % 1000, (2 * b + 1) % 1000) as u32;
        assert_eq!(peaks[b], expected, "bucket {b}");
    }
}

#[test]
fn peaks_probe_long_buckets_with_a_stride() {
    // 1600 * 200 mono frames: buckets of 200 frames probed every 2 frames,
    // so odd frames are never read
    let frames = 1600 * 200;
    let mut pcm: Vec<u8> = Vec::with_capacity(frames * 2);
    for k in 0..frames {
        let v: i16 = if k % 2 == 1 { 30000 } else { (k / 200) as i16 % 100 };
        pcm.extend_from_slice(&le_sample(v));
    }
    let peaks = peaks_from_pcm(&pcm, 1);
    for b in 0..WAVE_BUCKETS {
        assert_eq!(peaks[b], (b % 100) as u32, "bucket {b}");
    }
}

#[test]
fn wav_round_trip_gives_back_the_envelope() {
    let mut pcm: Vec<u8> = Vec::new();
    for v in [1i16, -2, 300, -400, 5000, -6000, 7, 8] {
        pcm.extend_from_slice(&le_sample(v));
    }
    let file = wav_bytes(&pcm, 44100, 2);
    assert_eq!(peaks_from_wav(&file), Some(peaks_from_pcm(&pcm, 2)));
}

#[test]
fn peaks_from_a_file_shorter_than_a_header_are_none() {
    assert_eq!(peaks_from_wav(&[0u8; 43]), None);
    assert_eq!(peaks_from_wav(&[0u8; 44]), Some(vec![0u32; WAVE_BUCKETS]));
}

#[test]
fn pack_and_unpack_are_inverse() {
    assert_eq!(pack(1280, 720), (1280u64 << 32) | 720);
    assert_eq!(unpack(pack(1280, 720)), (1280, 720));
    assert_eq!(unpack(0xFFFF_FFFF_0000_0001), (0xFFFF_FFFF, 1));
    assert_eq!(pack(0xFFFF_FFFF, 1), 0xFFFF_FFFF_0000_0001);
}

#[test]
fn target_size_keeps_aspect_and_even_sides() {
    assert_eq!(target_size(1920, 1080, 320), (320, 180));
    assert_eq!(target_size(1281, 721, 2000), (1280, 720));
    assert_eq!(target_size(100, 1, 50), (50, 2));
    assert_eq!(target_size(333, 500, 333), (332, 500));
}

#[test]
fn requested_and_delivered_sizes_fall_back() {
    assert_eq!(requested_size(None, 320), (320, 180));
    assert_eq!(requested_size(Some(pack(0, 0)), 320), (0, 2));
    assert_eq!(requested_size(Some(pack(1920, 1080)), 480), (480, 270));
    assert_eq!(delivered_size(None, (320, 180)), (320, 180));
    assert_eq!(delivered_size(Some(pack(0, 0)), (320, 180)), (1, 1));
    assert_eq!(delivered_size(Some(pack(640, 360)), (320, 180)), (640, 360));
}

#[test]
fn pack_frame_drops_row_padding() {
    // 2 x 2 pixels, rows 12 bytes apart (4 bytes of padding)
    let src: Vec<u8> = (0u8..24).collect();
    let packed = pack_frame(&src, 2, 2, 12).unwrap();
    let mut expected: Vec<u8> = (0u8..8).collect();
    expected.extend(12u8..20);
    assert_eq!(packed, expected);
}

#[test]
fn pack_frame_flips_bottom_up_frames() {
    let src: Vec<u8> = (0u8..24).collect();
    let packed = pack_frame(&src, 2, 2, -12).unwrap();
    let mut expected: Vec<u8> = (12u8..20).collect();
    expected.extend(0u8..8);
    assert_eq!(packed, expected);
}

#[test]
fn pack_frame_derives_the_stride_from_the_buffer() {
    // no default stride: 30 bytes over 2 rows gives 15-byte rows
    let src: Vec<u8> = (0u8..30).collect();
    let packed = pack_frame(&src, 2, 2, 0).unwrap();
    let mut expected: Vec<u8> = (0u8..8).collect();
    expected.extend(15u8..23);
    assert_eq!(packed, expected);
}

#[test]
fn pack_frame_blacks_out_rows_past_the_buffer() {
    let src: Vec<u8> = (1u8..=10).collect();
    let packed = pack_frame(&src, 2, 2, 8).unwrap();
    let mut expected: Vec<u8> = (1u8..=8).collect();
    expected.extend([0u8; 8]);
    assert_eq!(packed, expected);
}

#[test]
fn pack_frame_refuses_sizes_beyond_machine_arithmetic() {
    assert_eq!(pack_frame(&[], u32::MAX, 1, 0), None);
    assert_eq!(pack_frame(&[], 0x4000_0000, 1, 0), None);
}

#[test]
fn hex_key_is_sixteen_lowercase_digits() {
    assert_eq!(hex16_string(0), "0000000000000000");
    assert_eq!(hex16_string(0x1234_abcd), "000000001234abcd");
    assert_eq!(hex16_string(u64::MAX), "ffffffffffffffff");
    assert_eq!(hex16_string(0xdead_beef_0000_0001), format!("{:016x}", 0xdead_beef_0000_0001u64));
}

#[test]
fn temp_key_is_the_default_hash_of_the_path() {
    for path in ["C:\\clips\\a.mp4", "D:\\other\\a.mp4", "", "ñandú.mp4"] {
        let mut h = std::collections::hash_map::DefaultHasher::new();
        path.hash(&mut h);
        assert_eq!(temp_key(path), format!("{:016x}", h.finish()));
    }
    assert_ne!(temp_key("C:\\clips\\a.mp4"), temp_key("D:\\other\\a.mp4"));
}

#[test]
fn track_files_are_named_by_key_and_track() {
    assert_eq!(track_file("00ff", Track::System), "flashback_edit_00ff_a2_sys.wav");
    assert_eq!(track_file("00ff", Track::Mic), "flashback_edit_00ff_a2_mic.wav");
    let key = hex16_string(7);
    assert_ne!(track_file(&key, Track::System), track_file(&key, Track::Mic));
}
