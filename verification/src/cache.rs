//! Names of the WAV files the editor caches for a clip's separated audio
//! tracks: a key derived from the clip's full path, rendered in hex.
use vstd::prelude::*;
use std::collections::hash_map::DefaultHasher;
use std::hash::Hasher;
use vstd::std_specs::hash::DefaultHasherAdditionalSpecFns;
use vstd::string::StringSliceAdditionalSpecFns;

verus! {

/// The lowercase hex digit for `d` in `0..16`.
pub open spec fn hex_char(d: int) -> char {
    if d == 0 { '0' }
    else if d == 1 { '1' }
    else if d == 2 { '2' }
    else if d == 3 { '3' }
    else if d == 4 { '4' }
    else if d == 5 { '5' }
    else if d == 6 { '6' }
    else if d == 7 { '7' }
    else if d == 8 { '8' }
    else if d == 9 { '9' }
    else if d == 10 { 'a' }
    else if d == 11 { 'b' }
    else if d == 12 { 'c' }
    else if d == 13 { 'd' }
    else if d == 14 { 'e' }
    else { 'f' }
}

/// The `i`-th hex digit of `h`, most significant first (`i` in `0..16`).
pub open spec fn nibble(h: u64, i: int) -> int {
    ((h >> ((60 - 4 * i) as u64)) & 0xf) as int
}

/// `h` written as exactly 16 lowercase hex digits, most significant first.
pub open spec fn hex16(h: u64) -> Seq<char> {
    Seq::new(16, |i: int| hex_char(nibble(h, i)))
}

fn hex_digit_str(d: u64) -> (s: &'static str)
    requires
        d < 16,
    ensures
        s@ == seq![hex_char(d as int)],
{
    match d {
        0 => { proof { reveal_strlit("0"); } "0" },
        1 => { proof { reveal_strlit("1"); } "1" },
        2 => { proof { reveal_strlit("2"); } "2" },
        3 => { proof { reveal_strlit("3"); } "3" },
        4 => { proof { reveal_strlit("4"); } "4" },
        5 => { proof { reveal_strlit("5"); } "5" },
        6 => { proof { reveal_strlit("6"); } "6" },
        7 => { proof { reveal_strlit("7"); } "7" },
        8 => { proof { reveal_strlit("8"); } "8" },
        9 => { proof { reveal_strlit("9"); } "9" },
        10 => { proof { reveal_strlit("a"); } "a" },
        11 => { proof { reveal_strlit("b"); } "b" },
        12 => { proof { reveal_strlit("c"); } "c" },
        13 => { proof { reveal_strlit("d"); } "d" },
        14 => { proof { reveal_strlit("e"); } "e" },
        _ => { proof { reveal_strlit("f"); } "f" },
    }
}

/// `h` as 16 lowercase hex digits, zero-padded (`{:016x}`).
pub fn hex16_string(h: u64) -> (s: String)
    ensures
        s@ == hex16(h),
{
    let mut s = String::new();
    let mut i: u64 = 0;
    while i < 16
        invariant
            i <= 16,
            s@ == hex16(h).take(i as int),
        decreases 16 - i,
    {
        let shift: u64 = 60 - 4 * i;
        let d: u64 = (h >> shift) & 0xf;
        assert(d < 16) by (bit_vector)
            requires d == (h >> shift) & 0xf;
        assert(d == nibble(h, i as int));
        s.append(hex_digit_str(d));
        assert(hex16(h).take(i + 1) == hex16(h).take(i as int).push(hex_char(d as int)));
        i = i + 1;
    }
    assert(hex16(h).take(16) == hex16(h));
    s
}

/// Two hash values with the same 16-digit rendering are equal.
pub proof fn lemma_hex16_injective(a: u64, b: u64)
    requires
        hex16(a) == hex16(b),
    ensures
        a == b,
{
    assert forall|i: int| 0 <= i < 16 implies nibble(a, i) == nibble(b, i) by {
        assert(hex16(a)[i] == hex16(b)[i]);
        assert(hex16(a)[i] == hex_char(nibble(a, i)));
        assert(hex16(b)[i] == hex_char(nibble(b, i)));
        let x = nibble(a, i);
        let y = nibble(b, i);
        let s: u64 = (60 - 4 * i) as u64;
        assert((a >> s) & 0xf < 16) by (bit_vector);
        assert((b >> s) & 0xf < 16) by (bit_vector);
        assert(0 <= x < 16 && 0 <= y < 16);
        assert(hex_char(x) == hex_char(y));
    }
    assert(nibble(a, 0) == nibble(b, 0));
    assert(nibble(a, 1) == nibble(b, 1));
    assert(nibble(a, 2) == nibble(b, 2));
    assert(nibble(a, 3) == nibble(b, 3));
    assert(nibble(a, 4) == nibble(b, 4));
    assert(nibble(a, 5) == nibble(b, 5));
    assert(nibble(a, 6) == nibble(b, 6));
    assert(nibble(a, 7) == nibble(b, 7));
    assert(nibble(a, 8) == nibble(b, 8));
    assert(nibble(a, 9) == nibble(b, 9));
    assert(nibble(a, 10) == nibble(b, 10));
    assert(nibble(a, 11) == nibble(b, 11));
    assert(nibble(a, 12) == nibble(b, 12));
    assert(nibble(a, 13) == nibble(b, 13));
    assert(nibble(a, 14) == nibble(b, 14));
    assert(nibble(a, 15) == nibble(b, 15));
    assert(a == b) by (bit_vector)
        requires
            (a >> 60u64) & 0xf == (b >> 60u64) & 0xf,
            (a >> 56u64) & 0xf == (b >> 56u64) & 0xf,
            (a >> 52u64) & 0xf == (b >> 52u64) & 0xf,
            (a >> 48u64) & 0xf == (b >> 48u64) & 0xf,
            (a >> 44u64) & 0xf == (b >> 44u64) & 0xf,
            (a >> 40u64) & 0xf == (b >> 40u64) & 0xf,
            (a >> 36u64) & 0xf == (b >> 36u64) & 0xf,
            (a >> 32u64) & 0xf == (b >> 32u64) & 0xf,
            (a >> 28u64) & 0xf == (b >> 28u64) & 0xf,
            (a >> 24u64) & 0xf == (b >> 24u64) & 0xf,
            (a >> 20u64) & 0xf == (b >> 20u64) & 0xf,
            (a >> 16u64) & 0xf == (b >> 16u64) & 0xf,
            (a >> 12u64) & 0xf == (b >> 12u64) & 0xf,
            (a >> 8u64) & 0xf == (b >> 8u64) & 0xf,
            (a >> 4u64) & 0xf == (b >> 4u64) & 0xf,
            (a >> 0u64) & 0xf == (b >> 0u64) & 0xf,
    ;
}

/// The byte writes by which a string is hashed: its UTF-8 bytes, then the
/// terminator byte 0xFF that keeps one string from being a prefix of another.
pub open spec fn str_hash_writes(s: &str) -> Seq<Seq<u8>> {
    seq![s.spec_bytes(), seq![0xffu8]]
}

/// A stable key for a clip, from its full path, so that clips with the same
/// file name in different folders get different cache files: the path
/// hashed with the standard library's default hasher, as 16 hex digits.
pub fn temp_key(path: &str) -> (key: String)
    ensures
        key@ == hex16(DefaultHasher::spec_finish(str_hash_writes(path))),
{
    let mut h = DefaultHasher::new();
    h.write(path.as_bytes());
    let terminator: [u8; 1] = [0xffu8];
    h.write(terminator.as_slice());
    assert(terminator@ == seq![0xffu8]);
    assert(h@ == str_hash_writes(path));
    hex16_string(h.finish())
}

/// Which separated track a cache file holds.
#[derive(PartialEq, Eq, Structural, Clone, Copy, Debug)]
pub enum Track {
    System,
    Mic,
}

/// The file name of a cached track: `flashback_edit_<key>_a2_sys.wav` or
/// `..._a2_mic.wav`. The `a2` marks the extraction format (tracks aligned to
/// the clip's start); files of earlier formats are not reused.
pub open spec fn track_file_name(key: Seq<char>, track: Track) -> Seq<char> {
    "flashback_edit_"@ + key + match track {
        Track::System => "_a2_sys.wav"@,
        Track::Mic => "_a2_mic.wav"@,
    }
}

/// The file name under which a clip's separated track is cached.
pub fn track_file(key: &str, track: Track) -> (name: String)
    ensures
        name@ == track_file_name(key@, track),
{
    let mut name = String::from_str("flashback_edit_");
    name.append(key);
    match track {
        Track::System => name.append("_a2_sys.wav"),
        Track::Mic => name.append("_a2_mic.wav"),
    }
    name
}

/// Distinct keys, or distinct tracks, give distinct file names; so the two
/// tracks of a clip never share a file, nor do clips whose paths hash
/// differently.
pub proof fn lemma_track_files_distinct(h1: u64, h2: u64, t1: Track, t2: Track)
    requires
        h1 != h2 || t1 != t2,
    ensures
        track_file_name(hex16(h1), t1) != track_file_name(hex16(h2), t2),
{
    reveal_strlit("flashback_edit_");
    reveal_strlit("_a2_sys.wav");
    reveal_strlit("_a2_mic.wav");
    let n1 = track_file_name(hex16(h1), t1);
    let n2 = track_file_name(hex16(h2), t2);
    if n1 == n2 {
        if h1 != h2 {
            assert(hex16(h1) == n1.subrange(15, 31));
            assert(hex16(h2) == n2.subrange(15, 31));
            lemma_hex16_injective(h1, h2);
        } else {
            assert(t1 != t2);
            assert(n1[35] == (if t1 == Track::System { 's' } else { 'm' }));
            assert(n2[35] == (if t2 == Track::System { 's' } else { 'm' }));
        }
    }
}

} // verus!
