//! H.264 Annex B byte streams: locating start codes and picking out the
//! parameter sets (SPS and PPS) that an MP4 sample description needs.
use vstd::prelude::*;

verus! {

/// A three-byte start code `00 00 01` begins at `i`.
pub open spec fn is_start_code(d: Seq<u8>, i: int) -> bool {
    &&& 0 <= i
    &&& i + 3 <= d.len()
    &&& d[i] == 0
    &&& d[i + 1] == 0
    &&& d[i + 2] == 1
}

/// The positions of the start codes found by a left-to-right scan from `i`
/// that resumes right after each start code it finds.
pub open spec fn scan_start_codes(d: Seq<u8>, i: int) -> Seq<int>
    decreases d.len() - i,
{
    if i < 0 || i + 3 > d.len() {
        Seq::empty()
    } else if is_start_code(d, i) {
        seq![i].add(scan_start_codes(d, i + 3))
    } else {
        scan_start_codes(d, i + 1)
    }
}

/// All start codes of the stream, in increasing order.
pub open spec fn start_codes(d: Seq<u8>) -> Seq<int> {
    scan_start_codes(d, 0)
}

/// The NAL unit type carried in the low five bits of a NAL header byte.
pub open spec fn nal_type(header: u8) -> int {
    (header % 32) as int
}

/// NAL unit types 7 (sequence parameter set) and 8 (picture parameter set).
pub open spec fn is_parameter_set(header: u8) -> bool {
    nal_type(header) == 7 || nal_type(header) == 8
}

/// Where the unit introduced by the start code at `s` begins: one byte
/// earlier when that byte is a zero (a four-byte start code).
pub open spec fn unit_begin(d: Seq<u8>, s: int) -> int {
    if s > 0 && d[s - 1] == 0 { s - 1 } else { s }
}

/// Where the unit of the `k`-th start code ends: where the next unit begins,
/// or at the end of the stream.
pub open spec fn unit_end(d: Seq<u8>, st: Seq<int>, k: int) -> int {
    if k + 1 < st.len() {
        unit_begin(d, st[k + 1])
    } else {
        d.len() as int
    }
}

/// The parameter-set units from the `k`-th start code on, each with its own
/// start code, in stream order. A start code with no header byte after it
/// ends the stream.
pub open spec fn parameter_sets_from(d: Seq<u8>, st: Seq<int>, k: int) -> Seq<u8>
    decreases st.len() - k,
{
    if k < 0 || k >= st.len() {
        Seq::empty()
    } else if st[k] + 3 >= d.len() {
        Seq::empty()
    } else if is_parameter_set(d[st[k] + 3]) {
        d.subrange(unit_begin(d, st[k]), unit_end(d, st, k)).add(parameter_sets_from(d, st, k + 1))
    } else {
        parameter_sets_from(d, st, k + 1)
    }
}

/// The SPS and PPS units of an Annex B stream, start codes included.
pub open spec fn parameter_sets(d: Seq<u8>) -> Seq<u8> {
    parameter_sets_from(d, start_codes(d), 0)
}

/// The scan from `i` lists start codes only, at or after `i`, each at
/// least three bytes after the one before.
pub proof fn lemma_scan_well_spaced(d: Seq<u8>, i: int)
    requires
        0 <= i,
    ensures
        forall|k: int|
            0 <= k < scan_start_codes(d, i).len() ==> is_start_code(
                d,
                #[trigger] scan_start_codes(d, i)[k],
            ) && scan_start_codes(d, i)[k] >= i,
        forall|k: int|
            0 <= k < scan_start_codes(d, i).len() - 1 ==> #[trigger] scan_start_codes(d, i)[k] + 3
                <= scan_start_codes(d, i)[k + 1],
    decreases d.len() - i,
{
    if i + 3 > d.len() {
        assert(scan_start_codes(d, i).len() == 0);
    } else if is_start_code(d, i) {
        lemma_scan_well_spaced(d, i + 3);
        let rest = scan_start_codes(d, i + 3);
        assert(scan_start_codes(d, i) == seq![i].add(rest));
        assert forall|k: int| 0 <= k < scan_start_codes(d, i).len() - 1 implies
            #[trigger] scan_start_codes(d, i)[k] + 3 <= scan_start_codes(d, i)[k + 1] by {
            if k > 0 {
                assert(scan_start_codes(d, i)[k] == rest[k - 1]);
                assert(scan_start_codes(d, i)[k + 1] == rest[k]);
            } else {
                assert(scan_start_codes(d, i)[k + 1] == rest[0]);
                assert(is_start_code(d, rest[0]));
            }
        }
        assert forall|k: int| 0 <= k < scan_start_codes(d, i).len() implies is_start_code(
            d,
            #[trigger] scan_start_codes(d, i)[k],
        ) && scan_start_codes(d, i)[k] >= i by {
            if k > 0 {
                assert(scan_start_codes(d, i)[k] == rest[k - 1]);
                assert(is_start_code(d, rest[k - 1]));
            }
        }
    } else {
        lemma_scan_well_spaced(d, i + 1);
        assert(scan_start_codes(d, i) == scan_start_codes(d, i + 1));
        assert forall|k: int| 0 <= k < scan_start_codes(d, i).len() implies is_start_code(
            d,
            #[trigger] scan_start_codes(d, i)[k],
        ) && scan_start_codes(d, i)[k] >= i by {
            assert(is_start_code(d, scan_start_codes(d, i + 1)[k]));
        }
    }
}

/// Every start code at or after `i` is listed by the scan from `i`:
/// two start codes cannot overlap, so resuming three bytes later skips none.
pub proof fn lemma_scan_complete(d: Seq<u8>, i: int, j: int)
    requires
        0 <= i <= j,
        is_start_code(d, j),
    ensures
        scan_start_codes(d, i).contains(j),
    decreases d.len() - i,
{
    if i == j {
        assert(scan_start_codes(d, i)[0] == j);
    } else if is_start_code(d, i) {
        // a start code ends in 01, so the next one begins at i + 3 or later
        assert(j >= i + 3);
        lemma_scan_complete(d, i + 3, j);
        let rest = scan_start_codes(d, i + 3);
        let k = choose|k: int| 0 <= k < rest.len() && rest[k] == j;
        assert(scan_start_codes(d, i)[k + 1] == j);
    } else {
        lemma_scan_complete(d, i + 1, j);
    }
}

/// The positions listed as start codes are exactly the start codes of the
/// stream, in strictly increasing order.
pub proof fn lemma_start_codes_exact(d: Seq<u8>)
    ensures
        forall|j: int| #[trigger] is_start_code(d, j) <==> start_codes(d).contains(j),
        forall|k: int, l: int|
            0 <= k < l < start_codes(d).len() ==> start_codes(d)[k] < start_codes(d)[l],
{
    lemma_scan_well_spaced(d, 0);
    assert forall|j: int| #[trigger] is_start_code(d, j) <==> start_codes(d).contains(j) by {
        if is_start_code(d, j) {
            lemma_scan_complete(d, 0, j);
        }
        if start_codes(d).contains(j) {
            let k = choose|k: int| 0 <= k < start_codes(d).len() && start_codes(d)[k] == j;
            assert(is_start_code(d, start_codes(d)[k]));
        }
    }
    assert forall|k: int, l: int| 0 <= k < l < start_codes(d).len() implies start_codes(d)[k]
        < start_codes(d)[l] by {
        lemma_increasing(start_codes(d), k, l);
    }
}

proof fn lemma_increasing(s: Seq<int>, k: int, l: int)
    requires
        0 <= k < l < s.len(),
        forall|m: int| 0 <= m < s.len() - 1 ==> #[trigger] s[m] + 3 <= s[m + 1],
    ensures
        s[k] < s[l],
    decreases l - k,
{
    if l > k + 1 {
        lemma_increasing(s, k, l - 1);
        assert(s[l - 1] + 3 <= s[l]);
    } else {
        assert(s[k] + 3 <= s[k + 1]);
    }
}

fn find_start_codes(data: &[u8]) -> (starts: Vec<usize>)
    ensures
        starts@.len() == start_codes(data@).len(),
        forall|k: int| 0 <= k < starts@.len() ==> starts@[k] as int == #[trigger] start_codes(data@)[k],
{
    let mut starts: Vec<usize> = Vec::new();
    let mut i: usize = 0;
    let ghost d = data@;
    while i <= data.len() && data.len() - i >= 3
        invariant
            d == data@,
            i <= data.len(),
            starts@.map_values(|s: usize| s as int).add(scan_start_codes(d, i as int))
                == start_codes(d),
        decreases data.len() - i,
    {
        if data[i] == 0 && data[i + 1] == 0 && data[i + 2] == 1 {
            let ghost before = starts@;
            starts.push(i);
            assert(starts@.map_values(|s: usize| s as int) == before.map_values(|s: usize| s as int).push(i as int));
            assert(scan_start_codes(d, i as int) == seq![i as int].add(scan_start_codes(d, i + 3)));
            assert(starts@.map_values(|s: usize| s as int).add(scan_start_codes(d, i + 3))
                == before.map_values(|s: usize| s as int).add(scan_start_codes(d, i as int)));
            i = i + 3;
        } else {
            i = i + 1;
        }
    }
    assert(scan_start_codes(d, i as int) == Seq::<int>::empty());
    assert(starts@.map_values(|s: usize| s as int).add(Seq::<int>::empty())
        == starts@.map_values(|s: usize| s as int));
    assert forall|k: int| 0 <= k < starts@.len() implies starts@[k] as int
        == #[trigger] start_codes(data@)[k] by {
        assert(starts@.map_values(|s: usize| s as int)[k] == starts@[k] as int);
    }
    starts
}

/// Copies the SPS and PPS units out of an Annex B H.264 access unit (the
/// data of a key frame), each with the start code that introduces it, in
/// stream order. An MP4 writer builds the decoder configuration from them
/// when the source format carries no sequence header of its own.
pub fn extract_param_sets(data: &[u8]) -> (out: Vec<u8>)
    ensures
        out@ == parameter_sets(data@),
        forall|p: int|
            #[trigger] is_start_code(out@, p) ==> p + 3 < out@.len() && (out@[p + 3] % 32 == 7 || out@[p
                + 3] % 32 == 8),
        out@.len() <= data@.len(),
{
    proof {
        lemma_parameter_sets_content(data@);
        lemma_parameter_sets_shorter(data@);
    }
    let ghost d = data@;
    let starts = find_start_codes(data);
    let ghost st = start_codes(d);
    proof {
        lemma_scan_well_spaced(d, 0);
    }
    let mut out: Vec<u8> = Vec::new();
    let mut idx: usize = 0;
    while idx < starts.len()
        invariant
            d == data@,
            st == start_codes(d),
            starts@.len() == st.len(),
            forall|k: int| 0 <= k < starts@.len() ==> starts@[k] as int == #[trigger] st[k],
            forall|k: int| 0 <= k < st.len() ==> #[trigger] is_start_code(d, st[k]),
            forall|k: int| 0 <= k < st.len() - 1 ==> #[trigger] st[k] + 3 <= st[k + 1],
            idx <= starts@.len(),
            out@.add(parameter_sets_from(d, st, idx as int)) == parameter_sets(d),
        decreases starts.len() - idx,
    {
        let s = starts[idx];
        assert(is_start_code(d, st[idx as int]));
        assert(s as int == st[idx as int]);
        assert(s + 3 <= data.len());
        let header_pos = s + 3;
        if header_pos >= data.len() {
            assert(parameter_sets_from(d, st, idx as int) == Seq::<u8>::empty());
            assert(out@.add(Seq::<u8>::empty()) == out@);
            idx = starts.len();
        } else {
        let sc_start = if s > 0 && data[s - 1] == 0 {
            s - 1
        } else {
            s
        };
        let end = if idx + 1 < starts.len() {
            let ns = starts[idx + 1];
            assert(st[idx as int] + 3 <= st[idx + 1]);
            assert(is_start_code(d, st[idx + 1]));
            if ns > 0 && data[ns - 1] == 0 {
                ns - 1
            } else {
                ns
            }
        } else {
            data.len()
        };
        assert(sc_start as int == unit_begin(d, st[idx as int]));
        assert(end as int == unit_end(d, st, idx as int));
        let header = data[header_pos];
        let nal = header & 0x1F;
        assert(header & 0x1F == header % 32) by (bit_vector);
        if nal == 7 || nal == 8 {
            let ghost before = out@;
            let mut j: usize = sc_start;
            while j < end
                invariant
                    d == data@,
                    sc_start <= j <= end <= data.len(),
                    out@ == before.add(d.subrange(sc_start as int, j as int)),
                decreases end - j,
            {
                out.push(data[j]);
                assert(d.subrange(sc_start as int, j + 1) == d.subrange(sc_start as int, j as int).push(
                    d[j as int],
                ));
                j = j + 1;
            }
            assert(parameter_sets_from(d, st, idx as int) == d.subrange(sc_start as int, end as int).add(
                parameter_sets_from(d, st, idx + 1),
            ));
            assert(before.add(d.subrange(sc_start as int, end as int)).add(
                parameter_sets_from(d, st, idx + 1),
            ) == before.add(parameter_sets_from(d, st, idx as int)));
        } else {
            assert(!is_parameter_set(header));
        }
        idx = idx + 1;
        }
    }
    assert(parameter_sets_from(d, st, idx as int) == Seq::<u8>::empty());
    assert(out@.add(Seq::<u8>::empty()) == out@);
    out
}

/// `x` begins with a start code, three bytes or four: `00 00 01` or `00 00 00 01`.
pub open spec fn starts_with_start_code(x: Seq<u8>) -> bool {
    &&& x.len() >= 4
    &&& x[0] == 0
    &&& x[1] == 0
    &&& (x[2] == 1 || (x[2] == 0 && x[3] == 1))
}

/// Every start code of `x` is followed by the header of a parameter set.
pub open spec fn codes_head_parameter_sets(x: Seq<u8>) -> bool {
    forall|p: int|
        #[trigger] is_start_code(x, p) ==> p + 3 < x.len() && is_parameter_set(x[p + 3])
}

/// Where the unit of the `k`-th start code begins, or the stream's end
/// past the last one.
pub open spec fn begin_at(d: Seq<u8>, st: Seq<int>, k: int) -> int {
    if 0 <= k < st.len() { unit_begin(d, st[k]) } else { d.len() as int }
}

proof fn lemma_start_code_facts(d: Seq<u8>)
    ensures
        forall|k: int| 0 <= k < start_codes(d).len() ==> is_start_code(d, #[trigger] start_codes(d)[k]),
        forall|k: int|
            0 <= k < start_codes(d).len() - 1 ==> #[trigger] start_codes(d)[k] + 3 <= start_codes(d)[k + 1],
        forall|j: int| #[trigger] is_start_code(d, j) <==> start_codes(d).contains(j),
        forall|k: int, l: int|
            0 <= k < l < start_codes(d).len() ==> start_codes(d)[k] < start_codes(d)[l],
{
    lemma_scan_well_spaced(d, 0);
    lemma_start_codes_exact(d);
}

proof fn lemma_begin_at_grows(d: Seq<u8>, k: int)
    requires
        0 <= k < start_codes(d).len(),
    ensures
        0 <= begin_at(d, start_codes(d), k) <= start_codes(d)[k],
        start_codes(d)[k] + 2 <= begin_at(d, start_codes(d), k + 1) <= d.len(),
        unit_end(d, start_codes(d), k) == begin_at(d, start_codes(d), k + 1),
{
    lemma_start_code_facts(d);
    let st = start_codes(d);
    assert(is_start_code(d, st[k]));
    if k + 1 < st.len() {
        assert(st[k] + 3 <= st[k + 1]);
        assert(is_start_code(d, st[k + 1]));
    }
}

/// The unit of an emitted start code: it begins with its start code, holds
/// its header byte, and contains no other start code.
proof fn lemma_unit_shape(d: Seq<u8>, k: int)
    requires
        0 <= k < start_codes(d).len(),
        start_codes(d)[k] + 3 < d.len(),
        is_parameter_set(d[start_codes(d)[k] + 3]),
    ensures
        ({
            let st = start_codes(d);
            let b = unit_begin(d, st[k]);
            let e = unit_end(d, st, k);
            let c = d.subrange(b, e);
            &&& 0 <= b <= st[k] <= b + 1
            &&& st[k] + 4 <= e <= d.len()
            &&& starts_with_start_code(c)
            &&& codes_head_parameter_sets(c)
        }),
{
    lemma_start_code_facts(d);
    let st = start_codes(d);
    let s = st[k];
    assert(is_start_code(d, s));
    let b = unit_begin(d, s);
    let e = unit_end(d, st, k);
    let h = d[s + 3];
    assert(h != 0);
    if k + 1 < st.len() {
        let ns = st[k + 1];
        assert(s + 3 <= ns);
        assert(is_start_code(d, ns));
        assert(ns != s + 3);
        if ns == s + 4 {
            assert(d[ns - 1] == h);
        }
    }
    let c = d.subrange(b, e);
    assert(c.len() == e - b);
    assert forall|p: int| #[trigger] is_start_code(c, p) implies p + 3 < c.len() && is_parameter_set(c[p + 3]) by {
        assert(c[p] == d[b + p] && c[p + 1] == d[b + p + 1] && c[p + 2] == d[b + p + 2]);
        assert(is_start_code(d, b + p));
        assert(st.contains(b + p));
        let m = choose|m: int| 0 <= m < st.len() && st[m] == b + p;
        if b + p != s {
            if b + p < s {
                assert(b + p == s - 1);
                assert(d[s + 1] == 0);
            } else {
                if m <= k {
                    if m < k {
                        assert(st[m] < st[k]);
                    }
                }
                assert(m > k);
                assert(k + 1 < st.len());
                if m > k + 1 {
                    assert(st[k + 1] < st[m]);
                }
                assert(st[k + 1] <= st[m]);
                assert(e <= st[k + 1]);
            }
        }
        assert(p == s - b);
        assert(c[p + 3] == d[s + 3]);
    }
}

proof fn lemma_concat_keeps_shape(c: Seq<u8>, y: Seq<u8>)
    requires
        starts_with_start_code(c),
        codes_head_parameter_sets(c),
        y.len() == 0 || starts_with_start_code(y),
        codes_head_parameter_sets(y),
    ensures
        starts_with_start_code(c + y),
        codes_head_parameter_sets(c + y),
{
    let x = c + y;
    assert(x[0] == c[0] && x[1] == c[1] && x[2] == c[2] && x[3] == c[3]);
    assert forall|p: int| #[trigger] is_start_code(x, p) implies p + 3 < x.len() && is_parameter_set(x[p + 3]) by {
        if p >= c.len() {
            let q = p - c.len();
            assert(y[q] == x[p] && y[q + 1] == x[p + 1] && y[q + 2] == x[p + 2]);
            assert(is_start_code(y, q));
            assert(y[q + 3] == x[p + 3]);
        } else if p + 3 <= c.len() {
            assert(c[p] == x[p] && c[p + 1] == x[p + 1] && c[p + 2] == x[p + 2]);
            assert(is_start_code(c, p));
            assert(c[p + 3] == x[p + 3]);
        } else {
            assert(y.len() > 0);
            if p + 2 == c.len() {
                assert(x[p + 2] == y[0]);
            } else {
                assert(p + 1 == c.len());
                assert(x[p + 2] == y[1]);
            }
        }
    }
}

proof fn lemma_parameter_sets_from_shape(d: Seq<u8>, k: int)
    requires
        0 <= k <= start_codes(d).len(),
    ensures
        ({
            let x = parameter_sets_from(d, start_codes(d), k);
            &&& x.len() == 0 || starts_with_start_code(x)
            &&& codes_head_parameter_sets(x)
            &&& x.len() <= d.len() - begin_at(d, start_codes(d), k)
        }),
    decreases start_codes(d).len() - k,
{
    let st = start_codes(d);
    let x = parameter_sets_from(d, st, k);
    if k == st.len() {
        assert(x.len() == 0);
    } else {
        lemma_begin_at_grows(d, k);
        lemma_parameter_sets_from_shape(d, k + 1);
        let y = parameter_sets_from(d, st, k + 1);
        if st[k] + 3 >= d.len() {
            assert(x.len() == 0);
        } else if is_parameter_set(d[st[k] + 3]) {
            lemma_unit_shape(d, k);
            let c = d.subrange(unit_begin(d, st[k]), unit_end(d, st, k));
            assert(x == c + y);
            lemma_concat_keeps_shape(c, y);
        } else {
            assert(x == y);
        }
    }
}

/// Parameter sets never take more room than the stream they come from.
pub proof fn lemma_parameter_sets_shorter(d: Seq<u8>)
    ensures
        parameter_sets(d).len() <= d.len(),
{
    lemma_parameter_sets_from_shape(d, 0);
    if start_codes(d).len() > 0 {
        lemma_begin_at_grows(d, 0);
    }
}

proof fn lemma_whole_stream_from(x: Seq<u8>, m: int)
    requires
        codes_head_parameter_sets(x),
        0 <= m < start_codes(x).len(),
    ensures
        parameter_sets_from(x, start_codes(x), m) == x.subrange(begin_at(x, start_codes(x), m), x.len() as int),
    decreases start_codes(x).len() - m,
{
    lemma_start_code_facts(x);
    lemma_begin_at_grows(x, m);
    let st = start_codes(x);
    assert(is_start_code(x, st[m]));
    let b = begin_at(x, st, m);
    let b1 = begin_at(x, st, m + 1);
    assert(st[m] + 3 < x.len() && is_parameter_set(x[st[m] + 3]));
    assert(parameter_sets_from(x, st, m) == x.subrange(b, b1) + parameter_sets_from(x, st, m + 1));
    if m + 1 < st.len() {
        lemma_whole_stream_from(x, m + 1);
        assert(x.subrange(b, b1) + x.subrange(b1, x.len() as int) == x.subrange(b, x.len() as int));
    } else {
        assert(parameter_sets_from(x, st, m + 1) == Seq::<u8>::empty());
        assert(x.subrange(b, b1) + Seq::<u8>::empty() == x.subrange(b, x.len() as int));
    }
}

/// A stream made only of parameter-set units, beginning with a start code,
/// is its own parameter sets.
proof fn lemma_parameter_sets_fixed(x: Seq<u8>)
    requires
        x.len() == 0 || starts_with_start_code(x),
        codes_head_parameter_sets(x),
    ensures
        parameter_sets(x) == x,
{
    lemma_start_code_facts(x);
    let st = start_codes(x);
    if x.len() == 0 {
        assert(st.len() == 0);
    } else {
        let first = if x[2] == 1 { 0int } else { 1int };
        assert(is_start_code(x, first));
        assert(st.contains(first));
        let m = choose|m: int| 0 <= m < st.len() && st[m] == first;
        assert(is_start_code(x, st[0]));
        if m > 0 {
            assert(st[0] < st[m]);
        }
        assert(st[0] == first) by {
            if first == 1 {
                assert(!is_start_code(x, 0));
            }
        }
        assert(unit_begin(x, st[0]) == 0);
        lemma_whole_stream_from(x, 0);
        assert(x.subrange(0, x.len() as int) == x);
    }
}

/// Extracting parameter sets twice gives what extracting them once gave:
/// the extracted units still begin with their start codes and hold nothing
/// but SPS and PPS.
pub proof fn lemma_parameter_sets_idempotent(d: Seq<u8>)
    ensures
        parameter_sets(parameter_sets(d)) == parameter_sets(d),
{
    lemma_parameter_sets_from_shape(d, 0);
    lemma_parameter_sets_fixed(parameter_sets(d));
}

proof fn lemma_unit_appears(d: Seq<u8>, k: int, m: int)
    requires
        0 <= k <= m < start_codes(d).len(),
        start_codes(d)[m] + 3 < d.len(),
        is_parameter_set(d[start_codes(d)[m] + 3]),
    ensures
        ({
            let st = start_codes(d);
            let x = parameter_sets_from(d, st, k);
            let e = unit_end(d, st, m);
            exists|p: int|
                #[trigger] is_start_code(x, p) && p + (e - st[m]) <= x.len() && x.subrange(p, p + (e - st[m]))
                    == d.subrange(st[m], e)
        }),
    decreases m - k,
{
    lemma_start_code_facts(d);
    let st = start_codes(d);
    let x = parameter_sets_from(d, st, k);
    let e = unit_end(d, st, m);
    let y = parameter_sets_from(d, st, k + 1);
    if k < m {
        assert(st[k] < st[m]);
        lemma_unit_appears(d, k + 1, m);
        let q = choose|q: int|
            #[trigger] is_start_code(y, q) && q + (e - st[m]) <= y.len() && y.subrange(q, q + (e - st[m]))
                == d.subrange(st[m], e);
        if is_parameter_set(d[st[k] + 3]) {
            let c = d.subrange(unit_begin(d, st[k]), unit_end(d, st, k));
            assert(x == c + y);
            let p = c.len() + q;
            assert(x[p] == y[q] && x[p + 1] == y[q + 1] && x[p + 2] == y[q + 2]);
            assert(is_start_code(x, p));
            assert(x.subrange(p, p + (e - st[m])) == y.subrange(q, q + (e - st[m])));
        } else {
            assert(x == y);
            assert(is_start_code(x, q));
        }
    } else {
        lemma_unit_shape(d, m);
        let b = unit_begin(d, st[m]);
        let c = d.subrange(b, e);
        assert(x == c + y);
        let p = st[m] - b;
        assert(is_start_code(d, st[m]));
        assert(x[p] == d[st[m]] && x[p + 1] == d[st[m] + 1] && x[p + 2] == d[st[m] + 2]);
        assert(is_start_code(x, p));
        assert(x.subrange(p, p + (e - st[m])) == d.subrange(st[m], e));
    }
}

/// What extraction keeps, stated with the NAL types themselves: every start
/// code of the result introduces a unit of type 7 (SPS) or 8 (PPS), and every
/// unit of the input of type 7 or 8 appears in the result, start code,
/// header and body, up to where the next unit begins.
pub proof fn lemma_parameter_sets_content(d: Seq<u8>)
    ensures
        forall|p: int|
            #[trigger] is_start_code(parameter_sets(d), p) ==> p + 3 < parameter_sets(d).len() && (
            parameter_sets(d)[p + 3] % 32 == 7 || parameter_sets(d)[p + 3] % 32 == 8),
        forall|k: int|
            0 <= k < start_codes(d).len() && start_codes(d)[k] + 3 < d.len() && (d[start_codes(d)[k]
                + 3] % 32 == 7 || d[start_codes(d)[k] + 3] % 32 == 8) ==> exists|p: int|
                #[trigger] is_start_code(parameter_sets(d), p) && p + (unit_end(d, start_codes(d), k)
                    - start_codes(d)[k]) <= parameter_sets(d).len() && parameter_sets(d).subrange(
                    p,
                    p + (unit_end(d, start_codes(d), k) - start_codes(d)[k]),
                ) == d.subrange(#[trigger] start_codes(d)[k], unit_end(d, start_codes(d), k)),
{
    lemma_parameter_sets_from_shape(d, 0);
    let x = parameter_sets(d);
    assert forall|p: int| #[trigger] is_start_code(x, p) implies p + 3 < x.len() && (x[p + 3] % 32 == 7
        || x[p + 3] % 32 == 8) by {
        assert(is_parameter_set(x[p + 3]));
    }
    assert forall|k: int|
        0 <= k < start_codes(d).len() && start_codes(d)[k] + 3 < d.len() && (d[start_codes(d)[k] + 3]
            % 32 == 7 || d[start_codes(d)[k] + 3] % 32 == 8) implies exists|p: int|
        #[trigger] is_start_code(x, p) && p + (unit_end(d, start_codes(d), k) - start_codes(d)[k]) <= x.len()
            && x.subrange(p, p + (unit_end(d, start_codes(d), k) - start_codes(d)[k])) == d.subrange(
            #[trigger] start_codes(d)[k],
            unit_end(d, start_codes(d), k),
        ) by {
        lemma_unit_appears(d, 0, k);
    }
}

} // verus!
