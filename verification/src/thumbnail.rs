//! Thumbnail geometry: the size a cover image is scaled to, and the
//! repacking of a decoded RGB32 frame into top-down rows without padding.
use vstd::prelude::*;

verus! {

/// Frame size assumed when a source reports none.
pub const DEFAULT_WIDTH: u32 = 1280;

/// Frame height assumed when a source reports none.
pub const DEFAULT_HEIGHT: u32 = 720;

/// The 64-bit attribute value holding `hi` in its upper half and `lo` in its lower half.
pub open spec fn packed(hi: int, lo: int) -> int {
    hi * 0x1_0000_0000 + lo
}

/// Packs a width and a height (or any two halves) into one 64-bit
/// attribute value, `hi` in the upper 32 bits.
pub fn pack(hi: u32, lo: u32) -> (r: u64)
    ensures
        r == packed(hi as int, lo as int),
{
    let h: u64 = hi as u64;
    let l: u64 = lo as u64;
    assert((h << 32u64) | l == h * 0x1_0000_0000 + l) by (bit_vector)
        requires
            h < 0x1_0000_0000,
            l < 0x1_0000_0000,
    ;
    (h << 32u64) | l
}

/// Splits a 64-bit attribute value into its upper and lower 32-bit halves.
pub fn unpack(v: u64) -> (r: (u32, u32))
    ensures
        packed(r.0 as int, r.1 as int) == v,
        r.0 == v / 0x1_0000_0000,
        r.1 == v % 0x1_0000_0000,
{
    let hi = (v >> 32u64) as u32;
    let lo = (v & 0xFFFF_FFFFu64) as u32;
    assert(v >> 32u64 == v / 0x1_0000_0000) by (bit_vector);
    assert(v & 0xFFFF_FFFFu64 == v % 0x1_0000_0000) by (bit_vector);
    (hi, lo)
}

/// Unpacking a packed pair gives the pair back, and packing the halves of a
/// value gives the value back.
pub proof fn lemma_pack_unpack(hi: u32, lo: u32, v: u64)
    ensures
        packed(hi as int, lo as int) / 0x1_0000_0000 == hi,
        packed(hi as int, lo as int) % 0x1_0000_0000 == lo,
        packed((v / 0x1_0000_0000) as int, (v % 0x1_0000_0000) as int) == v,
{
    assert(packed(hi as int, lo as int) / 0x1_0000_0000 == hi) by (nonlinear_arith)
        requires
            0 <= lo < 0x1_0000_0000,
            hi >= 0,
    ;
    assert(packed(hi as int, lo as int) % 0x1_0000_0000 == lo) by (nonlinear_arith)
        requires
            0 <= lo < 0x1_0000_0000,
            hi >= 0,
    ;
}

/// `x` rounded down to an even number.
pub open spec fn even_down(x: int) -> int {
    x - x % 2
}

/// Width and height of a thumbnail of a `sw` x `sh` frame no wider than
/// `max_w`: the width is `min(sw, max_w)`, the height keeps the aspect ratio
/// (rounded down, at least 2), and both are rounded down to even numbers.
pub open spec fn spec_target_size(sw: int, sh: int, max_w: int) -> (int, int) {
    let w = if sw <= max_w { sw } else { max_w };
    let h = w * sh / sw;
    (even_down(w), even_down(if h >= 2 { h } else { 2 }))
}

/// Scales a `sw` x `sh` frame to fit `max_w`, keeping the aspect ratio, with
/// even sides.
pub fn target_size(sw: u32, sh: u32, max_w: u32) -> (r: (u32, u32))
    requires
        sw > 0,
    ensures
        r.0 == spec_target_size(sw as int, sh as int, max_w as int).0,
        r.1 == spec_target_size(sw as int, sh as int, max_w as int).1,
        r.0 <= max_w,
        r.0 <= sw,
        r.0 % 2 == 0,
        r.1 % 2 == 0,
        r.1 >= 2,
{
    let w: u32 = if sw <= max_w { sw } else { max_w };
    proof {
        assert((w as int) * (sh as int) / (sw as int) <= sh) by (nonlinear_arith)
            requires
                w <= sw,
                sw > 0,
                sh >= 0,
                w >= 0,
        ;
        assert((w as int) * (sh as int) >= 0) by (nonlinear_arith)
            requires
                sh >= 0,
                w >= 0,
        ;
    }
    assert((w as int) * (sh as int) <= 0xFFFF_FFFF * 0xFFFF_FFFF) by (nonlinear_arith)
        requires
            0 <= w <= 0xFFFF_FFFF,
            0 <= sh <= 0xFFFF_FFFF,
    ;
    let prod: u64 = (w as u64) * (sh as u64);
    let h: u32 = (prod / (sw as u64)) as u32;
    let hh: u32 = if h >= 2 { h } else { 2 };
    assert(w & !1u32 == w - w % 2) by (bit_vector);
    assert(hh & !1u32 == hh - hh % 2) by (bit_vector);
    (w & !1u32, hh & !1u32)
}

/// The thumbnail size asked of the decoder for a source whose frame size
/// attribute is `native` (1280 x 720 when absent); zero sides count as one.
pub fn requested_size(native: Option<u64>, max_w: u32) -> (r: (u32, u32))
    ensures
        ({
            let v = match native {
                Some(v) => v as int,
                None => packed(DEFAULT_WIDTH as int, DEFAULT_HEIGHT as int),
            };
            let sw = if v / 0x1_0000_0000 == 0 { 1 } else { v / 0x1_0000_0000 };
            let sh = if v % 0x1_0000_0000 == 0 { 1 } else { v % 0x1_0000_0000 };
            r.0 == spec_target_size(sw, sh, max_w as int).0 && r.1 == spec_target_size(
                sw,
                sh,
                max_w as int,
            ).1
        }),
{
    let size = match native {
        Some(v) => v,
        None => pack(DEFAULT_WIDTH, DEFAULT_HEIGHT),
    };
    let (sw, sh) = unpack(size);
    let sw1 = if sw == 0 { 1 } else { sw };
    let sh1 = if sh == 0 { 1 } else { sh };
    target_size(sw1, sh1, max_w)
}

/// The size the decoder actually delivers: its frame size attribute
/// `actual`, or the requested size when absent; zero sides count as one.
pub fn delivered_size(actual: Option<u64>, requested: (u32, u32)) -> (r: (u32, u32))
    ensures
        ({
            let v = match actual {
                Some(v) => v as int,
                None => packed(requested.0 as int, requested.1 as int),
            };
            let w = v / 0x1_0000_0000;
            let h = v % 0x1_0000_0000;
            r.0 == (if w == 0 { 1 } else { w }) && r.1 == (if h == 0 { 1 } else { h })
        }),
{
    let size = match actual {
        Some(v) => v,
        None => pack(requested.0, requested.1),
    };
    let (w, h) = unpack(size);
    (if w == 0 { 1 } else { w }, if h == 0 { 1 } else { h })
}

/// Bytes between the starts of two source rows: the magnitude of the
/// decoder's default stride when it gives one (its sign tells the
/// orientation), else the buffer length shared out over the rows, but
/// never less than a packed row.
pub open spec fn spec_source_stride(default_stride: i32, len: int, ah: int, dst_stride: int) -> int {
    if default_stride != 0 {
        if default_stride < 0 { -(default_stride as int) } else { default_stride as int }
    } else {
        let per_row = len / ah;
        if per_row >= dst_stride { per_row } else { dst_stride }
    }
}

/// The row of the source that becomes row `row` of the packed image.
pub open spec fn source_row(row: int, ah: int, bottom_up: bool) -> int {
    if bottom_up { ah - 1 - row } else { row }
}

/// One packed row: the `dst_stride` bytes of the source row, or zeros when
/// that row does not lie wholly inside the buffer.
pub open spec fn packed_row(
    src: Seq<u8>,
    row: int,
    ah: int,
    src_stride: int,
    dst_stride: int,
    bottom_up: bool,
) -> Seq<u8> {
    let s = source_row(row, ah, bottom_up) * src_stride;
    if s + dst_stride <= src.len() {
        src.subrange(s, s + dst_stride)
    } else {
        Seq::new(dst_stride as nat, |i: int| 0u8)
    }
}

/// The first `n` packed rows, top to bottom.
pub open spec fn packed_rows(
    src: Seq<u8>,
    n: int,
    ah: int,
    src_stride: int,
    dst_stride: int,
    bottom_up: bool,
) -> Seq<u8>
    decreases n,
{
    if n <= 0 {
        Seq::empty()
    } else {
        packed_rows(src, n - 1, ah, src_stride, dst_stride, bottom_up) + packed_row(
            src,
            n - 1,
            ah,
            src_stride,
            dst_stride,
            bottom_up,
        )
    }
}

/// Repacking an `aw` x `ah` frame from a buffer of `len` bytes stays within
/// machine arithmetic: a packed row's size fits in 32 bits, the packed
/// image's in `usize`, and so does the end of the last source row read.
pub open spec fn frame_fits(len: int, aw: int, ah: int, default_stride: i32) -> bool {
    &&& aw * 4 <= u32::MAX
    &&& aw * 4 * ah <= usize::MAX
    &&& (ah - 1) * spec_source_stride(default_stride, len, ah, aw * 4) + aw * 4 <= usize::MAX
}

/// A decoded `aw` x `ah` RGB32 frame repacked top-down with no padding:
/// all `ah` rows of `aw * 4` bytes.
pub open spec fn packed_frame(src: Seq<u8>, aw: int, ah: int, default_stride: i32) -> Seq<u8> {
    let dst_stride = aw * 4;
    packed_rows(
        src,
        ah,
        ah,
        spec_source_stride(default_stride, src.len() as int, ah, dst_stride),
        dst_stride,
        default_stride < 0,
    )
}

proof fn lemma_packed_rows_len(
    src: Seq<u8>,
    n: int,
    ah: int,
    src_stride: int,
    dst_stride: int,
    bottom_up: bool,
)
    requires
        0 <= n <= ah,
        dst_stride >= 0,
        src_stride >= 0,
    ensures
        packed_rows(src, n, ah, src_stride, dst_stride, bottom_up).len() == n * dst_stride,
    decreases n,
{
    if n > 0 {
        let r = source_row(n - 1, ah, bottom_up);
        assert(0 <= r < ah);
        assert(r * src_stride >= 0) by (nonlinear_arith)
            requires r >= 0, src_stride >= 0;
        lemma_packed_rows_len(src, n - 1, ah, src_stride, dst_stride, bottom_up);
        assert(packed_row(src, n - 1, ah, src_stride, dst_stride, bottom_up).len() == dst_stride);
        assert(packed_rows(src, n, ah, src_stride, dst_stride, bottom_up) == packed_rows(src, n - 1, ah, src_stride, dst_stride, bottom_up) + packed_row(src, n - 1, ah, src_stride, dst_stride, bottom_up));
        assert((n - 1) * dst_stride + dst_stride == n * dst_stride) by (nonlinear_arith);
    } else {
        assert(n * dst_stride == 0) by (nonlinear_arith)
            requires n == 0;
    }
}

/// Copies a locked RGB32 frame buffer `src` of `aw` x `ah` pixels into a
/// top-down buffer of `aw * 4`-byte rows, the layout an image encoder takes.
/// The source rows are `spec_source_stride` bytes apart; a negative default
/// stride means the frame is stored bottom-up and the rows are flipped. A
/// row that does not fit in `src` is left black rather than read past the
/// buffer. `None` when the sizes involved exceed machine arithmetic
/// (`frame_fits`).
pub fn pack_frame(src: &[u8], aw: u32, ah: u32, default_stride: i32) -> (out: Option<Vec<u8>>)
    requires
        ah >= 1,
    ensures
        out is None <==> !frame_fits(src@.len() as int, aw as int, ah as int, default_stride),
        out matches Some(v) ==> v@ == packed_frame(src@, aw as int, ah as int, default_stride) && v@.len()
            == aw * 4 * ah,
{
    let len: usize = src.len();
    if aw as u64 * 4 > u32::MAX as u64 {
        return None;
    }
    let dst_stride: usize = (aw * 4) as usize;
    let src_stride: usize = if default_stride != 0 {
        if default_stride < 0 {
            (0i64 - (default_stride as i64)) as usize
        } else {
            default_stride as usize
        }
    } else {
        let per_row = len / (ah as usize);
        if per_row >= dst_stride { per_row } else { dst_stride }
    };
    proof {
        assert((aw * 4) as int * (ah as int) <= 0xFFFF_FFFF * 0xFFFF_FFFF) by (nonlinear_arith)
            requires 0 <= aw * 4 <= 0xFFFF_FFFF, 0 <= ah <= 0xFFFF_FFFF;
        assert((ah - 1) as int * (src_stride as int) <= 0xFFFF_FFFF * 0xFFFF_FFFF_FFFF_FFFF) by (nonlinear_arith)
            requires 0 <= ah - 1 <= 0xFFFF_FFFF, 0 <= src_stride <= 0xFFFF_FFFF_FFFF_FFFF;
        assert((ah - 1) as int * (src_stride as int) >= 0) by (nonlinear_arith)
            requires 0 <= ah - 1, 0 <= src_stride;
    }
    let total: u128 = (dst_stride as u128) * (ah as u128);
    let last_row_end: u128 = ((ah - 1) as u128) * (src_stride as u128) + (dst_stride as u128);
    if total > usize::MAX as u128 || last_row_end > usize::MAX as u128 {
        return None;
    }
    let bottom_up = default_stride < 0;
    let ghost stride_spec = spec_source_stride(default_stride, src@.len() as int, ah as int, aw * 4);
    assert(src_stride == stride_spec);
    let mut out: Vec<u8> = Vec::new();
    let mut row: usize = 0;
    while row < ah as usize
        invariant
            len == src@.len(),
            dst_stride == aw * 4,
            src_stride == stride_spec,
            ah >= 1,
            bottom_up == (default_stride < 0),
            (ah - 1) * stride_spec + aw * 4 <= usize::MAX,
            row <= ah,
            out@ == packed_rows(src@, row as int, ah as int, src_stride as int, dst_stride as int, bottom_up),
        decreases ah - row,
    {
        let src_row: usize = if bottom_up { ah as usize - 1 - row } else { row };
        proof {
            assert(src_row * src_stride <= (ah - 1) * src_stride) by (nonlinear_arith)
                requires
                    src_row <= ah - 1,
                    src_stride >= 0,
            ;
        }
        let s: usize = src_row * src_stride;
        let ghost before = out@;
        if s + dst_stride <= len {
            let mut col: usize = 0;
            while col < dst_stride
                invariant
                    len == src@.len(),
                    s + dst_stride <= len,
                    col <= dst_stride,
                    out@ == before + src@.subrange(s as int, s + col),
                decreases dst_stride - col,
            {
                out.push(src[s + col]);
                assert(src@.subrange(s as int, s + col + 1) == src@.subrange(s as int, s + col).push(
                    src@[s + col],
                ));
                col = col + 1;
            }
        } else {
            let mut col: usize = 0;
            while col < dst_stride
                invariant
                    col <= dst_stride,
                    out@ == before + Seq::new(col as nat, |i: int| 0u8),
                decreases dst_stride - col,
            {
                out.push(0u8);
                assert(Seq::new((col + 1) as nat, |i: int| 0u8) == Seq::new(col as nat, |i: int| 0u8).push(
                    0u8,
                ));
                col = col + 1;
            }
        }
        assert(out@ == packed_rows(src@, row + 1, ah as int, src_stride as int, dst_stride as int, bottom_up));
        row = row + 1;
    }
    proof {
        lemma_packed_rows_len(src@, ah as int, ah as int, src_stride as int, dst_stride as int, bottom_up);
        assert(ah * (aw * 4) == aw * 4 * ah) by (nonlinear_arith);
    }
    Some(out)
}

} // verus!
