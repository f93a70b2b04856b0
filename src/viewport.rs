use vstd::arithmetic::div_mod::{
    lemma_div_is_ordered,
    lemma_fundamental_div_mod,
    lemma_fundamental_div_mod_converse,
};
use vstd::prelude::*;

use crate::chunker::{max_u32, min_int};
use crate::error::WaveformError;

verus! {

/// The chunk index of time `t` in a sound of duration `d` with `n` chunks:
/// `floor(n * t / d)`.
pub open spec fn time_index(n: int, t: int, d: int) -> int {
    (n * t) / d
}

/// Position `j` of the chunk array read from index `first` on, with zeros
/// wherever that reading falls outside the array.
pub open spec fn padded_at(chunks: Seq<u32>, first: int, j: int) -> u32 {
    if 0 <= first + j < chunks.len() {
        chunks[first + j]
    } else {
        0
    }
}

/// The `len` positions of the chunk array read from index `first` on,
/// zero-padded on either side.
pub open spec fn padded(chunks: Seq<u32>, first: int, len: int) -> Seq<u32> {
    Seq::new(len as nat, |j: int| padded_at(chunks, first, j))
}

/// The largest element of `s`, 0 for an empty `s`.
pub open spec fn seq_max(s: Seq<u32>) -> u32
    decreases s.len(),
{
    if s.len() == 0 {
        0
    } else {
        max_u32(seq_max(s.drop_last()), s.last())
    }
}

/// The value shown for segment `seg` after the values `prev`: its maximum,
/// or when it is empty the last value shown (0 for the first).
pub open spec fn carry_value(prev: Seq<u32>, seg: Seq<u32>) -> u32 {
    if seg.len() > 0 {
        seq_max(seg)
    } else if prev.len() == 0 {
        0
    } else {
        prev.last()
    }
}

/// The values shown for a sequence of segments.
pub open spec fn carried(segs: Seq<Seq<u32>>) -> Seq<u32>
    decreases segs.len(),
{
    if segs.len() == 0 {
        Seq::empty()
    } else {
        let prev = carried(segs.drop_last());
        prev.push(carry_value(prev, segs.last()))
    }
}

/// First position of display segment `i` when `len` positions are spread
/// over `w` segments: `floor(i * len / w)`.
pub open spec fn seg_start(len: int, w: int, i: int) -> int {
    (i * len) / w
}

/// End of display segment `i`: `floor(len / w)` positions on from its start,
/// clamped to `len`.
pub open spec fn seg_end(len: int, w: int, i: int) -> int {
    min_int(seg_start(len, w, i) + len / w, len)
}

/// The `w` display segments of the padded range `first .. first + len`.
pub open spec fn segments(chunks: Seq<u32>, first: int, len: int, w: int) -> Seq<Seq<u32>> {
    Seq::new(
        w as nat,
        |i: int| padded(chunks, first, len).subrange(seg_start(len, w, i), seg_end(len, w, i)),
    )
}

/// The display array for the viewport `start .. end` of a sound of duration
/// `duration` whose chunk array is `chunks`, on `w` columns.
pub open spec fn viewport_display(
    chunks: Seq<u32>,
    start: int,
    end: int,
    duration: int,
    w: int,
) -> Seq<u32> {
    let first = time_index(chunks.len() as int, start, duration);
    let last = time_index(chunks.len() as int, end, duration);
    carried(segments(chunks, first, last - first, w))
}

/// One value is shown per segment.
pub proof fn lemma_carried_len(segs: Seq<Seq<u32>>)
    ensures
        carried(segs).len() == segs.len(),
    decreases segs.len(),
{
    if segs.len() > 0 {
        lemma_carried_len(segs.drop_last());
    }
}

/// The values shown for the first `i + 1` segments extend those shown for
/// the first `i`.
proof fn lemma_carried_step(segs: Seq<Seq<u32>>, i: int)
    requires
        0 <= i < segs.len(),
    ensures
        carried(segs.take(i + 1)) == carried(segs.take(i)).push(
            carry_value(carried(segs.take(i)), segs[i]),
        ),
{
    assert(segs.take(i + 1).drop_last() =~= segs.take(i));
}

/// A prefix of the segments shows a prefix of the values.
proof fn lemma_carried_prefix(segs: Seq<Seq<u32>>, i: int)
    requires
        0 <= i <= segs.len(),
    ensures
        carried(segs.take(i)) == carried(segs).take(i),
    decreases segs.len() - i,
{
    lemma_carried_len(segs);
    lemma_carried_len(segs.take(i));
    if i < segs.len() {
        lemma_carried_prefix(segs, i + 1);
        lemma_carried_step(segs, i);
        assert(carried(segs).take(i + 1).drop_last() =~= carried(segs).take(i));
        assert(carried(segs.take(i)) =~= carried(segs.take(i + 1)).drop_last());
    } else {
        assert(segs.take(i) =~= segs);
        assert(carried(segs).take(i) =~= carried(segs));
    }
}

/// Value `i` shown for a sequence of segments.
pub proof fn lemma_carried_index(segs: Seq<Seq<u32>>, i: int)
    requires
        0 <= i < segs.len(),
    ensures
        carried(segs)[i] == carry_value(carried(segs).take(i), segs[i]),
{
    lemma_carried_prefix(segs, i);
    lemma_carried_prefix(segs, i + 1);
    lemma_carried_step(segs, i);
    lemma_carried_len(segs);
    assert(carried(segs).take(i + 1)[i] == carried(segs)[i]);
}

/// A sequence of zeros has maximum 0.
proof fn lemma_seq_max_zero(s: Seq<u32>)
    requires
        forall|k: int| 0 <= k < s.len() ==> s[k] == 0,
    ensures
        seq_max(s) == 0,
    decreases s.len(),
{
    if s.len() > 0 {
        lemma_seq_max_zero(s.drop_last());
    }
}

/// Segments that hold only zeros show only zeros.
pub proof fn lemma_carried_zero(segs: Seq<Seq<u32>>)
    requires
        forall|i: int, k: int| 0 <= i < segs.len() && 0 <= k < segs[i].len() ==> segs[i][k] == 0,
    ensures
        forall|i: int| 0 <= i < carried(segs).len() ==> carried(segs)[i] == 0,
    decreases segs.len(),
{
    if segs.len() > 0 {
        let prev = segs.drop_last();
        assert forall|i: int, k: int| 0 <= i < prev.len() && 0 <= k < prev[i].len() implies prev[i][k]
            == 0 by {
            assert(prev[i] == segs[i]);
        }
        lemma_carried_zero(prev);
        lemma_carried_len(prev);
        let last = segs.last();
        assert forall|k: int| 0 <= k < last.len() implies last[k] == 0 by {
            assert(last == segs[segs.len() - 1]);
        }
        lemma_seq_max_zero(last);
    }
}

/// `floor(x / d)` computed without leaving the non-negative integers.
fn floor_div(x: i128, d: i128) -> (r: i128)
    requires
        d > 0,
        x > i128::MIN,
    ensures
        r == x / d,
{
    if x >= 0 {
        x / d
    } else {
        let y: i128 = -x - 1;
        let t: i128 = y / d;
        proof {
            lemma_fundamental_div_mod(y as int, d as int);
            let r = y as int % d as int;
            assert(x == (-t - 1) * d + (d - 1 - r)) by (nonlinear_arith)
                requires
                    y == d * t + r,
                    x == -y - 1,
            ;
            lemma_fundamental_div_mod_converse(x as int, d as int, -t - 1, d - 1 - r);
        }
        -t - 1
    }
}

/// The value shown for each segment: its maximum, or the previous value
/// where the segment is empty (0 before the first).
pub fn peaks_with_carry(segments: &Vec<Vec<u32>>) -> (r: Vec<u32>)
    ensures
        r@ == carried(segments.deep_view()),
{
    let ghost segs = segments.deep_view();
    let mut out: Vec<u32> = Vec::new();
    let mut i: usize = 0;
    while i < segments.len()
        invariant
            i <= segments.len(),
            segs == segments.deep_view(),
            segs.len() == segments.len(),
            out@ == carried(segs.take(i as int)),
        decreases segments.len() - i,
    {
        let seg = &segments[i];
        assert(seg@ == segs[i as int]);
        let mut m: u32 = 0;
        let mut k: usize = 0;
        while k < seg.len()
            invariant
                k <= seg.len(),
                m == seq_max(seg@.take(k as int)),
            decreases seg.len() - k,
        {
            assert(seg@.take(k + 1).drop_last() =~= seg@.take(k as int));
            if seg[k] > m {
                m = seg[k];
            }
            k = k + 1;
        }
        assert(seg@.take(k as int) =~= seg@);
        proof {
            lemma_carried_len(segs.take(i as int));
            lemma_carried_step(segs, i as int);
        }
        let v: u32 = if seg.len() > 0 {
            m
        } else if i == 0 {
            0
        } else {
            out[i - 1]
        };
        out.push(v);
        i = i + 1;
    }
    assert(segs.take(i as int) =~= segs);
    out
}

/// `floor(n * t / d)` stays within `n * |t|` of zero.
proof fn lemma_time_index_bounds(n: int, t: int, d: int)
    requires
        n >= 0,
        d >= 1,
    ensures
        n * t >= 0 ==> 0 <= time_index(n, t, d) <= n * t,
        n * t < 0 ==> n * t <= time_index(n, t, d) < 0,
{
    let x = n * t;
    lemma_fundamental_div_mod(x, d);
    let q = x / d;
    let r = x % d;
    if x >= 0 {
        assert(0 <= q <= x) by (nonlinear_arith)
            requires x == d * q + r, 0 <= r < d, d >= 1, x >= 0;
    } else {
        assert(x <= q < 0) by (nonlinear_arith)
            requires x == d * q + r, 0 <= r < d, d >= 1, x < 0;
    }
}

/// Later times map to later (or equal) chunk indices.
proof fn lemma_time_index_monotone(n: int, s: int, e: int, d: int)
    requires
        n >= 0,
        d >= 1,
        s <= e,
    ensures
        time_index(n, s, d) <= time_index(n, e, d),
{
    assert(n * s <= n * e) by (nonlinear_arith)
        requires n >= 0, s <= e;
    lemma_div_is_ordered(n * s, n * e, d);
}

/// `floor(i * len / w)` split as `i * q + floor(i * r / w)` where
/// `len == q * w + r`.
pub proof fn lemma_seg_start_split(len: int, w: int, i: int)
    requires
        w >= 1,
        len >= 0,
        0 <= i < w,
    ensures
        seg_start(len, w, i) == i * (len / w) + (i * (len % w)) / w,
        0 <= i * (len / w) <= seg_start(len, w, i) <= len,
        0 <= (i * (len % w)) / w <= i,
{
    let q = len / w;
    let r = len % w;
    lemma_fundamental_div_mod(len, w);
    let ir = i * r;
    lemma_fundamental_div_mod(ir, w);
    let t = ir / w;
    let r2 = ir % w;
    assert(i * len == (i * q + t) * w + r2) by (nonlinear_arith)
        requires len == w * q + r, ir == i * r, ir == w * t + r2;
    lemma_fundamental_div_mod_converse(i * len, w, i * q + t, r2);
    assert(0 <= i * q <= i * q + t <= len && 0 <= t <= i) by (nonlinear_arith)
        requires
            len == w * q + r, 0 <= r < w, 0 <= i < w, ir == i * r, ir == w * t + r2,
            0 <= r2 < w, q >= 0,
    {
        assert(0 <= ir);
        assert(ir < w * w);
        assert(t < w);
        assert(ir <= i * w);
        assert(t <= i);
        assert(i * q + t <= (w - 1) * q + t);
        assert(i * q + t <= w * q + r) by {
            assert(t * w <= ir);
            assert(t * w <= i * r);
            if t > r {
                assert(i * r < w * r + 0) by { assert(i < w); }
                assert(t * w > r * w);
            }
        }
    }
}

/// Every display segment lies within the padded range.
proof fn lemma_segment_in_range(len: int, w: int, i: int)
    requires
        w >= 1,
        len >= 0,
        0 <= i < w,
    ensures
        0 <= seg_start(len, w, i) <= seg_end(len, w, i) <= len,
{
    lemma_seg_start_split(len, w, i);
    lemma_fundamental_div_mod(len, w);
    assert(len / w >= 0) by (nonlinear_arith)
        requires len == w * (len / w) + len % w, 0 <= len % w < w, len >= 0, w >= 1;
}

/// Where every padded position of a valid viewport reads 0, the whole
/// display is 0.
proof fn lemma_display_zero_when_padding_zero(chunks: Seq<u32>, first: int, len: int, w: int)
    requires
        w >= 1,
        len >= 0,
        forall|j: int| 0 <= j < len ==> padded_at(chunks, first, j) == 0,
    ensures
        forall|i: int|
            0 <= i < carried(segments(chunks, first, len, w)).len() ==> carried(
                segments(chunks, first, len, w),
            )[i] == 0,
{
    let segs = segments(chunks, first, len, w);
    let pad = padded(chunks, first, len);
    assert forall|i: int, k: int| 0 <= i < segs.len() && 0 <= k < segs[i].len() implies segs[i][k]
        == 0 by {
        lemma_segment_in_range(len, w, i);
        assert(segs[i][k] == pad[seg_start(len, w, i) + k]);
    }
    lemma_carried_zero(segs);
}

/// A valid viewport shows exactly `w` values.
pub proof fn lemma_display_len(chunks: Seq<u32>, start: int, end: int, duration: int, w: int)
    requires
        duration >= 1,
        w >= 1,
    ensures
        viewport_display(chunks, start, end, duration, w).len() == w,
{
    let first = time_index(chunks.len() as int, start, duration);
    let last = time_index(chunks.len() as int, end, duration);
    lemma_carried_len(segments(chunks, first, last - first, w));
}

/// A viewport that ends at or before the start of the sound shows only zeros.
pub proof fn lemma_viewport_before_start_is_silent(
    chunks: Seq<u32>,
    start: int,
    end: int,
    duration: int,
    w: int,
)
    requires
        duration >= 1,
        w >= 1,
        start <= end,
        end <= 0,
    ensures
        forall|i: int|
            0 <= i < viewport_display(chunks, start, end, duration, w).len() ==> viewport_display(
                chunks,
                start,
                end,
                duration,
                w,
            )[i] == 0,
{
    let n = chunks.len() as int;
    let first = time_index(n, start, duration);
    let last = time_index(n, end, duration);
    lemma_time_index_bounds(n, end, duration);
    lemma_time_index_monotone(n, start, end, duration);
    assert(n * end <= 0) by (nonlinear_arith)
        requires n >= 0, end <= 0;
    assert(last <= 0);
    lemma_display_zero_when_padding_zero(chunks, first, last - first, w);
}

/// A viewport that starts at or after the end of the sound shows only zeros.
pub proof fn lemma_viewport_after_end_is_silent(
    chunks: Seq<u32>,
    start: int,
    end: int,
    duration: int,
    w: int,
)
    requires
        duration >= 1,
        w >= 1,
        start <= end,
        start >= duration,
    ensures
        forall|i: int|
            0 <= i < viewport_display(chunks, start, end, duration, w).len() ==> viewport_display(
                chunks,
                start,
                end,
                duration,
                w,
            )[i] == 0,
{
    let n = chunks.len() as int;
    let first = time_index(n, start, duration);
    let last = time_index(n, end, duration);
    lemma_time_index_monotone(n, start, end, duration);
    assert(n * duration <= n * start) by (nonlinear_arith)
        requires n >= 0, duration <= start;
    lemma_div_is_ordered(n * duration, n * start, duration);
    lemma_fundamental_div_mod_converse(n * duration, duration, n, 0);
    assert(first >= n);
    lemma_display_zero_when_padding_zero(chunks, first, last - first, w);
}

/// The viewport of the whole sound, on as many columns as there are chunks,
/// shows the chunk array itself.
pub proof fn lemma_full_viewport_is_identity(chunks: Seq<u32>, duration: int)
    requires
        duration >= 1,
        chunks.len() >= 1,
    ensures
        viewport_display(chunks, 0, duration, duration, chunks.len() as int) == chunks,
{
    let n = chunks.len() as int;
    let w = n;
    lemma_fundamental_div_mod_converse(n * 0, duration, 0, 0);
    lemma_fundamental_div_mod_converse(n * duration, duration, n, 0);
    let first = time_index(n, 0, duration);
    let last = time_index(n, duration, duration);
    assert(first == 0 && last == n);
    let segs = segments(chunks, 0, n, w);
    let pad = padded(chunks, 0, n);
    lemma_fundamental_div_mod_converse(n, n, 1, 0);
    lemma_carried_len(segs);
    let shown = viewport_display(chunks, 0, duration, duration, w);
    assert(shown == carried(segs));
    assert forall|i: int| 0 <= i < n implies shown[i] == chunks[i] by {
        lemma_fundamental_div_mod_converse(i * n, n, i, 0);
        assert(seg_start(n, w, i) == i);
        assert(seg_end(n, w, i) == i + 1);
        let seg = segs[i];
        assert(seg =~= seq![chunks[i]]);
        assert(seg.drop_last() =~= Seq::<u32>::empty());
        assert(seq_max(seg.drop_last()) == 0);
        assert(seg.last() == chunks[i]);
        assert(seq_max(seg) == chunks[i]);
        lemma_carried_index(segs, i);
    }
    assert(shown =~= chunks);
}

/// Reads position `j` of the zero-padded chunk range that starts at chunk
/// index `first`.
pub(crate) fn padded_value(chunks: &Vec<u32>, first: i128, j: i128) -> (r: u32)
    requires
        -0x4000_0000_0000_0000_0000_0000_0000_0000 < first < 0x4000_0000_0000_0000_0000_0000_0000_0000,
        0 <= j,
        first + j < 0x4000_0000_0000_0000_0000_0000_0000_0000,
    ensures
        r == padded_at(chunks@, first as int, j as int),
{
    let k: i128 = first + j;
    if 0 <= k && k < chunks.len() as i128 {
        chunks[k as usize]
    } else {
        0
    }
}

/// The chunk indices `floor(n * start_time / sound_duration)` and
/// `floor(n * end_time / sound_duration)` of a viewport.
pub(crate) fn chunk_range(chunks: &Vec<u32>, start_time: i64, end_time: i64, sound_duration: i64) -> (r: (
    i128,
    i128,
))
    requires
        chunks@.len() <= i64::MAX,
        sound_duration > 0,
        start_time <= end_time,
    ensures
        r.0 == time_index(chunks@.len() as int, start_time as int, sound_duration as int),
        r.1 == time_index(chunks@.len() as int, end_time as int, sound_duration as int),
        -0x4000_0000_0000_0000_0000_0000_0000_0000 < r.0 <= r.1 < 0x4000_0000_0000_0000_0000_0000_0000_0000,
{
    let n: i128 = chunks.len() as i128;
    let d: i128 = sound_duration as i128;
    let ghost ni = n as int;
    proof {
        assert(-0x3fff_ffff_ffff_ffff_8000_0000_0000_0000 <= n * start_time <= 0x3fff_ffff_ffff_ffff_0000_0000_0000_0001)
            by (nonlinear_arith)
            requires 0 <= n <= 0x7fff_ffff_ffff_ffff, -0x8000_0000_0000_0000 <= start_time <= 0x7fff_ffff_ffff_ffff;
        assert(-0x3fff_ffff_ffff_ffff_8000_0000_0000_0000 <= n * end_time <= 0x3fff_ffff_ffff_ffff_0000_0000_0000_0001)
            by (nonlinear_arith)
            requires 0 <= n <= 0x7fff_ffff_ffff_ffff, -0x8000_0000_0000_0000 <= end_time <= 0x7fff_ffff_ffff_ffff;
        lemma_time_index_bounds(ni, start_time as int, d as int);
        lemma_time_index_bounds(ni, end_time as int, d as int);
        lemma_time_index_monotone(ni, start_time as int, end_time as int, d as int);
    }
    let first: i128 = floor_div(n * start_time as i128, d);
    let last: i128 = floor_div(n * end_time as i128, d);
    (first, last)
}

/// Maps the viewport `start_time .. end_time` of a sound of duration
/// `sound_duration`, whose chunk array is `global_waveform_chunks`, onto
/// `stage_width` display values.
///
/// Times are integers in one unit of the caller's choosing. The viewport is
/// read as the chunk range `floor(n * start_time / sound_duration)` up to
/// `floor(n * end_time / sound_duration)`, zero-padded where it leaves the
/// array. That range is cut into `stage_width` segments, segment `i` starting
/// at `floor(i * len / stage_width)` and spanning `floor(len / stage_width)`
/// positions; each shows its maximum, or the previous value where it is empty.
pub fn calculate_y_value_array_from_chunks(
    global_waveform_chunks: Vec<u32>,
    start_time: i64,
    end_time: i64,
    sound_duration: i64,
    stage_width: usize,
) -> (r: Result<Vec<u32>, WaveformError>)
    requires
        global_waveform_chunks@.len() <= i64::MAX,
    ensures
        stage_width == 0 ==> r == Err::<Vec<u32>, WaveformError>(WaveformError::ZeroStageWidth),
        stage_width > 0 && sound_duration <= 0 ==> r == Err::<Vec<u32>, WaveformError>(
            WaveformError::NonPositiveDuration,
        ),
        stage_width > 0 && sound_duration > 0 && end_time < start_time ==> r == Err::<
            Vec<u32>,
            WaveformError,
        >(WaveformError::InvertedTimeRange),
        stage_width > 0 && sound_duration > 0 && start_time <= end_time ==> (r matches Ok(v)
            && v@ == viewport_display(
            global_waveform_chunks@,
            start_time as int,
            end_time as int,
            sound_duration as int,
            stage_width as int,
        )),
{
    if stage_width == 0 {
        return Err(WaveformError::ZeroStageWidth);
    }
    if sound_duration <= 0 {
        return Err(WaveformError::NonPositiveDuration);
    }
    if end_time < start_time {
        return Err(WaveformError::InvertedTimeRange);
    }
    let chunks = &global_waveform_chunks;
    let (first, last) = chunk_range(chunks, start_time, end_time, sound_duration);
    let len: i128 = last - first;
    let w: i128 = stage_width as i128;
    let q: i128 = len / w;
    let rem: i128 = len % w;
    let ghost segs = segments(chunks@, first as int, len as int, w as int);
    let ghost pad = padded(chunks@, first as int, len as int);
    let mut out: Vec<u32> = Vec::new();
    let mut i: usize = 0;
    while i < stage_width
        invariant
            i <= stage_width,
            w == stage_width,
            w >= 1,
            first == time_index(chunks@.len() as int, start_time as int, sound_duration as int),
            last == time_index(chunks@.len() as int, end_time as int, sound_duration as int),
            -0x4000_0000_0000_0000_0000_0000_0000_0000 < first < 0x4000_0000_0000_0000_0000_0000_0000_0000,
            -0x4000_0000_0000_0000_0000_0000_0000_0000 < last < 0x4000_0000_0000_0000_0000_0000_0000_0000,
            0 <= len == last - first,
            q == len / w,
            rem == len % w,
            segs == segments(chunks@, first as int, len as int, w as int),
            pad == padded(chunks@, first as int, len as int),
            segs.len() == stage_width,
            out@ == carried(segs.take(i as int)),
        decreases stage_width - i,
    {
        proof {
            lemma_seg_start_split(len as int, w as int, i as int);
            lemma_fundamental_div_mod(len as int, w as int);
            assert((i as int) * (rem as int) < 0x1_0000_0000_0000_0000_0000_0000_0000_0000) by (nonlinear_arith)
                requires 0 <= i < w, 0 <= rem < w, w <= 0x1_0000_0000_0000_0000;
        }
        let extra: u128 = (i as u128) * (rem as u128) / (stage_width as u128);
        let a: i128 = (i as i128) * q + extra as i128;
        let b: i128 = if q <= len - a { a + q } else { len };
        assert(a == seg_start(len as int, w as int, i as int));
        assert(b == seg_end(len as int, w as int, i as int));
        let ghost seg = pad.subrange(a as int, b as int);
        assert(segs[i as int] == seg);
        let mut m: u32 = 0;
        let mut j: i128 = a;
        while j < b
            invariant
                0 <= a <= j <= b <= len,
                -0x4000_0000_0000_0000_0000_0000_0000_0000 < first < 0x4000_0000_0000_0000_0000_0000_0000_0000,
                first + len < 0x4000_0000_0000_0000_0000_0000_0000_0000,
                pad == padded(chunks@, first as int, len as int),
                m == seq_max(pad.subrange(a as int, j as int)),
            decreases b - j,
        {
            assert(pad.subrange(a as int, j + 1).drop_last() =~= pad.subrange(a as int, j as int));
            let v = padded_value(chunks, first, j);
            if v > m {
                m = v;
            }
            j = j + 1;
        }
        proof {
            lemma_carried_len(segs.take(i as int));
            lemma_carried_step(segs, i as int);
        }
        let v: u32 = if a < b {
            m
        } else if i == 0 {
            0
        } else {
            out[i - 1]
        };
        out.push(v);
        i = i + 1;
    }
    assert(segs.take(i as int) =~= segs);
    Ok(out)
}

} // verus!
