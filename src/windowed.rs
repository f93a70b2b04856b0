use vstd::arithmetic::div_mod::{lemma_fundamental_div_mod, lemma_fundamental_div_mod_converse};
use vstd::prelude::*;

use crate::chunker::min_int;
use crate::error::WaveformError;
use crate::viewport::{lemma_seg_start_split, padded, seg_end, seg_start, time_index};

verus! {

/// The overlap of neighbouring segments of `size` positions for the overlap
/// fraction `num / den`: `floor(size * num / den)`.
pub open spec fn overlap_size(size: int, num: int, den: int) -> int {
    (size * num) / den
}

/// First position of overlapping segment `i`: segments of `floor(len / w)`
/// positions, each starting `floor(len / w) - overlap` after the previous one.
pub open spec fn windowed_start(len: int, w: int, overlap: int, i: int) -> int {
    i * (len / w - overlap)
}

/// End of overlapping segment `i`, clamped to `len`.
pub open spec fn windowed_end(len: int, w: int, overlap: int, i: int) -> int {
    min_int(windowed_start(len, w, overlap, i) + len / w, len)
}

/// The bounds of the `w` overlapping segments of a padded range of `len`
/// positions, for the overlap fraction `num / den`.
pub open spec fn windowed_bounds(len: int, w: int, num: int, den: int) -> Seq<(usize, usize)> {
    let o = overlap_size(len / w, num, den);
    Seq::new(
        w as nat,
        |i: int| (windowed_start(len, w, o, i) as usize, windowed_end(len, w, o, i) as usize),
    )
}

/// Without overlap, the overlapping segments are those of the plain
/// resampler exactly when `len % w <= 1`: segment `i` then starts at
/// `floor(i * len / w)` in both.
pub proof fn lemma_unoverlapped_bounds_match(len: int, w: int, den: int, i: int)
    requires
        len >= 0,
        w >= 1,
        den >= 1,
        0 <= i < w,
        len % w <= 1,
    ensures
        overlap_size(len / w, 0, den) == 0,
        windowed_start(len, w, 0, i) == seg_start(len, w, i),
        windowed_end(len, w, 0, i) == seg_end(len, w, i),
{
    lemma_fundamental_div_mod_converse(0, den, 0, 0);
    assert(len / w * 0 == 0);
    let q = len / w;
    let r = len % w;
    lemma_fundamental_div_mod(len, w);
    assert(i * len == (i * q) * w + i * r) by (nonlinear_arith)
        requires len == w * q + r;
    assert(0 <= i * r < w) by (nonlinear_arith)
        requires 0 <= i < w, 0 <= r <= 1;
    lemma_fundamental_div_mod_converse(i * len, w, i * q, i * r);
}

/// Where `len % w >= 2`, the last segment without overlap starts before the
/// plain resampler's last segment: the two segmentations differ.
pub proof fn lemma_unoverlapped_bounds_differ(len: int, w: int)
    requires
        len >= 0,
        w >= 1,
        len % w >= 2,
    ensures
        windowed_start(len, w, 0, w - 1) < seg_start(len, w, w - 1),
{
    let r = len % w;
    lemma_fundamental_div_mod(len, w);
    lemma_seg_start_split(len, w, w - 1);
    assert(w <= (w - 1) * r) by (nonlinear_arith)
        requires 2 <= r < w;
    vstd::arithmetic::div_mod::lemma_div_is_ordered(w, (w - 1) * r, w);
    lemma_fundamental_div_mod_converse(w, w, 1, 0);
}

/// The viewport `start_time .. end_time` of a sound of duration
/// `sound_duration` read from the chunk array: the chunk range from
/// `floor(n * start_time / sound_duration)` up to
/// `floor(n * end_time / sound_duration)`, with zeros where it leaves the array.
pub fn padded_chunks(
    chunks: &Vec<u32>,
    start_time: i64,
    end_time: i64,
    sound_duration: i64,
) -> (r: Result<Vec<u32>, WaveformError>)
    requires
        chunks@.len() <= i64::MAX,
    ensures
        sound_duration <= 0 ==> r == Err::<Vec<u32>, WaveformError>(
            WaveformError::NonPositiveDuration,
        ),
        sound_duration > 0 && end_time < start_time ==> r == Err::<Vec<u32>, WaveformError>(
            WaveformError::InvertedTimeRange,
        ),
        sound_duration > 0 && start_time <= end_time && time_index(
            chunks@.len() as int,
            end_time as int,
            sound_duration as int,
        ) - time_index(chunks@.len() as int, start_time as int, sound_duration as int)
            > usize::MAX ==> r == Err::<Vec<u32>, WaveformError>(WaveformError::ViewportTooLarge),
        sound_duration > 0 && start_time <= end_time && time_index(
            chunks@.len() as int,
            end_time as int,
            sound_duration as int,
        ) - time_index(chunks@.len() as int, start_time as int, sound_duration as int)
            <= usize::MAX ==> (r matches Ok(v) && v@ == padded(
            chunks@,
            time_index(chunks@.len() as int, start_time as int, sound_duration as int),
            time_index(chunks@.len() as int, end_time as int, sound_duration as int) - time_index(
                chunks@.len() as int,
                start_time as int,
                sound_duration as int,
            ),
        )),
{
    if sound_duration <= 0 {
        return Err(WaveformError::NonPositiveDuration);
    }
    if end_time < start_time {
        return Err(WaveformError::InvertedTimeRange);
    }
    let (first, last) = crate::viewport::chunk_range(chunks, start_time, end_time, sound_duration);
    if last - first > usize::MAX as i128 {
        return Err(WaveformError::ViewportTooLarge);
    }
    let len: usize = (last - first) as usize;
    let ghost pad = padded(chunks@, first as int, len as int);
    let mut out: Vec<u32> = Vec::new();
    let mut j: usize = 0;
    while j < len
        invariant
            j <= len,
            len == last - first,
            -0x4000_0000_0000_0000_0000_0000_0000_0000 < first <= last < 0x4000_0000_0000_0000_0000_0000_0000_0000,
            pad == padded(chunks@, first as int, len as int),
            out@ == pad.take(j as int),
        decreases len - j,
    {
        let v = crate::viewport::padded_value(chunks, first, j as i128);
        out.push(v);
        assert(out@ =~= pad.take(j + 1));
        j = j + 1;
    }
    assert(out@ =~= pad);
    Ok(out)
}

/// The bounds `(start, end)` of the `stage_width` overlapping segments of a
/// padded range of `padded_len` positions: each spans
/// `floor(padded_len / stage_width)` positions, and neighbours share
/// `floor(size * overlap_numerator / overlap_denominator)` of them.
pub fn windowed_segment_bounds(
    padded_len: usize,
    stage_width: usize,
    overlap_numerator: u64,
    overlap_denominator: u64,
) -> (r: Result<Vec<(usize, usize)>, WaveformError>)
    ensures
        stage_width == 0 ==> r == Err::<Vec<(usize, usize)>, WaveformError>(
            WaveformError::ZeroStageWidth,
        ),
        stage_width > 0 && overlap_numerator >= overlap_denominator ==> r == Err::<
            Vec<(usize, usize)>,
            WaveformError,
        >(WaveformError::InvalidOverlap),
        stage_width > 0 && overlap_numerator < overlap_denominator ==> (r matches Ok(v) && v@
            == windowed_bounds(
            padded_len as int,
            stage_width as int,
            overlap_numerator as int,
            overlap_denominator as int,
        )),
{
    if stage_width == 0 {
        return Err(WaveformError::ZeroStageWidth);
    }
    if overlap_numerator >= overlap_denominator {
        return Err(WaveformError::InvalidOverlap);
    }
    let size: usize = padded_len / stage_width;
    proof {
        assert((size as int) * (overlap_numerator as int) <= (size as int) * (overlap_denominator as int))
            by (nonlinear_arith)
            requires size >= 0, overlap_numerator < overlap_denominator;
        assert(size * overlap_numerator < 0x1_0000_0000_0000_0000_0000_0000_0000_0000) by (nonlinear_arith)
            requires size <= 0xffff_ffff_ffff_ffff, overlap_numerator <= 0xffff_ffff_ffff_ffff;
        vstd::arithmetic::div_mod::lemma_div_is_ordered(
            size * overlap_numerator,
            size * overlap_denominator,
            overlap_denominator as int,
        );
        lemma_fundamental_div_mod_converse(size * overlap_denominator, overlap_denominator as int, size as int, 0);
    }
    let overlap: usize = ((size as u128) * (overlap_numerator as u128) / (overlap_denominator as u128)) as usize;
    let step: usize = size - overlap;
    let ghost bounds = windowed_bounds(
        padded_len as int,
        stage_width as int,
        overlap_numerator as int,
        overlap_denominator as int,
    );
    let mut out: Vec<(usize, usize)> = Vec::new();
    let mut i: usize = 0;
    while i < stage_width
        invariant
            i <= stage_width,
            size == padded_len as int / stage_width as int,
            overlap == overlap_size(size as int, overlap_numerator as int, overlap_denominator as int),
            step == size - overlap,
            0 <= step <= size,
            bounds == windowed_bounds(
                padded_len as int,
                stage_width as int,
                overlap_numerator as int,
                overlap_denominator as int,
            ),
            out@ == bounds.take(i as int),
        decreases stage_width - i,
    {
        proof {
            lemma_fundamental_div_mod(padded_len as int, stage_width as int);
            assert(i * step <= padded_len) by (nonlinear_arith)
                requires
                    i < stage_width,
                    0 <= step <= size,
                    padded_len == stage_width * size + padded_len as int % stage_width as int,
                    padded_len as int % stage_width as int >= 0,
            {
                assert(i * step <= i * size);
                assert(i * size <= stage_width * size);
            }
        }
        let start: usize = i * step;
        let end: usize = if size <= padded_len - start { start + size } else { padded_len };
        out.push((start, end));
        assert(out@ =~= bounds.take(i + 1));
        i = i + 1;
    }
    assert(out@ =~= bounds);
    Ok(out)
}

} // verus!
