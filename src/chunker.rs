use vstd::prelude::*;

use crate::error::WaveformError;

verus! {

/// The bit pattern of the magnitude of the `f32` whose pattern is `b`: the
/// sign bit cleared.
pub open spec fn magnitude(b: u32) -> u32 {
    (b % 0x8000_0000) as u32
}

pub open spec fn max_u32(a: u32, b: u32) -> u32 {
    if a >= b { a } else { b }
}

/// The peak at sample position `k` of a stereo pair: the larger magnitude of
/// the channels that reach position `k` (0 where neither does).
pub open spec fn sample_peak(left: Seq<u32>, right: Seq<u32>, k: int) -> u32 {
    let l = if 0 <= k < left.len() { magnitude(left[k]) } else { 0u32 };
    let r = if 0 <= k < right.len() { magnitude(right[k]) } else { 0u32 };
    max_u32(l, r)
}

/// The largest sample peak at the positions `lo .. hi` (0 when there are none).
pub open spec fn window_peak(left: Seq<u32>, right: Seq<u32>, lo: int, hi: int) -> u32
    decreases hi - lo,
{
    if hi <= lo {
        0
    } else {
        max_u32(window_peak(left, right, lo, hi - 1), sample_peak(left, right, hi - 1))
    }
}

pub open spec fn longest(left: Seq<u32>, right: Seq<u32>) -> int {
    if left.len() >= right.len() { left.len() as int } else { right.len() as int }
}

/// `ceil(len / w)`.
pub open spec fn chunk_count(len: int, w: int) -> int {
    (len + w - 1) / w
}

pub open spec fn min_int(a: int, b: int) -> int {
    if a <= b { a } else { b }
}

/// The chunk array of a stereo pair: one peak per window of `w` positions.
pub open spec fn stereo_chunks(left: Seq<u32>, right: Seq<u32>, w: int) -> Seq<u32> {
    let len = longest(left, right);
    Seq::new(
        chunk_count(len, w) as nat,
        |i: int| window_peak(left, right, i * w, min_int(i * w + w, len)),
    )
}

/// The chunk array of a single channel.
pub open spec fn mono_chunks(samples: Seq<u32>, w: int) -> Seq<u32> {
    stereo_chunks(samples, Seq::empty(), w)
}

/// `window_peak` is the maximum of the sample peaks in its range: no peak in
/// the range exceeds it, and a non-empty range attains it.
pub proof fn lemma_window_peak_is_maximum(left: Seq<u32>, right: Seq<u32>, lo: int, hi: int)
    ensures
        forall|k: int| lo <= k < hi ==> sample_peak(left, right, k) <= window_peak(left, right, lo, hi),
        lo < hi ==> exists|k: int|
            lo <= k < hi && sample_peak(left, right, k) == window_peak(left, right, lo, hi),
    decreases hi - lo,
{
    if lo < hi {
        lemma_window_peak_is_maximum(left, right, lo, hi - 1);
        if lo < hi - 1 && window_peak(left, right, lo, hi - 1) >= sample_peak(left, right, hi - 1) {
            let k = choose|k: int|
                lo <= k < hi - 1 && sample_peak(left, right, k) == window_peak(left, right, lo, hi - 1);
            assert(lo <= k < hi && sample_peak(left, right, k) == window_peak(left, right, lo, hi));
        } else {
            if lo == hi - 1 {
                assert(window_peak(left, right, lo, hi - 1) == 0);
            }
            assert(sample_peak(left, right, hi - 1) == window_peak(left, right, lo, hi));
        }
    }
}

/// Every chunk of a stereo pair is the largest sample peak of its window,
/// the window being non-empty: chunk `i` covers positions `i * w` up to
/// `min(i * w + w, len)`.
pub proof fn lemma_chunk_is_window_maximum(left: Seq<u32>, right: Seq<u32>, w: int, i: int)
    requires
        w >= 1,
        0 <= i < stereo_chunks(left, right, w).len(),
    ensures
        ({
            let lo = i * w;
            let hi = min_int(i * w + w, longest(left, right));
            &&& lo < hi
            &&& forall|k: int| lo <= k < hi ==> sample_peak(left, right, k) <= stereo_chunks(left, right, w)[i]
            &&& exists|k: int| lo <= k < hi && sample_peak(left, right, k) == stereo_chunks(left, right, w)[i]
        }),
{
    let len = longest(left, right);
    assert(i * w < len) by (nonlinear_arith)
        requires
            i < (len + w - 1) / w,
            w >= 1,
            i >= 0,
    {
        if i * w >= len {
            assert(len + w - 1 < (i + 1) * w);
            assert((len + w - 1) / w <= i);
        }
    }
    lemma_window_peak_is_maximum(left, right, i * w, min_int(i * w + w, len));
}

/// The chunk array has `ceil(len / w)` elements, `len` being the length of
/// the longer channel.
pub proof fn lemma_chunk_count(left: Seq<u32>, right: Seq<u32>, w: int)
    requires
        w >= 1,
    ensures
        stereo_chunks(left, right, w).len() == chunk_count(longest(left, right), w),
        stereo_chunks(left, right, w).len() * w >= longest(left, right),
        (stereo_chunks(left, right, w).len() - 1) * w < longest(left, right) || longest(left, right) == 0,
{
    let len = longest(left, right);
    let c = chunk_count(len, w);
    assert(c * w >= len && ((c - 1) * w < len || len == 0)) by (nonlinear_arith)
        requires
            c == (len + w - 1) / w,
            w >= 1,
            len >= 0,
    {
        let q = (len + w - 1) / w;
        let r = (len + w - 1) % w;
        assert(len + w - 1 == q * w + r);
    }
}

fn magnitude_of(b: u32) -> (r: u32)
    ensures
        r == magnitude(b),
{
    let r = b & 0x7fff_ffff;
    assert(b & 0x7fff_ffff == b % 0x8000_0000) by (bit_vector);
    r
}

fn peak_at(left: &Vec<u32>, right: &Vec<u32>, k: usize) -> (r: u32)
    ensures
        r == sample_peak(left@, right@, k as int),
{
    let l = if k < left.len() { magnitude_of(left[k]) } else { 0 };
    let r = if k < right.len() { magnitude_of(right[k]) } else { 0 };
    if l >= r { l } else { r }
}

/// Reduces a stereo pair to its chunk array: element `i` is the largest
/// magnitude over both channels at positions `i * window_size` up to the next
/// window. A channel shorter than the other contributes only where it has
/// samples.
pub fn calculate_waveform_chunks(
    left_channel_data: Vec<u32>,
    right_channel_data: Vec<u32>,
    window_size: usize,
) -> (r: Result<Vec<u32>, WaveformError>)
    ensures
        window_size == 0 <==> r == Err::<Vec<u32>, WaveformError>(WaveformError::ZeroWindowSize),
        window_size > 0 ==> (r matches Ok(c) && c@ == stereo_chunks(
            left_channel_data@,
            right_channel_data@,
            window_size as int,
        )),
{
    if window_size == 0 {
        return Err(WaveformError::ZeroWindowSize);
    }
    let len: usize = if left_channel_data.len() >= right_channel_data.len() {
        left_channel_data.len()
    } else {
        right_channel_data.len()
    };
    let ghost w = window_size as int;
    let ghost spec_chunks = stereo_chunks(left_channel_data@, right_channel_data@, w);
    proof {
        if window_size == 1 {
            assert(len % window_size == 0);
        } else {
            assert(len / window_size <= len / 2) by (nonlinear_arith)
                requires window_size >= 2;
        }
    }
    let count: usize = len / window_size + if len % window_size == 0 { 0 } else { 1 };
    proof {
        assert(count == chunk_count(len as int, w)) by (nonlinear_arith)
            requires
                w == window_size,
                w > 0,
                count == len / window_size + if len % window_size == 0 { 0int } else { 1int },
                chunk_count(len as int, w) == (len + w - 1) / w,
        {
            let q = len as int / w;
            let r = len as int % w;
            assert(len == q * w + r);
            if r == 0 {
                assert((q * w + w - 1) / w == q);
            } else {
                assert((q * w + r + w - 1) / w == q + 1);
            }
        }
    }
    let mut chunks: Vec<u32> = Vec::new();
    let mut i: usize = 0;
    while i < count
        invariant
            0 < w == window_size,
            len == longest(left_channel_data@, right_channel_data@),
            count == chunk_count(len as int, w),
            i <= count,
            chunks@.len() == i,
            spec_chunks == stereo_chunks(left_channel_data@, right_channel_data@, w),
            forall|j: int| 0 <= j < i ==> chunks@[j] == spec_chunks[j],
        decreases count - i,
    {
        proof {
            assert(i * w < len) by (nonlinear_arith)
                requires
                    i < count,
                    count == (len + w - 1) / w,
                    w > 0,
            {
                if i * w >= len {
                    assert(len + w - 1 < (i + 1) * w);
                    assert((len + w - 1) / w <= i);
                }
            }
        }
        let start: usize = i * window_size;
        let end: usize = if len - start > window_size { start + window_size } else { len };
        let mut m: u32 = 0;
        let mut k: usize = start;
        while k < end
            invariant
                start <= k <= end <= len,
                m == window_peak(left_channel_data@, right_channel_data@, start as int, k as int),
            decreases end - k,
        {
            let p = peak_at(&left_channel_data, &right_channel_data, k);
            if p > m {
                m = p;
            }
            k = k + 1;
        }
        assert(end == min_int(i * w + w, len as int));
        chunks.push(m);
        i = i + 1;
    }
    assert(chunks@ =~= spec_chunks);
    Ok(chunks)
}

/// Reduces one channel to its chunk array: element `i` is the largest
/// magnitude at positions `i * window_size` up to the next window.
pub fn calculate_mono_waveform_chunks(samples: Vec<u32>, window_size: usize) -> (r: Result<
    Vec<u32>,
    WaveformError,
>)
    ensures
        window_size == 0 <==> r == Err::<Vec<u32>, WaveformError>(WaveformError::ZeroWindowSize),
        window_size > 0 ==> (r matches Ok(c) && c@ == mono_chunks(samples@, window_size as int)),
{
    let none: Vec<u32> = Vec::new();
    proof {
        assert(none@ =~= Seq::<u32>::empty());
    }
    calculate_waveform_chunks(samples, none, window_size)
}

} // verus!
