//! Integer error measures between two 8-bit images of the same size.
use vstd::prelude::*;
use crate::image::BasedImage;

verus! {

/// Sum of the squared byte differences over the first `n` bytes.
pub open spec fn sum_sq_diff(a: Seq<u8>, b: Seq<u8>, n: int) -> int
    decreases n,
{
    if n <= 0 {
        0
    } else {
        sum_sq_diff(a, b, n - 1) + (a[n - 1] - b[n - 1]) * (a[n - 1] - b[n - 1])
    }
}

/// The squared error of two images is zero exactly when they are identical: the mean
/// squared error vanishes (and the PSNR is unbounded) only for equal pixel data.
pub proof fn lemma_squared_error_zero_iff_equal(a: Seq<u8>, b: Seq<u8>, n: int)
    requires
        0 <= n <= a.len(),
        n <= b.len(),
    ensures
        sum_sq_diff(a, b, n) == 0 <==> a.take(n) =~= b.take(n),
    decreases n,
{
    if n > 0 {
        lemma_squared_error_zero_iff_equal(a, b, n - 1);
        lemma_sum_sq_bounds(a, b, n - 1);
        let d = a[n - 1] - b[n - 1];
        assert(d * d >= 0 && (d * d == 0 <==> d == 0)) by (nonlinear_arith);
        if a.take(n) =~= b.take(n) {
            assert(a.take(n - 1) =~= b.take(n - 1)) by {
                assert forall|i: int| 0 <= i < n - 1 implies #[trigger] a.take(n - 1)[i] == b.take(n - 1)[i] by {
                    assert(a.take(n)[i] == b.take(n)[i]);
                }
            }
            assert(a.take(n)[n - 1] == b.take(n)[n - 1]);
        }
        if sum_sq_diff(a, b, n) == 0 {
            assert forall|i: int| 0 <= i < n implies #[trigger] a.take(n)[i] == b.take(n)[i] by {
                if i < n - 1 {
                    assert(a.take(n - 1)[i] == b.take(n - 1)[i]);
                }
            }
        }
    }
}

/// Sum over the first `k` pixels of `out - reference` in channel `c`.
pub open spec fn channel_signed_sum(reference: Seq<u8>, out: Seq<u8>, c: int, k: int) -> int
    decreases k,
{
    if k <= 0 {
        0
    } else {
        channel_signed_sum(reference, out, c, k - 1) + (out[3 * (k - 1) + c] - reference[3 * (k
            - 1) + c])
    }
}

/// Absolute value of an integer.
pub open spec fn abs(x: int) -> int {
    if x < 0 {
        -x
    } else {
        x
    }
}

/// Sum over the first `k` pixels of `|out - reference|` in channel `c`.
pub open spec fn channel_abs_sum(reference: Seq<u8>, out: Seq<u8>, c: int, k: int) -> int
    decreases k,
{
    if k <= 0 {
        0
    } else {
        channel_abs_sum(reference, out, c, k - 1) + abs(
            out[3 * (k - 1) + c] - reference[3 * (k - 1) + c],
        )
    }
}

/// The signed channel error follows the direction of `out − reference`: swapping the two
/// images negates it and keeps the absolute error; its size never exceeds the absolute
/// error; where the output is nowhere below the reference in the channel it equals the
/// absolute error, and where it is nowhere above it, the negated absolute error.
pub proof fn lemma_channel_error_direction(reference: Seq<u8>, out: Seq<u8>, c: int, k: int)
    requires
        0 <= c < 3,
        0 <= k,
        3 * k <= reference.len(),
        3 * k <= out.len(),
    ensures
        channel_signed_sum(out, reference, c, k) == -channel_signed_sum(reference, out, c, k),
        channel_abs_sum(out, reference, c, k) == channel_abs_sum(reference, out, c, k),
        abs(channel_signed_sum(reference, out, c, k)) <= channel_abs_sum(reference, out, c, k),
        (forall|p: int| 0 <= p < k ==> out[3 * p + c] >= #[trigger] reference[3 * p + c])
            ==> channel_signed_sum(reference, out, c, k) == channel_abs_sum(reference, out, c, k),
        (forall|p: int| 0 <= p < k ==> out[3 * p + c] <= #[trigger] reference[3 * p + c])
            ==> channel_signed_sum(reference, out, c, k) == -channel_abs_sum(reference, out, c, k),
    decreases k,
{
    if k > 0 {
        lemma_channel_error_direction(reference, out, c, k - 1);
        let p = k - 1;
        if forall|q: int| 0 <= q < k ==> out[3 * q + c] >= #[trigger] reference[3 * q + c] {
            assert(out[3 * p + c] >= reference[3 * p + c]);
        }
        if forall|q: int| 0 <= q < k ==> out[3 * q + c] <= #[trigger] reference[3 * q + c] {
            assert(out[3 * p + c] <= reference[3 * p + c]);
        }
    }
}

proof fn lemma_sum_sq_bounds(a: Seq<u8>, b: Seq<u8>, n: int)
    requires
        0 <= n <= a.len(),
        n <= b.len(),
    ensures
        0 <= sum_sq_diff(a, b, n) <= 65025 * n,
    decreases n,
{
    if n > 0 {
        lemma_sum_sq_bounds(a, b, n - 1);
        let d = a[n - 1] - b[n - 1];
        assert(0 <= d * d <= 65025) by (nonlinear_arith)
            requires -255 <= d <= 255;
    }
}

proof fn lemma_channel_sum_bounds(reference: Seq<u8>, out: Seq<u8>, c: int, k: int)
    requires
        0 <= c < 3,
        0 <= k,
        3 * k <= reference.len(),
        3 * k <= out.len(),
    ensures
        -255 * k <= channel_signed_sum(reference, out, c, k) <= 255 * k,
        0 <= channel_abs_sum(reference, out, c, k) <= 255 * k,
    decreases k,
{
    if k > 0 {
        lemma_channel_sum_bounds(reference, out, c, k - 1);
    }
}

/// Sum of the squared differences of all corresponding bytes of `a` and `b`: the
/// numerator of their mean squared error.
pub fn squared_error_sum(a: &BasedImage, b: &BasedImage) -> (s: u128)
    requires
        a.wf(),
        b.wf(),
        a.w == b.w,
        a.h == b.h,
    ensures
        s == sum_sq_diff(a.data@, b.data@, a.data@.len() as int),
{
    let n = a.data.len();
    let mut s: u128 = 0;
    let mut i: usize = 0;
    while i < n
        invariant
            n == a.data@.len(),
            n == b.data@.len(),
            0 <= i <= n,
            s == sum_sq_diff(a.data@, b.data@, i as int),
        decreases n - i,
    {
        proof {
            lemma_sum_sq_bounds(a.data@, b.data@, i as int + 1);
        }
        let x = a.data[i] as i32;
        let y = b.data[i] as i32;
        let d = x - y;
        assert(0 <= d * d <= 65025) by (nonlinear_arith)
            requires -255 <= d <= 255;
        let sq = (d * d) as u128;
        assert(sq == (a.data@[i as int] - b.data@[i as int]) * (a.data@[i as int] - b.data@[
            i as int
        ])) by (nonlinear_arith)
            requires
                d == x - y,
                -255 <= d <= 255,
                x == a.data@[i as int],
                y == b.data@[i as int],
                sq == d * d as int,
        ;
        assert(65025 * (i + 1) <= 65025 * 0x1_0000_0000_0000_0000int) by (nonlinear_arith)
            requires i < n, n <= usize::MAX;
        s = s + sq;
        i += 1;
    }
    s
}

/// Per-channel error totals of `out` against `reference`, in buffer channel order.
pub struct ChannelErrors {
    /// Sum of `out - reference` for each channel.
    pub signed: [i128; 3],
    /// Sum of `|out - reference|` for each channel.
    pub abs: [u128; 3],
}

/// Per-channel signed and absolute error sums of `out` against `reference`.
pub fn channel_error_sums(reference: &BasedImage, out: &BasedImage) -> (e: ChannelErrors)
    requires
        reference.wf(),
        out.wf(),
        reference.w == out.w,
        reference.h == out.h,
    ensures
        forall|c: int|
            0 <= c < 3 ==> {
                &&& e.signed[c] == channel_signed_sum(
                    reference.data@,
                    out.data@,
                    c,
                    reference.pixel_count(),
                )
                &&& e.abs[c] == channel_abs_sum(
                    reference.data@,
                    out.data@,
                    c,
                    reference.pixel_count(),
                )
            },
{
    let len = reference.data.len();
    let npix = len / 3;
    let mut signed: [i128; 3] = [0, 0, 0];
    let mut abs_sum: [u128; 3] = [0, 0, 0];
    let mut k: usize = 0;
    while k < npix
        invariant
            npix == reference.data@.len() / 3,
            len == reference.data@.len(),
            reference.data@.len() == out.data@.len(),
            reference.data@.len() == reference.w * reference.h * 3,
            0 <= k <= npix,
            forall|c: int|
                0 <= c < 3 ==> {
                    &&& signed[c] == channel_signed_sum(reference.data@, out.data@, c, k as int)
                    &&& abs_sum[c] == channel_abs_sum(reference.data@, out.data@, c, k as int)
                },
        decreases npix - k,
    {
        assert(3 * k + 2 < reference.data@.len()) by (nonlinear_arith)
            requires
                k < npix,
                npix == reference.data@.len() / 3,
        ;
        let mut c: usize = 0;
        while c < 3
            invariant
                0 <= c <= 3,
                k < npix,
                npix == reference.data@.len() / 3,
                3 * k + 2 < reference.data@.len(),
                len == reference.data@.len(),
                reference.data@.len() == out.data@.len(),
                forall|cc: int|
                    0 <= cc < 3 ==> {
                        &&& signed[cc] == if cc < c {
                            channel_signed_sum(reference.data@, out.data@, cc, k + 1)
                        } else {
                            channel_signed_sum(reference.data@, out.data@, cc, k as int)
                        }
                        &&& abs_sum[cc] == if cc < c {
                            channel_abs_sum(reference.data@, out.data@, cc, k + 1)
                        } else {
                            channel_abs_sum(reference.data@, out.data@, cc, k as int)
                        }
                    },
            decreases 3 - c,
        {
            proof {
                lemma_channel_sum_bounds(reference.data@, out.data@, c as int, k as int + 1);
            }
            assert(255 * (k + 1) <= 255 * 0x1_0000_0000_0000_0000int) by (nonlinear_arith)
                requires k < npix, npix <= usize::MAX;
            let x = out.data[3 * k + c] as i128;
            let y = reference.data[3 * k + c] as i128;
            let d = x - y;
            signed[c] = signed[c] + d;
            let ad: u128 = if d < 0 { (y - x) as u128 } else { d as u128 };
            abs_sum[c] = abs_sum[c] + ad;
            c += 1;
        }
        k += 1;
    }
    ChannelErrors { signed, abs: abs_sum }
}


/// Squared CIE76 colour difference of pixel `i` of two 8-bit Lab buffers, in units of
/// 1/65025 (that is, 1/255²). OpenCV stores L* as `L·255/100` and a*, b* as offsets by
/// 128, so with 8-bit differences `dL`, `da`, `db` the real difference is
/// `ΔE² = (dL·100/255)² + da² + db² = (10000·dL² + 65025·(da² + db²)) / 65025`.
pub open spec fn pixel_delta_e_sq(lab1: Seq<u8>, lab2: Seq<u8>, i: int) -> int {
    let dl = lab1[3 * i] - lab2[3 * i];
    let da = lab1[3 * i + 1] - lab2[3 * i + 1];
    let db = lab1[3 * i + 2] - lab2[3 * i + 2];
    10000 * (dl * dl) + 65025 * (da * da + db * db)
}

/// How the squared ΔE responds to each channel: a pixel pair that differs only in
/// lightness by `d` 8-bit steps gives `10000·d²` (ΔE = d·100/255), one that differs only in
/// a* or only in b* by `d` gives `65025·d²` (ΔE = d); the value is the sum of the three
/// single-channel contributions, is symmetric in the two images and in the a*/b*
/// channels, and is zero exactly for identical pixels.
pub proof fn lemma_delta_e_channels(lab1: Seq<u8>, lab2: Seq<u8>, i: int)
    requires
        0 <= i,
        3 * i + 2 < lab1.len(),
        3 * i + 2 < lab2.len(),
    ensures
        lab1[3 * i] == lab2[3 * i] && lab1[3 * i + 1] == lab2[3 * i + 1] ==> pixel_delta_e_sq(
            lab1,
            lab2,
            i,
        ) == 65025 * ((lab1[3 * i + 2] - lab2[3 * i + 2]) * (lab1[3 * i + 2] - lab2[3 * i + 2])),
        lab1[3 * i] == lab2[3 * i] && lab1[3 * i + 2] == lab2[3 * i + 2] ==> pixel_delta_e_sq(
            lab1,
            lab2,
            i,
        ) == 65025 * ((lab1[3 * i + 1] - lab2[3 * i + 1]) * (lab1[3 * i + 1] - lab2[3 * i + 1])),
        lab1[3 * i + 1] == lab2[3 * i + 1] && lab1[3 * i + 2] == lab2[3 * i + 2]
            ==> pixel_delta_e_sq(lab1, lab2, i) == 10000 * ((lab1[3 * i] - lab2[3 * i]) * (lab1[3
            * i] - lab2[3 * i])),
        pixel_delta_e_sq(lab1, lab2, i) == pixel_delta_e_sq(lab2, lab1, i),
        pixel_delta_e_sq(lab1, lab2, i) == pixel_delta_e_sq(
            lab1.update(3 * i + 1, lab1[3 * i + 2]).update(3 * i + 2, lab1[3 * i + 1]),
            lab2.update(3 * i + 1, lab2[3 * i + 2]).update(3 * i + 2, lab2[3 * i + 1]),
            i,
        ),
        pixel_delta_e_sq(lab1, lab2, i) >= 0,
        pixel_delta_e_sq(lab1, lab2, i) == 0 <==> (lab1[3 * i] == lab2[3 * i] && lab1[3 * i + 1]
            == lab2[3 * i + 1] && lab1[3 * i + 2] == lab2[3 * i + 2]),
{
    let dl = lab1[3 * i] - lab2[3 * i];
    let da = lab1[3 * i + 1] - lab2[3 * i + 1];
    let db = lab1[3 * i + 2] - lab2[3 * i + 2];
    assert(dl * dl >= 0 && da * da >= 0 && db * db >= 0) by (nonlinear_arith);
    assert(dl == 0 ==> dl * dl == 0);
    assert(da == 0 ==> da * da == 0);
    assert(db == 0 ==> db * db == 0);
    assert(10000 * (dl * dl) + 65025 * (da * da + db * db) == 0 ==> dl == 0 && da == 0 && db == 0)
        by (nonlinear_arith)
        requires dl * dl >= 0, da * da >= 0, db * db >= 0;
    assert((-dl) * (-dl) == dl * dl && (-da) * (-da) == da * da && (-db) * (-db) == db * db)
        by (nonlinear_arith);
    assert(lab2[3 * i] - lab1[3 * i] == -dl);
    assert(lab2[3 * i + 1] - lab1[3 * i + 1] == -da);
    assert(lab2[3 * i + 2] - lab1[3 * i + 2] == -db);
}

/// Scale of squared ΔE values: a squared ΔE of 1 is 65025 units.
pub const DELTA_E_SQ_UNIT: u64 = 65025;

fn byte_diff_sq(x: u8, y: u8) -> (s: u64)
    ensures
        s == (x - y) * (x - y),
        s <= 65025,
{
    let d: i32 = x as i32 - y as i32;
    assert(0 <= d * d <= 65025) by (nonlinear_arith)
        requires -255 <= d <= 255;
    (d * d) as u64
}

/// Per-pixel squared CIE76 colour difference (L* on its 0–100 scale) of two 8-bit Lab
/// images of the same size, in units of 1/65025; the ΔE map is `√(d / 65025)`.
pub fn delta_e_squared_map(lab1: &BasedImage, lab2: &BasedImage) -> (map: Vec<u64>)
    requires
        lab1.wf(),
        lab2.wf(),
        lab1.w == lab2.w,
        lab1.h == lab2.h,
    ensures
        map@.len() == lab1.pixel_count(),
        forall|i: int|
            0 <= i < map@.len() ==> #[trigger] map@[i] == pixel_delta_e_sq(
                lab1.data@,
                lab2.data@,
                i,
            ),
{
    let len = lab1.data.len();
    let npix = len / 3;
    let mut map: Vec<u64> = Vec::with_capacity(npix);
    let mut k: usize = 0;
    while k < npix
        invariant
            len == lab1.data@.len(),
            len == lab2.data@.len(),
            npix == len / 3,
            0 <= k <= npix,
            map@.len() == k,
            forall|i: int|
                0 <= i < k ==> #[trigger] map@[i] == pixel_delta_e_sq(lab1.data@, lab2.data@, i),
        decreases npix - k,
    {
        assert(3 * k + 2 < len) by (nonlinear_arith)
            requires k < npix, npix == len / 3;
        let l = byte_diff_sq(lab1.data[3 * k], lab2.data[3 * k]);
        let a = byte_diff_sq(lab1.data[3 * k + 1], lab2.data[3 * k + 1]);
        let b = byte_diff_sq(lab1.data[3 * k + 2], lab2.data[3 * k + 2]);
        assert(10000 * l + 65025 * (a + b) <= 10000 * 65025 + 65025 * 130050) by (nonlinear_arith)
            requires l <= 65025, a <= 65025, b <= 65025;
        map.push(10000 * l + DELTA_E_SQ_UNIT * (a + b));
        k += 1;
    }
    map
}

/// The error band of a pixel whose squared ΔE, in units of 1/65025, is `d2`: 0 for
/// ΔE < 1, 1 for 1 ≤ ΔE < 2, 2 for 2 ≤ ΔE < 5 and 3 for ΔE ≥ 5.
pub open spec fn error_band_spec(d2: int) -> int {
    if d2 < 65025 {
        0
    } else if d2 < 4 * 65025 {
        1
    } else if d2 < 25 * 65025 {
        2
    } else {
        3
    }
}

/// Error band (0 to 3) of a pixel whose squared ΔE is `d2`.
pub fn error_band(d2: u64) -> (band: usize)
    ensures
        band == error_band_spec(d2 as int),
        band < 4,
{
    if d2 < DELTA_E_SQ_UNIT {
        0
    } else if d2 < 4 * DELTA_E_SQ_UNIT {
        1
    } else if d2 < 25 * DELTA_E_SQ_UNIT {
        2
    } else {
        3
    }
}

/// A larger squared ΔE never falls in a lower error band.
pub proof fn lemma_error_band_monotone(d2a: int, d2b: int)
    requires
        d2a <= d2b,
    ensures
        error_band_spec(d2a) <= error_band_spec(d2b),
        0 <= error_band_spec(d2a) < 4,
{
}

/// For a pixel pair that differs in one chroma channel only, by `d` steps (so ΔE = d), the
/// error band is 0 exactly when `d = 0`, 1 when `d = 1`, 2 when `2 ≤ d ≤ 4` and 3 when
/// `d ≥ 5`.
pub proof fn lemma_error_band_of_chroma_step(lab1: Seq<u8>, lab2: Seq<u8>, i: int)
    requires
        0 <= i,
        3 * i + 2 < lab1.len(),
        3 * i + 2 < lab2.len(),
        lab1[3 * i] == lab2[3 * i],
        lab1[3 * i + 1] == lab2[3 * i + 1] || lab1[3 * i + 2] == lab2[3 * i + 2],
    ensures
        ({
            let d = abs(lab1[3 * i + 1] - lab2[3 * i + 1]) + abs(lab1[3 * i + 2] - lab2[3 * i + 2]);
            error_band_spec(pixel_delta_e_sq(lab1, lab2, i)) == if d == 0 {
                0int
            } else if d == 1 {
                1int
            } else if d <= 4 {
                2int
            } else {
                3int
            }
        }),
{
    lemma_delta_e_channels(lab1, lab2, i);
    let d = abs(lab1[3 * i + 1] - lab2[3 * i + 1]) + abs(lab1[3 * i + 2] - lab2[3 * i + 2]);
    let e = pixel_delta_e_sq(lab1, lab2, i);
    if lab1[3 * i + 1] == lab2[3 * i + 1] {
        let x = lab1[3 * i + 2] - lab2[3 * i + 2];
        assert(x * x == d * d) by (nonlinear_arith)
            requires d == abs(x);
        assert(e == 65025 * (d * d));
    } else {
        let x = lab1[3 * i + 1] - lab2[3 * i + 1];
        assert(x * x == d * d) by (nonlinear_arith)
            requires d == abs(x);
        assert(e == 65025 * (d * d));
    }
    assert(d >= 0);
    assert(d == 0 ==> e == 0);
    assert(d == 1 ==> d * d == 1) by (nonlinear_arith);
    assert(d == 1 ==> e == 65025);
    assert(2 <= d <= 4 ==> 4 * 65025 <= e < 25 * 65025) by (nonlinear_arith)
        requires e == 65025 * (d * d);
    assert(d >= 5 ==> e >= 25 * 65025) by (nonlinear_arith)
        requires e == 65025 * (d * d);
}

/// Number of the first `n` entries of `map` that fall in error band `band`.
pub open spec fn band_count(map: Seq<u64>, band: int, n: int) -> int
    decreases n,
{
    if n <= 0 {
        0
    } else {
        band_count(map, band, n - 1) + if error_band_spec(map[n - 1] as int) == band {
            1int
        } else {
            0int
        }
    }
}

proof fn lemma_band_counts_total(map: Seq<u64>, n: int)
    requires
        0 <= n,
    ensures
        band_count(map, 0, n) + band_count(map, 1, n) + band_count(map, 2, n) + band_count(
            map,
            3,
            n,
        ) == n,
        forall|b: int| 0 <= b < 4 ==> 0 <= #[trigger] band_count(map, b, n) <= n,
    decreases n,
{
    if n > 0 {
        lemma_band_counts_total(map, n - 1);
    }
}

/// How many pixels of a squared-ΔE map fall in each error band
/// (ΔE < 1, 1 ≤ ΔE < 2, 2 ≤ ΔE < 5, ΔE ≥ 5).
pub fn error_distribution(map: &Vec<u64>) -> (counts: [usize; 4])
    ensures
        forall|b: int|
            0 <= b < 4 ==> #[trigger] counts[b] == band_count(map@, b, map@.len() as int),
{
    let n = map.len();
    let mut counts: [usize; 4] = [0, 0, 0, 0];
    let mut i: usize = 0;
    while i < n
        invariant
            n == map@.len(),
            0 <= i <= n,
            forall|b: int| 0 <= b < 4 ==> #[trigger] counts[b] == band_count(map@, b, i as int),
        decreases n - i,
    {
        proof {
            lemma_band_counts_total(map@, i as int + 1);
            assert(band_count(map@, 0, i + 1) <= i + 1);
        }
        let band = error_band(map[i]);
        counts[band] = counts[band] + 1;
        i += 1;
    }
    counts
}

/// Every pixel of a squared-ΔE map falls in exactly one error band, so the band counts
/// add up to the number of pixels.
pub proof fn lemma_distribution_covers_all(map: Seq<u64>)
    ensures
        band_count(map, 0, map.len() as int) + band_count(map, 1, map.len() as int) + band_count(
            map,
            2,
            map.len() as int,
        ) + band_count(map, 3, map.len() as int) == map.len(),
{
    lemma_band_counts_total(map, map.len() as int);
}

/// The BGR colour that the banded error map gives to band `band`: blue, green, yellow,
/// red.
pub open spec fn band_color(band: int) -> (u8, u8, u8) {
    if band == 0 {
        (255, 100, 0)
    } else if band == 1 {
        (100, 255, 0)
    } else if band == 2 {
        (0, 255, 255)
    } else {
        (50, 50, 255)
    }
}

/// The banded error map: a `w × h` BGR image colouring each pixel of a squared-ΔE map
/// by its error band.
pub fn create_custom_colormap(map: &Vec<u64>, w: usize, h: usize) -> (img: BasedImage)
    requires
        map@.len() == w * h,
        w * h * 3 <= usize::MAX,
    ensures
        img.wf(),
        img.w == w,
        img.h == h,
        forall|i: int|
            0 <= i < w * h ==> {
                let col = band_color(error_band_spec(map@[i] as int));
                &&& #[trigger] img.data@[3 * i] == col.0
                &&& img.data@[3 * i + 1] == col.1
                &&& img.data@[3 * i + 2] == col.2
            },
{
    let n = map.len();
    let mut data: Vec<u8> = Vec::with_capacity(n * 3);
    let mut i: usize = 0;
    while i < n
        invariant
            n == map@.len(),
            n * 3 <= usize::MAX,
            0 <= i <= n,
            data@.len() == 3 * i,
            forall|j: int|
                0 <= j < i ==> {
                    let col = band_color(error_band_spec(map@[j] as int));
                    &&& #[trigger] data@[3 * j] == col.0
                    &&& data@[3 * j + 1] == col.1
                    &&& data@[3 * j + 2] == col.2
                },
        decreases n - i,
    {
        let band = error_band(map[i]);
        let (b, g, r): (u8, u8, u8) = if band == 0 {
            (255, 100, 0)
        } else if band == 1 {
            (100, 255, 0)
        } else if band == 2 {
            (0, 255, 255)
        } else {
            (50, 50, 255)
        };
        let ghost prev = data@;
        data.push(b);
        data.push(g);
        data.push(r);
        proof {
            assert forall|j: int|
                0 <= j < i + 1 implies {
                    let col = band_color(error_band_spec(map@[j] as int));
                    &&& #[trigger] data@[3 * j] == col.0
                    &&& data@[3 * j + 1] == col.1
                    &&& data@[3 * j + 2] == col.2
                } by {
                if j < i {
                    assert(data@[3 * j] == prev[3 * j]);
                    assert(data@[3 * j + 1] == prev[3 * j + 1]);
                    assert(data@[3 * j + 2] == prev[3 * j + 2]);
                }
            }
        }
        i += 1;
    }
    BasedImage { w, h, data }
}


/// Histogram bin of a lightness difference `e` (8-bit L scale): the nearest integer to
/// `e·100/255` (never a tie for an integer `e`), shifted by 25 and clamped to `0..=50`.
pub open spec fn l_diff_bin_spec(e: int) -> int {
    let r = (40 * e + 51) / 102;
    if r + 25 < 0 {
        0
    } else if r + 25 > 50 {
        50
    } else {
        r + 25
    }
}

/// Histogram bin of a lightness difference `e` of two 8-bit L values.
pub fn l_diff_bin(e: i32) -> (bin: usize)
    requires
        -255 <= e <= 255,
    ensures
        bin == l_diff_bin_spec(e as int),
        bin <= 50,
{
    let x: i32 = 40 * e + 51;
    let r: i32 = if x >= 0 {
        x / 102
    } else {
        -((-x + 101) / 102)
    };
    assert(r == x / 102) by (nonlinear_arith)
        requires
            x >= 0 ==> r == x / 102,
            x < 0 ==> r == -((-x + 101) / 102),
            -10200 <= x <= 10300,
    ;
    let shifted = r + 25;
    if shifted < 0 {
        0
    } else if shifted > 50 {
        50
    } else {
        shifted as usize
    }
}

/// Lightness difference (`out − reference`, 8-bit L) of pixel `i` of two Lab buffers.
pub open spec fn l_diff(reference: Seq<u8>, out: Seq<u8>, i: int) -> int {
    out[3 * i] - reference[3 * i]
}

/// Number of the first `n` pixels whose lightness difference falls in bin `k`.
pub open spec fn l_bin_count(reference: Seq<u8>, out: Seq<u8>, k: int, n: int) -> int
    decreases n,
{
    if n <= 0 {
        0
    } else {
        l_bin_count(reference, out, k, n - 1) + if l_diff_bin_spec(l_diff(reference, out, n - 1))
            == k {
            1int
        } else {
            0int
        }
    }
}

proof fn lemma_l_bin_count_bound(reference: Seq<u8>, out: Seq<u8>, k: int, n: int)
    requires
        0 <= n,
    ensures
        0 <= l_bin_count(reference, out, k, n) <= n,
    decreases n,
{
    if n > 0 {
        lemma_l_bin_count_bound(reference, out, k, n - 1);
    }
}

/// The lightness bin follows the sign of the difference: rounding is symmetric about
/// zero, so bin(−e) = 50 − bin(e); a darker output (e < 0) lands at or below the centre
/// bin 25, a brighter one at or above it, and a difference of exactly zero in bin 25.
pub proof fn lemma_l_diff_bin_signed(e: int)
    requires
        -255 <= e <= 255,
    ensures
        l_diff_bin_spec(-e) == 50 - l_diff_bin_spec(e),
        e < 0 ==> l_diff_bin_spec(e) <= 25,
        e > 0 ==> l_diff_bin_spec(e) >= 25,
        e == 0 ==> l_diff_bin_spec(e) == 25,
        e <= -2 ==> l_diff_bin_spec(e) < 25,
        e >= 2 ==> l_diff_bin_spec(e) > 25,
{
    let x = 40 * e + 51;
    let y = 40 * (-e) + 51;
    let q = x / 102;
    let r = x % 102;
    let q2 = y / 102;
    assert(x == 102 * q + r && 0 <= r < 102) by (nonlinear_arith)
        requires q == x / 102, r == x % 102;
    assert(r != 0) by (nonlinear_arith)
        requires x == 40 * e + 51, x == 102 * q + r;
    assert(y == 102 * (-q) + (102 - r));
    assert(q2 == -q) by (nonlinear_arith)
        requires y == 102 * (-q) + (102 - r), 0 < 102 - r < 102, q2 == y / 102;
    assert(e < 0 ==> q <= 0) by (nonlinear_arith)
        requires x == 40 * e + 51, x == 102 * q + r, 0 <= r < 102;
    assert(e > 0 ==> q >= 0) by (nonlinear_arith)
        requires x == 40 * e + 51, x == 102 * q + r, 0 <= r < 102;
    assert(e <= -2 ==> q <= -1) by (nonlinear_arith)
        requires x == 40 * e + 51, x == 102 * q + r, 0 <= r < 102;
    assert(e >= 2 ==> q >= 1) by (nonlinear_arith)
        requires x == 40 * e + 51, x == 102 * q + r, 0 <= r < 102;
    assert(e == 0 ==> q == 0) by (nonlinear_arith)
        requires x == 40 * e + 51, x == 102 * q + r, 0 <= r < 102;
}

/// The lightness bin is the L* difference `e·100/255` rounded to the nearest integer and
/// shifted by 25: inside the histogram the bin's centre is within half a unit of it, the
/// first bin takes everything from −24.5 down and the last everything from 24.5 up.
pub proof fn lemma_l_diff_bin_nearest(e: int)
    requires
        -255 <= e <= 255,
    ensures
        0 <= l_diff_bin_spec(e) <= 50,
        0 < l_diff_bin_spec(e) < 50 ==> -255 <= 200 * e - 510 * (l_diff_bin_spec(e) - 25) <= 255,
        l_diff_bin_spec(e) == 0 ==> 200 * e <= 510 * -25 + 255,
        l_diff_bin_spec(e) == 50 ==> 200 * e >= 510 * 25 - 255,
{
    let x = 40 * e + 51;
    let q = x / 102;
    assert(102 * q <= x < 102 * q + 102) by (nonlinear_arith)
        requires q == x / 102;
}

/// Swapping the reference and the output mirrors the lightness histogram: pixels counted
/// in bin `k` for `out − reference` are counted in bin `50 − k` for `reference − out`.
pub proof fn lemma_l_histogram_mirror(reference: Seq<u8>, out: Seq<u8>, k: int, n: int)
    requires
        0 <= n,
        3 * n <= reference.len(),
        3 * n <= out.len(),
    ensures
        l_bin_count(out, reference, 50 - k, n) == l_bin_count(reference, out, k, n),
    decreases n,
{
    if n > 0 {
        lemma_l_histogram_mirror(reference, out, k, n - 1);
        let e = l_diff(reference, out, n - 1);
        lemma_l_diff_bin_signed(e);
        assert(l_diff(out, reference, n - 1) == -e);
    }
}

/// A pixel whose output lightness is below the reference is counted at or below the centre
/// bin of the histogram, one above it at or above the centre.
pub proof fn lemma_l_diff_direction(reference: Seq<u8>, out: Seq<u8>, i: int)
    requires
        0 <= i,
        3 * i < reference.len(),
        3 * i < out.len(),
    ensures
        out[3 * i] < reference[3 * i] ==> l_diff_bin_spec(l_diff(reference, out, i)) <= 25,
        out[3 * i] > reference[3 * i] ==> l_diff_bin_spec(l_diff(reference, out, i)) >= 25,
        out[3 * i] + 2 <= reference[3 * i] ==> l_diff_bin_spec(l_diff(reference, out, i)) < 25,
        out[3 * i] >= reference[3 * i] + 2 ==> l_diff_bin_spec(l_diff(reference, out, i)) > 25,
{
    lemma_l_diff_bin_signed(out[3 * i] - reference[3 * i]);
}

/// Distribution of the lightness difference `out − reference` between two 8-bit Lab
/// images, in 51 bins of one L* unit from −25 to +25 (the end bins also take everything
/// beyond).
pub fn l_difference_histogram(reference: &BasedImage, out: &BasedImage) -> (hist: Vec<u64>)
    requires
        reference.wf(),
        out.wf(),
        reference.w == out.w,
        reference.h == out.h,
    ensures
        hist@.len() == 51,
        forall|k: int|
            0 <= k < 51 ==> #[trigger] hist@[k] == l_bin_count(
                reference.data@,
                out.data@,
                k,
                reference.pixel_count(),
            ),
{
    let mut hist: Vec<u64> = Vec::new();
    let mut k: usize = 0;
    while k < 51
        invariant
            0 <= k <= 51,
            hist@.len() == k,
            forall|j: int| 0 <= j < k ==> #[trigger] hist@[j] == 0,
        decreases 51 - k,
    {
        hist.push(0);
        k += 1;
    }
    let len = reference.data.len();
    let npix = len / 3;
    let mut i: usize = 0;
    while i < npix
        invariant
            len == reference.data@.len(),
            len == out.data@.len(),
            npix == len / 3,
            0 <= i <= npix,
            hist@.len() == 51,
            forall|j: int|
                0 <= j < 51 ==> #[trigger] hist@[j] == l_bin_count(
                    reference.data@,
                    out.data@,
                    j,
                    i as int,
                ),
        decreases npix - i,
    {
        assert(3 * i + 2 < len) by (nonlinear_arith)
            requires i < npix, npix == len / 3;
        let e: i32 = out.data[3 * i] as i32 - reference.data[3 * i] as i32;
        let bin = l_diff_bin(e);
        proof {
            lemma_l_bin_count_bound(reference.data@, out.data@, bin as int, i as int);
        }
        let ghost prev = hist@;
        hist[bin] = hist[bin] + 1;
        proof {
            assert forall|j: int|
                0 <= j < 51 implies #[trigger] hist@[j] == l_bin_count(
                reference.data@,
                out.data@,
                j,
                i + 1,
            ) by {
                if j != bin {
                    assert(hist@[j] == prev[j]);
                }
            }
        }
        i += 1;
    }
    hist
}


/// Number of the first `n` pixels of a BGR buffer that have colour `col`.
pub open spec fn color_count(data: Seq<u8>, col: (u8, u8, u8), n: int) -> int
    decreases n,
{
    if n <= 0 {
        0
    } else {
        color_count(data, col, n - 1) + if data[3 * (n - 1)] == col.0 && data[3 * (n - 1) + 1]
            == col.1 && data[3 * (n - 1) + 2] == col.2 {
            1int
        } else {
            0int
        }
    }
}

/// In the banded error map, the number of pixels painted in band `k`'s colour equals the
/// number of pixels that the distribution counts in band `k`, so the map and the
/// percentages describe the same pixels.
pub proof fn lemma_colormap_matches_distribution(map: Seq<u64>, data: Seq<u8>, n: int, k: int)
    requires
        0 <= n <= map.len(),
        3 * n <= data.len(),
        0 <= k < 4,
        forall|i: int|
            0 <= i < n ==> {
                let col = band_color(error_band_spec(map[i] as int));
                &&& #[trigger] data[3 * i] == col.0
                &&& data[3 * i + 1] == col.1
                &&& data[3 * i + 2] == col.2
            },
    ensures
        color_count(data, band_color(k), n) == band_count(map, k, n),
    decreases n,
{
    if n > 0 {
        lemma_colormap_matches_distribution(map, data, n - 1, k);
        let j = n - 1;
        let b = error_band_spec(map[j] as int);
        assert(data[3 * j] == band_color(b).0);
    }
}

/// Number of the first `n` entries of `map` that are at most `v`.
pub open spec fn count_at_most(map: Seq<u64>, v: int, n: int) -> int
    decreases n,
{
    if n <= 0 {
        0
    } else {
        count_at_most(map, v, n - 1) + if map[n - 1] <= v {
            1int
        } else {
            0int
        }
    }
}

proof fn lemma_count_at_most_props(map: Seq<u64>, v: int, w: int, n: int)
    requires
        0 <= n <= map.len(),
        v <= w,
    ensures
        0 <= count_at_most(map, v, n) <= count_at_most(map, w, n) <= n,
        w >= u64::MAX ==> count_at_most(map, w, n) == n,
        count_at_most(map, v, n) < count_at_most(map, v + 1, n) ==> exists|i: int|
            0 <= i < n && #[trigger] map[i] == v + 1,
    decreases n,
{
    if n > 0 {
        lemma_count_at_most_props(map, v, w, n - 1);
        if count_at_most(map, v, n) < count_at_most(map, v + 1, n) && count_at_most(map, v, n - 1)
            == count_at_most(map, v + 1, n - 1) {
            assert(map[n - 1] == v + 1);
        }
    }
}

fn count_entries_at_most(map: &Vec<u64>, v: u64) -> (c: usize)
    ensures
        c == count_at_most(map@, v as int, map@.len() as int),
{
    let n = map.len();
    let mut c: usize = 0;
    let mut i: usize = 0;
    while i < n
        invariant
            n == map@.len(),
            0 <= i <= n,
            c == count_at_most(map@, v as int, i as int),
        decreases n - i,
    {
        proof {
            lemma_count_at_most_props(map@, v as int, v as int, i as int);
        }
        if map[i] <= v {
            c += 1;
        }
        i += 1;
    }
    c
}

/// The entry of rank `k` (counting from 0) of `map` in increasing order: the smallest
/// value with more than `k` entries at or below it. The median of a map of `n` entries
/// is its entry of rank `n / 2`.
pub fn kth_smallest(map: &Vec<u64>, k: usize) -> (r: u64)
    requires
        k < map@.len(),
    ensures
        count_at_most(map@, r as int, map@.len() as int) > k,
        r == 0 || count_at_most(map@, r - 1, map@.len() as int) <= k,
        exists|i: int| 0 <= i < map@.len() && #[trigger] map@[i] == r,
{
    let ghost n = map@.len() as int;
    proof {
        lemma_count_at_most_props(map@, u64::MAX as int, u64::MAX as int, n);
    }
    let mut lo: u64 = 0;
    let mut hi: u64 = u64::MAX;
    while lo < hi
        invariant
            n == map@.len(),
            k < n,
            lo <= hi,
            count_at_most(map@, hi as int, n) > k,
            lo == 0 || count_at_most(map@, lo - 1, n) <= k,
        decreases hi - lo,
    {
        let mid = lo + (hi - lo) / 2;
        if count_entries_at_most(map, mid) > k {
            hi = mid;
        } else {
            lo = mid + 1;
        }
    }
    proof {
        if lo == 0 {
            assert(count_at_most(map@, -1, n) == 0) by {
                lemma_count_zero_below(map@, n);
            }
        }
        lemma_count_at_most_props(map@, lo - 1, lo - 1, n);
    }
    lo
}

proof fn lemma_count_zero_below(map: Seq<u64>, n: int)
    requires
        0 <= n <= map.len(),
    ensures
        count_at_most(map, -1, n) == 0,
    decreases n,
{
    if n > 0 {
        lemma_count_zero_below(map, n - 1);
    }
}

/// The largest entry of `map` (0 for an empty map).
pub fn max_entry(map: &Vec<u64>) -> (m: u64)
    ensures
        forall|i: int| 0 <= i < map@.len() ==> #[trigger] map@[i] <= m,
        map@.len() > 0 ==> exists|i: int| 0 <= i < map@.len() && #[trigger] map@[i] == m,
        map@.len() == 0 ==> m == 0,
{
    let n = map.len();
    let mut m: u64 = 0;
    let mut i: usize = 0;
    while i < n
        invariant
            n == map@.len(),
            0 <= i <= n,
            forall|j: int| 0 <= j < i ==> #[trigger] map@[j] <= m,
            i > 0 ==> exists|j: int| 0 <= j < i && #[trigger] map@[j] == m,
            i == 0 ==> m == 0,
        decreases n - i,
    {
        if i == 0 || map[i] > m {
            m = map[i];
        }
        i += 1;
    }
    m
}

} // verus!
