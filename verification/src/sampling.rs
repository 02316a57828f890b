//! Stratified sampling of pixels by their Lab colour bucket.
use vstd::prelude::*;
use rand::rngs::StdRng;
use rand::seq::SliceRandom;

verus! {

/// The standard seeded generator of `rand`, carried through as an opaque value.
#[verifier::external_type_specification]
#[verifier::external_body]
pub struct ExStdRng(StdRng);

/// Number of buckets per Lab axis.
pub const BUCKETS_PER_AXIS: usize = 8;

/// Number of Lab buckets (8 × 8 × 8).
pub const BUCKET_COUNT: usize = 512;

/// Most pixels kept from one bucket of one image.
pub const SAMPLES_PER_BUCKET: usize = 200;

/// Bucket of an 8-bit Lab pixel (OpenCV's encoding: `L* = l·100/255`, `a* = a − 128`,
/// `b* = b − 128`): L* is cut into eight ranges of 12.5, a* and b* into eight ranges of
/// 32 units each. For every 8-bit input these integer formulas give the bins that
/// flooring the real-valued quotients gives.
pub open spec fn bucket_spec(l: u8, a: u8, b: u8) -> (int, int, int) {
    let lb = (8 * l) / 255;
    (if lb > 7 {
        7
    } else {
        lb
    }, (a / 32) as int, (b / 32) as int)
}

/// LAB bucket (8×8×8 grid) of an 8-bit Lab pixel.
pub fn compute_bucket(l: u8, a: u8, b: u8) -> (bin: (usize, usize, usize))
    ensures
        (bin.0 as int, bin.1 as int, bin.2 as int) == bucket_spec(l, a, b),
        bin.0 < 8 && bin.1 < 8 && bin.2 < 8,
{
    let lb = (8 * l as usize) / 255;
    let l_bin = if lb > 7 { 7 } else { lb };
    let a_bin = a as usize / 32;
    let b_bin = b as usize / 32;
    (l_bin, a_bin, b_bin)
}

/// The number of bucket `bin`: L bin first, then a*, then b*.
pub open spec fn bucket_number(bin: (int, int, int)) -> int {
    bin.0 * 64 + bin.1 * 8 + bin.2
}

/// Single number in `0..512` naming a bucket.
pub fn bucket_id(bin: (usize, usize, usize)) -> (id: usize)
    requires
        bin.0 < 8 && bin.1 < 8 && bin.2 < 8,
    ensures
        id == bucket_number((bin.0 as int, bin.1 as int, bin.2 as int)),
        id < BUCKET_COUNT,
{
    bin.0 * 64 + bin.1 * 8 + bin.2
}

/// Each channel of a pixel lies in the range of its bucket: `a` and `b` in
/// `[32·k, 32·k + 32)` for their bins `k`, and the lightness `l·100/255` in
/// `[12.5·k, 12.5·(k + 1))` for its bin `k` (the top bin also holding L* = 100); so a
/// brighter pixel never lands in a lower lightness bin.
pub proof fn lemma_bucket_ranges(l: u8, a: u8, b: u8, l2: u8)
    ensures
        32 * bucket_spec(l, a, b).1 <= a < 32 * bucket_spec(l, a, b).1 + 32,
        32 * bucket_spec(l, a, b).2 <= b < 32 * bucket_spec(l, a, b).2 + 32,
        255 * bucket_spec(l, a, b).0 <= 8 * l,
        8 * l < 255 * (bucket_spec(l, a, b).0 + 1) || (l == 255 && bucket_spec(l, a, b).0 == 7),
        0 <= bucket_spec(l, a, b).0 < 8,
        l <= l2 ==> bucket_spec(l, a, b).0 <= bucket_spec(l2, a, b).0,
{
    let lb = (8 * l) / 255;
    let lb2 = (8 * l2) / 255;
    assert(255 * lb <= 8 * l < 255 * lb + 255);
    assert(l <= l2 ==> lb <= lb2) by (nonlinear_arith)
        requires lb == (8 * l) / 255, lb2 == (8 * l2) / 255;
}

/// Distinct buckets have distinct numbers, all below 512: the three bins are read back
/// from the number.
pub proof fn lemma_bucket_number_decodes(bin: (int, int, int))
    requires
        0 <= bin.0 < 8 && 0 <= bin.1 < 8 && 0 <= bin.2 < 8,
    ensures
        0 <= bucket_number(bin) < 512,
        bucket_number(bin) / 64 == bin.0,
        (bucket_number(bin) / 8) % 8 == bin.1,
        bucket_number(bin) % 8 == bin.2,
{
    let id = bucket_number(bin);
    assert(id / 64 == bin.0) by (nonlinear_arith)
        requires id == bin.0 * 64 + bin.1 * 8 + bin.2, 0 <= bin.1 * 8 + bin.2 < 64;
    assert(id / 8 == bin.0 * 8 + bin.1) by (nonlinear_arith)
        requires id == bin.0 * 64 + bin.1 * 8 + bin.2, 0 <= bin.2 < 8;
    assert((bin.0 * 8 + bin.1) % 8 == bin.1) by (nonlinear_arith)
        requires 0 <= bin.1 < 8, 0 <= bin.0;
    assert(id % 8 == bin.2) by (nonlinear_arith)
        requires id == bin.0 * 64 + bin.1 * 8 + bin.2, 0 <= bin.2 < 8, 0 <= bin.0, 0 <= bin.1;
}

/// Indices `i < n` with `ids[i] == bucket`, in increasing order.
pub open spec fn members(ids: Seq<usize>, bucket: int, n: int) -> Seq<usize>
    decreases n,
{
    if n <= 0 {
        Seq::empty()
    } else if ids[n - 1] == bucket {
        members(ids, bucket, n - 1).push((n - 1) as usize)
    } else {
        members(ids, bucket, n - 1)
    }
}

/// Groups pixel indices by bucket: entry `b` lists, in increasing order, the pixels
/// whose bucket is `b`.
pub fn group_by_bucket(ids: &Vec<usize>) -> (groups: Vec<Vec<usize>>)
    requires
        forall|i: int| 0 <= i < ids@.len() ==> #[trigger] ids@[i] < BUCKET_COUNT,
    ensures
        groups@.len() == BUCKET_COUNT,
        forall|b: int|
            0 <= b < BUCKET_COUNT ==> (#[trigger] groups@[b])@ == members(
                ids@,
                b,
                ids@.len() as int,
            ),
{
    let mut groups: Vec<Vec<usize>> = Vec::new();
    let mut b: usize = 0;
    while b < BUCKET_COUNT
        invariant
            0 <= b <= BUCKET_COUNT,
            groups@.len() == b,
            forall|k: int| 0 <= k < b ==> (#[trigger] groups@[k])@ == Seq::<usize>::empty(),
        decreases BUCKET_COUNT - b,
    {
        groups.push(Vec::new());
        b += 1;
    }
    let n = ids.len();
    let mut i: usize = 0;
    while i < n
        invariant
            n == ids@.len(),
            0 <= i <= n,
            forall|k: int| 0 <= k < ids@.len() ==> #[trigger] ids@[k] < BUCKET_COUNT,
            groups@.len() == BUCKET_COUNT,
            forall|k: int|
                0 <= k < BUCKET_COUNT ==> (#[trigger] groups@[k])@ == members(ids@, k, i as int),
        decreases n - i,
    {
        let id = ids[i];
        let ghost prev = groups@;
        groups[id].push(i);
        proof {
            assert forall|k: int|
                0 <= k < BUCKET_COUNT implies (#[trigger] groups@[k])@ == members(
                ids@,
                k,
                i + 1,
            ) by {
                if k != id {
                    assert(groups@[k] == prev[k]);
                }
            }
        }
        i += 1;
    }
    groups
}

/// Every index in a bucket's member list belongs to that bucket and to the image.
pub proof fn lemma_members_belong(ids: Seq<usize>, bucket: int, n: int, x: usize)
    requires
        0 <= n <= ids.len(),
        ids.len() <= usize::MAX,
        members(ids, bucket, n).contains(x),
    ensures
        x < n,
        ids[x as int] == bucket,
    decreases n,
{
    if n > 0 {
        let prev = members(ids, bucket, n - 1);
        if ids[n - 1] == bucket {
            if x != (n - 1) as usize {
                let k = choose|k: int| 0 <= k < members(ids, bucket, n).len() && members(ids, bucket, n)[k] == x;
                assert(k < prev.len());
                assert(prev[k] == x);
                lemma_members_belong(ids, bucket, n - 1, x);
            }
        } else {
            lemma_members_belong(ids, bucket, n - 1, x);
        }
    }
}

/// Sampling never moves a pixel to another bucket: every pixel index kept for bucket
/// `b` is a pixel of the image whose bucket is `b`.
pub proof fn lemma_sample_within_bucket(ids: Seq<usize>, bucket: int, kept: Seq<usize>, x: usize)
    requires
        ids.len() <= usize::MAX,
        kept.to_multiset().subset_of(members(ids, bucket, ids.len() as int).to_multiset()),
        kept.contains(x),
    ensures
        x < ids.len(),
        ids[x as int] == bucket,
{
    broadcast use vstd::seq_lib::group_to_multiset_ensures;
    let m = members(ids, bucket, ids.len() as int);
    assert(kept.to_multiset().count(x) > 0);
    assert(m.to_multiset().count(x) > 0);
    assert(m.contains(x));
    lemma_members_belong(ids, bucket, ids.len() as int, x);
}

/// Puts the elements of `v` in a random order by calling
/// `rand::seq::SliceRandom::shuffle`, which only swaps elements: the result holds the
/// same elements, each as often as before. Which order comes out is not stated.
#[verifier::external_body]
fn shuffle_vec<T>(v: &mut Vec<T>, rng: &mut StdRng)
    ensures
        final(v)@.to_multiset() == old(v)@.to_multiset(),
        final(v)@.len() == old(v)@.len(),
{
    v.as_mut_slice().shuffle(rng);
}

/// Keeps a bucket whole when it has at most 200 pixels; otherwise keeps 200 of them
/// drawn at random.
pub fn sample_bucket<T>(pixels: Vec<T>, rng: &mut StdRng) -> (kept: Vec<T>)
    ensures
        pixels@.len() <= SAMPLES_PER_BUCKET ==> kept@ == pixels@,
        pixels@.len() > SAMPLES_PER_BUCKET ==> kept@.len() == SAMPLES_PER_BUCKET
            && kept@.to_multiset().subset_of(pixels@.to_multiset()),
{
    if pixels.len() <= SAMPLES_PER_BUCKET {
        return pixels;
    }
    let ghost given = pixels@;
    let mut pixels = pixels;
    shuffle_vec(&mut pixels, rng);
    let ghost shuffled = pixels@;
    pixels.truncate(SAMPLES_PER_BUCKET);
    proof {
        let rest = shuffled.subrange(200, shuffled.len() as int);
        assert(shuffled =~= pixels@ + rest);
        vstd::seq_lib::lemma_multiset_commutative(pixels@, rest);
        broadcast use vstd::multiset::group_multiset_axioms;
        assert forall|x: T| pixels@.to_multiset().count(x) <= given.to_multiset().count(x) by {}
    }
    pixels
}

/// Stratified sample of one image: every bucket (as grouped by [`group_by_bucket`])
/// thinned as by [`sample_bucket`]. Entry `b` of the result is the sample of bucket `b`.
pub fn stratified_sample<T>(groups: Vec<Vec<T>>, rng: &mut StdRng) -> (samples: Vec<Vec<T>>)
    ensures
        samples@.len() == groups@.len(),
        forall|b: int|
            #![trigger samples@[b]]
            0 <= b < groups@.len() ==> {
                let m = groups@[b]@;
                &&& m.len() <= SAMPLES_PER_BUCKET ==> samples@[b]@ == m
                &&& m.len() > SAMPLES_PER_BUCKET ==> samples@[b]@.len() == SAMPLES_PER_BUCKET
                    && samples@[b]@.to_multiset().subset_of(m.to_multiset())
            },
{
    let ghost given = groups@;
    let mut groups = groups;
    let n = groups.len();
    let mut samples: Vec<Vec<T>> = Vec::new();
    let mut b: usize = 0;
    while b < n
        invariant
            0 <= b <= n,
            n == given.len(),
            groups@.len() == n,
            forall|k: int| b <= k < n ==> #[trigger] groups@[k] == given[k],
            samples@.len() == b,
            forall|k: int|
                #![trigger samples@[k]]
                0 <= k < b ==> {
                    let m = given[k]@;
                    &&& m.len() <= SAMPLES_PER_BUCKET ==> samples@[k]@ == m
                    &&& m.len() > SAMPLES_PER_BUCKET ==> samples@[k]@.len() == SAMPLES_PER_BUCKET
                        && samples@[k]@.to_multiset().subset_of(m.to_multiset())
                },
        decreases n - b,
    {
        let ghost prev = groups@;
        let mut group: Vec<T> = Vec::new();
        std::mem::swap(&mut group, &mut groups[b]);
        proof {
            assert forall|k: int| b < k < n implies #[trigger] groups@[k] == prev[k] by {}
        }
        let kept = sample_bucket(group, rng);
        samples.push(kept);
        b += 1;
    }
    samples
}

} // verus!
