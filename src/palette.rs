//! Palette extraction: pixels are grouped into buckets by a quantization key,
//! the buckets are ranked by pixel count, and the leading buckets become the
//! palette.
use vstd::prelude::*;

use crate::color::{rgb_to_hsl, spec_rgb_to_hsl, Hsl, Rgb};
use crate::decode::{decode_rgb8, decoded_rgb8};
use crate::rank::{is_top_ranked, lemma_top_ranked_len, lemma_top_ranked_unique, rank_buckets, ranks_before};

verus! {

/// Number of buckets: the quantization key has twelve bits.
pub const BUCKETS: usize = 4096;

/// One palette entry: the mean color of a bucket, its HSL, and its weight.
///
/// The share of the palette that the entry stands for is
/// `weight / total_weight`, where `total_weight` is the summed weight of all
/// entries returned together with it.
#[derive(PartialEq, Eq, Structural, Debug, Clone, Copy)]
pub struct Color {
    pub rgb: Rgb,
    pub hsl: Hsl,
    pub weight: u64,
    pub total_weight: u64,
}

impl Color {
    /// Builds an entry; its HSL is derived from `rgb`.
    pub fn new(rgb: Rgb, weight: u64, total_weight: u64) -> (c: Color)
        ensures
            c.rgb == rgb,
            c.hsl == spec_rgb_to_hsl(rgb),
            c.weight == weight,
            c.total_weight == total_weight,
    {
        let hsl = rgb_to_hsl(&rgb);
        Color { rgb, hsl, weight, total_weight }
    }
}

/// Luminance with the Rec. 709 weights, rounded down.
///
/// This is the exact value of `r * 0.2126 + g * 0.7152 + b * 0.0722`
/// truncated to an integer, computed without floating point; colorgram
/// evaluates the same expression in `f32` and casts it to a byte.
pub open spec fn luma(c: Rgb) -> int {
    (2126 * c.r + 7152 * c.g + 722 * c.b) / 10000
}

/// The twelve-bit bucket key: the top two bits of luminance, hue and
/// lightness, shifted into place.
pub open spec fn quant_key(c: Rgb) -> int {
    let y = luma(c) as u32;
    let hsl = spec_rgb_to_hsl(c);
    (((y & 0xc0u32) << 4u32) | (((hsl.h as u32) & 0xc0u32) << 2u32) | ((hsl.l as u32) & 0xc0u32))
        as int
}

/// Number of whole pixels in a buffer of packed RGB bytes.
pub open spec fn pixel_count(raw: Seq<u8>) -> nat {
    raw.len() / 3
}

/// Pixel `i` of a buffer of packed RGB bytes.
pub open spec fn pixel_at(raw: Seq<u8>, i: int) -> Rgb {
    Rgb { r: raw[3 * i], g: raw[3 * i + 1], b: raw[3 * i + 2] }
}

/// How many of the first `m` pixels fall in bucket `k`.
pub open spec fn key_count(raw: Seq<u8>, m: nat, k: int) -> nat
    decreases m,
{
    if m == 0 {
        0
    } else {
        key_count(raw, (m - 1) as nat, k) + if quant_key(pixel_at(raw, m - 1)) == k {
            1nat
        } else {
            0nat
        }
    }
}

/// Sum of channel `c` (0 red, 1 green, 2 blue) over those of the first `m`
/// pixels that fall in bucket `k`.
pub open spec fn channel_sum(raw: Seq<u8>, m: nat, k: int, c: int) -> nat
    decreases m,
{
    if m == 0 {
        0
    } else {
        channel_sum(raw, (m - 1) as nat, k, c) + if quant_key(pixel_at(raw, m - 1)) == k {
            raw[3 * (m - 1) + c] as nat
        } else {
            0nat
        }
    }
}

pub open spec fn bucket_count(raw: Seq<u8>, k: int) -> nat {
    key_count(raw, pixel_count(raw), k)
}

/// Pixel count of every bucket.
pub open spec fn bucket_counts(raw: Seq<u8>) -> Seq<u64> {
    Seq::new(BUCKETS as nat, |k: int| bucket_count(raw, k) as u64)
}

/// Mean color of a non-empty bucket, each channel rounded down.
pub open spec fn bucket_mean(raw: Seq<u8>, k: int) -> Rgb {
    let n = bucket_count(raw, k);
    let m = pixel_count(raw);
    Rgb {
        r: (channel_sum(raw, m, k, 0) / n) as u8,
        g: (channel_sum(raw, m, k, 1) / n) as u8,
        b: (channel_sum(raw, m, k, 2) / n) as u8,
    }
}

/// The palette entry of bucket `k` in a palette of total weight `total`.
pub open spec fn bucket_color(raw: Seq<u8>, k: int, total: nat) -> Color {
    let rgb = bucket_mean(raw, k);
    Color {
        rgb,
        hsl: spec_rgb_to_hsl(rgb),
        weight: bucket_count(raw, k) as u64,
        total_weight: total as u64,
    }
}

/// Summed count of the buckets listed in `ks`.
pub open spec fn weight_sum(counts: Seq<u64>, ks: Seq<usize>) -> nat
    decreases ks.len(),
{
    if ks.len() == 0 {
        0
    } else {
        weight_sum(counts, ks.drop_last()) + counts[ks.last() as int] as nat
    }
}

/// `cs` is the palette of at most `n` entries of the packed RGB pixels `raw`.
pub open spec fn is_palette_of(raw: Seq<u8>, n: nat, cs: Seq<Color>) -> bool {
    exists|ks: Seq<usize>|
        #[trigger] is_top_ranked(bucket_counts(raw), ks, n) && cs.len() == ks.len() && forall|i: int|
            0 <= i < cs.len() ==> cs[i] == bucket_color(
                raw,
                ks[i] as int,
                weight_sum(bucket_counts(raw), ks),
            )
}

/// Buckets that hold at least one pixel.
pub open spec fn nonempty_buckets(raw: Seq<u8>) -> Set<int> {
    Set::new(|k: int| 0 <= k < BUCKETS && bucket_count(raw, k) > 0)
}

/// Summed weight of palette entries.
pub open spec fn color_weight_sum(cs: Seq<Color>) -> nat
    decreases cs.len(),
{
    if cs.len() == 0 {
        0
    } else {
        color_weight_sum(cs.drop_last()) + cs.last().weight as nat
    }
}

proof fn lemma_key_count_bound(raw: Seq<u8>, m: nat, k: int)
    ensures
        key_count(raw, m, k) <= m,
    decreases m,
{
    if m > 0 {
        lemma_key_count_bound(raw, (m - 1) as nat, k);
    }
}

/// How many entries of `ks` equal `x`.
spec fn occurrences(ks: Seq<usize>, x: int) -> nat
    decreases ks.len(),
{
    if ks.len() == 0 {
        0
    } else {
        occurrences(ks.drop_last(), x) + if ks.last() as int == x {
            1nat
        } else {
            0nat
        }
    }
}

/// Summed count of the buckets listed in `ks` over the first `m` pixels.
spec fn listed_count(raw: Seq<u8>, m: nat, ks: Seq<usize>) -> nat
    decreases ks.len(),
{
    if ks.len() == 0 {
        0
    } else {
        listed_count(raw, m, ks.drop_last()) + key_count(raw, m, ks.last() as int)
    }
}

proof fn lemma_occurrences_distinct(ks: Seq<usize>, x: int)
    requires
        forall|i: int, j: int| 0 <= i < j < ks.len() ==> ks[i] != ks[j],
    ensures
        occurrences(ks, x) <= 1,
        occurrences(ks, x) == 1 ==> exists|i: int| 0 <= i < ks.len() && ks[i] as int == x,
    decreases ks.len(),
{
    if ks.len() > 0 {
        let ks0 = ks.drop_last();
        assert forall|i: int, j: int| 0 <= i < j < ks0.len() implies ks0[i] != ks0[j] by {
            assert(ks0[i] == ks[i] && ks0[j] == ks[j]);
        }
        lemma_occurrences_distinct(ks0, x);
        if occurrences(ks0, x) == 1 {
            let i = choose|i: int| 0 <= i < ks0.len() && ks0[i] as int == x;
            assert(ks[i] as int == x);
            if ks.last() as int == x {
                assert(ks[i] != ks[ks.len() - 1]);
            }
        }
        if ks.last() as int == x {
            assert(ks[ks.len() - 1] as int == x);
        }
    }
}

proof fn lemma_listed_count_step(raw: Seq<u8>, m: nat, ks: Seq<usize>)
    requires
        m > 0,
    ensures
        listed_count(raw, m, ks) == listed_count(raw, (m - 1) as nat, ks) + occurrences(
            ks,
            quant_key(pixel_at(raw, m - 1)),
        ),
    decreases ks.len(),
{
    if ks.len() > 0 {
        lemma_listed_count_step(raw, m, ks.drop_last());
    }
}

/// Distinct buckets together hold no more than all the pixels.
proof fn lemma_listed_count_bound(raw: Seq<u8>, m: nat, ks: Seq<usize>)
    requires
        forall|i: int, j: int| 0 <= i < j < ks.len() ==> ks[i] != ks[j],
    ensures
        listed_count(raw, m, ks) <= m,
    decreases m, ks.len(),
{
    if m == 0 {
        if ks.len() > 0 {
            let ks0 = ks.drop_last();
            assert forall|i: int, j: int| 0 <= i < j < ks0.len() implies ks0[i] != ks0[j] by {
                assert(ks0[i] == ks[i] && ks0[j] == ks[j]);
            }
            lemma_listed_count_bound(raw, 0, ks0);
        }
    } else {
        lemma_listed_count_step(raw, m, ks);
        lemma_occurrences_distinct(ks, quant_key(pixel_at(raw, m - 1)));
        lemma_listed_count_bound(raw, (m - 1) as nat, ks);
    }
}

proof fn lemma_weight_sum_listed(raw: Seq<u8>, ks: Seq<usize>)
    requires
        raw.len() <= usize::MAX,
        forall|i: int| 0 <= i < ks.len() ==> #[trigger] ks[i] < BUCKETS,
    ensures
        weight_sum(bucket_counts(raw), ks) == listed_count(raw, pixel_count(raw), ks),
    decreases ks.len(),
{
    if ks.len() > 0 {
        let ks0 = ks.drop_last();
        assert forall|i: int| 0 <= i < ks0.len() implies #[trigger] ks0[i] < BUCKETS by {
            assert(ks0[i] == ks[i]);
        }
        lemma_weight_sum_listed(raw, ks0);
        assert(ks[ks.len() - 1] < BUCKETS);
        lemma_key_count_bound(raw, pixel_count(raw), ks.last() as int);
    }
}

/// The summed count of distinct buckets is at most the number of pixels.
proof fn lemma_weight_sum_fits(raw: Seq<u8>, ks: Seq<usize>)
    requires
        raw.len() <= usize::MAX,
        forall|i: int| 0 <= i < ks.len() ==> #[trigger] ks[i] < BUCKETS,
        forall|i: int, j: int| 0 <= i < j < ks.len() ==> ks[i] != ks[j],
    ensures
        weight_sum(bucket_counts(raw), ks) <= pixel_count(raw),
{
    lemma_weight_sum_listed(raw, ks);
    lemma_listed_count_bound(raw, pixel_count(raw), ks);
}

proof fn lemma_color_weight_sum(cs: Seq<Color>, counts: Seq<u64>, ks: Seq<usize>)
    requires
        cs.len() == ks.len(),
        forall|i: int| 0 <= i < cs.len() ==> #[trigger] cs[i].weight == counts[ks[i] as int],
    ensures
        color_weight_sum(cs) == weight_sum(counts, ks),
    decreases cs.len(),
{
    if cs.len() > 0 {
        let (cs0, ks0) = (cs.drop_last(), ks.drop_last());
        assert forall|i: int| 0 <= i < cs0.len() implies #[trigger] cs0[i].weight == counts[ks0[i] as int] by {
            assert(cs0[i] == cs[i] && ks0[i] == ks[i]);
        }
        lemma_color_weight_sum(cs0, counts, ks0);
        assert(cs.last().weight == counts[ks.last() as int]);
    }
}

/// The palette of given pixels and size is unique.
pub proof fn lemma_palette_unique(raw: Seq<u8>, n: nat, cs1: Seq<Color>, cs2: Seq<Color>)
    requires
        is_palette_of(raw, n, cs1),
        is_palette_of(raw, n, cs2),
    ensures
        cs1 == cs2,
{
    let counts = bucket_counts(raw);
    let ks1 = choose|ks: Seq<usize>|
        #[trigger] is_top_ranked(counts, ks, n) && cs1.len() == ks.len() && forall|i: int|
            0 <= i < cs1.len() ==> cs1[i] == bucket_color(raw, ks[i] as int, weight_sum(counts, ks));
    let ks2 = choose|ks: Seq<usize>|
        #[trigger] is_top_ranked(counts, ks, n) && cs2.len() == ks.len() && forall|i: int|
            0 <= i < cs2.len() ==> cs2[i] == bucket_color(raw, ks[i] as int, weight_sum(counts, ks));
    lemma_top_ranked_unique(counts, ks1, ks2, n);
    assert(cs1 =~= cs2);
}

/// A palette of at most `n` entries holds exactly `min(n, non-empty
/// buckets)` of them.
pub proof fn lemma_palette_len(raw: Seq<u8>, n: nat, cs: Seq<Color>)
    requires
        raw.len() <= usize::MAX,
        is_palette_of(raw, n, cs),
    ensures
        nonempty_buckets(raw).finite(),
        cs.len() <= n,
        cs.len() == if n <= nonempty_buckets(raw).len() {
            n
        } else {
            nonempty_buckets(raw).len()
        },
{
    let ks = choose|ks: Seq<usize>|
        #[trigger] is_top_ranked(bucket_counts(raw), ks, n) && cs.len() == ks.len() && forall|i: int|
            0 <= i < cs.len() ==> cs[i] == bucket_color(
                raw,
                ks[i] as int,
                weight_sum(bucket_counts(raw), ks),
            );
    let counts = bucket_counts(raw);
    lemma_top_ranked_len(counts, ks, n);
    assert(Set::new(|k: int| 0 <= k < counts.len() && counts[k] > 0) =~= nonempty_buckets(raw)) by {
        assert forall|k: int| 0 <= k < BUCKETS implies (counts[k] > 0 <==> bucket_count(raw, k) > 0) by {
            lemma_key_count_bound(raw, pixel_count(raw), k);
        }
    }
}

/// In a non-empty palette every entry carries the same total weight, the
/// sum of the entries' weights, and it is positive: the shares
/// `weight / total_weight` add up to one.
pub proof fn lemma_palette_weights(raw: Seq<u8>, n: nat, cs: Seq<Color>)
    requires
        raw.len() <= usize::MAX,
        is_palette_of(raw, n, cs),
        cs.len() > 0,
    ensures
        color_weight_sum(cs) > 0,
        forall|i: int| 0 <= i < cs.len() ==> #[trigger] cs[i].total_weight == color_weight_sum(cs),
{
    let ks = choose|ks: Seq<usize>|
        #[trigger] is_top_ranked(bucket_counts(raw), ks, n) && cs.len() == ks.len() && forall|i: int|
            0 <= i < cs.len() ==> cs[i] == bucket_color(
                raw,
                ks[i] as int,
                weight_sum(bucket_counts(raw), ks),
            );
    let counts = bucket_counts(raw);
    assert forall|i: int| 0 <= i < cs.len() implies #[trigger] cs[i].weight == counts[ks[i] as int] by {
        assert(cs[i] == bucket_color(raw, ks[i] as int, weight_sum(counts, ks)));
    }
    lemma_color_weight_sum(cs, counts, ks);
    assert forall|i: int| 0 <= i < ks.len() implies #[trigger] ks[i] < BUCKETS by {}
    assert forall|i: int, j: int| 0 <= i < j < ks.len() implies ks[i] != ks[j] by {
        assert(ranks_before(counts, ks[i] as int, ks[j] as int));
    }
    lemma_weight_sum_fits(raw, ks);
    assert(counts[ks.last() as int] > 0);
    assert forall|i: int| 0 <= i < cs.len() implies #[trigger] cs[i].total_weight == color_weight_sum(cs) by {
        assert(cs[i] == bucket_color(raw, ks[i] as int, weight_sum(counts, ks)));
    }
}

/// Every palette entry's HSL is the one derived from its RGB.
pub proof fn lemma_palette_hsl(raw: Seq<u8>, n: nat, cs: Seq<Color>)
    requires
        is_palette_of(raw, n, cs),
    ensures
        forall|i: int| 0 <= i < cs.len() ==> #[trigger] cs[i].hsl == spec_rgb_to_hsl(cs[i].rgb),
{
    let ks = choose|ks: Seq<usize>|
        #[trigger] is_top_ranked(bucket_counts(raw), ks, n) && cs.len() == ks.len() && forall|i: int|
            0 <= i < cs.len() ==> cs[i] == bucket_color(
                raw,
                ks[i] as int,
                weight_sum(bucket_counts(raw), ks),
            );
    assert forall|i: int| 0 <= i < cs.len() implies #[trigger] cs[i].hsl == spec_rgb_to_hsl(cs[i].rgb) by {
        assert(cs[i] == bucket_color(raw, ks[i] as int, weight_sum(bucket_counts(raw), ks)));
    }
}

/// The bucket key of one pixel.
pub fn bucket_key(c: &Rgb) -> (k: usize)
    ensures
        k == quant_key(*c),
        k < BUCKETS,
{
    let y = (2126 * c.r as u32 + 7152 * c.g as u32 + 722 * c.b as u32) / 10000;
    let hsl = rgb_to_hsl(c);
    let h = hsl.h as u32;
    let l = hsl.l as u32;
    let key = ((y & 0xc0u32) << 4u32) | ((h & 0xc0u32) << 2u32) | (l & 0xc0u32);
    assert(key < 4096) by (bit_vector)
        requires
            key == ((y & 0xc0u32) << 4u32) | ((h & 0xc0u32) << 2u32) | (l & 0xc0u32),
    ;
    key as usize
}

/// Per-bucket pixel counts and channel sums over the first `m` pixels.
pub open spec fn tallies_upto(
    raw: Seq<u8>,
    m: nat,
    counts: Seq<u64>,
    red: Seq<u128>,
    green: Seq<u128>,
    blue: Seq<u128>,
) -> bool {
    &&& counts.len() == BUCKETS
    &&& red.len() == BUCKETS
    &&& green.len() == BUCKETS
    &&& blue.len() == BUCKETS
    &&& forall|k: int|
        0 <= k < BUCKETS ==> {
            &&& #[trigger] counts[k] == key_count(raw, m, k)
            &&& red[k] == channel_sum(raw, m, k, 0)
            &&& green[k] == channel_sum(raw, m, k, 1)
            &&& blue[k] == channel_sum(raw, m, k, 2)
            &&& counts[k] <= m
            &&& red[k] <= 255 * counts[k]
            &&& green[k] <= 255 * counts[k]
            &&& blue[k] <= 255 * counts[k]
        }
}

/// Counts the pixels of each bucket and sums their channels.
fn tally(raw: &[u8]) -> (res: (Vec<u64>, Vec<u128>, Vec<u128>, Vec<u128>))
    ensures
        tallies_upto(raw@, pixel_count(raw@), res.0@, res.1@, res.2@, res.3@),
{
    let mut counts: Vec<u64> = Vec::new();
    let mut red: Vec<u128> = Vec::new();
    let mut green: Vec<u128> = Vec::new();
    let mut blue: Vec<u128> = Vec::new();
    let mut k: usize = 0;
    while k < BUCKETS
        invariant
            k <= BUCKETS,
            counts.len() == k,
            red.len() == k,
            green.len() == k,
            blue.len() == k,
            forall|j: int| 0 <= j < k ==> counts@[j] == 0,
            forall|j: int| 0 <= j < k ==> red@[j] == 0,
            forall|j: int| 0 <= j < k ==> green@[j] == 0,
            forall|j: int| 0 <= j < k ==> blue@[j] == 0,
        decreases BUCKETS - k,
    {
        counts.push(0);
        red.push(0);
        green.push(0);
        blue.push(0);
        k += 1;
    }
    let total = raw.len() / 3;
    let mut i: usize = 0;
    assert forall|j: int| 0 <= j < BUCKETS implies {
        &&& #[trigger] counts@[j] == key_count(raw@, 0, j)
        &&& red@[j] == channel_sum(raw@, 0, j, 0)
        &&& green@[j] == channel_sum(raw@, 0, j, 1)
        &&& blue@[j] == channel_sum(raw@, 0, j, 2)
    } by {
        assert(counts@[j] == 0 && red@[j] == 0 && green@[j] == 0 && blue@[j] == 0);
    }
    while i < total
        invariant
            total == pixel_count(raw@),
            i <= total,
            tallies_upto(raw@, i as nat, counts@, red@, green@, blue@),
        decreases total - i,
    {
        assert(3 * i + 2 < raw.len()) by (nonlinear_arith)
            requires
                i < total,
                total == raw.len() / 3,
        ;
        let px = Rgb { r: raw[3 * i], g: raw[3 * i + 1], b: raw[3 * i + 2] };
        assert(px == pixel_at(raw@, i as int));
        let key = bucket_key(&px);
        let c = counts[key];
        let sr = red[key];
        let sg = green[key];
        let sb = blue[key];
        assert(c <= i);
        assert(sr + 255 <= 255 * (i + 1) && sg + 255 <= 255 * (i + 1) && sb + 255 <= 255 * (i
            + 1)) by (nonlinear_arith)
            requires
                sr <= 255 * c,
                sg <= 255 * c,
                sb <= 255 * c,
                c <= i,
        ;
        assert(255 * (i as int + 1) < u128::MAX) by (nonlinear_arith)
            requires
                i < usize::MAX,
        ;
        let ghost (oc, o_r, o_g, o_b) = (counts@, red@, green@, blue@);
        counts.set(key, c + 1);
        red.set(key, sr + px.r as u128);
        green.set(key, sg + px.g as u128);
        blue.set(key, sb + px.b as u128);
        proof {
            let m = (i + 1) as nat;
            assert forall|j: int| 0 <= j < BUCKETS implies {
                &&& #[trigger] counts@[j] == key_count(raw@, m, j)
                &&& red@[j] == channel_sum(raw@, m, j, 0)
                &&& green@[j] == channel_sum(raw@, m, j, 1)
                &&& blue@[j] == channel_sum(raw@, m, j, 2)
                &&& counts@[j] <= m
                &&& red@[j] <= 255 * counts@[j]
                &&& green@[j] <= 255 * counts@[j]
                &&& blue@[j] <= 255 * counts@[j]
            } by {
                assert(oc[j] == key_count(raw@, i as nat, j));
                assert(o_r[j] == channel_sum(raw@, i as nat, j, 0));
                assert(o_g[j] == channel_sum(raw@, i as nat, j, 1));
                assert(o_b[j] == channel_sum(raw@, i as nat, j, 2));
                assert(oc[j] <= i);
                assert(key_count(raw@, m, j) == key_count(raw@, i as nat, j) + if quant_key(px)
                    == j {
                    1nat
                } else {
                    0nat
                });
                assert(channel_sum(raw@, m, j, 0) == channel_sum(raw@, i as nat, j, 0) + if quant_key(
                    px,
                ) == j {
                    px.r as nat
                } else {
                    0nat
                });
                assert(channel_sum(raw@, m, j, 1) == channel_sum(raw@, i as nat, j, 1) + if quant_key(
                    px,
                ) == j {
                    px.g as nat
                } else {
                    0nat
                });
                assert(channel_sum(raw@, m, j, 2) == channel_sum(raw@, i as nat, j, 2) + if quant_key(
                    px,
                ) == j {
                    px.b as nat
                } else {
                    0nat
                });
            }
        }
        i += 1;
    }
    (counts, red, green, blue)
}

/// A channel sum of at most 255 per pixel has a mean of at most 255.
proof fn lemma_mean_fits(sum: int, count: int)
    requires
        0 <= sum <= 255 * count,
        count > 0,
    ensures
        0 <= sum / count <= 255,
{
    assert(0 <= sum / count <= 255) by (nonlinear_arith)
        requires
            0 <= sum <= 255 * count,
            count > 0,
    ;
}

/// The palette of at most `number_of_color` entries of an image given as
/// packed RGB bytes (three per pixel, a trailing partial pixel ignored).
///
/// The non-empty buckets are ranked by pixel count, ties going to the smaller
/// key; each of the leading `min(number_of_color, non-empty buckets)` yields
/// its mean color, weighted by its count against the summed count of the
/// entries returned.
pub fn palette_from_rgb8(raw: &[u8], number_of_color: usize) -> (cs: Vec<Color>)
    ensures
        is_palette_of(raw@, number_of_color as nat, cs@),
{
    let (counts, red, green, blue) = tally(raw);
    let ghost n_px = pixel_count(raw@);
    assert(counts@ =~= bucket_counts(raw@));
    let ks = rank_buckets(&counts, number_of_color);
    assert(raw@.len() == raw.len());
    let mut total: u64 = 0;
    let mut j: usize = 0;
    while j < ks.len()
        invariant
            j <= ks.len(),
            raw@.len() <= usize::MAX,
            counts@ == bucket_counts(raw@),
            is_top_ranked(counts@, ks@, number_of_color as nat),
            total == weight_sum(counts@, ks@.subrange(0, j as int)),
        decreases ks.len() - j,
    {
        let ghost p = ks@.subrange(0, j + 1);
        assert(p.drop_last() =~= ks@.subrange(0, j as int));
        assert forall|i: int| 0 <= i < p.len() implies #[trigger] p[i] < BUCKETS by {
            assert(p[i] == ks@[i]);
        }
        assert forall|a: int, b: int| 0 <= a < b < p.len() implies p[a] != p[b] by {
            assert(ranks_before(counts@, ks@[a] as int, ks@[b] as int));
        }
        proof {
            lemma_weight_sum_fits(raw@, p);
        }
        total = total + counts[ks[j]];
        j += 1;
    }
    assert(ks@.subrange(0, ks.len() as int) =~= ks@);
    let mut cs: Vec<Color> = Vec::new();
    let mut j: usize = 0;
    while j < ks.len()
        invariant
            j <= ks.len(),
            cs.len() == j,
            n_px == pixel_count(raw@),
            tallies_upto(raw@, n_px, counts@, red@, green@, blue@),
            counts@ == bucket_counts(raw@),
            is_top_ranked(counts@, ks@, number_of_color as nat),
            total == weight_sum(counts@, ks@),
            forall|i: int|
                0 <= i < j ==> cs@[i] == bucket_color(
                    raw@,
                    #[trigger] ks@[i] as int,
                    weight_sum(bucket_counts(raw@), ks@),
                ),
        decreases ks.len() - j,
    {
        let k = ks[j];
        let n = counts[k];
        assert(ks@[j as int] < counts.len() && counts@[k as int] > 0);
        proof {
            lemma_mean_fits(red@[k as int] as int, n as int);
            lemma_mean_fits(green@[k as int] as int, n as int);
            lemma_mean_fits(blue@[k as int] as int, n as int);
        }
        let rgb = Rgb {
            r: (red[k] / n as u128) as u8,
            g: (green[k] / n as u128) as u8,
            b: (blue[k] / n as u128) as u8,
        };
        assert(n == key_count(raw@, n_px, k as int));
        assert(red@[k as int] == channel_sum(raw@, n_px, k as int, 0));
        assert(green@[k as int] == channel_sum(raw@, n_px, k as int, 1));
        assert(blue@[k as int] == channel_sum(raw@, n_px, k as int, 2));
        assert(rgb == bucket_mean(raw@, k as int));
        cs.push(Color::new(rgb, n, total));
        j += 1;
    }
    assert(is_top_ranked(bucket_counts(raw@), ks@, number_of_color as nat));
    cs
}

/// Why an extraction failed.
#[derive(Debug)]
pub enum ExtractError {
    /// The buffer is not an image that the decoder reads.
    Decode(image::ImageError),
}

/// Decodes an encoded image (PNG, JPEG, GIF, ...), its format recognised by
/// its leading magic bytes, and returns its palette of at most
/// `number_of_color` entries, as [`palette_from_rgb8`] describes.
///
/// Fails with `ExtractError::Decode` exactly when the decoder refuses the
/// buffer.
pub fn extract(buffer: &[u8], number_of_color: usize) -> (r: Result<Vec<Color>, ExtractError>)
    ensures
        match decoded_rgb8(buffer@) {
            Some(raw) => {
                &&& r is Ok
                &&& raw.len() <= usize::MAX
                &&& is_palette_of(raw, number_of_color as nat, r->Ok_0@)
            },
            None => r is Err,
        },
{
    match decode_rgb8(buffer) {
        Ok(raw) => {
            assert(raw@.len() == raw.len());
            Ok(palette_from_rgb8(raw.as_slice(), number_of_color))
        },
        Err(e) => Err(ExtractError::Decode(e)),
    }
}

} // verus!
