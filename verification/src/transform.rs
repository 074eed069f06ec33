//! The segment-sort transform of one scan line.
//!
//! A run is a maximal contiguous span of pixels whose luminance lies
//! inside the threshold band. The transform sorts each run in place by
//! ascending brightness (a stable sort) and leaves every other pixel
//! untouched; a run still open at the end of a line is closed and sorted
//! there.

use vstd::prelude::*;

use crate::pixel::brightness;
use crate::pixel::in_band;
use crate::pixel::insert_by_brightness;
use crate::pixel::lemma_insert_len;
use crate::pixel::lemma_sort_len;
use crate::pixel::lemma_sort_multiset;
use crate::pixel::lemma_sort_sorted;
use crate::pixel::lemma_sort_of_sorted_is_identity;
use crate::pixel::lemma_sort_elements_from;
use crate::pixel::lemma_sort_stable;
use crate::pixel::luminance;
use crate::pixel::luminance_of;
use crate::pixel::same_brightness;
use crate::pixel::sort_by_brightness;
use crate::pixel::sort_run;
use crate::pixel::sorted_by_brightness;

verus! {

/// Length of the maximal in-band prefix of a line.
pub open spec fn run_len(s: Seq<(u8, u8, u8)>, black: u8, white: u8) -> nat
    decreases s.len(),
{
    if s.len() == 0 {
        0
    } else if !in_band(s[0], black, white) {
        0
    } else {
        1 + run_len(s.drop_first(), black, white)
    }
}

/// The transform of one scan line: each maximal run of in-band pixels is
/// stably sorted by ascending brightness; every pixel outside a run keeps
/// its position and value.
pub open spec fn transform_line(s: Seq<(u8, u8, u8)>, black: u8, white: u8) -> Seq<(u8, u8, u8)>
    decreases s.len(),
    via transform_line_decreases
{
    if s.len() == 0 {
        s
    } else if !in_band(s[0], black, white) {
        seq![s[0]] + transform_line(s.drop_first(), black, white)
    } else {
        sort_by_brightness(s.take(run_len(s, black, white) as int)) + transform_line(
            s.skip(run_len(s, black, white) as int),
            black,
            white,
        )
    }
}

#[via_fn]
proof fn transform_line_decreases(s: Seq<(u8, u8, u8)>, black: u8, white: u8) {
    if s.len() > 0 && in_band(s[0], black, white) {
        lemma_run_len_bounds(s, black, white);
        assert(run_len(s, black, white) >= 1);
        assert(s.skip(run_len(s, black, white) as int).len() < s.len());
    }
}

pub proof fn lemma_run_len_bounds(s: Seq<(u8, u8, u8)>, black: u8, white: u8)
    ensures
        run_len(s, black, white) <= s.len(),
        forall|t: int| 0 <= t < run_len(s, black, white) ==> in_band(#[trigger] s[t], black, white),
        run_len(s, black, white) < s.len() ==> !in_band(
            s[run_len(s, black, white) as int],
            black,
            white,
        ),
    decreases s.len(),
{
    if s.len() == 0 {
    } else if !in_band(s[0], black, white) {
    } else {
        let df = s.drop_first();
        lemma_run_len_bounds(df, black, white);
        assert forall|t: int| 0 <= t < run_len(s, black, white) implies in_band(
            #[trigger] s[t],
            black,
            white,
        ) by {
            if t > 0 {
                assert(df[t - 1] == s[t]);
            }
        }
        if run_len(s, black, white) < s.len() {
            assert(df[run_len(df, black, white) as int] == s[run_len(s, black, white) as int]);
        }
    }
}

/// The maximal in-band prefix has length `k` exactly when the first `k`
/// pixels are in band and the next one, if any, is not.
pub proof fn lemma_run_len_is(s: Seq<(u8, u8, u8)>, black: u8, white: u8, k: int)
    requires
        0 <= k <= s.len(),
        forall|t: int| 0 <= t < k ==> in_band(#[trigger] s[t], black, white),
        k < s.len() ==> !in_band(s[k], black, white),
    ensures
        run_len(s, black, white) == k,
    decreases s.len(),
{
    if k == 0 {
        if s.len() > 0 {
            assert(!in_band(s[0], black, white));
        }
    } else {
        assert(in_band(s[0], black, white));
        let df = s.drop_first();
        assert forall|t: int| 0 <= t < k - 1 implies in_band(#[trigger] df[t], black, white) by {
            assert(df[t] == s[t + 1]);
        }
        if k - 1 < df.len() {
            assert(df[k - 1] == s[k]);
        }
        lemma_run_len_is(df, black, white, k - 1);
    }
}

pub proof fn lemma_transform_line_len(s: Seq<(u8, u8, u8)>, black: u8, white: u8)
    ensures
        transform_line(s, black, white).len() == s.len(),
    decreases s.len(),
{
    if s.len() == 0 {
    } else if !in_band(s[0], black, white) {
        lemma_transform_line_len(s.drop_first(), black, white);
    } else {
        let k = run_len(s, black, white) as int;
        lemma_run_len_bounds(s, black, white);
        lemma_sort_len(s.take(k));
        lemma_transform_line_len(s.skip(k), black, white);
    }
}

/// The transform distributes over a cut placed right after an
/// out-of-band pixel: no run crosses such a cut.
pub proof fn lemma_transform_split(s1: Seq<(u8, u8, u8)>, s2: Seq<(u8, u8, u8)>, black: u8, white: u8)
    requires
        s1.len() == 0 || !in_band(s1.last(), black, white),
    ensures
        transform_line(s1 + s2, black, white) == transform_line(s1, black, white)
            + transform_line(s2, black, white),
    decreases s1.len(),
{
    if s1.len() == 0 {
        assert(s1 + s2 =~= s2);
        assert(transform_line(s1, black, white) + transform_line(s2, black, white)
            =~= transform_line(s2, black, white));
    } else if !in_band(s1[0], black, white) {
        assert((s1 + s2)[0] == s1[0]);
        assert((s1 + s2).drop_first() =~= s1.drop_first() + s2);
        if s1.len() > 1 {
            assert(s1.drop_first().last() == s1.last());
        }
        lemma_transform_split(s1.drop_first(), s2, black, white);
        assert(transform_line(s1 + s2, black, white) == seq![s1[0]] + transform_line(
            (s1 + s2).drop_first(),
            black,
            white,
        ));
        assert(seq![s1[0]] + (transform_line(s1.drop_first(), black, white) + transform_line(
            s2,
            black,
            white,
        )) =~= (seq![s1[0]] + transform_line(s1.drop_first(), black, white)) + transform_line(
            s2,
            black,
            white,
        ));
    } else {
        let k = run_len(s1, black, white) as int;
        lemma_run_len_bounds(s1, black, white);
        assert(k < s1.len()) by {
            if k == s1.len() {
                assert(in_band(s1[s1.len() - 1], black, white));
            }
        }
        assert forall|t: int| 0 <= t < k implies in_band(#[trigger] (s1 + s2)[t], black, white) by {
            assert((s1 + s2)[t] == s1[t]);
        }
        assert((s1 + s2)[k] == s1[k]);
        lemma_run_len_is(s1 + s2, black, white, k);
        assert((s1 + s2).take(k) =~= s1.take(k));
        assert((s1 + s2).skip(k) =~= s1.skip(k) + s2);
        assert(s1.skip(k).len() > 0);
        assert(s1.skip(k).last() == s1.last());
        lemma_transform_split(s1.skip(k), s2, black, white);
        assert(k >= 1);
        assert(transform_line(s1 + s2, black, white) == sort_by_brightness(s1.take(k))
            + (transform_line(s1.skip(k), black, white) + transform_line(s2, black, white)));
        assert(sort_by_brightness(s1.take(k)) + (transform_line(s1.skip(k), black, white)
            + transform_line(s2, black, white)) =~= (sort_by_brightness(s1.take(k))
            + transform_line(s1.skip(k), black, white)) + transform_line(s2, black, white));
    }
}

/// Unfolds the transform across a leading run of `k` in-band pixels.
pub proof fn lemma_transform_run(s: Seq<(u8, u8, u8)>, black: u8, white: u8, k: int)
    requires
        0 <= k <= s.len(),
        forall|t: int| 0 <= t < k ==> in_band(#[trigger] s[t], black, white),
        k == s.len() || !in_band(s[k], black, white),
    ensures
        transform_line(s, black, white) == sort_by_brightness(s.take(k)) + transform_line(
            s.skip(k),
            black,
            white,
        ),
{
    lemma_run_len_is(s, black, white, k);
    if k == 0 {
        assert(s.take(0) =~= Seq::<(u8, u8, u8)>::empty());
        assert(s.skip(0) =~= s);
        assert(sort_by_brightness(s.take(0)) + transform_line(s.skip(0), black, white)
            =~= transform_line(s, black, white));
    } else {
        assert(in_band(s[0], black, white));
    }
}

/// Law: a pixel whose luminance lies strictly outside the threshold band
/// is unchanged in both position and value by the transform.
pub proof fn lemma_out_of_band_unchanged(s: Seq<(u8, u8, u8)>, black: u8, white: u8, i: int)
    requires
        0 <= i < s.len(),
        !in_band(s[i], black, white),
    ensures
        transform_line(s, black, white).len() == s.len(),
        transform_line(s, black, white)[i] == s[i],
    decreases s.len(),
{
    lemma_transform_line_len(s, black, white);
    if !in_band(s[0], black, white) {
        if i == 0 {
            assert(transform_line(s, black, white)[0] == seq![s[0]][0]);
        } else {
            let df = s.drop_first();
            assert(df[i - 1] == s[i]);
            lemma_out_of_band_unchanged(df, black, white, i - 1);
            assert(transform_line(s, black, white)[i] == transform_line(df, black, white)[i - 1]);
        }
    } else {
        let k = run_len(s, black, white) as int;
        lemma_run_len_bounds(s, black, white);
        assert(i >= k);
        lemma_sort_len(s.take(k));
        let rest = s.skip(k);
        assert(rest[i - k] == s[i]);
        lemma_out_of_band_unchanged(rest, black, white, i - k);
        assert(transform_line(s, black, white)[i] == transform_line(rest, black, white)[i - k]);
    }
}

/// Law: over the whole line the transform is a permutation; no pixel
/// value is created or destroyed.
pub proof fn lemma_transform_line_multiset(s: Seq<(u8, u8, u8)>, black: u8, white: u8)
    ensures
        transform_line(s, black, white).to_multiset() == s.to_multiset(),
    decreases s.len(),
{
    broadcast use vstd::seq_lib::lemma_multiset_commutative;
    broadcast use vstd::multiset::group_multiset_axioms;

    if s.len() == 0 {
    } else if !in_band(s[0], black, white) {
        let df = s.drop_first();
        lemma_transform_line_multiset(df, black, white);
        assert((seq![s[0]] + transform_line(df, black, white)).to_multiset()
            == seq![s[0]].to_multiset().add(transform_line(df, black, white).to_multiset()));
        assert(seq![s[0]] + df =~= s);
        assert((seq![s[0]] + df).to_multiset() == seq![s[0]].to_multiset().add(df.to_multiset()));
        assert(transform_line(s, black, white).to_multiset() =~= s.to_multiset());
    } else {
        let k = run_len(s, black, white) as int;
        lemma_run_len_bounds(s, black, white);
        lemma_sort_multiset(s.take(k));
        lemma_transform_line_multiset(s.skip(k), black, white);
        assert((sort_by_brightness(s.take(k)) + transform_line(s.skip(k), black, white))
            .to_multiset() == sort_by_brightness(s.take(k)).to_multiset().add(
            transform_line(s.skip(k), black, white).to_multiset(),
        ));
        assert(s.take(k) + s.skip(k) =~= s);
        assert((s.take(k) + s.skip(k)).to_multiset() == s.take(k).to_multiset().add(
            s.skip(k).to_multiset(),
        ));
        assert(transform_line(s, black, white).to_multiset() =~= s.to_multiset());
    }
}

/// A maximal contiguous span `[lo, hi)` of in-band pixels.
pub open spec fn is_run(s: Seq<(u8, u8, u8)>, black: u8, white: u8, lo: int, hi: int) -> bool {
    &&& 0 <= lo < hi <= s.len()
    &&& forall|t: int| lo <= t < hi ==> in_band(#[trigger] s[t], black, white)
    &&& (lo == 0 || !in_band(s[lo - 1], black, white))
    &&& (hi == s.len() || !in_band(s[hi], black, white))
}

/// Law: within any run the transform is exactly the stable brightness
/// sort of that run; in particular the run's multiset of pixel triples
/// is preserved.
pub proof fn lemma_run_sorted_in_place(s: Seq<(u8, u8, u8)>, black: u8, white: u8, lo: int, hi: int)
    requires
        is_run(s, black, white, lo, hi),
    ensures
        transform_line(s, black, white).len() == s.len(),
        transform_line(s, black, white).subrange(lo, hi) == sort_by_brightness(
            s.subrange(lo, hi),
        ),
        transform_line(s, black, white).subrange(lo, hi).to_multiset() == s.subrange(
            lo,
            hi,
        ).to_multiset(),
{
    lemma_transform_line_len(s, black, white);
    let pre = s.take(lo);
    let mid = s.subrange(lo, hi);
    if lo > 0 {
        assert(pre.last() == s[lo - 1]);
    }
    assert(pre + s.skip(lo) =~= s);
    lemma_transform_split(pre, s.skip(lo), black, white);
    let tail = s.skip(lo);
    assert forall|t: int| 0 <= t < hi - lo implies in_band(#[trigger] tail[t], black, white) by {
        assert(tail[t] == s[lo + t]);
    }
    if hi < s.len() {
        assert(tail[hi - lo] == s[hi]);
    }
    lemma_transform_run(tail, black, white, hi - lo);
    assert(tail.take(hi - lo) =~= mid);
    lemma_transform_line_len(pre, black, white);
    lemma_sort_len(mid);
    let sorted_mid = sort_by_brightness(mid);
    let rest = transform_line(tail.skip(hi - lo), black, white);
    assert(transform_line(s, black, white) == transform_line(pre, black, white) + (sorted_mid
        + rest));
    assert forall|t: int| 0 <= t < hi - lo implies transform_line(s, black, white)[lo + t]
        == sorted_mid[t] by {
        assert((transform_line(pre, black, white) + (sorted_mid + rest))[lo + t] == (sorted_mid
            + rest)[t]);
    }
    assert(transform_line(s, black, white).subrange(lo, hi) =~= sorted_mid);
    lemma_sort_multiset(mid);
}

/// Law: within a run, ties in brightness keep their original relative
/// order: the pixels of each brightness value stand in the same order
/// before and after the transform.
pub proof fn lemma_run_sort_stable(
    s: Seq<(u8, u8, u8)>,
    black: u8,
    white: u8,
    lo: int,
    hi: int,
    v: int,
)
    requires
        is_run(s, black, white, lo, hi),
    ensures
        same_brightness(transform_line(s, black, white).subrange(lo, hi), v) == same_brightness(
            s.subrange(lo, hi),
            v,
        ),
{
    lemma_run_sorted_in_place(s, black, white, lo, hi);
    lemma_sort_stable(s.subrange(lo, hi), v);
}

/// The transform never moves a pixel across a run boundary: at every
/// position, membership of the band is the same before and after.
pub proof fn lemma_transform_in_band_pointwise(s: Seq<(u8, u8, u8)>, black: u8, white: u8, i: int)
    requires
        0 <= i < s.len(),
    ensures
        transform_line(s, black, white).len() == s.len(),
        in_band(transform_line(s, black, white)[i], black, white) == in_band(s[i], black, white),
    decreases s.len(),
{
    lemma_transform_line_len(s, black, white);
    if !in_band(s[0], black, white) {
        if i == 0 {
            assert(transform_line(s, black, white)[0] == seq![s[0]][0]);
        } else {
            let df = s.drop_first();
            assert(df[i - 1] == s[i]);
            lemma_transform_in_band_pointwise(df, black, white, i - 1);
            assert(transform_line(s, black, white)[i] == transform_line(df, black, white)[i - 1]);
        }
    } else {
        let k = run_len(s, black, white) as int;
        lemma_run_len_bounds(s, black, white);
        lemma_sort_len(s.take(k));
        if i < k {
            assert(transform_line(s, black, white)[i] == sort_by_brightness(s.take(k))[i]);
            lemma_sort_elements_from(s.take(k), i);
            let j = choose|j: int|
                0 <= j < s.take(k).len() && s.take(k)[j] == sort_by_brightness(s.take(k))[i];
            assert(in_band(s[j], black, white));
        } else {
            let rest = s.skip(k);
            assert(rest[i - k] == s[i]);
            lemma_transform_in_band_pointwise(rest, black, white, i - k);
            assert(transform_line(s, black, white)[i] == transform_line(rest, black, white)[i
                - k]);
        }
    }
}

/// Law: the transform is idempotent; runs of an already transformed line
/// sit at the same positions and are already sorted, so a second pass
/// changes nothing.
pub proof fn lemma_transform_line_idempotent(s: Seq<(u8, u8, u8)>, black: u8, white: u8)
    ensures
        transform_line(transform_line(s, black, white), black, white) == transform_line(
            s,
            black,
            white,
        ),
    decreases s.len(),
{
    let t = transform_line(s, black, white);
    lemma_transform_line_len(s, black, white);
    if s.len() == 0 {
    } else if !in_band(s[0], black, white) {
        let df = s.drop_first();
        lemma_transform_line_idempotent(df, black, white);
        assert(t[0] == seq![s[0]][0]);
        assert(!in_band(t[0], black, white));
        assert(t.drop_first() =~= transform_line(df, black, white));
        assert(transform_line(t, black, white) == seq![t[0]] + transform_line(
            t.drop_first(),
            black,
            white,
        ));
        assert(seq![t[0]] + transform_line(t.drop_first(), black, white) =~= t);
    } else {
        let k = run_len(s, black, white) as int;
        lemma_run_len_bounds(s, black, white);
        lemma_sort_len(s.take(k));
        assert forall|i: int| 0 <= i < k implies in_band(#[trigger] t[i], black, white) by {
            assert(t[i] == sort_by_brightness(s.take(k))[i]);
            lemma_sort_elements_from(s.take(k), i);
            let j = choose|j: int|
                0 <= j < s.take(k).len() && s.take(k)[j] == sort_by_brightness(s.take(k))[i];
            assert(in_band(s[j], black, white));
        }
        if k < s.len() {
            let rest = s.skip(k);
            lemma_transform_line_len(rest, black, white);
            assert(t[k] == transform_line(rest, black, white)[0]);
            lemma_transform_in_band_pointwise(rest, black, white, 0);
            assert(rest[0] == s[k]);
            assert(!in_band(t[k], black, white));
        }
        lemma_transform_run(t, black, white, k);
        assert(t.take(k) =~= sort_by_brightness(s.take(k)));
        assert(t.skip(k) =~= transform_line(s.skip(k), black, white));
        lemma_sort_sorted(s.take(k));
        lemma_sort_of_sorted_is_identity(sort_by_brightness(s.take(k)));
        lemma_transform_line_idempotent(s.skip(k), black, white);
        assert(transform_line(t, black, white) == sort_by_brightness(t.take(k)) + transform_line(
            t.skip(k),
            black,
            white,
        ));
        assert(sort_by_brightness(t.take(k)) + transform_line(t.skip(k), black, white) =~= t);
    }
}

/// Law: with the widest band, `0 ..= 255`, every pixel is in band, the
/// whole line is a single run, and the transform is exactly the stable
/// brightness sort of the line.
pub proof fn lemma_widest_band_sorts_line(s: Seq<(u8, u8, u8)>)
    ensures
        transform_line(s, 0, 255) == sort_by_brightness(s),
{
    assert forall|t: int| 0 <= t < s.len() implies in_band(#[trigger] s[t], 0, 255) by {
        assert(0 <= luminance(s[t]) <= 255);
    }
    lemma_transform_run(s, 0, 255, s.len() as int);
    assert(s.take(s.len() as int) =~= s);
    assert(s.skip(s.len() as int) =~= Seq::<(u8, u8, u8)>::empty());
    assert(sort_by_brightness(s.take(s.len() as int)) + transform_line(
        s.skip(s.len() as int),
        0,
        255,
    ) =~= sort_by_brightness(s));
}

/// Replaces the span `[lo, hi)` by its stable brightness sort and leaves
/// everything else in place.
fn sort_segment(v: Vec<(u8, u8, u8)>, lo: usize, hi: usize) -> (r: Vec<(u8, u8, u8)>)
    requires
        lo <= hi <= v@.len(),
    ensures
        r@.len() == v@.len(),
        r@ == v@.take(lo as int) + sort_by_brightness(v@.subrange(lo as int, hi as int))
            + v@.skip(hi as int),
{
    let ghost orig = v@;
    let mut seg: Vec<(u8, u8, u8)> = Vec::new();
    let mut t: usize = lo;
    while t < hi
        invariant
            lo <= t <= hi <= orig.len(),
            v@ == orig,
            seg@ == orig.subrange(lo as int, t as int),
        decreases hi - t,
    {
        let p: (u8, u8, u8) = v[t];
        seg.push(p);
        proof {
            assert(seg@ =~= orig.subrange(lo as int, t as int + 1));
        }
        t = t + 1;
    }
    let sorted = sort_run(seg);
    proof {
        lemma_sort_len(orig.subrange(lo as int, hi as int));
    }
    let mut out = v;
    let mut u: usize = lo;
    while u < hi
        invariant
            lo <= u <= hi <= orig.len(),
            out@.len() == orig.len(),
            sorted@ == sort_by_brightness(orig.subrange(lo as int, hi as int)),
            sorted@.len() == hi - lo,
            forall|x: int| 0 <= x < lo ==> out@[x] == orig[x],
            forall|x: int| lo <= x < u ==> out@[x] == sorted@[x - lo],
            forall|x: int| u <= x < orig.len() ==> out@[x] == orig[x],
        decreases hi - u,
    {
        let p: (u8, u8, u8) = sorted[u - lo];
        out[u] = p;
        u = u + 1;
    }
    proof {
        assert(out@ =~= orig.take(lo as int) + sort_by_brightness(
            orig.subrange(lo as int, hi as int),
        ) + orig.skip(hi as int));
    }
    out
}

/// Applies the segment-sort transform to one scan line: opens a run at
/// the first in-band pixel, closes it at the first out-of-band pixel or
/// at the end of the line, and sorts each closed run by brightness.
pub fn transform_line_exec(line: Vec<(u8, u8, u8)>, black: u8, white: u8) -> (r: Vec<(u8, u8, u8)>)
    ensures
        r@ == transform_line(line@, black, white),
{
    let ghost orig = line@;
    let n: usize = line.len();
    let mut v = line;
    let mut index: usize = 0;
    let mut in_segment: bool = false;
    proof {
        assert(v@ =~= transform_line(orig.take(0), black, white) + orig.skip(0));
    }
    let mut j: usize = 0;
    while j < n
        invariant
            n == orig.len(),
            v@.len() == n,
            0 <= j <= n,
            in_segment ==> index < j,
            in_segment ==> forall|t: int|
                index <= t < j ==> in_band(#[trigger] orig[t], black, white),
            in_segment ==> (index == 0 || !in_band(orig[index as int - 1], black, white)),
            in_segment ==> v@ == transform_line(orig.take(index as int), black, white)
                + orig.skip(index as int),
            !in_segment ==> v@ == transform_line(orig.take(j as int), black, white)
                + orig.skip(j as int),
            !in_segment ==> (j == 0 || !in_band(orig[j as int - 1], black, white)),
        decreases n - j,
    {
        proof {
            if in_segment {
                lemma_transform_line_len(orig.take(index as int), black, white);
                assert(v@[j as int] == orig.skip(index as int)[j - index]);
                assert(orig.skip(index as int)[j - index] == orig[j as int]);
            } else {
                lemma_transform_line_len(orig.take(j as int), black, white);
                assert(v@[j as int] == orig.skip(j as int)[0]);
                assert(orig.skip(j as int)[0] == orig[j as int]);
            }
        }
        let p: (u8, u8, u8) = v[j];
        let lum: u8 = luminance_of(&p);
        if black <= lum && lum <= white {
            if !in_segment {
                in_segment = true;
                index = j;
            }
        } else {
            if in_segment {
                let ghost pre = orig.take(index as int);
                let ghost mid = orig.subrange(index as int, j as int);
                proof {
                    lemma_transform_line_len(pre, black, white);
                    assert(v@.take(index as int) =~= transform_line(pre, black, white));
                    assert(v@.subrange(index as int, j as int) =~= mid);
                    assert(v@.skip(j as int) =~= orig.skip(j as int));
                }
                v = sort_segment(v, index, j);
                proof {
                    assert(v@ == transform_line(pre, black, white) + sort_by_brightness(mid)
                        + orig.skip(j as int));
                    if index > 0 {
                        assert(pre.last() == orig[index as int - 1]);
                    }
                    let span = orig.subrange(index as int, j as int + 1);
                    assert(pre + span =~= orig.take(j as int + 1));
                    lemma_transform_split(pre, span, black, white);
                    assert forall|t: int| 0 <= t < j - index implies in_band(
                        #[trigger] span[t],
                        black,
                        white,
                    ) by {
                        assert(span[t] == orig[index + t]);
                    }
                    assert(span[j - index] == orig[j as int]);
                    assert(!in_band(span[j - index], black, white));
                    lemma_transform_run(span, black, white, j - index);
                    assert(span.take(j - index) =~= mid);
                    let last_one = span.skip(j - index);
                    assert(last_one =~= seq![orig[j as int]]);
                    assert(transform_line(last_one, black, white) == seq![last_one[0]]
                        + transform_line(last_one.drop_first(), black, white));
                    assert(last_one.drop_first() =~= Seq::<(u8, u8, u8)>::empty());
                    assert(transform_line(last_one, black, white) =~= seq![orig[j as int]]);
                    assert(transform_line(orig.take(j as int + 1), black, white)
                        =~= transform_line(pre, black, white) + sort_by_brightness(mid) + seq![
                        orig[j as int],
                    ]);
                    assert(orig.skip(j as int) =~= seq![orig[j as int]] + orig.skip(j as int + 1));
                    assert(v@ =~= transform_line(orig.take(j as int + 1), black, white)
                        + orig.skip(j as int + 1));
                }
                in_segment = false;
            } else {
                proof {
                    let pre = orig.take(j as int);
                    if j > 0 {
                        assert(pre.last() == orig[j as int - 1]);
                    }
                    let one = seq![orig[j as int]];
                    assert(pre + one =~= orig.take(j as int + 1));
                    lemma_transform_split(pre, one, black, white);
                    assert(transform_line(one, black, white) == seq![one[0]] + transform_line(
                        one.drop_first(),
                        black,
                        white,
                    ));
                    assert(one.drop_first() =~= Seq::<(u8, u8, u8)>::empty());
                    assert(transform_line(one, black, white) =~= one);
                    assert(orig.skip(j as int) =~= one + orig.skip(j as int + 1));
                    assert(v@ =~= transform_line(orig.take(j as int + 1), black, white)
                        + orig.skip(j as int + 1));
                }
            }
        }
        j = j + 1;
    }
    if in_segment {
        let ghost pre = orig.take(index as int);
        let ghost mid = orig.subrange(index as int, n as int);
        proof {
            lemma_transform_line_len(pre, black, white);
            assert(v@.take(index as int) =~= transform_line(pre, black, white));
            assert(v@.subrange(index as int, n as int) =~= mid);
            assert(v@.skip(n as int) =~= Seq::<(u8, u8, u8)>::empty());
        }
        v = sort_segment(v, index, n);
        proof {
            assert(v@ =~= transform_line(pre, black, white) + sort_by_brightness(mid));
            if index > 0 {
                assert(pre.last() == orig[index as int - 1]);
            }
            let span = orig.skip(index as int);
            assert(pre + span =~= orig);
            lemma_transform_split(pre, span, black, white);
            assert forall|t: int| 0 <= t < span.len() implies in_band(
                #[trigger] span[t],
                black,
                white,
            ) by {
                assert(span[t] == orig[index + t]);
            }
            lemma_transform_run(span, black, white, span.len() as int);
            assert(span.take(span.len() as int) =~= mid);
            assert(span.skip(span.len() as int) =~= Seq::<(u8, u8, u8)>::empty());
            assert(transform_line(span, black, white) =~= sort_by_brightness(mid));
            assert(v@ =~= transform_line(orig, black, white));
        }
    } else {
        proof {
            assert(orig.take(n as int) =~= orig);
            assert(orig.skip(n as int) =~= Seq::<(u8, u8, u8)>::empty());
            assert(v@ =~= transform_line(orig, black, white));
        }
    }
    v
}

} // verus!
