//! Pixels and the stable brightness sort applied inside a run.

use vstd::prelude::*;

verus! {

/// Brightness of a pixel: the sum of the three raw channel values.
/// This is the key by which pixels inside a run are sorted.
pub open spec fn brightness(p: (u8, u8, u8)) -> int {
    p.0 + p.1 + p.2
}

/// Luminance of a pixel: the integer-truncated mean of the three channel
/// values. This is the gating metric that decides run membership; it is
/// deliberately a different quantity than the brightness sort key.
pub open spec fn luminance(p: (u8, u8, u8)) -> int {
    (p.0 + p.1 + p.2) / 3
}

/// Whether a pixel's luminance lies inside the threshold band.
pub open spec fn in_band(p: (u8, u8, u8), black: u8, white: u8) -> bool {
    black <= luminance(p) && luminance(p) <= white
}

/// Executable luminance; the mean of three bytes always fits in a byte.
pub fn luminance_of(p: &(u8, u8, u8)) -> (r: u8)
    ensures
        r == luminance(*p),
{
    (((p.0 as u32) + (p.1 as u32) + (p.2 as u32)) / 3) as u8
}

/// Compares two pixels by brightness; the order used inside a run.
pub fn pixel_compare(a: &(u8, u8, u8), b: &(u8, u8, u8)) -> (r: core::cmp::Ordering)
    ensures
        r == core::cmp::Ordering::Less <==> brightness(*a) < brightness(*b),
        r == core::cmp::Ordering::Equal <==> brightness(*a) == brightness(*b),
        r == core::cmp::Ordering::Greater <==> brightness(*a) > brightness(*b),
{
    let ba: u32 = a.0 as u32 + a.1 as u32 + a.2 as u32;
    let bb: u32 = b.0 as u32 + b.1 as u32 + b.2 as u32;
    if ba < bb {
        core::cmp::Ordering::Less
    } else if ba == bb {
        core::cmp::Ordering::Equal
    } else {
        core::cmp::Ordering::Greater
    }
}

/// The line segment `s` with `p` inserted behind every element whose
/// brightness does not exceed `p`'s; keeps equal-brightness elements in
/// their original relative order.
pub open spec fn insert_by_brightness(s: Seq<(u8, u8, u8)>, p: (u8, u8, u8)) -> Seq<(u8, u8, u8)>
    decreases s.len(),
{
    if s.len() == 0 {
        seq![p]
    } else if brightness(s.last()) <= brightness(p) {
        s.push(p)
    } else {
        insert_by_brightness(s.drop_last(), p).push(s.last())
    }
}

/// The stable ascending-by-brightness reordering of a line segment:
/// each element in turn is inserted behind its equals.
pub open spec fn sort_by_brightness(s: Seq<(u8, u8, u8)>) -> Seq<(u8, u8, u8)>
    decreases s.len(),
{
    if s.len() == 0 {
        s
    } else {
        insert_by_brightness(sort_by_brightness(s.drop_last()), s.last())
    }
}

/// Ascending brightness along the whole segment.
pub open spec fn sorted_by_brightness(s: Seq<(u8, u8, u8)>) -> bool {
    forall|i: int, j: int| 0 <= i < j < s.len() ==> brightness(s[i]) <= brightness(s[j])
}

pub proof fn lemma_insert_len(s: Seq<(u8, u8, u8)>, p: (u8, u8, u8))
    ensures
        insert_by_brightness(s, p).len() == s.len() + 1,
    decreases s.len(),
{
    if s.len() == 0 {
    } else if brightness(s.last()) <= brightness(p) {
    } else {
        lemma_insert_len(s.drop_last(), p);
    }
}

pub proof fn lemma_insert_multiset(s: Seq<(u8, u8, u8)>, p: (u8, u8, u8))
    ensures
        insert_by_brightness(s, p).to_multiset() == s.to_multiset().insert(p),
    decreases s.len(),
{
    broadcast use vstd::seq_lib::group_to_multiset_ensures;
    broadcast use vstd::multiset::group_multiset_axioms;

    if s.len() == 0 {
        assert(seq![p] =~= s.push(p));
        assert(s.push(p).to_multiset() == s.to_multiset().insert(p));
    } else if brightness(s.last()) <= brightness(p) {
        assert(s.push(p).to_multiset() == s.to_multiset().insert(p));
    } else {
        let dl = s.drop_last();
        let t = insert_by_brightness(dl, p);
        lemma_insert_multiset(dl, p);
        assert(t.push(s.last()).to_multiset() == t.to_multiset().insert(s.last()));
        assert(dl.push(s.last()) =~= s);
        assert(dl.push(s.last()).to_multiset() == dl.to_multiset().insert(s.last()));
        assert(t.push(s.last()).to_multiset() =~= s.to_multiset().insert(p));
    }
}

/// Every element of the insertion result stays below any bound that holds
/// of the inserted element and of every element of the segment.
proof fn lemma_insert_below_bound(s: Seq<(u8, u8, u8)>, p: (u8, u8, u8), bound: int)
    requires
        forall|i: int| 0 <= i < s.len() ==> brightness(s[i]) <= bound,
        brightness(p) <= bound,
    ensures
        forall|i: int|
            0 <= i < insert_by_brightness(s, p).len() ==> brightness(
                insert_by_brightness(s, p)[i],
            ) <= bound,
    decreases s.len(),
{
    if s.len() == 0 {
    } else if brightness(s.last()) <= brightness(p) {
    } else {
        let dl = s.drop_last();
        assert forall|i: int| 0 <= i < dl.len() implies brightness(dl[i]) <= bound by {
            assert(dl[i] == s[i]);
        }
        lemma_insert_below_bound(dl, p, bound);
        let t = insert_by_brightness(dl, p);
        assert forall|i: int| 0 <= i < t.push(s.last()).len() implies brightness(
            t.push(s.last())[i],
        ) <= bound by {
            if i < t.len() {
                assert(t.push(s.last())[i] == t[i]);
            } else {
                assert(t.push(s.last())[i] == s.last());
            }
        }
    }
}

pub proof fn lemma_insert_keeps_sorted(s: Seq<(u8, u8, u8)>, p: (u8, u8, u8))
    requires
        sorted_by_brightness(s),
    ensures
        sorted_by_brightness(insert_by_brightness(s, p)),
    decreases s.len(),
{
    if s.len() == 0 {
    } else if brightness(s.last()) <= brightness(p) {
        let r = s.push(p);
        assert forall|i: int, j: int| 0 <= i < j < r.len() implies brightness(r[i]) <= brightness(
            r[j],
        ) by {
            if j < s.len() {
                assert(r[i] == s[i] && r[j] == s[j]);
            } else {
                assert(r[j] == p);
                if i < s.len() - 1 {
                    assert(brightness(s[i]) <= brightness(s[s.len() - 1]));
                }
            }
        }
    } else {
        let dl = s.drop_last();
        assert forall|i: int, j: int| 0 <= i < j < dl.len() implies brightness(dl[i])
            <= brightness(dl[j]) by {
            assert(dl[i] == s[i] && dl[j] == s[j]);
        }
        lemma_insert_keeps_sorted(dl, p);
        assert forall|i: int| 0 <= i < dl.len() implies brightness(dl[i]) <= brightness(
            s.last(),
        ) by {
            assert(brightness(s[i]) <= brightness(s[s.len() - 1]));
        }
        lemma_insert_below_bound(dl, p, brightness(s.last()));
        lemma_insert_len(dl, p);
        let t = insert_by_brightness(dl, p);
        let r = t.push(s.last());
        assert forall|i: int, j: int| 0 <= i < j < r.len() implies brightness(r[i]) <= brightness(
            r[j],
        ) by {
            if j < t.len() {
                assert(r[i] == t[i] && r[j] == t[j]);
            } else {
                assert(r[j] == s.last());
                assert(r[i] == t[i]);
            }
        }
    }
}

pub proof fn lemma_sort_len(s: Seq<(u8, u8, u8)>)
    ensures
        sort_by_brightness(s).len() == s.len(),
    decreases s.len(),
{
    if s.len() == 0 {
    } else {
        lemma_sort_len(s.drop_last());
        lemma_insert_len(sort_by_brightness(s.drop_last()), s.last());
    }
}

pub proof fn lemma_sort_multiset(s: Seq<(u8, u8, u8)>)
    ensures
        sort_by_brightness(s).to_multiset() == s.to_multiset(),
    decreases s.len(),
{
    broadcast use vstd::seq_lib::group_to_multiset_ensures;
    broadcast use vstd::multiset::group_multiset_axioms;

    if s.len() == 0 {
    } else {
        let dl = s.drop_last();
        lemma_sort_multiset(dl);
        lemma_insert_multiset(sort_by_brightness(dl), s.last());
        assert(dl.push(s.last()) =~= s);
        assert(dl.push(s.last()).to_multiset() == dl.to_multiset().insert(s.last()));
    }
}

pub proof fn lemma_sort_sorted(s: Seq<(u8, u8, u8)>)
    ensures
        sorted_by_brightness(sort_by_brightness(s)),
    decreases s.len(),
{
    if s.len() == 0 {
    } else {
        lemma_sort_sorted(s.drop_last());
        lemma_insert_keeps_sorted(sort_by_brightness(s.drop_last()), s.last());
    }
}

/// A segment that already stands in ascending brightness order is left
/// exactly as it is by the sort.
pub proof fn lemma_sort_of_sorted_is_identity(s: Seq<(u8, u8, u8)>)
    requires
        sorted_by_brightness(s),
    ensures
        sort_by_brightness(s) == s,
    decreases s.len(),
{
    if s.len() == 0 {
    } else {
        let dl = s.drop_last();
        assert forall|i: int, j: int| 0 <= i < j < dl.len() implies brightness(dl[i])
            <= brightness(dl[j]) by {
            assert(dl[i] == s[i] && dl[j] == s[j]);
        }
        lemma_sort_of_sorted_is_identity(dl);
        if dl.len() == 0 {
            assert(insert_by_brightness(dl, s.last()) =~= s);
        } else {
            assert(brightness(dl.last()) <= brightness(s.last())) by {
                assert(dl.last() == s[s.len() - 2]);
                assert(brightness(s[s.len() - 2]) <= brightness(s[s.len() - 1]));
            }
            assert(dl.push(s.last()) =~= s);
        }
    }
}

/// Every element of the sorted segment is drawn from the original segment.
pub proof fn lemma_sort_elements_from(s: Seq<(u8, u8, u8)>, i: int)
    requires
        0 <= i < sort_by_brightness(s).len(),
    ensures
        exists|j: int| 0 <= j < s.len() && s[j] == sort_by_brightness(s)[i],
{
    broadcast use vstd::seq_lib::group_to_multiset_ensures;

    lemma_sort_multiset(s);
    let x = sort_by_brightness(s)[i];
    assert(sort_by_brightness(s).contains(x));
    assert(sort_by_brightness(s).to_multiset().count(x) > 0);
    assert(s.to_multiset().count(x) > 0);
    assert(s.contains(x));
}

/// The pixels of one brightness value, in their order of appearance.
pub open spec fn same_brightness(s: Seq<(u8, u8, u8)>, v: int) -> Seq<(u8, u8, u8)> {
    s.filter(|p: (u8, u8, u8)| brightness(p) == v)
}

proof fn lemma_insert_stable(s: Seq<(u8, u8, u8)>, p: (u8, u8, u8), v: int)
    ensures
        same_brightness(insert_by_brightness(s, p), v) == (if brightness(p) == v {
            same_brightness(s, v).push(p)
        } else {
            same_brightness(s, v)
        }),
    decreases s.len(),
{
    reveal_with_fuel(Seq::<(u8, u8, u8)>::filter, 3);
    if s.len() == 0 {
        assert(seq![p].drop_last() =~= Seq::<(u8, u8, u8)>::empty());
        if brightness(p) == v {
            assert(same_brightness(seq![p], v) =~= same_brightness(s, v).push(p));
        } else {
            assert(same_brightness(seq![p], v) =~= same_brightness(s, v));
        }
    } else if brightness(s.last()) <= brightness(p) {
        assert(s.push(p).drop_last() =~= s);
        assert(s.push(p).last() == p);
    } else {
        let dl = s.drop_last();
        let t = insert_by_brightness(dl, p);
        lemma_insert_stable(dl, p, v);
        assert(t.push(s.last()).drop_last() =~= t);
        assert(t.push(s.last()).last() == s.last());
        assert(dl.push(s.last()) =~= s);
        if brightness(p) == v {
            assert(brightness(s.last()) != v);
        }
    }
}

/// Law: the sort is stable. For every brightness value, the pixels of
/// that brightness stand in the same relative order before and after
/// the sort; ties are never swapped.
pub proof fn lemma_sort_stable(s: Seq<(u8, u8, u8)>, v: int)
    ensures
        same_brightness(sort_by_brightness(s), v) == same_brightness(s, v),
    decreases s.len(),
{
    reveal_with_fuel(Seq::<(u8, u8, u8)>::filter, 3);
    if s.len() == 0 {
    } else {
        let dl = s.drop_last();
        lemma_sort_stable(dl, v);
        lemma_insert_stable(sort_by_brightness(dl), s.last(), v);
        assert(dl.push(s.last()) =~= s);
    }
}

/// Inserting an element into a sorted segment at the position where the
/// shifting pass of the executable sort stops is the specified insertion.
proof fn lemma_insert_at_position(s: Seq<(u8, u8, u8)>, p: (u8, u8, u8), j: int)
    requires
        sorted_by_brightness(s),
        0 <= j <= s.len(),
        forall|t: int| j <= t < s.len() ==> brightness(s[t]) > brightness(p),
        j > 0 ==> brightness(s[j - 1]) <= brightness(p),
    ensures
        insert_by_brightness(s, p) == s.insert(j, p),
    decreases s.len(),
{
    if s.len() == 0 {
        assert(insert_by_brightness(s, p) =~= s.insert(0, p));
    } else if j == s.len() {
        assert(brightness(s.last()) <= brightness(p)) by {
            assert(s.last() == s[j - 1]);
        }
        assert(s.push(p) =~= s.insert(j, p));
    } else {
        assert(brightness(s.last()) > brightness(p)) by {
            assert(brightness(s[s.len() - 1]) > brightness(p));
        }
        let dl = s.drop_last();
        assert forall|i: int, jj: int| 0 <= i < jj < dl.len() implies brightness(dl[i])
            <= brightness(dl[jj]) by {
            assert(dl[i] == s[i] && dl[jj] == s[jj]);
        }
        assert forall|t: int| j <= t < dl.len() implies brightness(dl[t]) > brightness(p) by {
            assert(dl[t] == s[t]);
        }
        if j > 0 {
            assert(dl[j - 1] == s[j - 1]);
        }
        lemma_insert_at_position(dl, p, j);
        lemma_insert_len(dl, p);
        assert(dl.insert(j, p).push(s.last()) =~= s.insert(j, p));
    }
}

/// Sorts a line segment by ascending brightness with a stable insertion
/// sort; the result is exactly the specified stable reordering.
pub fn sort_run(line: Vec<(u8, u8, u8)>) -> (r: Vec<(u8, u8, u8)>)
    ensures
        r@ == sort_by_brightness(line@),
{
    let ghost orig = line@;
    let mut v = line;
    let n: usize = v.len();
    proof {
        assert(v@ =~= sort_by_brightness(orig.take(0)) + orig.skip(0));
    }
    let mut i: usize = 0;
    while i < n
        invariant
            n == v@.len(),
            orig.len() == n,
            0 <= i <= n,
            v@ == sort_by_brightness(orig.take(i as int)) + orig.skip(i as int),
        decreases n - i,
    {
        let ghost sorted_prefix = sort_by_brightness(orig.take(i as int));
        proof {
            lemma_sort_len(orig.take(i as int));
            lemma_sort_sorted(orig.take(i as int));
        }
        let key: (u8, u8, u8) = v[i];
        proof {
            assert(v@[i as int] == orig.skip(i as int)[0]);
            assert(orig.skip(i as int)[0] == orig[i as int]);
            assert(v@ =~= sorted_prefix.insert(i as int, key) + orig.skip(i as int + 1));
        }
        let mut j: usize = i;
        while j > 0 && brightness_of_at(&v, j - 1) > brightness_of_at(&v, j)
            invariant
                n == v@.len(),
                orig.len() == n,
                0 <= j <= i < n,
                sorted_prefix == sort_by_brightness(orig.take(i as int)),
                sorted_prefix.len() == i,
                sorted_by_brightness(sorted_prefix),
                key == orig[i as int],
                v@ == sorted_prefix.insert(j as int, key) + orig.skip(i as int + 1),
                forall|t: int| j <= t < i ==> brightness(sorted_prefix[t]) > brightness(key),
            decreases j,
        {
            proof {
                assert(v@[j as int] == sorted_prefix.insert(j as int, key)[j as int]);
                assert(v@[j - 1] == sorted_prefix.insert(j as int, key)[j - 1]);
                assert(sorted_prefix.insert(j as int, key)[j as int] == key);
                assert(sorted_prefix.insert(j as int, key)[j - 1] == sorted_prefix[j - 1]);
            }
            let a: (u8, u8, u8) = v[j - 1];
            let b: (u8, u8, u8) = v[j];
            v[j - 1] = b;
            v[j] = a;
            proof {
                assert(v@ =~= sorted_prefix.insert(j - 1, key) + orig.skip(i as int + 1));
            }
            j = j - 1;
        }
        proof {
            assert(v@[j as int] == sorted_prefix.insert(j as int, key)[j as int]);
            assert(sorted_prefix.insert(j as int, key)[j as int] == key);
            if j > 0 {
                assert(v@[j - 1] == sorted_prefix.insert(j as int, key)[j - 1]);
                assert(sorted_prefix.insert(j as int, key)[j - 1] == sorted_prefix[j - 1]);
            }
            lemma_insert_at_position(sorted_prefix, key, j as int);
            assert(orig.take(i as int + 1).drop_last() =~= orig.take(i as int));
            assert(orig.take(i as int + 1).last() == orig[i as int]);
            assert(sort_by_brightness(orig.take(i as int + 1)) == insert_by_brightness(
                sorted_prefix,
                key,
            ));
            assert(v@ =~= sort_by_brightness(orig.take(i as int + 1)) + orig.skip(i as int + 1));
        }
        i = i + 1;
    }
    proof {
        assert(orig.take(n as int) =~= orig);
        assert(orig.skip(n as int) =~= Seq::<(u8, u8, u8)>::empty());
        assert(v@ =~= sort_by_brightness(orig));
    }
    v
}

/// Executable brightness of the pixel at an index; used by the shifting
/// pass of the insertion sort.
fn brightness_of_at(v: &Vec<(u8, u8, u8)>, idx: usize) -> (r: u32)
    requires
        idx < v@.len(),
    ensures
        r == brightness(v@[idx as int]),
{
    let p: (u8, u8, u8) = v[idx];
    p.0 as u32 + p.1 as u32 + p.2 as u32
}

} // verus!
