//! Parsing of the metadata probe's text output.
//!
//! The probe prints `width=<n>` and `height=<n>` lines for the
//! resolution query, and a bare decimal for the packet-count query. The
//! byte-level grammar lives here; reading the probe's stream is the
//! application's business.

use vstd::prelude::*;

verus! {

/// An ASCII decimal digit.
pub open spec fn is_digit(b: u8) -> bool {
    48 <= b <= 57
}

/// A whitespace byte, as trimming removes it: space, tab, line feed,
/// vertical tab, form feed, carriage return.
pub open spec fn is_space(b: u8) -> bool {
    b == 32 || b == 9 || b == 10 || b == 11 || b == 12 || b == 13
}

pub open spec fn all_digits(s: Seq<u8>) -> bool {
    forall|i: int| 0 <= i < s.len() ==> is_digit(#[trigger] s[i])
}

/// The number a digit string denotes.
pub open spec fn dec_value(s: Seq<u8>) -> int
    decreases s.len(),
{
    if s.len() == 0 {
        0
    } else {
        dec_value(s.drop_last()) * 10 + (s.last() - 48)
    }
}

/// The digits of an unsigned decimal literal: everything after an
/// optional leading plus sign.
pub open spec fn digits_part(s: Seq<u8>) -> Seq<u8> {
    if s.len() > 0 && s[0] == 43 {
        s.drop_first()
    } else {
        s
    }
}

/// What unsigned decimal parsing accepts: an optional leading plus, then
/// at least one digit and nothing else.
pub open spec fn is_uint_literal(s: Seq<u8>) -> bool {
    digits_part(s).len() > 0 && all_digits(digits_part(s))
}

pub open spec fn uint_value(s: Seq<u8>) -> int {
    dec_value(digits_part(s))
}

pub open spec fn trim_front(s: Seq<u8>) -> Seq<u8>
    decreases s.len(),
{
    if s.len() > 0 && is_space(s[0]) {
        trim_front(s.drop_first())
    } else {
        s
    }
}

pub open spec fn trim_back(s: Seq<u8>) -> Seq<u8>
    decreases s.len(),
{
    if s.len() > 0 && is_space(s.last()) {
        trim_back(s.drop_last())
    } else {
        s
    }
}

/// The string without leading and trailing whitespace.
pub open spec fn trimmed(s: Seq<u8>) -> Seq<u8> {
    trim_back(trim_front(s))
}

proof fn lemma_trim_front_is(s: Seq<u8>, k: int)
    requires
        0 <= k <= s.len(),
        forall|t: int| 0 <= t < k ==> is_space(#[trigger] s[t]),
        k == s.len() || !is_space(s[k]),
    ensures
        trim_front(s) == s.skip(k),
    decreases s.len(),
{
    if k == 0 {
        assert(s.skip(0) =~= s);
    } else {
        assert(is_space(s[0]));
        let df = s.drop_first();
        assert forall|t: int| 0 <= t < k - 1 implies is_space(#[trigger] df[t]) by {
            assert(df[t] == s[t + 1]);
        }
        if k - 1 < df.len() {
            assert(df[k - 1] == s[k]);
        }
        lemma_trim_front_is(df, k - 1);
        assert(df.skip(k - 1) =~= s.skip(k));
    }
}

proof fn lemma_trim_back_is(s: Seq<u8>, k: int)
    requires
        0 <= k <= s.len(),
        forall|t: int| k <= t < s.len() ==> is_space(#[trigger] s[t]),
        k == 0 || !is_space(s[k - 1]),
    ensures
        trim_back(s) == s.take(k),
    decreases s.len(),
{
    if k == s.len() {
        if s.len() > 0 {
            assert(!is_space(s.last()));
        }
        assert(s.take(k) =~= s);
    } else {
        assert(is_space(s.last()));
        let dl = s.drop_last();
        assert forall|t: int| k <= t < dl.len() implies is_space(#[trigger] dl[t]) by {
            assert(dl[t] == s[t]);
        }
        if k > 0 {
            assert(dl[k - 1] == s[k - 1]);
        }
        lemma_trim_back_is(dl, k);
        assert(dl.take(k) =~= s.take(k));
    }
}

proof fn lemma_dec_value_nonneg(s: Seq<u8>)
    requires
        all_digits(s),
    ensures
        dec_value(s) >= 0,
    decreases s.len(),
{
    if s.len() > 0 {
        let dl = s.drop_last();
        assert forall|i: int| 0 <= i < dl.len() implies is_digit(#[trigger] dl[i]) by {
            assert(dl[i] == s[i]);
        }
        lemma_dec_value_nonneg(dl);
        assert(is_digit(s[s.len() - 1]));
    }
}

/// A digit string is worth at least any of its prefixes.
proof fn lemma_dec_value_prefix_le(s: Seq<u8>, j: int)
    requires
        all_digits(s),
        0 <= j <= s.len(),
    ensures
        dec_value(s.take(j)) <= dec_value(s),
    decreases s.len() - j,
{
    if j == s.len() {
        assert(s.take(j) =~= s);
    } else {
        assert forall|i: int| 0 <= i < s.take(j).len() implies is_digit(#[trigger] s.take(j)[i])
        by {
            assert(s.take(j)[i] == s[i]);
        }
        lemma_dec_value_nonneg(s.take(j));
        assert(s.take(j + 1).drop_last() =~= s.take(j));
        assert(s.take(j + 1).last() == s[j]);
        assert(is_digit(s[j]));
        assert(dec_value(s.take(j + 1)) == dec_value(s.take(j)) * 10 + (s[j] - 48));
        lemma_dec_value_prefix_le(s, j + 1);
    }
}

/// The value of an unsigned decimal literal is never negative.
pub proof fn lemma_uint_value_nonneg(s: Seq<u8>)
    requires
        is_uint_literal(s),
    ensures
        uint_value(s) >= 0,
{
    lemma_dec_value_nonneg(digits_part(s));
}

/// Copies the byte range `[lo, hi)`.
fn copy_range(s: &Vec<u8>, lo: usize, hi: usize) -> (r: Vec<u8>)
    requires
        lo <= hi <= s@.len(),
    ensures
        r@ == s@.subrange(lo as int, hi as int),
{
    let mut out: Vec<u8> = Vec::new();
    let mut t: usize = lo;
    while t < hi
        invariant
            lo <= t <= hi <= s@.len(),
            out@.len() == t - lo,
            forall|i: int| 0 <= i < out@.len() ==> out@[i] == s@[lo + i],
        decreases hi - t,
    {
        let b: u8 = s[t];
        out.push(b);
        t = t + 1;
    }
    proof {
        assert(out@ =~= s@.subrange(lo as int, hi as int));
    }
    out
}

/// Copies the string without its leading and trailing whitespace.
fn trim_copy(s: &Vec<u8>) -> (r: Vec<u8>)
    ensures
        r@ == trimmed(s@),
{
    let n: usize = s.len();
    let mut lo: usize = 0;
    while lo < n && is_space_byte(s[lo])
        invariant
            n == s@.len(),
            0 <= lo <= n,
            forall|t: int| 0 <= t < lo ==> is_space(#[trigger] s@[t]),
        decreases n - lo,
    {
        lo = lo + 1;
    }
    proof {
        lemma_trim_front_is(s@, lo as int);
    }
    if lo == n {
        proof {
            assert(s@.skip(lo as int) =~= Seq::<u8>::empty());
            assert(trimmed(s@) =~= Seq::<u8>::empty());
        }
        return Vec::new();
    }
    let mut hi: usize = n;
    while hi > lo && is_space_byte(s[hi - 1])
        invariant
            n == s@.len(),
            lo <= hi <= n,
            forall|t: int| hi <= t < n ==> is_space(#[trigger] s@[t]),
        decreases hi,
    {
        hi = hi - 1;
    }
    proof {
        let front = s@.skip(lo as int);
        assert forall|t: int| hi - lo <= t < front.len() implies is_space(#[trigger] front[t]) by {
            assert(front[t] == s@[lo + t]);
        }
        if hi > lo {
            assert(front[hi - lo - 1] == s@[hi - 1]);
        } else {
            assert(hi == lo);
            assert(!is_space(s@[lo as int]));
            assert(front[hi - lo] == s@[lo as int]);
            assert(false);
        }
        lemma_trim_back_is(front, hi - lo);
        assert(front.take(hi - lo) =~= s@.subrange(lo as int, hi as int));
    }
    copy_range(s, lo, hi)
}

/// Executable whitespace test.
fn is_space_byte(b: u8) -> (r: bool)
    ensures
        r == is_space(b),
{
    b == 32 || b == 9 || b == 10 || b == 11 || b == 12 || b == 13
}

/// Parses an unsigned decimal literal, refusing any value above `bound`.
pub fn parse_dec_bounded(s: &Vec<u8>, bound: u64) -> (r: Option<u64>)
    ensures
        r == (if is_uint_literal(s@) && uint_value(s@) <= bound {
            Some(uint_value(s@) as u64)
        } else {
            None::<u64>
        }),
{
    let n: usize = s.len();
    let has_plus: bool = n > 0 && s[0] == 43;
    let start: usize = if has_plus {
        1
    } else {
        0
    };
    let ghost d = digits_part(s@);
    proof {
        assert(d =~= s@.skip(start as int));
    }
    if start == n {
        proof {
            assert(d.len() == 0);
        }
        return None;
    }
    let mut acc: u64 = 0;
    let mut j: usize = start;
    while j < n
        invariant
            n == s@.len(),
            start <= j <= n,
            start < n,
            d == s@.skip(start as int),
            d == digits_part(s@),
            forall|t: int| start <= t < j ==> is_digit(#[trigger] s@[t]),
            acc == dec_value(s@.subrange(start as int, j as int)),
        decreases n - j,
    {
        let b: u8 = s[j];
        if b < 48 || b > 57 {
            proof {
                assert(d[j - start] == s@[j as int]);
                assert(!all_digits(d));
            }
            return None;
        }
        let digit: u64 = (b - 48) as u64;
        proof {
            assert(s@.subrange(start as int, j as int + 1).drop_last() =~= s@.subrange(
                start as int,
                j as int,
            ));
            assert(s@.subrange(start as int, j as int + 1).last() == s@[j as int]);
            assert(dec_value(s@.subrange(start as int, j as int + 1)) == acc * 10 + (b - 48));
        }
        if acc > (u64::MAX - digit) / 10 {
            proof {
                assert(10 * ((u64::MAX - digit) as int / 10) <= u64::MAX - digit);
                assert(acc * 10 + digit > u64::MAX);
                if is_uint_literal(s@) {
                    lemma_dec_value_prefix_le(d, j + 1 - start);
                    assert(d.take(j + 1 - start) =~= s@.subrange(start as int, j as int + 1));
                    assert(uint_value(s@) > u64::MAX);
                }
            }
            return None;
        }
        acc = acc * 10 + digit;
        j = j + 1;
    }
    proof {
        assert(d =~= s@.subrange(start as int, n as int));
        assert forall|i: int| 0 <= i < d.len() implies is_digit(#[trigger] d[i]) by {
            assert(d[i] == s@[start + i]);
        }
        assert(is_uint_literal(s@));
        assert(uint_value(s@) == acc);
    }
    if acc <= bound {
        Some(acc)
    } else {
        None
    }
}

/// The probe's packet-count answer: the whole output, trimmed, read as
/// one unsigned decimal.
pub open spec fn packet_count_of(s: Seq<u8>) -> Option<int> {
    if is_uint_literal(trimmed(s)) && uint_value(trimmed(s)) <= u64::MAX {
        Some(uint_value(trimmed(s)))
    } else {
        None
    }
}

/// Parses the probe's packet-count output: the trimmed text as one
/// unsigned decimal, the total number of decodable frames.
pub fn parse_packet_count(output: &Vec<u8>) -> (r: Option<u64>)
    ensures
        r == (match packet_count_of(output@) {
            Some(v) => Some(v as u64),
            None => None::<u64>,
        }),
{
    let t = trim_copy(output);
    parse_dec_bounded(&t, u64::MAX)
}

/// Index of the first line feed, or the length if there is none.
pub open spec fn first_nl(s: Seq<u8>) -> nat
    decreases s.len(),
{
    if s.len() == 0 {
        0
    } else if s[0] == 10 {
        0
    } else {
        1 + first_nl(s.drop_first())
    }
}

proof fn lemma_first_nl_bounds(s: Seq<u8>)
    ensures
        first_nl(s) <= s.len(),
        forall|t: int| 0 <= t < first_nl(s) ==> #[trigger] s[t] != 10,
        first_nl(s) < s.len() ==> s[first_nl(s) as int] == 10,
    decreases s.len(),
{
    if s.len() == 0 {
    } else if s[0] == 10 {
    } else {
        let df = s.drop_first();
        lemma_first_nl_bounds(df);
        assert forall|t: int| 0 <= t < first_nl(s) implies #[trigger] s[t] != 10 by {
            if t > 0 {
                assert(df[t - 1] == s[t]);
            }
        }
        if first_nl(s) < s.len() {
            assert(df[first_nl(df) as int] == s[first_nl(s) as int]);
        }
    }
}

proof fn lemma_first_nl_is(s: Seq<u8>, k: int)
    requires
        0 <= k <= s.len(),
        forall|t: int| 0 <= t < k ==> #[trigger] s[t] != 10,
        k == s.len() || s[k] == 10,
    ensures
        first_nl(s) == k,
    decreases s.len(),
{
    if k == 0 {
        if s.len() > 0 && s[0] != 10 {
            assert(s[0] == 10);
        }
    } else {
        assert(s[0] != 10);
        let df = s.drop_first();
        assert forall|t: int| 0 <= t < k - 1 implies #[trigger] df[t] != 10 by {
            assert(df[t] == s[t + 1]);
        }
        if k - 1 < df.len() {
            assert(df[k - 1] == s[k]);
        }
        lemma_first_nl_is(df, k - 1);
    }
}

/// A line with its carriage return removed, where the line ending was a
/// carriage return and line feed pair.
pub open spec fn strip_cr(s: Seq<u8>) -> Seq<u8> {
    if s.len() > 0 && s.last() == 13 {
        s.drop_last()
    } else {
        s
    }
}

/// The lines of a text, split at line feeds; a carriage return before a
/// line feed belongs to the line ending, and a final line ending is
/// optional.
pub open spec fn split_lines(s: Seq<u8>) -> Seq<Seq<u8>>
    decreases s.len(),
    via split_lines_decreases
{
    if s.len() == 0 {
        Seq::empty()
    } else {
        let k = first_nl(s) as int;
        if k == s.len() {
            seq![s]
        } else {
            seq![strip_cr(s.take(k))] + split_lines(s.skip(k + 1))
        }
    }
}

#[via_fn]
proof fn split_lines_decreases(s: Seq<u8>) {
    lemma_first_nl_bounds(s);
    if s.len() > 0 && first_nl(s) < s.len() {
        assert(s.skip(first_nl(s) as int + 1).len() < s.len());
    }
}

/// Splits the probe output into its lines.
pub fn split_lines_exec(s: &Vec<u8>) -> (r: Vec<Vec<u8>>)
    ensures
        r@.len() == split_lines(s@).len(),
        forall|i: int| 0 <= i < r@.len() ==> (#[trigger] r@[i])@ == split_lines(s@)[i],
{
    let n: usize = s.len();
    let mut out: Vec<Vec<u8>> = Vec::new();
    let mut pos: usize = 0;
    proof {
        assert(s@.skip(0) =~= s@);
    }
    while pos < n
        invariant
            n == s@.len(),
            0 <= pos <= n,
            split_lines(s@).len() == out@.len() + split_lines(s@.skip(pos as int)).len(),
            forall|i: int| 0 <= i < out@.len() ==> (#[trigger] out@[i])@ == split_lines(s@)[i],
            forall|j: int|
                0 <= j < split_lines(s@.skip(pos as int)).len() ==> #[trigger] split_lines(
                    s@.skip(pos as int),
                )[j] == split_lines(s@)[out@.len() + j],
        decreases n - pos,
    {
        let mut k: usize = pos;
        while k < n && s[k] != 10
            invariant
                n == s@.len(),
                pos <= k <= n,
                forall|t: int| pos <= t < k ==> #[trigger] s@[t] != 10,
            decreases n - k,
        {
            k = k + 1;
        }
        let ghost rest = s@.skip(pos as int);
        proof {
            assert forall|t: int| 0 <= t < k - pos implies #[trigger] rest[t] != 10 by {
                assert(rest[t] == s@[pos + t]);
            }
            if k < n {
                assert(rest[k - pos] == s@[k as int]);
            }
            lemma_first_nl_is(rest, k - pos);
        }
        let hi: usize = if k < n && k > pos && s[k - 1] == 13 {
            k - 1
        } else {
            k
        };
        let line = copy_range(s, pos, hi);
        let ghost old_len = out@.len();
        out.push(line);
        if k < n {
            proof {
                assert(rest.take(k - pos) =~= s@.subrange(pos as int, k as int));
                assert(strip_cr(rest.take(k - pos)) =~= s@.subrange(pos as int, hi as int));
                assert(rest.skip(k - pos + 1) =~= s@.skip(k as int + 1));
                assert(split_lines(rest) == seq![strip_cr(rest.take(k - pos))] + split_lines(
                    s@.skip(k as int + 1),
                ));
                assert(split_lines(rest)[0] == strip_cr(rest.take(k - pos)));
                assert(split_lines(rest)[0] == split_lines(s@)[old_len as int]);
                assert(line@ == split_lines(s@)[old_len as int]);
                assert(out@[old_len as int]@ == split_lines(s@)[old_len as int]);
                assert(split_lines(rest).len() == 1 + split_lines(s@.skip(k as int + 1)).len());
                assert forall|j: int|
                    0 <= j < split_lines(s@.skip(k as int + 1)).len() implies #[trigger] split_lines(
                    s@.skip(k as int + 1),
                )[j] == split_lines(s@)[old_len + 1 + j] by {
                    assert(split_lines(rest)[j + 1] == split_lines(s@.skip(k as int + 1))[j]);
                    assert(split_lines(rest)[j + 1] == split_lines(s@)[old_len + (j + 1)]);
                }
            }
            pos = k + 1;
        } else {
            proof {
                assert(rest.len() > 0);
                assert(first_nl(rest) == rest.len());
                assert(split_lines(rest) == seq![rest]);
                assert(rest.take(rest.len() as int) =~= rest);
                assert(line@ =~= rest);
                assert(split_lines(rest)[0] == split_lines(s@)[old_len as int]);
                assert(out@[old_len as int]@ == split_lines(s@)[old_len as int]);
                assert(s@.skip(n as int) =~= Seq::<u8>::empty());
                assert(split_lines(s@.skip(n as int)).len() == 0);
            }
            pos = n;
        }
    }
    proof {
        assert(s@.skip(pos as int) =~= Seq::<u8>::empty());
        assert(split_lines(s@.skip(pos as int)).len() == 0);
    }
    out
}

/// Index of the first equals sign, or the length if there is none.
pub open spec fn first_eq(s: Seq<u8>) -> nat
    decreases s.len(),
{
    if s.len() == 0 {
        0
    } else if s[0] == 61 {
        0
    } else {
        1 + first_eq(s.drop_first())
    }
}

proof fn lemma_first_eq_is(s: Seq<u8>, k: int)
    requires
        0 <= k <= s.len(),
        forall|t: int| 0 <= t < k ==> #[trigger] s[t] != 61,
        k == s.len() || s[k] == 61,
    ensures
        first_eq(s) == k,
    decreases s.len(),
{
    if k == 0 {
        if s.len() > 0 && s[0] != 61 {
            assert(s[0] == 61);
        }
    } else {
        assert(s[0] != 61);
        let df = s.drop_first();
        assert forall|t: int| 0 <= t < k - 1 implies #[trigger] df[t] != 61 by {
            assert(df[t] == s[t + 1]);
        }
        if k - 1 < df.len() {
            assert(df[k - 1] == s[k]);
        }
        lemma_first_eq_is(df, k - 1);
    }
}

/// The bytes of `width=`, the key of the probe's width line.
pub open spec fn width_key() -> Seq<u8> {
    seq![119u8, 105u8, 100u8, 116u8, 104u8, 61u8]
}

/// The bytes of `height=`, the key of the probe's height line.
pub open spec fn height_key() -> Seq<u8> {
    seq![104u8, 101u8, 105u8, 103u8, 104u8, 116u8, 61u8]
}

/// The key part of a `key=value` line: everything up to and including
/// the first equals sign, trimmed.
pub open spec fn line_key(line: Seq<u8>) -> Seq<u8> {
    trimmed(line.take(first_eq(line) as int + 1))
}

/// The value part of a `key=value` line: everything after the first
/// equals sign, trimmed.
pub open spec fn line_value(line: Seq<u8>) -> Seq<u8> {
    trimmed(line.skip(first_eq(line) as int + 1))
}

/// What parsing a dimension accepts: an unsigned decimal that fits the
/// machine's word.
pub open spec fn parsed_usize(v: Seq<u8>) -> Option<int> {
    if is_uint_literal(v) && uint_value(v) <= usize::MAX {
        Some(uint_value(v))
    } else {
        None
    }
}

/// One line's effect on the `(width, height)` pair gathered so far: a
/// line without an equals sign changes nothing; a `width=` or `height=`
/// line overwrites its slot with its parsed value, or with nothing if
/// the value does not parse.
pub open spec fn update_resolution(acc: (Option<int>, Option<int>), line: Seq<u8>) -> (
    Option<int>,
    Option<int>,
) {
    if first_eq(line) == line.len() {
        acc
    } else if line_key(line) == width_key() {
        (parsed_usize(line_value(line)), acc.1)
    } else if line_key(line) == height_key() {
        (acc.0, parsed_usize(line_value(line)))
    } else {
        acc
    }
}

/// The `(width, height)` pair after reading all lines in order.
pub open spec fn resolution_scan(lines: Seq<Seq<u8>>) -> (Option<int>, Option<int>)
    decreases lines.len(),
{
    if lines.len() == 0 {
        (None, None)
    } else {
        update_resolution(resolution_scan(lines.drop_last()), lines.last())
    }
}

/// The resolution the probe output denotes, if both dimensions parse.
pub open spec fn resolution_of(s: Seq<u8>) -> Option<(int, int)> {
    match resolution_scan(split_lines(s)) {
        (Some(w), Some(h)) => Some((w, h)),
        _ => None,
    }
}

/// The executable key test for `width=`.
fn is_width_key(key: &Vec<u8>) -> (r: bool)
    ensures
        r == (key@ == width_key()),
{
    let ok: bool = key.len() == 6 && key[0] == 119 && key[1] == 105 && key[2] == 100 && key[3]
        == 116 && key[4] == 104 && key[5] == 61;
    proof {
        if ok {
            assert(key@ =~= width_key());
        }
    }
    ok
}

/// The executable key test for `height=`.
fn is_height_key(key: &Vec<u8>) -> (r: bool)
    ensures
        r == (key@ == height_key()),
{
    let ok: bool = key.len() == 7 && key[0] == 104 && key[1] == 101 && key[2] == 105 && key[3]
        == 103 && key[4] == 104 && key[5] == 116 && key[6] == 61;
    proof {
        if ok {
            assert(key@ =~= height_key());
        }
    }
    ok
}

/// The spec-level view of a gathered dimension.
pub open spec fn dim_as_int(o: Option<usize>) -> Option<int> {
    match o {
        Some(v) => Some(v as int),
        None => None,
    }
}

/// Parses the probe's resolution output: the last `width=` and
/// `height=` lines decide, exactly as reading the lines in order and
/// letting later ones overwrite earlier ones.
pub fn parse_resolution(output: &Vec<u8>) -> (r: Option<(usize, usize)>)
    ensures
        r == (match resolution_of(output@) {
            Some(p) => Some((p.0 as usize, p.1 as usize)),
            None => None::<(usize, usize)>,
        }),
{
    let lines = split_lines_exec(output);
    let ghost spec_lines = split_lines(output@);
    let mut wopt: Option<usize> = None;
    let mut hopt: Option<usize> = None;
    let mut i: usize = 0;
    proof {
        assert(spec_lines.take(0) =~= Seq::<Seq<u8>>::empty());
    }
    while i < lines.len()
        invariant
            spec_lines == split_lines(output@),
            lines@.len() == spec_lines.len(),
            forall|t: int| 0 <= t < lines@.len() ==> (#[trigger] lines@[t])@ == spec_lines[t],
            0 <= i <= lines@.len(),
            dim_as_int(wopt) == resolution_scan(spec_lines.take(i as int)).0,
            dim_as_int(hopt) == resolution_scan(spec_lines.take(i as int)).1,
        decreases lines@.len() - i,
    {
        let line: &Vec<u8> = &lines[i];
        let ln: usize = line.len();
        let mut e: usize = 0;
        while e < ln && line[e] != 61
            invariant
                ln == line@.len(),
                0 <= e <= ln,
                forall|t: int| 0 <= t < e ==> #[trigger] line@[t] != 61,
            decreases ln - e,
        {
            e = e + 1;
        }
        proof {
            lemma_first_eq_is(line@, e as int);
        }
        let ghost acc = resolution_scan(spec_lines.take(i as int));
        if e < ln {
            let keyraw = copy_range(line, 0, e + 1);
            let key = trim_copy(&keyraw);
            proof {
                assert(keyraw@ =~= line@.take(e as int + 1));
                assert(key@ == line_key(line@));
            }
            if is_width_key(&key) {
                let valraw = copy_range(line, e + 1, ln);
                let val = trim_copy(&valraw);
                proof {
                    assert(valraw@ =~= line@.skip(e as int + 1));
                    assert(val@ == line_value(line@));
                }
                let parsed = parse_dec_bounded(&val, usize::MAX as u64);
                if let Some(v) = parsed {
                    proof {
                        assert(is_uint_literal(val@) && uint_value(val@) <= usize::MAX as u64);
                        lemma_uint_value_nonneg(val@);
                        assert(v == uint_value(val@) as u64);
                        assert(v <= usize::MAX);
                    }
                    wopt = Some(v as usize);
                } else {
                    wopt = None;
                }
                proof {
                    assert(dim_as_int(wopt) == parsed_usize(line_value(line@)));
                }
            } else if is_height_key(&key) {
                let valraw = copy_range(line, e + 1, ln);
                let val = trim_copy(&valraw);
                proof {
                    assert(valraw@ =~= line@.skip(e as int + 1));
                    assert(val@ == line_value(line@));
                }
                let parsed = parse_dec_bounded(&val, usize::MAX as u64);
                if let Some(v) = parsed {
                    proof {
                        assert(is_uint_literal(val@) && uint_value(val@) <= usize::MAX as u64);
                        lemma_uint_value_nonneg(val@);
                        assert(v == uint_value(val@) as u64);
                        assert(v <= usize::MAX);
                    }
                    hopt = Some(v as usize);
                } else {
                    hopt = None;
                }
                proof {
                    assert(dim_as_int(hopt) == parsed_usize(line_value(line@)));
                }
            }
        }
        proof {
            assert(spec_lines.take(i as int + 1).drop_last() =~= spec_lines.take(i as int));
            assert(spec_lines.take(i as int + 1).last() == spec_lines[i as int]);
            assert(line@ == spec_lines[i as int]);
            assert(resolution_scan(spec_lines.take(i as int + 1)) == update_resolution(
                acc,
                line@,
            ));
            assert(dim_as_int(wopt) == update_resolution(acc, line@).0);
            assert(dim_as_int(hopt) == update_resolution(acc, line@).1);
        }
        i = i + 1;
    }
    proof {
        assert(spec_lines.take(lines@.len() as int) =~= spec_lines);
    }
    match (wopt, hopt) {
        (Some(w), Some(h)) => Some((w, h)),
        _ => None,
    }
}

} // verus!
