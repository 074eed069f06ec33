//! Whole-frame views and the frame transform.
//!
//! A raw frame is a byte buffer of `width * height * 3` bytes, row-major,
//! three bytes to a pixel. The transform reads the frame as scan lines --
//! rows under the horizontal orientation, columns under the vertical one --
//! and applies the segment-sort transform to every line.

use vstd::arithmetic::div_mod::lemma_fundamental_div_mod_converse;
use vstd::arithmetic::mul::lemma_mul_inequality;
use vstd::prelude::*;

use crate::transform::lemma_transform_line_len;
use crate::transform::transform_line;
use crate::transform::transform_line_exec;

verus! {

/// The pixel triples of a byte buffer, three consecutive bytes each.
pub open spec fn pixels_of_bytes(s: Seq<u8>) -> Seq<(u8, u8, u8)> {
    Seq::new((s.len() / 3) as nat, |i: int| (s[3 * i], s[3 * i + 1], s[3 * i + 2]))
}

/// The byte buffer of a pixel triple sequence.
pub open spec fn bytes_of_pixels(p: Seq<(u8, u8, u8)>) -> Seq<u8> {
    Seq::new(
        (p.len() * 3) as nat,
        |i: int|
            if i % 3 == 0 {
                p[i / 3].0
            } else if i % 3 == 1 {
                p[i / 3].1
            } else {
                p[i / 3].2
            },
    )
}

/// Row `r` of a row-major pixel sequence of the given width.
pub open spec fn row_of(p: Seq<(u8, u8, u8)>, width: int, r: int) -> Seq<(u8, u8, u8)> {
    Seq::new(width as nat, |x: int| p[r * width + x])
}

/// Column `c` of a row-major pixel sequence of the given dimensions.
pub open spec fn col_of(p: Seq<(u8, u8, u8)>, width: int, height: int, c: int) -> Seq<
    (u8, u8, u8),
> {
    Seq::new(height as nat, |y: int| p[y * width + c])
}

pub proof fn lemma_pixels_of_bytes_of_pixels(p: Seq<(u8, u8, u8)>)
    ensures
        pixels_of_bytes(bytes_of_pixels(p)) == p,
{
    let b = bytes_of_pixels(p);
    assert(b.len() == p.len() * 3);
    assert forall|i: int| 0 <= i < p.len() implies pixels_of_bytes(b)[i] == p[i] by {
        assert((3 * i) % 3 == 0 && (3 * i) / 3 == i);
        assert((3 * i + 1) % 3 == 1 && (3 * i + 1) / 3 == i);
        assert((3 * i + 2) % 3 == 2 && (3 * i + 2) / 3 == i);
        assert(b[3 * i] == p[i].0);
        assert(b[3 * i + 1] == p[i].1);
        assert(b[3 * i + 2] == p[i].2);
    }
    assert(pixels_of_bytes(b) =~= p);
}

/// Reads a byte buffer as pixel triples; a trailing group of fewer than
/// three bytes is dropped.
pub fn bytes_to_pixels(frame: &Vec<u8>) -> (r: Vec<(u8, u8, u8)>)
    ensures
        r@ == pixels_of_bytes(frame@),
{
    let n: usize = frame.len() / 3;
    let mut out: Vec<(u8, u8, u8)> = Vec::new();
    let mut i: usize = 0;
    while i < n
        invariant
            frame@.len() <= usize::MAX,
            n == frame@.len() / 3,
            0 <= i <= n,
            out@.len() == i,
            forall|t: int| 0 <= t < i ==> out@[t] == pixels_of_bytes(frame@)[t],
        decreases n - i,
    {
        proof {
            assert(3 * (frame@.len() / 3) <= frame@.len());
            assert(3 * (i as int) + 2 < frame@.len());
        }
        let a: u8 = frame[3 * i];
        let b: u8 = frame[3 * i + 1];
        let c: u8 = frame[3 * i + 2];
        out.push((a, b, c));
        i = i + 1;
    }
    proof {
        assert(out@ =~= pixels_of_bytes(frame@));
    }
    out
}

/// Writes pixel triples back to a flat byte buffer.
pub fn pixels_to_bytes(p: &Vec<(u8, u8, u8)>) -> (r: Vec<u8>)
    requires
        p@.len() * 3 <= usize::MAX,
    ensures
        r@ == bytes_of_pixels(p@),
{
    let mut out: Vec<u8> = Vec::new();
    let mut i: usize = 0;
    while i < p.len()
        invariant
            p@.len() * 3 <= usize::MAX,
            0 <= i <= p@.len(),
            out@.len() == 3 * i,
            forall|t: int| 0 <= t < 3 * i ==> out@[t] == bytes_of_pixels(p@)[t],
        decreases p@.len() - i,
    {
        let px: (u8, u8, u8) = p[i];
        out.push(px.0);
        out.push(px.1);
        out.push(px.2);
        proof {
            assert((3 * i as int) % 3 == 0 && (3 * i as int) / 3 == i as int);
            assert((3 * i as int + 1) % 3 == 1 && (3 * i as int + 1) / 3 == i as int);
            assert((3 * i as int + 2) % 3 == 2 && (3 * i as int + 2) / 3 == i as int);
        }
        i = i + 1;
    }
    proof {
        assert(out@ =~= bytes_of_pixels(p@));
    }
    out
}

fn extract_row(p: &Vec<(u8, u8, u8)>, width: usize, r: usize) -> (out: Vec<(u8, u8, u8)>)
    requires
        (r as int + 1) * (width as int) <= p@.len(),
    ensures
        out@ == row_of(p@, width as int, r as int),
{
    let plen: usize = p.len();
    proof {
        lemma_mul_inequality(r as int, r as int + 1, width as int);
        assert((r as int) * (width as int) + width as int == (r as int + 1) * (width as int))
            by (nonlinear_arith);
        assert((r as int) * (width as int) >= 0) by (nonlinear_arith)
            requires
                0 <= (r as int),
                0 <= (width as int),
        ;
        assert((r as int) * (width as int) <= plen as int);
    }
    let base: usize = r * width;
    let mut out: Vec<(u8, u8, u8)> = Vec::new();
    let mut x: usize = 0;
    while x < width
        invariant
            p@.len() <= usize::MAX,
            base == (r as int) * (width as int),
            base + width <= p@.len(),
            0 <= x <= width,
            out@.len() == x,
            forall|t: int| 0 <= t < x ==> out@[t] == p@[base + t],
        decreases width - x,
    {
        let px: (u8, u8, u8) = p[base + x];
        out.push(px);
        x = x + 1;
    }
    proof {
        assert(out@ =~= row_of(p@, width as int, r as int));
    }
    out
}

fn write_row(p: Vec<(u8, u8, u8)>, width: usize, r: usize, line: Vec<(u8, u8, u8)>) -> (out: Vec<
    (u8, u8, u8),
>)
    requires
        line@.len() == width,
        (r as int + 1) * (width as int) <= p@.len(),
    ensures
        out@.len() == p@.len(),
        forall|t: int|
            0 <= t < p@.len() && !((r as int) * (width as int) <= t < (r as int) * (width as int)
                + width) ==> out@[t] == p@[t],
        forall|x: int|
            0 <= x < width ==> #[trigger] out@[(r as int) * (width as int) + x] == line@[x],
{
    let plen: usize = p.len();
    proof {
        lemma_mul_inequality(r as int, r as int + 1, width as int);
        assert((r as int) * (width as int) + width as int == (r as int + 1) * (width as int))
            by (nonlinear_arith);
        assert((r as int) * (width as int) >= 0) by (nonlinear_arith)
            requires
                0 <= (r as int),
                0 <= (width as int),
        ;
        assert((r as int) * (width as int) <= plen as int);
    }
    let base: usize = r * width;
    let mut out = p;
    let ghost orig = out@;
    let mut x: usize = 0;
    while x < width
        invariant
            orig.len() <= usize::MAX,
            base == (r as int) * (width as int),
            base + width <= orig.len(),
            line@.len() == width,
            0 <= x <= width,
            out@.len() == orig.len(),
            forall|t: int| 0 <= t < orig.len() && !(base <= t < base + x) ==> out@[t] == orig[t],
            forall|t: int| 0 <= t < x ==> #[trigger] out@[base + t] == line@[t],
        decreases width - x,
    {
        let px: (u8, u8, u8) = line[x];
        out[base + x] = px;
        x = x + 1;
    }
    out
}

fn extract_col(p: &Vec<(u8, u8, u8)>, width: usize, height: usize, c: usize) -> (out: Vec<
    (u8, u8, u8),
>)
    requires
        c < width,
        (width as int) * (height as int) <= p@.len(),
    ensures
        out@ == col_of(p@, width as int, height as int, c as int),
{
    let plen: usize = p.len();
    let mut out: Vec<(u8, u8, u8)> = Vec::new();
    let mut y: usize = 0;
    while y < height
        invariant
            plen == p@.len(),
            c < width,
            (width as int) * (height as int) <= p@.len(),
            0 <= y <= height,
            out@.len() == y,
            forall|t: int| 0 <= t < y ==> out@[t] == p@[t * (width as int) + c],
        decreases height - y,
    {
        proof {
            assert((y as int) * (width as int) + c < (width as int) * (height as int))
                by (nonlinear_arith)
                requires
                    0 <= (y as int) && (y as int) < (height as int),
                    0 <= (c as int) && (c as int) < (width as int),
            ;
            assert((y as int) * (width as int) >= 0) by (nonlinear_arith)
                requires
                    0 <= (y as int),
                    0 <= (width as int),
            ;
        }
        let px: (u8, u8, u8) = p[y * width + c];
        out.push(px);
        proof {
            assert(out@[y as int] == p@[(y as int) * (width as int) + c]);
        }
        y = y + 1;
    }
    proof {
        assert(out@ =~= col_of(p@, width as int, height as int, c as int));
    }
    out
}

fn write_col(
    p: Vec<(u8, u8, u8)>,
    width: usize,
    height: usize,
    c: usize,
    line: Vec<(u8, u8, u8)>,
) -> (out: Vec<(u8, u8, u8)>)
    requires
        c < width,
        line@.len() == height,
        p@.len() == (width as int) * (height as int),
    ensures
        out@.len() == p@.len(),
        forall|y: int| 0 <= y < height ==> #[trigger] out@[y * (width as int) + c] == line@[y],
        forall|y: int, x: int|
            0 <= y < height && 0 <= x < width && x != c ==> #[trigger] out@[y * (width as int)
                + x] == p@[y * (width as int) + x],
{
    let plen: usize = p.len();
    let mut out = p;
    let ghost orig = out@;
    let ghost w = width as int;
    let mut y: usize = 0;
    while y < height
        invariant
            orig.len() <= usize::MAX,
            c < width,
            w == width as int,
            line@.len() == height,
            orig.len() == w * (height as int),
            out@.len() == orig.len(),
            0 <= y <= height,
            forall|t: int| 0 <= t < orig.len() && !(t % w == c && t / w < y) ==> out@[t] == orig[t],
            forall|t: int| 0 <= t < y ==> #[trigger] out@[t * w + c] == line@[t],
        decreases height - y,
    {
        proof {
            assert((y as int) * w + c < orig.len()) by (nonlinear_arith)
                requires
                    0 <= (y as int) && (y as int) < (height as int),
                    0 <= (c as int) && (c as int) < w,
                    orig.len() == w * (height as int),
            ;
            assert((y as int) * w >= 0) by (nonlinear_arith)
                requires
                    0 <= (y as int),
                    0 <= w,
            ;
            lemma_fundamental_div_mod_converse((y as int) * w + c, w, y as int, c as int);
        }
        let px: (u8, u8, u8) = line[y];
        out[y * width + c] = px;
        proof {
            assert forall|t: int|
                0 <= t < orig.len() && !(t % w == c && t / w < y + 1) implies out@[t] == orig[t]
            by {
                assert(t != (y as int) * w + c);
            }
            assert forall|t: int| 0 <= t < y + 1 implies #[trigger] out@[t * w + c] == line@[t] by {
                if t < y {
                    assert(t * w + c < orig.len()) by (nonlinear_arith)
                        requires
                            0 <= t && t < (y as int),
                            (y as int) * w + c < orig.len(),
                            0 <= (c as int) && (c as int) < w,
                    ;
                    assert(t * w + c >= 0) by (nonlinear_arith)
                        requires
                            0 <= t,
                            0 <= w,
                            0 <= (c as int),
                    ;
                    lemma_fundamental_div_mod_converse(t * w + c, w, t, c as int);
                    assert(t * w + c != (y as int) * w + c);
                }
            }
        }
        y = y + 1;
    }
    proof {
        assert forall|yy: int, x: int|
            0 <= yy < height && 0 <= x < width && x != c implies #[trigger] out@[yy * w + x]
            == orig[yy * w + x] by {
            assert(yy * w + x < orig.len()) by (nonlinear_arith)
                requires
                    0 <= yy && yy < (height as int),
                    0 <= x && x < w,
                    orig.len() == w * (height as int),
            ;
            assert(yy * w + x >= 0) by (nonlinear_arith)
                requires
                    0 <= yy,
                    0 <= w,
                    0 <= x,
            ;
            lemma_fundamental_div_mod_converse(yy * w + x, w, yy, x);
        }
    }
    out
}

/// The luminance-gated segment-sort transform of a whole frame.
///
/// The frame is `width * height * 3` bytes of row-major pixel triples.
/// Under the horizontal orientation every row, and under the vertical one
/// every column, comes out as the segment-sort transform of that scan
/// line under the `(black, white)` threshold band.
pub fn sort_pixels_by_luminance(
    frame: Vec<u8>,
    width: usize,
    height: usize,
    threshold: (u8, u8),
    horizontal: bool,
) -> (r: Vec<u8>)
    requires
        frame@.len() == (width as int) * (height as int) * 3,
    ensures
        r@.len() == frame@.len(),
        horizontal ==> forall|row: int|
            0 <= row < height ==> #[trigger] row_of(pixels_of_bytes(r@), width as int, row)
                == transform_line(
                row_of(pixels_of_bytes(frame@), width as int, row),
                threshold.0,
                threshold.1,
            ),
        !horizontal ==> forall|c: int|
            0 <= c < width ==> #[trigger] col_of(
                pixels_of_bytes(r@),
                width as int,
                height as int,
                c,
            ) == transform_line(
                col_of(pixels_of_bytes(frame@), width as int, height as int, c),
                threshold.0,
                threshold.1,
            ),
{
    let black: u8 = threshold.0;
    let white: u8 = threshold.1;
    let frame_len: usize = frame.len();
    let ghost w = width as int;
    let ghost h = height as int;
    let mut pix = bytes_to_pixels(&frame);
    let ghost orig_pix = pixels_of_bytes(frame@);
    proof {
        assert(frame@.len() / 3 == w * h) by {
            assert(frame@.len() == (w * h) * 3) by (nonlinear_arith)
                requires
                    frame@.len() == w * h * 3,
            ;
        }
        assert(pix@.len() == w * h);
    }
    if horizontal {
        let mut r: usize = 0;
        while r < height
            invariant
                w == width as int,
                h == height as int,
                pix@.len() == w * h,
                w * h * 3 <= usize::MAX,
                orig_pix == pixels_of_bytes(frame@),
                orig_pix.len() == w * h,
                black == threshold.0,
                white == threshold.1,
                0 <= r <= height,
                forall|rr: int|
                    0 <= rr < r ==> #[trigger] row_of(pix@, w, rr) == transform_line(
                        row_of(orig_pix, w, rr),
                        black,
                        white,
                    ),
                forall|rr: int|
                    r <= rr < height ==> #[trigger] row_of(pix@, w, rr) == row_of(orig_pix, w, rr),
            decreases height - r,
        {
            proof {
                lemma_mul_inequality(r as int + 1, h, w);
                assert(h * w == w * h) by (nonlinear_arith);
                assert(w * h <= w * h * 3) by (nonlinear_arith)
                    requires
                        0 <= w * h,
                ;
            }
            let line = extract_row(&pix, width, r);
            let ghost old_pix = pix@;
            proof {
                assert(row_of(pix@, w, r as int) == row_of(orig_pix, w, r as int));
                lemma_transform_line_len(line@, black, white);
            }
            let tline = transform_line_exec(line, black, white);
            pix = write_row(pix, width, r, tline);
            proof {
                assert forall|rr: int| 0 <= rr < r + 1 implies #[trigger] row_of(pix@, w, rr)
                    == transform_line(row_of(orig_pix, w, rr), black, white) by {
                    if rr < r {
                        assert forall|x: int| 0 <= x < w implies row_of(pix@, w, rr)[x] == row_of(
                            old_pix,
                            w,
                            rr,
                        )[x] by {
                            assert(rr * w + x < (rr + 1) * w) by (nonlinear_arith)
                                requires
                                    0 <= x && x < w,
                            ;
                            lemma_mul_inequality(rr + 1, r as int, w);
                            lemma_mul_inequality(r as int, h, w);
                            assert(rr * w + x >= 0) by (nonlinear_arith)
                                requires
                                    0 <= rr,
                                    0 <= w,
                                    0 <= x,
                            ;
                            assert(rr * w + x < old_pix.len());
                            assert(rr * w + x < (r as int) * w);
                            assert(pix@[rr * w + x] == old_pix[rr * w + x]);
                        }
                        assert(row_of(pix@, w, rr) =~= row_of(old_pix, w, rr));
                    } else {
                        assert forall|x: int| 0 <= x < w implies row_of(pix@, w, rr)[x]
                            == transform_line(row_of(orig_pix, w, rr), black, white)[x] by {
                            assert(pix@[(r as int) * w + x] == transform_line(
                                row_of(orig_pix, w, r as int),
                                black,
                                white,
                            )[x]);
                        }
                        assert(row_of(pix@, w, rr) =~= transform_line(
                            row_of(orig_pix, w, rr),
                            black,
                            white,
                        ));
                    }
                }
                assert forall|rr: int| r + 1 <= rr < height implies #[trigger] row_of(pix@, w, rr)
                    == row_of(orig_pix, w, rr) by {
                    assert forall|x: int| 0 <= x < w implies row_of(pix@, w, rr)[x] == row_of(
                        old_pix,
                        w,
                        rr,
                    )[x] by {
                        lemma_mul_inequality(r as int + 1, rr, w);
                        assert((r as int) * w + w == (r as int + 1) * w) by (nonlinear_arith);
                        assert(rr * w <= rr * w + x) by (nonlinear_arith)
                            requires
                                0 <= x,
                        ;
                        assert(rr * w + x < w * h) by (nonlinear_arith)
                            requires
                                0 <= x && x < w,
                                0 <= rr && rr < h,
                        ;
                        assert(rr * w + x >= 0) by (nonlinear_arith)
                            requires
                                0 <= rr,
                                0 <= w,
                                0 <= x,
                        ;
                        assert(pix@[rr * w + x] == old_pix[rr * w + x]);
                    }
                    assert(row_of(pix@, w, rr) =~= row_of(old_pix, w, rr));
                }
            }
            r = r + 1;
        }
    } else {
        let mut c: usize = 0;
        while c < width
            invariant
                w == width as int,
                h == height as int,
                pix@.len() == w * h,
                w * h * 3 <= usize::MAX,
                orig_pix == pixels_of_bytes(frame@),
                orig_pix.len() == w * h,
                black == threshold.0,
                white == threshold.1,
                0 <= c <= width,
                forall|cc: int|
                    0 <= cc < c ==> #[trigger] col_of(pix@, w, h, cc) == transform_line(
                        col_of(orig_pix, w, h, cc),
                        black,
                        white,
                    ),
                forall|cc: int|
                    c <= cc < width ==> #[trigger] col_of(pix@, w, h, cc) == col_of(
                        orig_pix,
                        w,
                        h,
                        cc,
                    ),
            decreases width - c,
        {
            proof {
                assert(w * h <= w * h * 3) by (nonlinear_arith)
                    requires
                        0 <= w * h,
                ;
            }
            let line = extract_col(&pix, width, height, c);
            let ghost old_pix = pix@;
            proof {
                assert(col_of(pix@, w, h, c as int) == col_of(orig_pix, w, h, c as int));
                lemma_transform_line_len(line@, black, white);
            }
            let tline = transform_line_exec(line, black, white);
            pix = write_col(pix, width, height, c, tline);
            proof {
                assert forall|cc: int| 0 <= cc < c + 1 implies #[trigger] col_of(pix@, w, h, cc)
                    == transform_line(col_of(orig_pix, w, h, cc), black, white) by {
                    if cc < c {
                        assert forall|y: int| 0 <= y < h implies col_of(pix@, w, h, cc)[y]
                            == col_of(old_pix, w, h, cc)[y] by {
                            assert(pix@[y * w + cc] == old_pix[y * w + cc]);
                        }
                        assert(col_of(pix@, w, h, cc) =~= col_of(old_pix, w, h, cc));
                    } else {
                        assert forall|y: int| 0 <= y < h implies col_of(pix@, w, h, cc)[y]
                            == transform_line(col_of(orig_pix, w, h, cc), black, white)[y] by {
                            assert(pix@[y * w + (c as int)] == transform_line(
                                col_of(orig_pix, w, h, c as int),
                                black,
                                white,
                            )[y]);
                        }
                        assert(col_of(pix@, w, h, cc) =~= transform_line(
                            col_of(orig_pix, w, h, cc),
                            black,
                            white,
                        ));
                    }
                }
                assert forall|cc: int| c + 1 <= cc < width implies #[trigger] col_of(
                    pix@,
                    w,
                    h,
                    cc,
                ) == col_of(orig_pix, w, h, cc) by {
                    assert forall|y: int| 0 <= y < h implies col_of(pix@, w, h, cc)[y] == col_of(
                        old_pix,
                        w,
                        h,
                        cc,
                    )[y] by {
                        assert(pix@[y * w + cc] == old_pix[y * w + cc]);
                    }
                    assert(col_of(pix@, w, h, cc) =~= col_of(old_pix, w, h, cc));
                }
            }
            c = c + 1;
        }
    }
    proof {
        assert(pix@.len() * 3 == frame@.len()) by (nonlinear_arith)
            requires
                pix@.len() == w * h,
                frame@.len() == w * h * 3,
        ;
        assert(frame@.len() == frame_len);
    }
    let out = pixels_to_bytes(&pix);
    proof {
        lemma_pixels_of_bytes_of_pixels(pix@);
    }
    out
}

/// Reads a frame column-major into one vector of pixel triples per image
/// column, each running top to bottom.
pub fn convert_to_2d_tuples(input: Vec<u8>, width: usize, height: usize) -> (r: Vec<
    Vec<(u8, u8, u8)>,
>)
    requires
        (width as int) * (height as int) * 3 <= input@.len(),
    ensures
        r@.len() == width,
        forall|x: int|
            0 <= x < width ==> (#[trigger] r@[x])@ == col_of(
                pixels_of_bytes(input@),
                width as int,
                height as int,
                x,
            ),
{
    let input_len: usize = input.len();
    let ghost w = width as int;
    let ghost h = height as int;
    let ghost pix = pixels_of_bytes(input@);
    proof {
        assert(w * h <= input@.len() / 3) by {
            assert((w * h) * 3 <= input@.len()) by (nonlinear_arith)
                requires
                    w * h * 3 <= input@.len(),
            ;
            assert(3 * (input@.len() / 3) + 2 >= input@.len());
        }
    }
    let mut r: Vec<Vec<(u8, u8, u8)>> = Vec::new();
    let mut x: usize = 0;
    while x < width
        invariant
            input_len == input@.len(),
            w == width as int,
            h == height as int,
            w * h <= input@.len() / 3,
            (width as int) * (height as int) * 3 <= input@.len(),
            pix == pixels_of_bytes(input@),
            0 <= x <= width,
            r@.len() == x,
            forall|t: int| 0 <= t < x ==> (#[trigger] r@[t])@ == col_of(pix, w, h, t),
        decreases width - x,
    {
        let mut col: Vec<(u8, u8, u8)> = Vec::new();
        let mut y: usize = 0;
        while y < height
            invariant
                input_len == input@.len(),
                w == width as int,
                h == height as int,
                w * h <= input@.len() / 3,
                (width as int) * (height as int) * 3 <= input@.len(),
                pix == pixels_of_bytes(input@),
                0 <= x < width,
                0 <= y <= height,
                col@.len() == y,
                forall|t: int| 0 <= t < y ==> col@[t] == pix[t * w + (x as int)],
            decreases height - y,
        {
            proof {
                assert((y as int) * w + x < w * h) by (nonlinear_arith)
                    requires
                        0 <= (y as int) && (y as int) < h,
                        0 <= (x as int) && (x as int) < w,
                ;
                assert((y as int) * w >= 0) by (nonlinear_arith)
                    requires
                        0 <= (y as int),
                        0 <= w,
                ;
                assert(3 * ((y as int) * w + x) + 2 < input@.len()) by (nonlinear_arith)
                    requires
                        0 <= (y as int) * w + x,
                        (y as int) * w + x < w * h,
                        (w * h) * 3 <= input@.len(),
                ;
                assert((y as int) * w + x < input@.len() / 3);
                assert(pix[(y as int) * w + x] == (
                    input@[3 * ((y as int) * w + x)],
                    input@[3 * ((y as int) * w + x) + 1],
                    input@[3 * ((y as int) * w + x) + 2],
                ));
            }
            let idx: usize = (y * width + x) * 3;
            let a: u8 = input[idx];
            let b: u8 = input[idx + 1];
            let cch: u8 = input[idx + 2];
            col.push((a, b, cch));
            y = y + 1;
        }
        proof {
            assert(col@ =~= col_of(pix, w, h, x as int));
        }
        r.push(col);
        x = x + 1;
    }
    r
}

} // verus!
