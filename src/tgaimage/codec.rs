//! The run-length encoding of a pixel stream, and its inverse.
use vstd::prelude::*;
use vstd::arithmetic::div_mod::{lemma_fundamental_div_mod, lemma_fundamental_div_mod_converse};
use super::{ImageModel, TGAImage, TGAError, TGAResult};

verus! {

/// The longest run, in pixels, that one marker byte can describe.
pub const MAX_CHUNK: usize = 128;

/// Pixel `i` of a buffer of `bpp`-byte pixels.
pub open spec fn px(d: Seq<u8>, bpp: int, i: int) -> Seq<u8> {
    d.subrange(i * bpp, i * bpp + bpp)
}

/// The length of the replicate run at pixel `p`, given that its first `k`
/// pixels are known to belong to it: it grows while the next pixel repeats the
/// previous one, up to `MAX_CHUNK` pixels or the end of the `n` pixels.
pub open spec fn rep_len(d: Seq<u8>, bpp: int, n: int, p: int, k: int) -> int
    decreases n - p - k,
{
    if k < 128 && p + k < n && px(d, bpp, p + k - 1) == px(d, bpp, p + k) {
        rep_len(d, bpp, n, p, k + 1)
    } else {
        k
    }
}

/// The length of the raw run at pixel `p`, given that its first `k` pixels
/// are known to belong to it: it grows until two equal neighbours are followed
/// by a third equal pixel, which then open the next run; and stops at
/// `MAX_CHUNK` pixels or at the end of the `n` pixels.
pub open spec fn raw_len(d: Seq<u8>, bpp: int, n: int, p: int, k: int) -> int
    decreases n - p - k,
{
    if k < 128 && p + k < n {
        if px(d, bpp, p + k - 1) == px(d, bpp, p + k) && p + k + 1 < n && px(d, bpp, p + k) == px(
            d,
            bpp,
            p + k + 1,
        ) {
            k - 1
        } else {
            raw_len(d, bpp, n, p, k + 1)
        }
    } else {
        k
    }
}

/// Whether the run at pixel `p` is a replicate run: its first two pixels are equal.
pub open spec fn is_rep_run(d: Seq<u8>, bpp: int, n: int, p: int) -> bool {
    p + 1 < n && px(d, bpp, p) == px(d, bpp, p + 1)
}

/// The number of pixels in the run that starts at pixel `p`.
pub open spec fn run_len(d: Seq<u8>, bpp: int, n: int, p: int) -> int {
    if is_rep_run(d, bpp, n, p) {
        rep_len(d, bpp, n, p, 1)
    } else {
        raw_len(d, bpp, n, p, 1)
    }
}

/// The encoded run at pixel `p`: a marker byte, then the run's pixels (raw
/// run, marker `len - 1`) or its one repeated pixel (replicate run, marker
/// `len - 1` with the top bit set).
pub open spec fn chunk(d: Seq<u8>, bpp: int, n: int, p: int) -> Seq<u8> {
    let len = run_len(d, bpp, n, p);
    if is_rep_run(d, bpp, n, p) {
        seq![(len - 1 + 128) as u8] + px(d, bpp, p)
    } else {
        seq![(len - 1) as u8] + d.subrange(p * bpp, (p + len) * bpp)
    }
}

/// The encoding of pixels `p..n` of `d`, run after run.
pub open spec fn rle_encode(d: Seq<u8>, bpp: int, n: int, p: int) -> Seq<u8>
    decreases n - p,
    via rle_encode_decreases
{
    if p < n {
        chunk(d, bpp, n, p) + rle_encode(d, bpp, n, p + run_len(d, bpp, n, p))
    } else {
        Seq::empty()
    }
}

#[via_fn]
proof fn rle_encode_decreases(d: Seq<u8>, bpp: int, n: int, p: int) {
    if p < n {
        lemma_run_len_bounds(d, bpp, n, p);
    }
}

proof fn lemma_rep_len_bounds(d: Seq<u8>, bpp: int, n: int, p: int, k: int)
    requires
        1 <= k <= 128,
        p + k <= n,
    ensures
        k <= rep_len(d, bpp, n, p, k) <= 128,
        p + rep_len(d, bpp, n, p, k) <= n,
    decreases n - p - k,
{
    if k < 128 && p + k < n && px(d, bpp, p + k - 1) == px(d, bpp, p + k) {
        lemma_rep_len_bounds(d, bpp, n, p, k + 1);
    }
}

proof fn lemma_raw_len_bounds(d: Seq<u8>, bpp: int, n: int, p: int, k: int)
    requires
        1 <= k <= 128,
        p + k <= n,
    ensures
        k - 1 <= raw_len(d, bpp, n, p, k) <= 128,
        p + raw_len(d, bpp, n, p, k) <= n,
    decreases n - p - k,
{
    if k < 128 && p + k < n {
        if !(px(d, bpp, p + k - 1) == px(d, bpp, p + k) && p + k + 1 < n && px(d, bpp, p + k)
            == px(d, bpp, p + k + 1)) {
            lemma_raw_len_bounds(d, bpp, n, p, k + 1);
        }
    }
}

/// A run holds between one and `MAX_CHUNK` pixels, and ends within the image.
pub proof fn lemma_run_len_bounds(d: Seq<u8>, bpp: int, n: int, p: int)
    requires
        p < n,
    ensures
        1 <= run_len(d, bpp, n, p) <= 128,
        p + run_len(d, bpp, n, p) <= n,
{
    if is_rep_run(d, bpp, n, p) {
        lemma_rep_len_bounds(d, bpp, n, p, 1);
    } else if p + 1 < n {
        lemma_raw_len_bounds(d, bpp, n, p, 2);
    }
}

/// Whether pixels `a` and `b` of `d` are equal.
fn pixels_equal(d: &Vec<u8>, a: usize, b: usize, bpp: usize) -> (r: bool)
    requires
        a + bpp <= d@.len(),
        b + bpp <= d@.len(),
    ensures
        r == (d@.subrange(a as int, a + bpp) == d@.subrange(b as int, b + bpp)),
{
    let len = d.len();
    let mut j: usize = 0;
    while j < bpp
        invariant
            j <= bpp,
            len == d@.len(),
            a + bpp <= d@.len(),
            b + bpp <= d@.len(),
            d@.subrange(a as int, a + j) == d@.subrange(b as int, b + j),
        decreases bpp - j,
    {
        if d[a + j] != d[b + j] {
            assert(d@.subrange(a as int, a + bpp)[j as int] != d@.subrange(b as int, b + bpp)[j as int]);
            return false;
        }
        assert(d@.subrange(a as int, a + j + 1) =~= d@.subrange(a as int, a + j).push(d@[a + j]));
        assert(d@.subrange(b as int, b + j + 1) =~= d@.subrange(b as int, b + j).push(d@[b + j]));
        j += 1;
    }
    true
}

/// Appends bytes `from..to` of `d` to `out`.
fn push_range(out: &mut Vec<u8>, d: &Vec<u8>, from: usize, to: usize)
    requires
        from <= to <= d@.len(),
    ensures
        final(out)@ == old(out)@ + d@.subrange(from as int, to as int),
{
    let mut i: usize = from;
    while i < to
        invariant
            from <= i <= to,
            to <= d@.len(),
            out@ == old(out)@ + d@.subrange(from as int, i as int),
        decreases to - i,
    {
        out.push(d[i]);
        assert(d@.subrange(from as int, i + 1) =~= d@.subrange(from as int, i as int).push(d@[i as int]));
        assert(out@ =~= old(out)@ + d@.subrange(from as int, i + 1));
        i += 1;
    }
}

/// The run-length encoding of the image's pixels in the order they are
/// stored, appended to `out`.
pub fn unload_rle_data(img: &TGAImage, out: &mut Vec<u8>)
    requires
        img.wf(),
    ensures
        final(out)@ == old(out)@ + rle_encode(
            img.data@,
            img.bytespp as int,
            img.width * img.height,
            0,
        ),
{
    let ghost d = img.data@;
    let ghost bi = img.bytespp as int;
    let ghost ni = img.width * img.height;
    proof {
        lemma_pixel_bytes(img@);
    }
    let num_pixels = (img.width as usize) * (img.height as usize);
    let bpp = img.bytespp as usize;
    let mut next: usize = 0;
    while next < num_pixels
        invariant
            d == img.data@,
            bi == bpp,
            ni == num_pixels,
            d.len() == num_pixels * bpp,
            d.len() <= i32::MAX,
            num_pixels <= i32::MAX,
            next <= num_pixels,
            out@ + rle_encode(d, bi, ni, next as int) == old(out)@ + rle_encode(d, bi, ni, 0),
        decreases num_pixels - next,
    {
        proof {
            lemma_run_len_bounds(d, bi, ni, next as int);
        }
        let mut run_rep = false;
        if next + 1 < num_pixels {
            proof {
                lemma_pixel_range(next as int, 2, ni, bi);
            }
            run_rep = pixels_equal(&img.data, next * bpp, (next + 1) * bpp, bpp);
        }
        let mut run_length: usize = 1;
        let mut done = false;
        while !done && next + run_length < num_pixels && run_length < MAX_CHUNK
            invariant
                d == img.data@,
                bi == bpp,
                ni == num_pixels,
                d.len() == num_pixels * bpp,
                d.len() <= i32::MAX,
                next < num_pixels,
                1 <= run_length <= 128,
                next + run_length <= num_pixels,
                run_rep == is_rep_run(d, bi, ni, next as int),
                done ==> run_length == run_len(d, bi, ni, next as int),
                !done ==> run_len(d, bi, ni, next as int) == if run_rep {
                    rep_len(d, bi, ni, next as int, run_length as int)
                } else {
                    raw_len(d, bi, ni, next as int, run_length as int)
                },
            decreases (if done {
                0
            } else {
                2 * (num_pixels - next - run_length) + 2
            }),
        {
            proof {
                lemma_pixel_range(next + run_length - 1, 2, ni, bi);
            }
            let i = (next + run_length - 1) * bpp;
            let next_pair_equal = pixels_equal(&img.data, i, i + bpp, bpp);
            if !run_rep && next_pair_equal {
                if next + run_length + 1 < num_pixels {
                    proof {
                        lemma_pixel_range(next + run_length, 2, ni, bi);
                    }
                    if pixels_equal(&img.data, i + bpp, i + 2 * bpp, bpp) {
                        run_length -= 1;
                        done = true;
                    }
                }
            }
            if run_rep && !next_pair_equal {
                done = true;
            }
            if !done {
                run_length += 1;
            }
        }
        proof {
            lemma_pixel_range(next as int, run_length as int, ni, bi);
        }
        let chunk_start = next * bpp;
        if run_rep {
            out.push((run_length - 1 + 128) as u8);
            push_range(out, &img.data, chunk_start, chunk_start + bpp);
        } else {
            out.push((run_length - 1) as u8);
            push_range(out, &img.data, chunk_start, chunk_start + run_length * bpp);
        }
        proof {
            let ghost p = next as int;
            assert(rle_encode(d, bi, ni, p) == chunk(d, bi, ni, p) + rle_encode(
                d,
                bi,
                ni,
                p + run_length,
            ));
            assert(out@ + rle_encode(d, bi, ni, p + run_length) =~= old(out)@ + rle_encode(d, bi, ni, 0));
        }
        next += run_length;
    }
}

/// A well-formed image holds `width * height` pixels of `bytespp` bytes.
proof fn lemma_pixel_bytes(m: ImageModel)
    requires
        m.wf(),
    ensures
        m.data.len() == (m.width * m.height) * m.bytespp,
        0 <= m.width * m.height,
{
    let w = m.width;
    let h = m.height;
    assert(0 <= w * h) by (nonlinear_arith)
        requires
            0 <= w,
            0 <= h,
    ;
}

/// Pixels `p..p + k` of an image of `n` pixels lie in its buffer.
proof fn lemma_pixel_range(p: int, k: int, n: int, bpp: int)
    requires
        0 <= p,
        0 <= k,
        p + k <= n,
        0 <= bpp,
    ensures
        0 <= p * bpp,
        (p + k) * bpp <= n * bpp,
        (p + k) * bpp == p * bpp + k * bpp,
        k <= 2 ==> (p + k) * bpp <= p * bpp + 2 * bpp,
        (p + 1) * bpp == p * bpp + bpp,
{
    assert(0 <= p * bpp && (p + k) * bpp <= n * bpp && (p + k) * bpp == p * bpp + k * bpp)
        by (nonlinear_arith)
        requires
            0 <= p,
            0 <= k,
            p + k <= n,
            0 <= bpp,
    ;
    assert(k <= 2 ==> k * bpp <= 2 * bpp) by (nonlinear_arith)
        requires
            0 <= bpp,
    ;
    assert((p + 1) * bpp == p * bpp + bpp) by (nonlinear_arith);
}

/// `k` copies of the pixel `q`.
pub open spec fn repeat_px(q: Seq<u8>, k: int) -> Seq<u8>
    decreases k,
{
    if k <= 0 {
        Seq::empty()
    } else {
        repeat_px(q, k - 1) + q
    }
}

/// The pixel bytes that the encoded stream `s` gives for `n` pixels of `bpp`
/// bytes, or `None` where the stream ends early or a run passes the last pixel.
/// Bytes after the last run are not read.
pub open spec fn rle_decode(s: Seq<u8>, bpp: int, n: int) -> Option<Seq<u8>>
    decreases n,
{
    if n <= 0 {
        Some(Seq::empty())
    } else if s.len() == 0 {
        None
    } else if s[0] < 128 {
        let cnt = s[0] + 1;
        if cnt > n || s.len() < 1 + cnt * bpp {
            None
        } else {
            match rle_decode(s.skip(1 + cnt * bpp), bpp, n - cnt) {
                Some(rest) => Some(s.subrange(1, 1 + cnt * bpp) + rest),
                None => None,
            }
        }
    } else {
        let cnt = s[0] - 127;
        if cnt > n || s.len() < 1 + bpp {
            None
        } else {
            match rle_decode(s.skip(1 + bpp), bpp, n - cnt) {
                Some(rest) => Some(repeat_px(s.subrange(1, 1 + bpp), cnt) + rest),
                None => None,
            }
        }
    }
}

/// Decoding gives `bpp` bytes for each of the `n` pixels.
pub proof fn lemma_rle_decode_len(s: Seq<u8>, bpp: int, n: int)
    requires
        0 <= bpp,
        0 <= n,
        rle_decode(s, bpp, n) is Some,
    ensures
        rle_decode(s, bpp, n)->Some_0.len() == n * bpp,
    decreases n,
{
    if n > 0 {
        if s[0] < 128 {
            let cnt = s[0] + 1;
            lemma_rle_decode_len(s.skip(1 + cnt * bpp), bpp, n - cnt);
            assert(cnt * bpp + (n - cnt) * bpp == n * bpp) by (nonlinear_arith);
        } else {
            let cnt = s[0] - 127;
            lemma_rle_decode_len(s.skip(1 + bpp), bpp, n - cnt);
            lemma_repeat_px_len(s.subrange(1, 1 + bpp), cnt);
            assert(cnt * bpp + (n - cnt) * bpp == n * bpp) by (nonlinear_arith);
        }
    } else {
        assert(n * bpp == 0) by (nonlinear_arith)
            requires
                n == 0,
        ;
    }
}

proof fn lemma_repeat_px_len(q: Seq<u8>, k: int)
    requires
        0 <= k,
    ensures
        repeat_px(q, k).len() == k * q.len(),
    decreases k,
{
    if k > 0 {
        lemma_repeat_px_len(q, k - 1);
        assert((k - 1) * q.len() + q.len() == k * q.len()) by (nonlinear_arith);
    } else {
        assert(k * q.len() == 0) by (nonlinear_arith)
            requires
                k == 0,
        ;
    }
}

/// Every pixel of a replicate run equals its first pixel.
proof fn lemma_rep_run_uniform(d: Seq<u8>, bpp: int, n: int, p: int, k: int)
    requires
        1 <= k,
        forall|i: int| 0 <= i < k ==> #[trigger] px(d, bpp, p + i) == px(d, bpp, p),
    ensures
        forall|i: int|
            0 <= i < rep_len(d, bpp, n, p, k) ==> #[trigger] px(d, bpp, p + i) == px(d, bpp, p),
    decreases n - p - k,
{
    if k < 128 && p + k < n && px(d, bpp, p + k - 1) == px(d, bpp, p + k) {
        assert(px(d, bpp, p + (k - 1)) == px(d, bpp, p));
        assert forall|i: int| 0 <= i < k + 1 implies #[trigger] px(d, bpp, p + i) == px(
            d,
            bpp,
            p,
        ) by {
            if i == k {
                assert(p + (k - 1) == p + k - 1);
            }
        }
        lemma_rep_run_uniform(d, bpp, n, p, k + 1);
    }
}

/// `k` copies of a pixel that pixels `p..p + k` all equal are those pixels' bytes.
#[verifier::rlimit(40)]
proof fn lemma_repeat_px_matches(d: Seq<u8>, bpp: int, p: int, k: int)
    requires
        0 <= p,
        0 <= k,
        1 <= bpp,
        (p + k) * bpp <= d.len(),
        forall|i: int| 0 <= i < k ==> #[trigger] px(d, bpp, p + i) == px(d, bpp, p),
    ensures
        repeat_px(px(d, bpp, p), k) == d.subrange(p * bpp, (p + k) * bpp),
    decreases k,
{
    if k > 0 {
        assert(p * bpp <= (p + k - 1) * bpp && (p + k - 1) * bpp + bpp == (p + k) * bpp)
            by (nonlinear_arith)
            requires
                0 <= p,
                1 <= k,
                1 <= bpp,
        ;
        lemma_repeat_px_matches(d, bpp, p, k - 1);
        assert(px(d, bpp, p + (k - 1)) == px(d, bpp, p));
        assert(d.subrange(p * bpp, (p + k) * bpp) =~= d.subrange(p * bpp, (p + k - 1) * bpp)
            + px(d, bpp, p + k - 1));
    }
}

proof fn lemma_rle_round_trip_from(d: Seq<u8>, bpp: int, n: int, p: int, t: Seq<u8>)
    requires
        0 <= p <= n,
        1 <= bpp,
        d.len() == n * bpp,
    ensures
        rle_decode(rle_encode(d, bpp, n, p) + t, bpp, n - p) == Some(
            d.subrange(p * bpp, n * bpp),
        ),
    decreases n - p,
{
    if p == n {
        assert(d.subrange(p * bpp, n * bpp) =~= Seq::<u8>::empty());
    } else {
        lemma_run_len_bounds(d, bpp, n, p);
        let len = run_len(d, bpp, n, p);
        let q = p + len;
        lemma_rle_round_trip_from(d, bpp, n, q, t);
        lemma_pixel_range(p, len, n, bpp);
        assert(bpp <= len * bpp) by (nonlinear_arith)
            requires
                1 <= len,
                1 <= bpp,
        ;
        assert(q * bpp <= n * bpp) by (nonlinear_arith)
            requires
                q <= n,
                1 <= bpp,
        ;
        let s = rle_encode(d, bpp, n, p) + t;
        let tail = rle_encode(d, bpp, n, q) + t;
        let c = chunk(d, bpp, n, p);
        assert(s =~= c + tail);
        if is_rep_run(d, bpp, n, p) {
            assert(c.len() == 1 + bpp);
            assert(s[0] == len + 127);
            assert(s.subrange(1, 1 + bpp) =~= px(d, bpp, p));
            assert(s.skip(1 + bpp) =~= tail);
            assert forall|i: int| 0 <= i < 1 implies #[trigger] px(d, bpp, p + i) == px(
                d,
                bpp,
                p,
            ) by {
                assert(p + i == p);
            }
            lemma_rep_run_uniform(d, bpp, n, p, 1);
            lemma_repeat_px_matches(d, bpp, p, len);
        } else {
            assert(c.len() == 1 + len * bpp);
            assert(s[0] == len - 1);
            assert(s.subrange(1, 1 + len * bpp) =~= d.subrange(p * bpp, q * bpp));
            assert(s.skip(1 + len * bpp) =~= tail);
        }
        assert(d.subrange(p * bpp, n * bpp) =~= d.subrange(p * bpp, q * bpp) + d.subrange(
            q * bpp,
            n * bpp,
        ));
    }
}

/// Decoding the encoding of `n` pixels of `bpp` bytes gives the pixels back,
/// whatever bytes follow the encoded stream.
pub proof fn lemma_rle_round_trip(d: Seq<u8>, bpp: int, n: int, t: Seq<u8>)
    requires
        0 <= n,
        1 <= bpp,
        d.len() == n * bpp,
    ensures
        rle_decode(rle_encode(d, bpp, n, 0) + t, bpp, n) == Some(d),
{
    lemma_rle_round_trip_from(d, bpp, n, 0, t);
    assert(d.subrange(0, n * bpp) =~= d);
}

/// Fills the image's pixels from the encoded stream `src`. Fails, leaving the
/// image as it was, where the stream does not hold all its pixels.
pub fn load_rle_data(src: &[u8], img: &mut TGAImage) -> (r: TGAResult<()>)
    requires
        old(img).wf(),
    ensures
        final(img).wf(),
        ({
            let decoded = rle_decode(
                src@,
                old(img).bytespp as int,
                old(img).width * old(img).height,
            );
            &&& decoded is Some ==> r is Ok && final(img)@ == (ImageModel {
                data: decoded->Some_0,
                ..old(img)@
            })
            &&& decoded is None ==> r == Err::<(), TGAError>(TGAError::CorruptData) && final(img)@
                == old(img)@
        }),
{
    let ghost bi = img.bytespp as int;
    let ghost ni = img.width * img.height;
    proof {
        lemma_pixel_bytes(img@);
    }
    let num_pixels = (img.width as usize) * (img.height as usize);
    let bpp = img.bytespp as usize;
    let src_len = src.len();
    let mut out: Vec<u8> = Vec::new();
    let mut pos: usize = 0;
    let mut produced: usize = 0;
    proof {
        assert(src@.skip(0) =~= src@);
        match rle_decode(src@, bi, ni) {
            Some(all) => {
                assert(out@ + all =~= all);
            },
            None => {},
        }
    }
    while produced < num_pixels
        invariant
            img@ == old(img)@,
            img.wf(),
            bi == old(img).bytespp as int,
            ni == old(img).width * old(img).height,
            bi == bpp,
            ni == num_pixels,
            0 <= bi <= 4,
            num_pixels * bpp <= i32::MAX,
            num_pixels <= i32::MAX,
            src_len == src@.len(),
            pos <= src_len,
            produced <= num_pixels,
            out@.len() == produced * bpp,
            rle_decode(src@, bi, ni) == match rle_decode(
                src@.skip(pos as int),
                bi,
                ni - produced,
            ) {
                Some(rest) => Some(out@ + rest),
                None => None,
            },
        decreases num_pixels - produced,
    {
        let ghost s = src@.skip(pos as int);
        let ghost rem = ni - produced;
        if pos >= src_len {
            proof {
                assert(rle_decode(s, bi, rem) is None);
                assert(rle_decode(src@, bi, ni) is None);
            }
            return Err(TGAError::CorruptData);
        }
        let marker = src[pos];
        let left = num_pixels - produced;
        let avail = src_len - pos - 1;
        if marker < 128 {
            let cnt = marker as usize + 1;
            if cnt > left {
                proof {
                    assert(rle_decode(s, bi, rem) is None);
                    assert(rle_decode(src@, bi, ni) is None);
                }
                return Err(TGAError::CorruptData);
            }
            proof {
                lemma_pixel_range(produced as int, cnt as int, ni, bi);
            }
            if avail < cnt * bpp {
                proof {
                    assert(rle_decode(s, bi, rem) is None);
                    assert(rle_decode(src@, bi, ni) is None);
                }
                return Err(TGAError::CorruptData);
            }
            let from = pos + 1;
            let to = pos + 1 + cnt * bpp;
            let ghost before = out@;
            let mut i: usize = from;
            while i < to
                invariant
                    from <= i <= to,
                    to <= src@.len(),
                    out@ == before + src@.subrange(from as int, i as int),
                decreases to - i,
            {
                out.push(src[i]);
                assert(src@.subrange(from as int, i + 1) =~= src@.subrange(from as int, i as int).push(
                    src@[i as int],
                ));
                i += 1;
            }
            proof {
                assert(s.subrange(1, 1 + cnt * bi) =~= src@.subrange(from as int, to as int));
                assert(s.skip(1 + cnt * bi) =~= src@.skip(to as int));
                assert(before + src@.subrange(from as int, to as int) + rle_decode(
                    src@.skip(to as int),
                    bi,
                    rem - cnt,
                )->Some_0 =~= before + (src@.subrange(from as int, to as int) + rle_decode(
                    src@.skip(to as int),
                    bi,
                    rem - cnt,
                )->Some_0));
            }
            pos = to;
            produced = produced + cnt;
        } else {
            let cnt = marker as usize - 127;
            if cnt > left {
                proof {
                    assert(rle_decode(s, bi, rem) is None);
                    assert(rle_decode(src@, bi, ni) is None);
                }
                return Err(TGAError::CorruptData);
            }
            if avail < bpp {
                proof {
                    assert(rle_decode(s, bi, rem) is None);
                    assert(rle_decode(src@, bi, ni) is None);
                }
                return Err(TGAError::CorruptData);
            }
            proof {
                lemma_pixel_range(produced as int, cnt as int, ni, bi);
            }
            let from = pos + 1;
            let to = pos + 1 + bpp;
            let ghost q = src@.subrange(from as int, to as int);
            let ghost before = out@;
            let mut c: usize = 0;
            while c < cnt
                invariant
                    c <= cnt,
                    from + bpp == to,
                    to <= src@.len(),
                    q == src@.subrange(from as int, to as int),
                    out@ == before + repeat_px(q, c as int),
                decreases cnt - c,
            {
                let ghost mid = out@;
                let mut i: usize = from;
                while i < to
                    invariant
                        from <= i <= to,
                        to <= src@.len(),
                        out@ == mid + src@.subrange(from as int, i as int),
                    decreases to - i,
                {
                    out.push(src[i]);
                    assert(src@.subrange(from as int, i + 1) =~= src@.subrange(
                        from as int,
                        i as int,
                    ).push(src@[i as int]));
                    i += 1;
                }
                assert(out@ =~= before + repeat_px(q, c + 1));
                c += 1;
            }
            proof {
                lemma_repeat_px_len(q, cnt as int);
                assert(s.subrange(1, 1 + bi) =~= q);
                assert(s.skip(1 + bi) =~= src@.skip(to as int));
                assert(before + repeat_px(q, cnt as int) + rle_decode(
                    src@.skip(to as int),
                    bi,
                    rem - cnt,
                )->Some_0 =~= before + (repeat_px(q, cnt as int) + rle_decode(
                    src@.skip(to as int),
                    bi,
                    rem - cnt,
                )->Some_0));
            }
            pos = to;
            produced = produced + cnt;
        }
    }
    proof {
        assert(rle_decode(src@.skip(pos as int), bi, ni - produced) == Some(Seq::<u8>::empty()));
        assert(out@ + Seq::<u8>::empty() =~= out@);
        lemma_rle_decode_len(src@, bi, ni);
    }
    img.data = out;
    Ok(())
}

/// Length of the file header.
pub const HEADER_LEN: usize = 18;

/// The two bytes of the low 16 bits of `v`, least significant first.
pub open spec fn le16(v: int) -> Seq<u8> {
    seq![(v % 256) as u8, (v / 256 % 256) as u8]
}

/// The data type code: run-length encoded grayscale for one byte per pixel,
/// run-length encoded true color otherwise.
pub open spec fn data_type_code(bpp: int) -> u8 {
    if bpp == 1 {
        11u8
    } else {
        10u8
    }
}

/// The 18-byte header: no identifier, no color map, the data type code, a
/// zero origin, width and height as 16-bit little-endian integers, bits per
/// pixel, and the descriptor `0x20` (rows stored from the top).
pub open spec fn header_bytes(width: int, height: int, bpp: int) -> Seq<u8> {
    seq![0u8, 0u8, data_type_code(bpp), 0u8, 0u8, 0u8, 0u8, 0u8, 0u8, 0u8, 0u8, 0u8] + le16(width)
        + le16(height) + seq![(bpp * 8) as u8, 0x20u8]
}

/// The 26-byte footer: eight zero bytes, `TRUEVISION-XFILE.` and a zero byte.
pub open spec fn footer_bytes() -> Seq<u8> {
    seq![
        0u8, 0u8, 0u8, 0u8, 0u8, 0u8, 0u8, 0u8,
        84u8, 82u8, 85u8, 69u8, 86u8, 73u8, 83u8, 73u8, 79u8, 78u8, 45u8,
        88u8, 70u8, 73u8, 76u8, 69u8, 46u8,
        0u8,
    ]
}

/// The file image of `m`: header, encoded pixels, footer.
pub open spec fn tga_bytes(m: ImageModel) -> Seq<u8> {
    header_bytes(m.width, m.height, m.bytespp) + rle_encode(
        m.data,
        m.bytespp,
        m.width * m.height,
        0,
    ) + footer_bytes()
}

/// The unsigned 16-bit little-endian integer at `s[i..i + 2]`.
pub open spec fn u16_at(s: Seq<u8>, i: int) -> int {
    s[i] + 256 * s[i + 1]
}

/// Bytes per pixel that a bits-per-pixel header field gives, or zero for an
/// unsupported depth.
pub open spec fn bpp_of_bits(bits: u8) -> int {
    if bits == 8 {
        1
    } else if bits == 24 {
        3
    } else if bits == 32 {
        4
    } else {
        0
    }
}

/// Whether `s` starts with a header this codec reads: a run-length encoded
/// type, a supported depth, width and height that are not negative as signed
/// 16-bit integers, and a pixel buffer whose size fits an `i32`.
pub open spec fn header_ok(s: Seq<u8>) -> bool {
    &&& s.len() >= 18
    &&& (s[2] == 10 || s[2] == 11)
    &&& bpp_of_bits(s[16]) != 0
    &&& s[13] < 128
    &&& s[15] < 128
    &&& u16_at(s, 12) * u16_at(s, 14) * bpp_of_bits(s[16]) <= i32::MAX
}

/// The image that the file bytes `s` hold, if any.
pub open spec fn parse_tga(s: Seq<u8>) -> Option<ImageModel> {
    if !header_ok(s) {
        None
    } else {
        let w = u16_at(s, 12);
        let h = u16_at(s, 14);
        let b = bpp_of_bits(s[16]);
        match rle_decode(s.skip(18), b, w * h) {
            Some(d) => Some(ImageModel { width: w, height: h, bytespp: b, data: d }),
            None => None,
        }
    }
}

/// The byte that holds the signed 8-bit value `v`.
pub open spec fn byte_of(v: int) -> u8 {
    (v % 256) as u8
}

/// The signed 8-bit value that byte `b` holds.
pub open spec fn i8_of(b: u8) -> int {
    if b >= 128 {
        b - 256
    } else {
        b as int
    }
}

/// The signed 16-bit value that the little-endian bytes `lo`, `hi` hold.
pub open spec fn i16_of(lo: u8, hi: u8) -> int {
    if hi >= 128 {
        lo + 256 * hi - 65536
    } else {
        lo + 256 * hi
    }
}

/// The fields of the file header.
#[derive(Debug)]
struct TGAHeader {
    id_length: i8,
    color_map_type: i8,
    data_type_code: i8,
    color_map_origin: i16,
    color_map_length: i16,
    color_map_depth: i8,
    x_origin: i16,
    y_origin: i16,
    width: i16,
    height: i16,
    bits_per_pixel: i8,
    image_descriptor: i8,
}

/// The byte that holds `v`.
fn i8_byte(v: i8) -> (r: u8)
    ensures
        r == byte_of(v as int),
{
    if v >= 0 {
        v as u8
    } else {
        (v as i16 + 256) as u8
    }
}

/// Appends the little-endian bytes of `v`.
fn push_i16(out: &mut Vec<u8>, v: i16)
    ensures
        final(out)@ == old(out)@ + le16(v as int),
{
    let u: i32 = if v >= 0 { v as i32 } else { v as i32 + 65536 };
    out.push((u % 256) as u8);
    out.push((u / 256) as u8);
    assert(out@ =~= old(out)@ + le16(v as int));
}

/// Values that differ by a multiple of `2^16` have the same two low bytes.
proof fn lemma_le16_periodic(a: int, k: int)
    ensures
        le16(a - 65536 * k) == le16(a),
{
    lemma_fundamental_div_mod(a, 256);
    let q1 = a / 256;
    let r1 = a % 256;
    lemma_fundamental_div_mod(q1, 256);
    let q2 = q1 / 256;
    let r2 = q1 % 256;
    lemma_fundamental_div_mod_converse(a - 65536 * k, 256, q1 - 256 * k, r1);
    lemma_fundamental_div_mod_converse(q1 - 256 * k, 256, q2 - k, r2);
}

/// The low 16 bits of `v`, read as a signed 16-bit integer.
fn wrap_i16(v: i32) -> (r: i16)
    requires
        0 <= v,
    ensures
        le16(r as int) == le16(v as int),
{
    let low = v % 65536;
    proof {
        lemma_fundamental_div_mod(v as int, 65536);
        lemma_le16_periodic(v as int, v as int / 65536);
        lemma_le16_periodic(v as int, v as int / 65536 + 1);
    }
    if low >= 32768 {
        (low - 65536) as i16
    } else {
        low as i16
    }
}

impl TGAHeader {
    spec fn bytes(&self) -> Seq<u8> {
        seq![
            byte_of(self.id_length as int),
            byte_of(self.color_map_type as int),
            byte_of(self.data_type_code as int),
        ] + le16(self.color_map_origin as int) + le16(self.color_map_length as int) + seq![
            byte_of(self.color_map_depth as int),
        ] + le16(self.x_origin as int) + le16(self.y_origin as int) + le16(self.width as int)
            + le16(self.height as int) + seq![
            byte_of(self.bits_per_pixel as int),
            byte_of(self.image_descriptor as int),
        ]
    }

    /// The header of a run-length encoded file of `img`.
    fn from_image(img: &TGAImage) -> (h: TGAHeader)
        requires
            img.wf(),
        ensures
            h.bytes() == header_bytes(img.width as int, img.height as int, img.bytespp as int),
    {
        let h = TGAHeader {
            id_length: 0,
            color_map_type: 0,
            data_type_code: if img.bytespp == 1 { 11 } else { 10 },
            color_map_origin: 0,
            color_map_length: 0,
            color_map_depth: 0,
            x_origin: 0,
            y_origin: 0,
            width: wrap_i16(img.width),
            height: wrap_i16(img.height),
            bits_per_pixel: (img.bytespp * 8) as i8,
            image_descriptor: 0x20,
        };
        assert(h.bytes() =~= header_bytes(img.width as int, img.height as int, img.bytespp as int));
        h
    }

    /// Reads the fields from exactly `HEADER_LEN` bytes.
    fn from_bytes(buf: &[u8]) -> (h: TGAHeader)
        requires
            buf@.len() == HEADER_LEN,
        ensures
            h.bytes() == buf@,
            h.data_type_code == i8_of(buf@[2]),
            h.width == i16_of(buf@[12], buf@[13]),
            h.height == i16_of(buf@[14], buf@[15]),
            h.bits_per_pixel == i8_of(buf@[16]),
    {
        let h = TGAHeader {
            id_length: byte_to_i8(buf[0]),
            color_map_type: byte_to_i8(buf[1]),
            data_type_code: byte_to_i8(buf[2]),
            color_map_origin: bytes_to_i16(buf[3], buf[4]),
            color_map_length: bytes_to_i16(buf[5], buf[6]),
            color_map_depth: byte_to_i8(buf[7]),
            x_origin: bytes_to_i16(buf[8], buf[9]),
            y_origin: bytes_to_i16(buf[10], buf[11]),
            width: bytes_to_i16(buf[12], buf[13]),
            height: bytes_to_i16(buf[14], buf[15]),
            bits_per_pixel: byte_to_i8(buf[16]),
            image_descriptor: byte_to_i8(buf[17]),
        };
        assert(h.bytes() =~= buf@);
        h
    }

    /// Appends the header's bytes to `out`.
    fn write(&self, out: &mut Vec<u8>)
        ensures
            final(out)@ == old(out)@ + self.bytes(),
    {
        out.push(i8_byte(self.id_length));
        out.push(i8_byte(self.color_map_type));
        out.push(i8_byte(self.data_type_code));
        push_i16(out, self.color_map_origin);
        push_i16(out, self.color_map_length);
        out.push(i8_byte(self.color_map_depth));
        push_i16(out, self.x_origin);
        push_i16(out, self.y_origin);
        push_i16(out, self.width);
        push_i16(out, self.height);
        out.push(i8_byte(self.bits_per_pixel));
        out.push(i8_byte(self.image_descriptor));
        assert(final(out)@ =~= old(out)@ + self.bytes());
    }

    /// Reads the header at the start of `source`.
    fn read(source: &[u8]) -> (r: TGAResult<TGAHeader>)
        ensures
            source@.len() < HEADER_LEN ==> r == Err::<TGAHeader, TGAError>(TGAError::CorruptData),
            source@.len() >= HEADER_LEN ==> r is Ok && r->Ok_0.bytes() == source@.take(18)
                && r->Ok_0.data_type_code == i8_of(source@[2]) && r->Ok_0.width == i16_of(
                source@[12],
                source@[13],
            ) && r->Ok_0.height == i16_of(source@[14], source@[15])
                && r->Ok_0.bits_per_pixel == i8_of(source@[16]),
    {
        if source.len() < HEADER_LEN {
            return Err(TGAError::CorruptData);
        }
        let buf = vstd::slice::slice_subrange(source, 0, HEADER_LEN);
        assert(buf@ =~= source@.take(18));
        Ok(TGAHeader::from_bytes(buf))
    }
}

fn byte_to_i8(b: u8) -> (r: i8)
    ensures
        r == i8_of(b),
        byte_of(r as int) == b,
{
    if b >= 128 {
        (b as i16 - 256) as i8
    } else {
        b as i8
    }
}

fn bytes_to_i16(lo: u8, hi: u8) -> (r: i16)
    ensures
        r == i16_of(lo, hi),
        le16(r as int) == seq![lo, hi],
{
    let u: i32 = lo as i32 + 256 * hi as i32;
    let r = if u >= 32768 {
        (u - 65536) as i16
    } else {
        u as i16
    };
    assert(le16(r as int) =~= seq![lo, hi]);
    r
}

impl TGAImage {
    /// The file image: header, run-length encoded pixels in stored order,
    /// footer.
    pub fn to_tga_bytes(&self) -> (r: Vec<u8>)
        requires
            self.wf(),
        ensures
            r@ == tga_bytes(self@),
    {
        let mut out: Vec<u8> = Vec::new();
        let header = TGAHeader::from_image(self);
        header.write(&mut out);
        assert(out@ =~= header_bytes(self.width as int, self.height as int, self.bytespp as int));
        unload_rle_data(self, &mut out);
        let ghost with_pixels = out@;
        let footer: [u8; 26] = [
            0, 0, 0, 0, 0, 0, 0, 0,
            84, 82, 85, 69, 86, 73, 83, 73, 79, 78, 45, 88, 70, 73, 76, 69, 46,
            0,
        ];
        assert(footer@ =~= footer_bytes());
        let mut j: usize = 0;
        while j < 26
            invariant
                j <= 26,
                footer@ == footer_bytes(),
                out@ == with_pixels + footer_bytes().subrange(0, j as int),
            decreases 26 - j,
        {
            out.push(footer[j]);
            assert(footer_bytes().subrange(0, j + 1) =~= footer_bytes().subrange(0, j as int).push(
                footer_bytes()[j as int],
            ));
            j += 1;
        }
        assert(footer_bytes().subrange(0, 26) =~= footer_bytes());
        out
    }

    /// Reads an image from its file bytes: the header, then the run-length
    /// encoded pixels; the footer is not read.
    pub fn from_tga_bytes(bytes: &[u8]) -> (r: TGAResult<TGAImage>)
        ensures
            parse_tga(bytes@) is Some ==> r is Ok && r->Ok_0.wf() && r->Ok_0@ == parse_tga(
                bytes@,
            )->Some_0,
            parse_tga(bytes@) is None ==> r == Err::<TGAImage, TGAError>(TGAError::CorruptData),
    {
        let header = TGAHeader::read(bytes)?;
        let code = header.data_type_code;
        let bits = header.bits_per_pixel;
        if code != 10 && code != 11 {
            return Err(TGAError::CorruptData);
        }
        let bpp: i32 = if bits == 8 {
            1
        } else if bits == 24 {
            3
        } else if bits == 32 {
            4
        } else {
            0
        };
        if bpp == 0 || header.width < 0 || header.height < 0 {
            return Err(TGAError::CorruptData);
        }
        let w = header.width as i32;
        let h = header.height as i32;
        assert(w == u16_at(bytes@, 12) && h == u16_at(bytes@, 14));
        assert(0 <= w * h <= 0x4000_0000) by (nonlinear_arith)
            requires
                0 <= w < 0x8000,
                0 <= h < 0x8000,
        ;
        assert(w * h * bpp <= 0x1_0000_0000) by (nonlinear_arith)
            requires
                0 <= w * h <= 0x4000_0000,
                1 <= bpp <= 4,
        ;
        if (w as i64) * (h as i64) * (bpp as i64) > 0x7fff_ffff {
            return Err(TGAError::CorruptData);
        }
        let mut image = TGAImage::with_size(w, h, bpp);
        let rest = vstd::slice::slice_subrange(bytes, HEADER_LEN, bytes.len());
        assert(rest@ =~= bytes@.skip(18));
        match load_rle_data(rest, &mut image) {
            Ok(()) => Ok(image),
            Err(e) => Err(e),
        }
    }
}

/// Reading the file image of a well-formed image gives that image back,
/// for the depths the format names and sizes that its 16-bit header
/// fields hold.
pub proof fn lemma_tga_round_trip(m: ImageModel)
    requires
        m.wf(),
        m.bytespp == 1 || m.bytespp == 3 || m.bytespp == 4,
        m.width < 0x8000,
        m.height < 0x8000,
    ensures
        parse_tga(tga_bytes(m)) == Some(m),
{
    let s = tga_bytes(m);
    let enc = rle_encode(m.data, m.bytespp, m.width * m.height, 0);
    assert(s[12] == m.width % 256 && s[13] == m.width / 256 % 256);
    assert(s[14] == m.height % 256 && s[15] == m.height / 256 % 256);
    assert(u16_at(s, 12) == m.width);
    assert(u16_at(s, 14) == m.height);
    assert(bpp_of_bits(s[16]) == m.bytespp);
    assert(header_ok(s));
    assert(s.skip(18) =~= enc + footer_bytes());
    lemma_pixel_bytes(m);
    lemma_rle_round_trip(m.data, m.bytespp, m.width * m.height, footer_bytes());
}

} // verus!
