//! Binary PPM (P6, maxval 255) images: writing one, and reading the header
//! (magic, width, height, maxval, each after white space and `#` comments,
//! then one white-space byte) and the pixels back.
use vstd::prelude::*;
use crate::image::Rgb8Img;

verus! {

/// `u8::is_ascii_whitespace`: space, tab, line feed, form feed, carriage return.
pub open spec fn ascii_ws(b: u8) -> bool {
    b == 0x20 || b == 0x09 || b == 0x0a || b == 0x0c || b == 0x0d
}

/// An ASCII decimal digit.
pub open spec fn ascii_digit(b: u8) -> bool {
    0x30 <= b <= 0x39
}

/// First index at or after `p` that is not white space, or the length.
pub open spec fn ws_end(d: Seq<u8>, p: int) -> int
    decreases d.len() - p,
{
    if p >= d.len() {
        d.len() as int
    } else if ascii_ws(d[p]) {
        ws_end(d, p + 1)
    } else {
        p
    }
}

/// First index at or after `p` holding a line feed, or the length.
pub open spec fn line_end(d: Seq<u8>, p: int) -> int
    decreases d.len() - p,
{
    if p >= d.len() {
        d.len() as int
    } else if d[p] == 0x0a {
        p
    } else {
        line_end(d, p + 1)
    }
}

/// Where scanning stops lies between its start and the end.
pub proof fn lemma_scan_bounds(d: Seq<u8>, p: int)
    requires
        0 <= p <= d.len(),
    ensures
        p <= ws_end(d, p) <= d.len(),
        p <= line_end(d, p) <= d.len(),
        p <= digits_end(d, p) <= d.len(),
    decreases d.len() - p,
{
    if p < d.len() {
        lemma_scan_bounds(d, p + 1);
    }
}

/// Past any `#` comment lines (each with the white space after it) from `p`,
/// which is past white space; the length when a comment never ends.
pub open spec fn skip_comments(d: Seq<u8>, p: int) -> int
    decreases d.len() - p,
{
    if 0 <= p < d.len() && d[p] == 0x23 {
        proof {
            lemma_scan_bounds(d, p);
        }
        let e = line_end(d, p);
        if e >= d.len() {
            d.len() as int
        } else {
            proof {
                lemma_scan_bounds(d, e + 1);
            }
            skip_comments(d, ws_end(d, e + 1))
        }
    } else {
        p
    }
}

/// First index at or after `p` that is not a digit, or the length.
pub open spec fn digits_end(d: Seq<u8>, p: int) -> int
    decreases d.len() - p,
{
    if p >= d.len() {
        d.len() as int
    } else if ascii_digit(d[p]) {
        digits_end(d, p + 1)
    } else {
        p
    }
}

/// The decimal value of the digits `d[p..e]`.
pub open spec fn number(d: Seq<u8>, p: int, e: int) -> int
    decreases e - p,
{
    if e <= p {
        0
    } else {
        number(d, p, e - 1) * 10 + (d[e - 1] - 0x30)
    }
}

/// Why a PPM was refused.
#[derive(Clone, Copy, PartialEq, Eq, Debug, Structural)]
pub enum PpmError {
    /// The data does not start with `P6`.
    NotP6,
    /// The data ends inside the header or the pixels.
    Truncated,
    /// A header number or the pixel byte count does not fit a `usize`.
    Overflow,
    /// The maximum sample value is not 255.
    MaxVal(usize),
}

/// One header number read from `p`: its value and where its digits end.
pub open spec fn header_field(d: Seq<u8>, p: int) -> Result<(int, int), PpmError> {
    let s = skip_comments(d, ws_end(d, p));
    if s >= d.len() {
        Err(PpmError::Truncated)
    } else {
        let e = digits_end(d, s);
        if e >= d.len() {
            Err(PpmError::Truncated)
        } else if number(d, s, e) > usize::MAX {
            Err(PpmError::Overflow)
        } else {
            Ok((number(d, s, e), e))
        }
    }
}

/// What a P6 file holds: width, height and the `3*w*h` pixel bytes after
/// the single white-space byte that ends the header.
pub open spec fn ppm_spec(d: Seq<u8>) -> Result<(int, int, Seq<u8>), PpmError> {
    if d.len() < 2 {
        Err(PpmError::Truncated)
    } else if d[0] != 0x50 || d[1] != 0x36 {
        Err(PpmError::NotP6)
    } else {
        match header_field(d, 2) {
            Err(e) => Err(e),
            Ok((w, e1)) => match header_field(d, e1) {
                Err(e) => Err(e),
                Ok((h, e2)) => match header_field(d, e2) {
                    Err(e) => Err(e),
                    Ok((maxv, e3)) => if maxv != 255 {
                        Err(PpmError::MaxVal(maxv as usize))
                    } else if 3 * w * h > usize::MAX {
                        Err(PpmError::Overflow)
                    } else if e3 + 1 + 3 * w * h > d.len() {
                        Err(PpmError::Truncated)
                    } else {
                        Ok((w, h, d.subrange(e3 + 1, e3 + 1 + 3 * w * h)))
                    },
                },
            },
        }
    }
}

/// Whether `b` is ASCII white space.
fn is_ascii_ws(b: u8) -> (r: bool)
    ensures
        r == ascii_ws(b),
{
    b == 0x20 || b == 0x09 || b == 0x0a || b == 0x0c || b == 0x0d
}

/// Reads one header number from `p`.
fn read_header_field(d: &[u8], p: usize) -> (r: Result<(usize, usize), PpmError>)
    requires
        p <= d@.len(),
    ensures
        match header_field(d@, p as int) {
            Err(e) => r == Err::<(usize, usize), PpmError>(e),
            Ok((v, e)) => r matches Ok((v2, e2)) && v2 == v && e2 == e,
        },
{
    let n = d.len();
    let mut pos = p;
    while pos < n && is_ascii_ws(d[pos])
        invariant
            n == d@.len(),
            p <= pos <= n,
            ws_end(d@, p as int) == ws_end(d@, pos as int),
        decreases n - pos,
    {
        pos = pos + 1;
    }
    // comment lines, each followed by white space
    while pos < n && d[pos] == 0x23
        invariant
            n == d@.len(),
            pos <= n,
            skip_comments(d@, ws_end(d@, p as int)) == skip_comments(d@, pos as int),
        decreases n - pos,
    {
        let ghost start = pos;
        while pos < n && d[pos] != 0x0a
            invariant
                n == d@.len(),
                start <= pos <= n,
                line_end(d@, start as int) == line_end(d@, pos as int),
            decreases n - pos,
        {
            pos = pos + 1;
        }
        if pos >= n {
            return Err(PpmError::Truncated);
        }
        pos = pos + 1;
        let ghost wstart = pos;
        while pos < n && is_ascii_ws(d[pos])
            invariant
                n == d@.len(),
                wstart <= pos <= n,
                ws_end(d@, wstart as int) == ws_end(d@, pos as int),
            decreases n - pos,
        {
            pos = pos + 1;
        }
    }
    if pos >= n {
        return Err(PpmError::Truncated);
    }
    let s = pos;
    let mut v: usize = 0;
    let mut overflow = false;
    while pos < n && 0x30 <= d[pos] && d[pos] <= 0x39
        invariant
            n == d@.len(),
            s <= pos <= n,
            digits_end(d@, s as int) == digits_end(d@, pos as int),
            overflow <==> number(d@, s as int, pos as int) > usize::MAX,
            !overflow ==> v == number(d@, s as int, pos as int),
            number(d@, s as int, pos as int) >= 0,
        decreases n - pos,
    {
        let dig = (d[pos] - 0x30) as usize;
        proof {
            assert(number(d@, s as int, pos + 1) == number(d@, s as int, pos as int) * 10 + dig);
        }
        if !overflow {
            match v.checked_mul(10) {
                None => {
                    overflow = true;
                },
                Some(t) => match t.checked_add(dig) {
                    None => {
                        overflow = true;
                    },
                    Some(u) => {
                        v = u;
                    },
                },
            }
        }
        pos = pos + 1;
    }
    if pos >= n {
        return Err(PpmError::Truncated);
    }
    if overflow {
        return Err(PpmError::Overflow);
    }
    Ok((v, pos))
}

/// Reads a binary PPM (P6, maxval 255) into an RGB8 image.
pub fn parse_ppm(d: &[u8]) -> (r: Result<Rgb8Img, PpmError>)
    ensures
        match ppm_spec(d@) {
            Err(e) => r == Err::<Rgb8Img, PpmError>(e),
            Ok((w, h, px)) => r matches Ok(img) && img.w == w && img.h == h && img.px@ == px,
        },
        r matches Ok(img) ==> img.wf(),
{
    if d.len() < 2 {
        return Err(PpmError::Truncated);
    }
    if d[0] != 0x50 || d[1] != 0x36 {
        return Err(PpmError::NotP6);
    }
    let (w, e1) = match read_header_field(d, 2) {
        Err(e) => return Err(e),
        Ok(x) => x,
    };
    proof {
        lemma_field_end_in_range(d@, 2);
    }
    let (h, e2) = match read_header_field(d, e1) {
        Err(e) => return Err(e),
        Ok(x) => x,
    };
    proof {
        lemma_field_end_in_range(d@, e1 as int);
    }
    let (maxv, e3) = match read_header_field(d, e2) {
        Err(e) => return Err(e),
        Ok(x) => x,
    };
    proof {
        lemma_field_end_in_range(d@, e2 as int);
    }
    if maxv != 255 {
        return Err(PpmError::MaxVal(maxv));
    }
    let size = match w.checked_mul(h) {
        None => {
            proof {
                assert(3 * w * h >= w * h) by (nonlinear_arith)
                    requires
                        w * h >= 0,
                ;
            }
            return Err(PpmError::Overflow);
        },
        Some(wh) => match wh.checked_mul(3) {
            None => {
                assert(3 * w * h == wh * 3) by (nonlinear_arith)
                    requires
                        wh == w * h,
                ;
                return Err(PpmError::Overflow);
            },
            Some(sz) => sz,
        },
    };
    proof {
        assert(size == 3 * w * h) by (nonlinear_arith)
            requires
                size == w * h * 3,
        ;
    }
    let start = e3 + 1;
    if size > d.len() - start {
        return Err(PpmError::Truncated);
    }
    let mut px: Vec<u8> = Vec::new();
    let mut i: usize = 0;
    while i < size
        invariant
            start + size <= d.len(),
            i <= size,
            px@ == d@.subrange(start as int, start + i),
        decreases size - i,
    {
        px.push(d[start + i]);
        assert(px@ =~= d@.subrange(start as int, start + i + 1));
        i = i + 1;
    }
    proof {
        assert(px@.len() == 3 * w * h);
    }
    Ok(Rgb8Img { px, w, h })
}

/// A header field, when read, ends inside the data.
proof fn lemma_field_end_in_range(d: Seq<u8>, p: int)
    requires
        0 <= p <= d.len(),
    ensures
        header_field(d, p) matches Ok((_, e)) ==> p <= e < d.len(),
{
    lemma_scan_bounds(d, p);
    lemma_skip_comments_bounds(d, ws_end(d, p));
    let s = skip_comments(d, ws_end(d, p));
    if s < d.len() {
        lemma_scan_bounds(d, s);
    }
}

/// Skipping comments never moves backwards nor past the end.
proof fn lemma_skip_comments_bounds(d: Seq<u8>, p: int)
    requires
        0 <= p <= d.len(),
    ensures
        p <= skip_comments(d, p) <= d.len(),
    decreases d.len() - p,
{
    if 0 <= p < d.len() && d[p] == 0x23 {
        lemma_scan_bounds(d, p);
        let e = line_end(d, p);
        if e < d.len() {
            lemma_scan_bounds(d, e + 1);
            lemma_skip_comments_bounds(d, ws_end(d, e + 1));
        }
    }
}

/// Decimal rendering of `n` as ASCII bytes.
pub open spec fn dec_bytes(n: nat) -> Seq<u8>
    decreases n,
{
    if n < 10 {
        seq![(0x30 + n) as u8]
    } else {
        dec_bytes(n / 10) + seq![(0x30 + n % 10) as u8]
    }
}

/// The P6 header of a `w x h` image with maxval 255: `P6\n{w} {h}\n255\n`.
pub open spec fn ppm_header(w: nat, h: nat) -> Seq<u8> {
    seq![0x50u8, 0x36u8, 0x0au8] + dec_bytes(w) + seq![0x20u8] + dec_bytes(h) + seq![
        0x0au8,
        0x32u8,
        0x35u8,
        0x35u8,
        0x0au8,
    ]
}

/// Appends the decimal rendering of `n`.
fn push_dec(out: &mut Vec<u8>, n: usize)
    ensures
        final(out)@ == old(out)@ + dec_bytes(n as nat),
    decreases n,
{
    if n >= 10 {
        push_dec(out, n / 10);
    }
    out.push((0x30 + n % 10) as u8);
    assert(out@ =~= old(out)@ + dec_bytes(n as nat));
}

/// The bytes of `img` as a binary PPM: the P6 header, then the pixels.
pub fn encode_ppm(img: &Rgb8Img) -> (r: Vec<u8>)
    ensures
        r@ == ppm_header(img.w as nat, img.h as nat) + img.px@,
{
    let mut out: Vec<u8> = Vec::new();
    out.push(0x50);
    out.push(0x36);
    out.push(0x0a);
    push_dec(&mut out, img.w);
    out.push(0x20);
    push_dec(&mut out, img.h);
    out.push(0x0a);
    out.push(0x32);
    out.push(0x35);
    out.push(0x35);
    out.push(0x0a);
    let ghost head = out@;
    assert(head =~= ppm_header(img.w as nat, img.h as nat));
    let mut i: usize = 0;
    while i < img.px.len()
        invariant
            head == ppm_header(img.w as nat, img.h as nat),
            i <= img.px@.len(),
            out@ == head + img.px@.subrange(0, i as int),
        decreases img.px.len() - i,
    {
        out.push(img.px[i]);
        assert(out@ =~= head + img.px@.subrange(0, i as int + 1));
        i = i + 1;
    }
    assert(img.px@.subrange(0, img.px@.len() as int) =~= img.px@);
    out
}

/// Every byte of a decimal rendering is a digit, and there is at least one.
proof fn lemma_dec_digits(n: nat)
    ensures
        dec_bytes(n).len() >= 1,
        forall|j: int| 0 <= j < dec_bytes(n).len() ==> #[trigger] ascii_digit(dec_bytes(n)[j]),
    decreases n,
{
    if n >= 10 {
        lemma_dec_digits(n / 10);
    }
}

/// The value of digits depends only on those digits.
proof fn lemma_number_shift(s: Seq<u8>, p: int, t: Seq<u8>, q: int, k: int)
    requires
        0 <= k,
        0 <= p,
        p + k <= s.len(),
        0 <= q,
        q + k <= t.len(),
        s.subrange(p, p + k) == t.subrange(q, q + k),
    ensures
        number(s, p, p + k) == number(t, q, q + k),
    decreases k,
{
    if k > 0 {
        assert(s.subrange(p, p + k - 1) =~= s.subrange(p, p + k).subrange(0, k - 1));
        assert(t.subrange(q, q + k - 1) =~= t.subrange(q, q + k).subrange(0, k - 1));
        lemma_number_shift(s, p, t, q, k - 1);
        assert(s[p + k - 1] == s.subrange(p, p + k)[k - 1]);
        assert(t[q + k - 1] == t.subrange(q, q + k)[k - 1]);
    }
}

/// Reading a decimal rendering back gives the number.
proof fn lemma_number_of_dec(n: nat)
    ensures
        number(dec_bytes(n), 0, dec_bytes(n).len() as int) == n,
    decreases n,
{
    if n >= 10 {
        let a = dec_bytes(n / 10);
        let d = dec_bytes(n);
        lemma_number_of_dec(n / 10);
        assert(d.subrange(0, a.len() as int) =~= a.subrange(0, a.len() as int));
        lemma_number_shift(d, 0, a, 0, a.len() as int);
        assert(d.len() == a.len() + 1);
        assert(d[a.len() as int] == (0x30 + n % 10) as u8);
        assert(number(d, 0, d.len() as int) == number(d, 0, a.len() as int) * 10 + (n % 10));
        assert((n / 10) * 10 + n % 10 == n);
    } else {
        let d = dec_bytes(n);
        assert(d[0] == (0x30 + n) as u8);
        assert(number(d, 0, 1) == number(d, 0, 0) * 10 + n);
    }
}

/// A run of digits followed by a non-digit (or the end) ends there.
proof fn lemma_digits_end_at(d: Seq<u8>, p: int, e: int)
    requires
        0 <= p <= e <= d.len(),
        forall|j: int| p <= j < e ==> ascii_digit(d[j]),
        e == d.len() || !ascii_digit(d[e]),
    ensures
        digits_end(d, p) == e,
    decreases e - p,
{
    if p < e {
        lemma_digits_end_at(d, p + 1, e);
    }
}

/// The number at `at` in `d`, when `d` there holds `dec_bytes(n)` followed by
/// a non-digit, after one white-space byte at `at - 1`.
proof fn lemma_field_at(d: Seq<u8>, at: int, n: nat)
    requires
        1 <= at,
        at + dec_bytes(n).len() < d.len(),
        ascii_ws(d[at - 1]),
        d.subrange(at, at + dec_bytes(n).len()) == dec_bytes(n),
        !ascii_digit(d[at + dec_bytes(n).len()]),
        n <= usize::MAX,
    ensures
        header_field(d, at - 1) == Ok::<(int, int), PpmError>(
            (n as int, at + dec_bytes(n).len()),
        ),
{
    let k = dec_bytes(n).len() as int;
    lemma_dec_digits(n);
    assert(d[at] == d.subrange(at, at + k)[0]);
    assert(ascii_digit(dec_bytes(n)[0]));
    assert(!ascii_ws(d[at]));
    assert(ws_end(d, at) == at);
    assert(ws_end(d, at - 1) == at);
    assert(d[at] != 0x23);
    assert(skip_comments(d, at) == at);
    assert forall|j: int| at <= j < at + k implies ascii_digit(d[j]) by {
        assert(d[j] == d.subrange(at, at + k)[j - at]);
    }
    lemma_digits_end_at(d, at, at + k);
    assert(dec_bytes(n).subrange(0, k) =~= dec_bytes(n));
    lemma_number_shift(d, at, dec_bytes(n), 0, k);
    lemma_number_of_dec(n);
}

/// Writing an image as PPM and reading it back gives the same image.
pub proof fn lemma_ppm_round_trip(w: usize, h: usize, px: Seq<u8>)
    requires
        px.len() == 3 * w * h,
        px.len() <= usize::MAX,
    ensures
        ppm_spec(ppm_header(w as nat, h as nat) + px) == Ok::<(int, int, Seq<u8>), PpmError>(
            (w as int, h as int, px),
        ),
{
    let dw = dec_bytes(w as nat);
    let dh = dec_bytes(h as nat);
    let hd = ppm_header(w as nat, h as nat);
    let d = hd + px;
    lemma_dec_digits(w as nat);
    lemma_dec_digits(h as nat);
    let lw = dw.len() as int;
    let lh = dh.len() as int;
    assert(hd.len() == 3 + lw + 1 + lh + 5);
    // width at 3, ended by the space
    assert(d.subrange(3, 3 + lw) =~= dw);
    assert(d[3 + lw] == 0x20u8);
    lemma_field_at(d, 3, w as nat);
    let e1 = 3 + lw;
    // height after the space, ended by the line feed
    assert(d.subrange(e1 + 1, e1 + 1 + lh) =~= dh);
    assert(d[e1 + 1 + lh] == 0x0au8);
    lemma_field_at(d, e1 + 1, h as nat);
    let e2 = e1 + 1 + lh;
    // maxval 255, ended by the last line feed
    let d255 = dec_bytes(255);
    assert(d255 =~= seq![0x32u8, 0x35u8, 0x35u8]) by {
        assert(dec_bytes(25) =~= seq![0x32u8, 0x35u8]) by {
            assert(dec_bytes(2) =~= seq![0x32u8]);
        }
    }
    assert(d.subrange(e2 + 1, e2 + 4) =~= d255);
    assert(d[e2 + 4] == 0x0au8);
    lemma_field_at(d, e2 + 1, 255);
    let e3 = e2 + 4;
    assert(e3 + 1 == hd.len());
    assert(d.subrange(e3 + 1, e3 + 1 + 3 * w * h) =~= px);
}

} // verus!
